//! Rows of a line diff, and which of them a viewer shows.
use vstd::prelude::*;
use std::collections::HashSet;
use crate::json_syntax::{json_tokens, line_tokens, token_views, JsonToken};
use crate::json_doc::{ignored_key_list, json_side_outcome, prepare_json, string_from_utf8};
use crate::text::{chars_of, string_from_chars};
use vstd::utf8::{decode_utf8, valid_utf8};

verus! {

/// Lines of unchanged context kept next to a change when the rest of an
/// unchanged run is folded away.
pub const CONTEXT_LINES: usize = 3;

/// Which side of a diff a cell belongs to, or neither.
#[derive(Debug, Clone, Copy, PartialEq, Eq, Structural)]
pub enum DiffKind {
    Added,
    Removed,
    Unchanged,
}

/// One side of one row of a diff: its marker, its text without the line
/// break, and, when JSON is highlighted, the tokens of the text.
#[derive(Debug, Clone)]
pub struct DiffCell {
    pub marker: &'static str,
    pub line: String,
    pub kind: DiffKind,
    pub tokens: Vec<(String, JsonToken)>,
}

/// A row of a side-by-side diff.
#[derive(Debug, Clone)]
pub struct DiffRow {
    pub left: DiffCell,
    pub right: DiffCell,
    pub changed: bool,
}

/// The rows of a prepared diff.
#[derive(Debug, Clone)]
pub struct PreparedDiff {
    pub rows: Vec<DiffRow>,
}

/// A plain-value picture of a cell.
pub open spec fn cell_view(c: DiffCell) -> (Seq<char>, Seq<char>, DiffKind, Seq<(Seq<char>, JsonToken)>) {
    (c.marker@, c.line@, c.kind, token_views(c.tokens@))
}

/// The tokens a cell holds for a line.
pub open spec fn cell_tokens(line: Seq<char>, highlight_json: bool) -> Seq<(Seq<char>, JsonToken)> {
    if highlight_json && line.len() > 0 {
        line_tokens(line)
    } else {
        seq![]
    }
}

/// Builds a cell, tokenizing its line when JSON is highlighted.
pub fn diff_cell_data(marker: &'static str, line: &str, kind: DiffKind, highlight_json: bool) -> (cell: DiffCell)
    ensures
        cell.marker == marker,
        cell.line@ == line@,
        cell.kind == kind,
        token_views(cell.tokens@) == cell_tokens(line@, highlight_json),
{
    let tokens = if highlight_json && !line.is_empty() {
        json_tokens(line)
    } else {
        let t: Vec<(String, JsonToken)> = Vec::new();
        assert(token_views(t@) =~= Seq::<(Seq<char>, JsonToken)>::empty());
        t
    };
    DiffCell { marker, line: line.to_owned(), kind, tokens }
}

/// The cell of a row that a unified diff shows: the removed side, else
/// the added side, else the left side.
pub open spec fn unified_choice(row: DiffRow) -> DiffCell {
    if row.left.kind == DiffKind::Removed {
        row.left
    } else if row.right.kind == DiffKind::Added {
        row.right
    } else {
        row.left
    }
}

/// The cell of a row that a unified diff shows.
pub fn unified_cell(row: &DiffRow) -> (cell: &DiffCell)
    ensures
        *cell == unified_choice(*row),
{
    if row.left.kind == DiffKind::Removed {
        &row.left
    } else if row.right.kind == DiffKind::Added {
        &row.right
    } else {
        &row.left
    }
}

/// An entry of the rows a viewer shows: one row, or a folded run of
/// `count` unchanged rows from `start`.
#[derive(Debug, Clone, Copy, PartialEq, Eq, Structural)]
pub enum VisibleRow {
    Line(usize),
    Collapsed { start: usize, count: usize },
}

/// The first index at or after `i` whose row is changed, or the length.
pub open spec fn run_end(changed: Seq<bool>, i: int) -> int
    decreases changed.len() - i,
{
    if i < 0 || i >= changed.len() {
        changed.len() as int
    } else if changed[i] {
        i
    } else {
        run_end(changed, i + 1)
    }
}

pub proof fn lemma_run_end(changed: Seq<bool>, i: int)
    requires
        0 <= i <= changed.len(),
    ensures
        i <= run_end(changed, i) <= changed.len(),
        forall|k: int| i <= k < run_end(changed, i) ==> !#[trigger] changed[k],
        run_end(changed, i) < changed.len() ==> changed[run_end(changed, i)],
    decreases changed.len() - i,
{
    if i < changed.len() && !changed[i] {
        lemma_run_end(changed, i + 1);
    }
}

/// One entry per row from `a` up to `b`.
pub open spec fn line_entries(a: int, b: int) -> Seq<VisibleRow> {
    Seq::new((b - a) as nat, |k: int| VisibleRow::Line((a + k) as usize))
}

pub open spec fn min_int(a: int, b: int) -> int {
    if a <= b { a } else { b }
}

/// The entries shown for the unchanged run `start..end`: all its rows when
/// it is expanded or too short to fold; otherwise up to three rows of
/// context on each side that touches a change (none before the first
/// change, none after the last), with the rest folded.
pub open spec fn run_entries(len: int, start: int, end: int, expanded: Set<usize>) -> Seq<VisibleRow> {
    let n = end - start;
    let leading = if start == 0 && end < len { 0 } else { min_int(3, n) };
    let trailing = if end == len && start > 0 { 0 } else { min_int(3, n - leading) };
    if expanded.contains(start as usize) || n <= leading + trailing + 1 {
        line_entries(start, end)
    } else {
        line_entries(start, start + leading) + seq![
            VisibleRow::Collapsed { start: start as usize, count: (n - leading - trailing) as usize },
        ] + line_entries(end - trailing, end)
    }
}

/// The entries shown for the rows from `i` on.
pub open spec fn visible_from(changed: Seq<bool>, expanded: Set<usize>, i: int) -> Seq<VisibleRow>
    decreases changed.len() - i,
{
    if i < 0 || i >= changed.len() {
        seq![]
    } else if changed[i] {
        seq![VisibleRow::Line(i as usize)] + visible_from(changed, expanded, i + 1)
    } else {
        let end = run_end(changed, i);
        proof {
            lemma_run_end(changed, i);
        }
        run_entries(changed.len() as int, i, end, expanded) + visible_from(changed, expanded, end)
    }
}

/// Which rows are changed.
pub open spec fn changed_flags(rows: Seq<DiffRow>) -> Seq<bool> {
    rows.map_values(|r: DiffRow| r.changed)
}

#[verifier::rlimit(40)]
/// The entries a viewer shows for `rows` when the unchanged runs starting
/// at the indices in `expanded` have been unfolded.
pub fn visible_rows(rows: &[DiffRow], expanded: &HashSet<usize>) -> (visible: Vec<VisibleRow>)
    ensures
        visible@ == visible_from(changed_flags(rows@), expanded@, 0),
{
    broadcast use vstd::std_specs::hash::group_hash_axioms;

    let ghost changed = changed_flags(rows@);
    let ghost exp = expanded@;
    let len = rows.len();
    let mut visible: Vec<VisibleRow> = Vec::new();
    let mut index: usize = 0;
    while index < len
        invariant
            len == rows.len(),
            changed == changed_flags(rows@),
            exp == expanded@,
            0 <= index <= len,
            visible@ + visible_from(changed, exp, index as int) == visible_from(changed, exp, 0),
        decreases len - index,
    {
        let ghost before = visible@;
        if rows[index].changed {
            visible.push(VisibleRow::Line(index));
            assert(visible@ + visible_from(changed, exp, index + 1) =~= before + visible_from(
                changed,
                exp,
                index as int,
            ));
            index = index + 1;
        } else {
            let start = index;
            while index < len && !rows[index].changed
                invariant
                    len == rows.len(),
                    changed == changed_flags(rows@),
                    start <= index <= len,
                    start < len,
                    !changed[start as int],
                    run_end(changed, index as int) == run_end(changed, start as int),
                decreases len - index,
            {
                index = index + 1;
            }
            let end = index;
            proof {
                lemma_run_end(changed, start as int);
            }
            let leading = if start == 0 && end < len {
                0
            } else if CONTEXT_LINES <= end - start {
                CONTEXT_LINES
            } else {
                end - start
            };
            let trailing = if end == len && start > 0 {
                0
            } else if CONTEXT_LINES <= end - start - leading {
                CONTEXT_LINES
            } else {
                end - start - leading
            };
            let ghost part = run_entries(len as int, start as int, end as int, exp);
            if expanded.contains(&start) || end - start <= leading + trailing + 1 {
                push_lines(&mut visible, start, end);
                assert(visible@ =~= before + part);
            } else {
                push_lines(&mut visible, start, start + leading);
                visible.push(VisibleRow::Collapsed { start, count: end - start - leading - trailing });
                push_lines(&mut visible, end - trailing, end);
                assert(visible@ =~= before + part);
            }
            assert(visible@ + visible_from(changed, exp, end as int) =~= before + visible_from(
                changed,
                exp,
                start as int,
            ));
        }
    }
    assert(visible@ + visible_from(changed, exp, len as int) =~= visible@);
    visible
}

/// Appends one entry per row from `a` up to `b`.
fn push_lines(visible: &mut Vec<VisibleRow>, a: usize, b: usize)
    requires
        a <= b,
    ensures
        final(visible)@ == old(visible)@ + line_entries(a as int, b as int),
{
    let ghost start = visible@;
    let mut k = a;
    while k < b
        invariant
            a <= k <= b,
            visible@ == start + line_entries(a as int, k as int),
        decreases b - k,
    {
        visible.push(VisibleRow::Line(k));
        assert(line_entries(a as int, k + 1) =~= line_entries(a as int, k as int).push(VisibleRow::Line(k)));
        k = k + 1;
    }
}

/// The row after the last one that `prev` accounts for, or `from` when
/// it accounts for none.
pub open spec fn next_row(prev: Seq<(int, bool)>, from: int) -> int {
    if prev.len() == 0 {
        from
    } else {
        prev.last().0 + 1
    }
}

/// The rows that a list of entries accounts for, counting from `from`,
/// each with whether it is shown (`true`) or folded away (`false`). A
/// fold of `count` rows accounts for the `count` rows after those before it.
pub open spec fn accounted_rows(entries: Seq<VisibleRow>, from: int) -> Seq<(int, bool)>
    decreases entries.len(),
{
    if entries.len() == 0 {
        seq![]
    } else {
        let prev = accounted_rows(entries.drop_last(), from);
        let n = next_row(prev, from);
        match entries.last() {
            VisibleRow::Line(k) => prev.push((k as int, true)),
            VisibleRow::Collapsed { start, count } => prev + Seq::new(
                count as nat,
                |j: int| (n + j, false),
            ),
        }
    }
}

/// `rows` is the run of indices `from..to`.
pub open spec fn is_run(rows: Seq<(int, bool)>, from: int, to: int) -> bool {
    &&& rows.len() == to - from
    &&& forall|i: int| 0 <= i < rows.len() ==> (#[trigger] rows[i]).0 == from + i
}

/// Only unchanged rows are folded away.
pub open spec fn hides_only_unchanged(rows: Seq<(int, bool)>, changed: Seq<bool>) -> bool {
    forall|i: int| 0 <= i < rows.len() && !(#[trigger] rows[i]).1 ==> !changed[rows[i].0]
}

/// Every fold hides at least two rows, and its `start`, the first row of
/// an unchanged run, is not one of the expanded runs.
pub open spec fn folds_well_formed(entries: Seq<VisibleRow>, changed: Seq<bool>, expanded: Set<usize>) -> bool {
    forall|i: int|
        0 <= i < entries.len() ==> match #[trigger] entries[i] {
            VisibleRow::Collapsed { start, count } => {
                &&& count >= 2
                &&& !expanded.contains(start)
                &&& start < changed.len()
                &&& !changed[start as int]
            },
            VisibleRow::Line(_) => true,
        }
}

pub proof fn lemma_accounted_append(x: Seq<VisibleRow>, y: Seq<VisibleRow>, from: int, mid: int, to: int)
    requires
        is_run(accounted_rows(x, from), from, mid),
        is_run(accounted_rows(y, mid), mid, to),
    ensures
        accounted_rows(x + y, from) == accounted_rows(x, from) + accounted_rows(y, mid),
    decreases y.len(),
{
    if y.len() == 0 {
        assert(x + y =~= x);
        assert(accounted_rows(x, from) + accounted_rows(y, mid) =~= accounted_rows(x, from));
    } else {
        let yd = y.drop_last();
        let py = accounted_rows(yd, mid);
        let full = accounted_rows(y, mid);
        // the prefix of y accounts for a run too
        let ny = next_row(py, mid);
        let mid2: int = ny;
        assert(is_run(py, mid, mid2)) by {
            match y.last() {
                VisibleRow::Line(k) => {
                    assert(full == py.push((k as int, true)));
                    assert forall|i: int| 0 <= i < py.len() implies (#[trigger] py[i]).0 == mid + i by {
                        assert(py[i] == full[i]);
                    }
                },
                VisibleRow::Collapsed { start, count } => {
                    assert(full == py + Seq::new(count as nat, |j: int| (ny + j, false)));
                    assert forall|i: int| 0 <= i < py.len() implies (#[trigger] py[i]).0 == mid + i by {
                        assert(py[i] == full[i]);
                    }
                },
            }
            if py.len() > 0 {
                assert(py.last() == py[py.len() - 1]);
            }
        }
        lemma_accounted_append(x, yd, from, mid, mid2);
        assert((x + y).drop_last() =~= x + yd);
        assert((x + y).last() == y.last());
        let px = accounted_rows(x, from);
        let pxy = accounted_rows(x + yd, from);
        assert(pxy == px + py);
        assert(next_row(pxy, from) == ny) by {
            if py.len() == 0 {
                if px.len() > 0 {
                    assert(px.last() == px[px.len() - 1]);
                }
            } else {
                assert(pxy.last() == py.last());
            }
        }
        match y.last() {
            VisibleRow::Line(k) => {
                assert(accounted_rows(x + y, from) =~= px + full);
            },
            VisibleRow::Collapsed { start, count } => {
                assert(accounted_rows(x + y, from) =~= px + full);
            },
        }
    }
}

pub proof fn lemma_line_entries_accounted(a: int, b: int, from: int)
    requires
        0 <= a <= b <= usize::MAX + 1,
        a == from,
    ensures
        is_run(accounted_rows(line_entries(a, b), from), a, b),
        forall|i: int| 0 <= i < b - a ==> (#[trigger] accounted_rows(line_entries(a, b), from)[i]).1,
    decreases b - a,
{
    if a < b {
        lemma_line_entries_accounted(a, b - 1, from);
        assert(line_entries(a, b).drop_last() =~= line_entries(a, b - 1));
        let p = accounted_rows(line_entries(a, b - 1), from);
        assert(accounted_rows(line_entries(a, b), from) == p.push((b - 1, true)));
    } else {
        assert(line_entries(a, b) =~= Seq::<VisibleRow>::empty());
    }
}

pub proof fn lemma_run_entries(changed: Seq<bool>, expanded: Set<usize>, start: int, end: int)
    requires
        changed.len() <= usize::MAX,
        0 <= start < end <= changed.len(),
        forall|k: int| start <= k < end ==> !#[trigger] changed[k],
    ensures
        is_run(accounted_rows(run_entries(changed.len() as int, start, end, expanded), start), start, end),
        hides_only_unchanged(accounted_rows(run_entries(changed.len() as int, start, end, expanded), start), changed),
        folds_well_formed(run_entries(changed.len() as int, start, end, expanded), changed, expanded),
{
    let len = changed.len() as int;
    let n = end - start;
    let leading = if start == 0 && end < len { 0 } else { min_int(3, n) };
    let trailing = if end == len && start > 0 { 0 } else { min_int(3, n - leading) };
    let r = run_entries(len, start, end, expanded);
    if expanded.contains(start as usize) || n <= leading + trailing + 1 {
        lemma_line_entries_accounted(start, end, start);
    } else {
        let count = n - leading - trailing;
        let a = line_entries(start, start + leading);
        let m = seq![VisibleRow::Collapsed { start: start as usize, count: count as usize }];
        let c = line_entries(end - trailing, end);
        lemma_line_entries_accounted(start, start + leading, start);
        lemma_line_entries_accounted(end - trailing, end, end - trailing);
        let am = accounted_rows(m, start + leading);
        assert(m.drop_last() =~= Seq::<VisibleRow>::empty());
        assert((count as usize) as int == count);
        assert(accounted_rows(m.drop_last(), start + leading) =~= Seq::<(int, bool)>::empty());
        assert(am =~= Seq::new(count as nat, |j: int| (start + leading + j, false)));
        lemma_accounted_append(a, m, start, start + leading, end - trailing);
        lemma_accounted_append(a + m, c, start, end - trailing, end);
        assert(r == a + m + c);
        let rows = accounted_rows(r, start);
        let ra = accounted_rows(a, start);
        let rc = accounted_rows(c, end - trailing);
        assert(rows == ra + am + rc);
        assert forall|i: int| 0 <= i < rows.len() && !(#[trigger] rows[i]).1 implies !changed[rows[i].0] by {
            if i < ra.len() {
                assert(rows[i] == ra[i]);
            } else if i < ra.len() + am.len() {
                assert(rows[i] == am[i - ra.len()]);
            } else {
                assert(rows[i] == rc[i - ra.len() - am.len()]);
            }
        }
        assert forall|i: int| 0 <= i < r.len() implies match #[trigger] r[i] {
            VisibleRow::Collapsed { start, count } => {
                &&& count >= 2
                &&& !expanded.contains(start)
                &&& start < changed.len()
                &&& !changed[start as int]
            },
            VisibleRow::Line(_) => true,
        } by {
            if i < a.len() {
                assert(r[i] == a[i]);
            } else if i == a.len() {
                assert(r[i] == m[0]);
            } else {
                assert(r[i] == c[i - a.len() - 1]);
            }
        }
    }
}

pub proof fn lemma_visible_from(changed: Seq<bool>, expanded: Set<usize>, i: int)
    requires
        changed.len() <= usize::MAX,
        0 <= i <= changed.len(),
    ensures
        is_run(accounted_rows(visible_from(changed, expanded, i), i), i, changed.len() as int),
        hides_only_unchanged(accounted_rows(visible_from(changed, expanded, i), i), changed),
        folds_well_formed(visible_from(changed, expanded, i), changed, expanded),
    decreases changed.len() - i,
{
    let len = changed.len() as int;
    let r = visible_from(changed, expanded, i);
    if i >= len {
    } else {
        let (p, end) = if changed[i] {
            (seq![VisibleRow::Line(i as usize)], i + 1)
        } else {
            (run_entries(len, i, run_end(changed, i), expanded), run_end(changed, i))
        };
        if changed[i] {
            let rp = accounted_rows(p, i);
            assert(p.drop_last() =~= Seq::<VisibleRow>::empty());
            assert(accounted_rows(p.drop_last(), i) =~= Seq::<(int, bool)>::empty());
            assert(rp =~= seq![(i, true)]);
        } else {
            lemma_run_end(changed, i);
            lemma_run_entries(changed, expanded, i, end);
        }
        lemma_visible_from(changed, expanded, end);
        let t = visible_from(changed, expanded, end);
        assert(r == p + t);
        lemma_accounted_append(p, t, i, end, len);
        let rows = accounted_rows(r, i);
        let rp = accounted_rows(p, i);
        let rt = accounted_rows(t, end);
        assert(rows == rp + rt);
        assert forall|j: int| 0 <= j < rows.len() implies (#[trigger] rows[j]).0 == i + j by {
            if j < rp.len() {
                assert(rows[j] == rp[j]);
            } else {
                assert(rows[j] == rt[j - rp.len()]);
            }
        }
        assert forall|j: int| 0 <= j < rows.len() && !(#[trigger] rows[j]).1 implies !changed[rows[j].0] by {
            if j < rp.len() {
                assert(rows[j] == rp[j]);
            } else {
                assert(rows[j] == rt[j - rp.len()]);
            }
        }
        assert forall|j: int| 0 <= j < r.len() implies match #[trigger] r[j] {
            VisibleRow::Collapsed { start, count } => {
                &&& count >= 2
                &&& !expanded.contains(start)
                &&& start < changed.len()
                &&& !changed[start as int]
            },
            VisibleRow::Line(_) => true,
        } by {
            if j < p.len() {
                assert(r[j] == p[j]);
            } else {
                assert(r[j] == t[j - p.len()]);
            }
        }
    }
}

/// The shown entries account for every row exactly once, in order, as
/// shown or folded away; only unchanged rows are folded away, so every
/// changed row is shown; each fold hides at least two rows and starts at
/// an unchanged row whose run was not expanded.
pub proof fn lemma_visible_rows_account_for_all_rows(rows: Seq<DiffRow>, expanded: Set<usize>)
    requires
        rows.len() <= usize::MAX,
    ensures
        is_run(accounted_rows(visible_from(changed_flags(rows), expanded, 0), 0), 0, rows.len() as int),
        hides_only_unchanged(accounted_rows(visible_from(changed_flags(rows), expanded, 0), 0), changed_flags(rows)),
        folds_well_formed(visible_from(changed_flags(rows), expanded, 0), changed_flags(rows), expanded),
{
    lemma_visible_from(changed_flags(rows), expanded, 0);
}

proof fn lemma_concat_contains(x: Seq<VisibleRow>, y: Seq<VisibleRow>, v: VisibleRow)
    ensures
        (x + y).contains(v) <==> x.contains(v) || y.contains(v),
{
    if (x + y).contains(v) {
        let j = choose|j: int| 0 <= j < (x + y).len() && (x + y)[j] == v;
        if j < x.len() {
            assert(x[j] == v);
        } else {
            assert(y[j - x.len()] == v);
        }
    }
    if x.contains(v) {
        let j = choose|j: int| 0 <= j < x.len() && x[j] == v;
        assert((x + y)[j] == v);
    }
    if y.contains(v) {
        let j = choose|j: int| 0 <= j < y.len() && y[j] == v;
        assert((x + y)[x.len() + j] == v);
    }
}

proof fn lemma_line_entries_contains(a: int, b: int, k: usize)
    requires
        0 <= a <= b <= usize::MAX,
    ensures
        line_entries(a, b).contains(VisibleRow::Line(k)) <==> a <= k < b,
{
    let l = line_entries(a, b);
    if a <= k < b {
        assert(l[k - a] == VisibleRow::Line(k));
    }
    if l.contains(VisibleRow::Line(k)) {
        let j = choose|j: int| 0 <= j < l.len() && l[j] == VisibleRow::Line(k);
        assert(l[j] == VisibleRow::Line((a + j) as usize));
    }
}

/// The rows a run shows lie inside the run, and an expanded run shows
/// all of them.
proof fn lemma_run_entries_lines(len: int, start: int, end: int, expanded: Set<usize>, k: usize)
    requires
        0 <= start <= end <= len <= usize::MAX,
    ensures
        run_entries(len, start, end, expanded).contains(VisibleRow::Line(k)) ==> start <= k < end,
        expanded.contains(start as usize) ==> run_entries(len, start, end, expanded) == line_entries(start, end),
{
    let n = end - start;
    let leading = if start == 0 && end < len { 0 } else { min_int(3, n) };
    let trailing = if end == len && start > 0 { 0 } else { min_int(3, n - leading) };
    lemma_line_entries_contains(start, end, k);
    if !(expanded.contains(start as usize) || n <= leading + trailing + 1) {
        let a = line_entries(start, start + leading);
        let c = seq![
            VisibleRow::Collapsed { start: start as usize, count: (n - leading - trailing) as usize },
        ];
        let b = line_entries(end - trailing, end);
        lemma_concat_contains(a + c, b, VisibleRow::Line(k));
        lemma_concat_contains(a, c, VisibleRow::Line(k));
        lemma_line_entries_contains(start, start + leading, k);
        lemma_line_entries_contains(end - trailing, end, k);
        if c.contains(VisibleRow::Line(k)) {
            assert(c[0] != VisibleRow::Line(k));
        }
    }
}

proof fn lemma_visible_from_monotone(changed: Seq<bool>, e1: Set<usize>, e2: Set<usize>, i: int, k: usize)
    requires
        e1.subset_of(e2),
        0 <= i <= changed.len() <= usize::MAX,
    ensures
        visible_from(changed, e1, i).contains(VisibleRow::Line(k)) ==> visible_from(changed, e2, i).contains(
            VisibleRow::Line(k),
        ),
    decreases changed.len() - i,
{
    if i < changed.len() {
        if changed[i] {
            lemma_visible_from_monotone(changed, e1, e2, i + 1, k);
            lemma_concat_contains(seq![VisibleRow::Line(i as usize)], visible_from(changed, e1, i + 1), VisibleRow::Line(k));
            lemma_concat_contains(seq![VisibleRow::Line(i as usize)], visible_from(changed, e2, i + 1), VisibleRow::Line(k));
        } else {
            let end = run_end(changed, i);
            lemma_run_end(changed, i);
            lemma_visible_from_monotone(changed, e1, e2, end, k);
            let len = changed.len() as int;
            lemma_concat_contains(run_entries(len, i, end, e1), visible_from(changed, e1, end), VisibleRow::Line(k));
            lemma_concat_contains(run_entries(len, i, end, e2), visible_from(changed, e2, end), VisibleRow::Line(k));
            lemma_run_entries_lines(len, i, end, e1, k);
            lemma_run_entries_lines(len, i, end, e2, k);
            lemma_line_entries_contains(i, end, k);
            if !e2.contains(i as usize) {
                assert(!e1.contains(i as usize));
            }
        }
    }
}

proof fn lemma_visible_from_all_expanded(changed: Seq<bool>, expanded: Set<usize>, i: int)
    requires
        0 <= i <= changed.len() <= usize::MAX,
        forall|k: usize| i <= k < changed.len() ==> expanded.contains(k),
    ensures
        visible_from(changed, expanded, i) == line_entries(i, changed.len() as int),
    decreases changed.len() - i,
{
    let len = changed.len() as int;
    if i < len {
        if changed[i] {
            lemma_visible_from_all_expanded(changed, expanded, i + 1);
            assert(seq![VisibleRow::Line(i as usize)] + line_entries(i + 1, len) =~= line_entries(i, len));
        } else {
            let end = run_end(changed, i);
            lemma_run_end(changed, i);
            lemma_visible_from_all_expanded(changed, expanded, end);
            assert(expanded.contains(i as usize));
            lemma_run_entries_lines(len, i, end, expanded, 0);
            assert(line_entries(i, end) + line_entries(end, len) =~= line_entries(i, len));
        }
    } else {
        assert(line_entries(i, len) =~= Seq::<VisibleRow>::empty());
    }
}

/// Unfolding more sections never hides a row that was shown; with every
/// section unfolded, every row is shown, one entry each, in order.
pub proof fn lemma_expanding_never_hides_rows(rows: Seq<DiffRow>, e1: Set<usize>, e2: Set<usize>)
    requires
        rows.len() <= usize::MAX,
        e1.subset_of(e2),
    ensures
        forall|k: usize| #[trigger] visible_from(changed_flags(rows), e1, 0).contains(VisibleRow::Line(k))
            ==> visible_from(changed_flags(rows), e2, 0).contains(VisibleRow::Line(k)),
        (forall|k: usize| 0 <= k < rows.len() ==> #[trigger] e2.contains(k)) ==> visible_from(
            changed_flags(rows),
            e2,
            0,
        ) == line_entries(0, rows.len() as int),
{
    let changed = changed_flags(rows);
    assert forall|k: usize| #[trigger] visible_from(changed, e1, 0).contains(VisibleRow::Line(k))
        implies visible_from(changed, e2, 0).contains(VisibleRow::Line(k)) by {
        lemma_visible_from_monotone(changed, e1, e2, 0, k);
    }
    if forall|k: usize| 0 <= k < rows.len() ==> #[trigger] e2.contains(k) {
        lemma_visible_from_all_expanded(changed, e2, 0);
    }
}

/// What is shown from `i` on ends with what is shown from `k` on, when
/// the row before `k` is changed.
proof fn lemma_visible_suffix(changed: Seq<bool>, expanded: Set<usize>, i: int, k: int) -> (x: Seq<VisibleRow>)
    requires
        0 <= i < k <= changed.len() <= usize::MAX,
        changed[k - 1],
    ensures
        visible_from(changed, expanded, i) == x + visible_from(changed, expanded, k),
    decreases k - i,
{
    if changed[i] {
        let head = seq![VisibleRow::Line(i as usize)];
        if i + 1 == k {
            head
        } else {
            let x = lemma_visible_suffix(changed, expanded, i + 1, k);
            assert(visible_from(changed, expanded, i) =~= (head + x) + visible_from(changed, expanded, k));
            head + x
        }
    } else {
        let end = run_end(changed, i);
        lemma_run_end(changed, i);
        if end > k - 1 {
            assert(!changed[k - 1]);
        }
        let head = run_entries(changed.len() as int, i, end, expanded);
        if end == k {
            head
        } else {
            let x = lemma_visible_suffix(changed, expanded, end, k);
            assert(visible_from(changed, expanded, i) =~= (head + x) + visible_from(changed, expanded, k));
            head + x
        }
    }
}

/// `part` stands, in order and without gaps, somewhere in `whole`.
pub open spec fn shows_block(whole: Seq<VisibleRow>, part: Seq<VisibleRow>) -> bool {
    exists|i: int| 0 <= i && i + part.len() <= whole.len() && #[trigger] whole.subrange(i, i + part.len()) == part
}

/// An unchanged run of more than seven rows between two changes is shown,
/// unless its own start has been expanded, as three rows, one fold of the
/// rest starting at the run, and three rows, whatever other sections are
/// expanded; a run whose start has been expanded is shown whole.
pub proof fn lemma_long_unchanged_runs_fold(rows: Seq<DiffRow>, expanded: Set<usize>, start: int, end: int)
    requires
        rows.len() <= usize::MAX,
        1 <= start,
        start + 7 < end < rows.len(),
        rows[start - 1].changed,
        rows[end].changed,
        forall|k: int| start <= k < end ==> !(#[trigger] rows[k]).changed,
    ensures
        !expanded.contains(start as usize) ==> shows_block(
            visible_from(changed_flags(rows), expanded, 0),
            seq![
                VisibleRow::Line(start as usize),
                VisibleRow::Line((start + 1) as usize),
                VisibleRow::Line((start + 2) as usize),
                VisibleRow::Collapsed { start: start as usize, count: (end - start - 6) as usize },
                VisibleRow::Line((end - 3) as usize),
                VisibleRow::Line((end - 2) as usize),
                VisibleRow::Line((end - 1) as usize),
            ],
        ),
        expanded.contains(start as usize) ==> shows_block(
            visible_from(changed_flags(rows), expanded, 0),
            Seq::new((end - start) as nat, |k: int| VisibleRow::Line((start + k) as usize)),
        ),
{
    let changed = changed_flags(rows);
    let len = rows.len() as int;
    assert(changed[start - 1]);
    assert(changed[end]);
    assert(!changed[start]);
    let x = lemma_visible_suffix(changed, expanded, 0, start);
    lemma_run_end(changed, start);
    let r = run_end(changed, start);
    if r < end {
        assert(!rows[r].changed);
    }
    if r > end {
        assert(!changed[end]);
    }
    assert(r == end);
    let y = visible_from(changed, expanded, end);
    assert(visible_from(changed, expanded, start) == run_entries(len, start, end, expanded) + y);
    if !expanded.contains(start as usize) {
        assert(run_entries(len, start, end, expanded) =~= seq![
            VisibleRow::Line(start as usize),
            VisibleRow::Line((start + 1) as usize),
            VisibleRow::Line((start + 2) as usize),
            VisibleRow::Collapsed { start: start as usize, count: (end - start - 6) as usize },
            VisibleRow::Line((end - 3) as usize),
            VisibleRow::Line((end - 2) as usize),
            VisibleRow::Line((end - 1) as usize),
        ]);
    } else {
        assert(run_entries(len, start, end, expanded) =~= Seq::new(
            (end - start) as nat,
            |k: int| VisibleRow::Line((start + k) as usize),
        ));
    }
    let whole = visible_from(changed, expanded, 0);
    let part = run_entries(len, start, end, expanded);
    assert(whole =~= x + part + y);
    assert(whole.subrange(x.len() as int, (x.len() + part.len()) as int) =~= part);
}

/// How a line fares between the old and the new text.
#[derive(Debug, Clone, Copy, PartialEq, Eq, Structural)]
pub enum LineChange {
    Delete,
    Insert,
    Equal,
}

/// The line changes, in order, that `similar::TextDiff::from_lines`
/// reports between two texts, each with its line (line break included).
pub uninterp spec fn line_changes(old: Seq<char>, new: Seq<char>) -> Seq<(LineChange, Seq<char>)>;

/// The views of exec line changes.
pub open spec fn change_views(changes: Seq<(LineChange, String)>) -> Seq<(LineChange, Seq<char>)> {
    changes.map_values(|c: (LineChange, String)| (c.0, c.1@))
}

/// The text one side of a diff is made of: the values of its changes in
/// order, leaving out those of kind `other` (the other side's own lines).
pub open spec fn side_text(changes: Seq<(LineChange, Seq<char>)>, other: LineChange) -> Seq<char>
    decreases changes.len(),
{
    if changes.len() == 0 {
        seq![]
    } else {
        side_text(changes.drop_last(), other) + (if changes.last().0 == other {
            seq![]
        } else {
            changes.last().1
        })
    }
}

/// The values of the changes, in order, leaving out those of kind
/// `other`.
pub open spec fn side_values(changes: Seq<(LineChange, Seq<char>)>, other: LineChange) -> Seq<Seq<char>>
    decreases changes.len(),
{
    if changes.len() == 0 {
        seq![]
    } else if changes.last().0 == other {
        side_values(changes.drop_last(), other)
    } else {
        side_values(changes.drop_last(), other).push(changes.last().1)
    }
}

/// Where the line that starts at `i` ends, just after its break: a line
/// feed, a carriage return and line feed, or a carriage return alone; the
/// length when no break follows.
pub open spec fn line_stop(s: Seq<char>, i: int) -> int
    decreases s.len() - i,
{
    if i < 0 || i >= s.len() {
        s.len() as int
    } else if s[i] == '\n' {
        i + 1
    } else if s[i] == '\r' {
        if i + 1 < s.len() && s[i + 1] == '\n' {
            i + 2
        } else {
            i + 1
        }
    } else {
        line_stop(s, i + 1)
    }
}

pub proof fn lemma_line_stop(s: Seq<char>, i: int)
    requires
        0 <= i < s.len(),
    ensures
        i < line_stop(s, i) <= s.len(),
    decreases s.len() - i,
{
    if s[i] != '\n' && s[i] != '\r' {
        if i + 1 < s.len() {
            lemma_line_stop(s, i + 1);
        } else {
            assert(line_stop(s, i + 1) == s.len());
        }
    }
}

/// The lines of `s` from `i` on, each with its break; a last piece
/// without a break is a line too.
pub open spec fn text_lines(s: Seq<char>, i: int) -> Seq<Seq<char>>
    decreases s.len() - i,
{
    if i < 0 || i >= s.len() {
        seq![]
    } else {
        let e = line_stop(s, i);
        proof {
            lemma_line_stop(s, i);
        }
        seq![s.subrange(i, e)] + text_lines(s, e)
    }
}

/// Calls `similar::TextDiff::from_lines` and walks `iter_all_changes`,
/// taking each change's tag and value. Its default configuration has no
/// deadline, so the result is a function of the two texts, named by
/// `line_changes`. The texts are cut into lines after each line feed,
/// carriage return and line feed, or lone carriage return, a last piece
/// without a break being a line too (`tokenize_lines`), and the changes
/// cover both sides in order: the deleted and equal values are the lines
/// of the old text, the inserted and equal ones those of the new text, so
/// each side's values also spell its text.
#[verifier::external_body]
fn diff_lines(old: &str, new: &str) -> (changes: Vec<(LineChange, String)>)
    ensures
        change_views(changes@) == line_changes(old@, new@),
        side_values(change_views(changes@), LineChange::Insert) == text_lines(old@, 0),
        side_values(change_views(changes@), LineChange::Delete) == text_lines(new@, 0),
        side_text(change_views(changes@), LineChange::Insert) == old@,
        side_text(change_views(changes@), LineChange::Delete) == new@,
{
    let diff = similar::TextDiff::from_lines(old, new);
    let mut changes = Vec::new();
    for change in diff.iter_all_changes() {
        let tag = match change.tag() {
            similar::ChangeTag::Delete => LineChange::Delete,
            similar::ChangeTag::Insert => LineChange::Insert,
            similar::ChangeTag::Equal => LineChange::Equal,
        };
        changes.push((tag, change.value().to_owned()));
    }
    changes
}

/// `s` without its trailing line feeds.
pub open spec fn without_trailing_newlines(s: Seq<char>) -> Seq<char>
    decreases s.len(),
{
    if s.len() > 0 && s.last() == '\n' {
        without_trailing_newlines(s.drop_last())
    } else {
        s
    }
}

/// A plain-value picture of a cell.
pub type CellView = (Seq<char>, Seq<char>, DiffKind, Seq<(Seq<char>, JsonToken)>);

/// A plain-value picture of a row: its two cells and whether it changed.
pub type RowView = (CellView, CellView, bool);

/// A plain-value picture of a row.
pub open spec fn row_view(r: DiffRow) -> RowView {
    (cell_view(r.left), cell_view(r.right), r.changed)
}

pub open spec fn row_views(rows: Seq<DiffRow>) -> Seq<RowView> {
    rows.map_values(|r: DiffRow| row_view(r))
}

/// The picture of a cell with a marker and a line.
pub open spec fn expected_cell(marker: Seq<char>, line: Seq<char>, kind: DiffKind, highlight_json: bool) -> (
    Seq<char>,
    Seq<char>,
    DiffKind,
    Seq<(Seq<char>, JsonToken)>,
) {
    (marker, line, kind, cell_tokens(line, highlight_json))
}

/// The row a line change becomes: a removed line on the left, an added
/// line on the right, or an unchanged line on both sides; the other side
/// of a changed row is blank.
pub open spec fn expected_row(change: (LineChange, Seq<char>), highlight_json: bool) -> (
    (Seq<char>, Seq<char>, DiffKind, Seq<(Seq<char>, JsonToken)>),
    (Seq<char>, Seq<char>, DiffKind, Seq<(Seq<char>, JsonToken)>),
    bool,
) {
    let line = without_trailing_newlines(change.1);
    let blank = expected_cell(""@, ""@, DiffKind::Unchanged, highlight_json);
    match change.0 {
        LineChange::Delete => (expected_cell("-"@, line, DiffKind::Removed, highlight_json), blank, true),
        LineChange::Insert => (blank, expected_cell("+"@, line, DiffKind::Added, highlight_json), true),
        LineChange::Equal => {
            let same = expected_cell(" "@, line, DiffKind::Unchanged, highlight_json);
            (same, same, false)
        },
    }
}

/// A row is marked changed exactly for a deleted or inserted line: a
/// deleted line is removed on the left with nothing on the right, an
/// inserted one added on the right with nothing on the left, and an equal
/// line is unchanged on both sides.
pub open spec fn marks_change(row: DiffRow, change: LineChange) -> bool {
    &&& row.changed == (change != LineChange::Equal)
    &&& row.changed == (row.left.kind == DiffKind::Removed || row.right.kind == DiffKind::Added)
    &&& (change == LineChange::Delete ==> row.left.kind == DiffKind::Removed && row.right.kind
        == DiffKind::Unchanged)
    &&& (change == LineChange::Insert ==> row.left.kind == DiffKind::Unchanged && row.right.kind
        == DiffKind::Added)
    &&& (change == LineChange::Equal ==> row.left.kind == DiffKind::Unchanged && row.right.kind
        == DiffKind::Unchanged)
}

/// Every row a line change becomes is marked changed exactly when the
/// line was deleted or inserted, which is exactly when one of its cells
/// is removed or added; the marker of each cell goes with its kind.
pub proof fn lemma_rows_mark_changes(change: (LineChange, Seq<char>), highlight_json: bool)
    ensures
        expected_row(change, highlight_json).2 == (change.0 != LineChange::Equal),
        expected_row(change, highlight_json).2 == (expected_row(change, highlight_json).0.2
            == DiffKind::Removed || expected_row(change, highlight_json).1.2 == DiffKind::Added),
        change.0 == LineChange::Delete ==> expected_row(change, highlight_json).0.2 == DiffKind::Removed
            && expected_row(change, highlight_json).1.2 == DiffKind::Unchanged,
        change.0 == LineChange::Insert ==> expected_row(change, highlight_json).0.2 == DiffKind::Unchanged
            && expected_row(change, highlight_json).1.2 == DiffKind::Added,
        change.0 == LineChange::Equal ==> expected_row(change, highlight_json).0.2 == DiffKind::Unchanged
            && expected_row(change, highlight_json).1.2 == DiffKind::Unchanged,
{
}

/// The text of a line without its trailing line feeds.
fn strip_newlines(text: &str) -> (line: String)
    ensures
        line@ == without_trailing_newlines(text@),
{
    let chars = chars_of(text);
    let mut end = chars.len();
    assert(chars@.take(end as int) =~= chars@);
    while end > 0 && chars[end - 1] == '\n'
        invariant
            0 <= end <= chars.len(),
            chars@ == text@,
            without_trailing_newlines(text@) == without_trailing_newlines(chars@.take(end as int)),
        decreases end,
    {
        assert(chars@.take(end as int).drop_last() =~= chars@.take(end - 1));
        end = end - 1;
    }
    string_from_chars(vstd::slice::slice_subrange(chars.as_slice(), 0, end))
}

/// Turns line changes into diff rows, one per change.
pub fn rows_from_changes(changes: &Vec<(LineChange, String)>, highlight_json: bool) -> (diff: PreparedDiff)
    ensures
        row_views(diff.rows@) == change_views(changes@).map_values(
            |c: (LineChange, Seq<char>)| expected_row(c, highlight_json),
        ),
        diff.rows.len() == changes.len(),
        forall|i: int| 0 <= i < diff.rows.len() ==> marks_change(#[trigger] diff.rows@[i], changes@[i].0),
{
    let ghost expected = change_views(changes@).map_values(
        |c: (LineChange, Seq<char>)| expected_row(c, highlight_json),
    );
    let mut rows: Vec<DiffRow> = Vec::new();
    let mut i: usize = 0;
    while i < changes.len()
        invariant
            0 <= i <= changes.len(),
            expected == change_views(changes@).map_values(
                |c: (LineChange, Seq<char>)| expected_row(c, highlight_json),
            ),
            row_views(rows@) == expected.take(i as int),
        decreases changes.len() - i,
    {
        let line = strip_newlines(changes[i].1.as_str());
        let row = match changes[i].0 {
            LineChange::Delete => DiffRow {
                left: diff_cell_data("-", line.as_str(), DiffKind::Removed, highlight_json),
                right: diff_cell_data("", "", DiffKind::Unchanged, highlight_json),
                changed: true,
            },
            LineChange::Insert => DiffRow {
                left: diff_cell_data("", "", DiffKind::Unchanged, highlight_json),
                right: diff_cell_data("+", line.as_str(), DiffKind::Added, highlight_json),
                changed: true,
            },
            LineChange::Equal => DiffRow {
                left: diff_cell_data(" ", line.as_str(), DiffKind::Unchanged, highlight_json),
                right: diff_cell_data(" ", line.as_str(), DiffKind::Unchanged, highlight_json),
                changed: false,
            },
        };
        let ghost before = rows@;
        assert(row_view(row) == expected[i as int]);
        rows.push(row);
        assert(row_views(rows@) =~= row_views(before).push(row_view(row)));
        assert(expected.take(i + 1) =~= expected.take(i as int).push(expected[i as int]));
        i = i + 1;
    }
    assert(expected.take(changes.len() as int) =~= expected);
    assert forall|i: int| 0 <= i < rows.len() implies marks_change(#[trigger] rows@[i], changes@[i].0) by {
        assert(row_views(rows@)[i] == row_view(rows@[i]));
        assert(change_views(changes@)[i] == (changes@[i].0, changes@[i].1@));
        lemma_rows_mark_changes(change_views(changes@)[i], highlight_json);
    }
    PreparedDiff { rows }
}

/// The texts a diff compares: for JSON, each side prepared as
/// `json_side_outcome` describes; otherwise each side decoded as UTF-8.
pub open spec fn diff_texts(
    before: Seq<u8>,
    after: Seq<u8>,
    highlight_json: bool,
    ignored: Seq<char>,
    pretty: bool,
    b: Seq<char>,
    a: Seq<char>,
) -> bool {
    if highlight_json {
        json_side_outcome(before, ignored_key_list(ignored), pretty, Ok(b))
            && json_side_outcome(after, ignored_key_list(ignored), pretty, Ok(a))
    } else {
        valid_utf8(before) && valid_utf8(after) && b == decode_utf8(before) && a == decode_utf8(after)
    }
}

/// Prepares the rows of a diff between two versions of a file: JSON is
/// prepared (keys stripped, prettified) and highlighted, other files must
/// be UTF-8 text.
pub fn prepare_diff(
    before: Vec<u8>,
    after: Vec<u8>,
    highlight_json: bool,
    ignored_keys: String,
    prettify_json: bool,
) -> (result: Result<PreparedDiff, String>)
    ensures
        match result {
            Ok(diff) => exists|b: Seq<char>, a: Seq<char>|
                diff_texts(before@, after@, highlight_json, ignored_keys@, prettify_json, b, a)
                    && row_views(diff.rows@) == line_changes(b, a).map_values(
                    |c: (LineChange, Seq<char>)| expected_row(c, highlight_json),
                ) && side_values(line_changes(b, a), LineChange::Insert) == text_lines(b, 0)
                    && side_values(line_changes(b, a), LineChange::Delete) == text_lines(a, 0)
                    && side_text(line_changes(b, a), LineChange::Insert) == b && side_text(
                    line_changes(b, a),
                    LineChange::Delete,
                ) == a,
            Err(m) => if highlight_json {
                let keys = ignored_key_list(ignored_keys@);
                json_side_outcome(before@, keys, prettify_json, Err(m@)) || (exists|b: Seq<char>|
                    json_side_outcome(before@, keys, prettify_json, Ok(b))
                        && json_side_outcome(after@, keys, prettify_json, Err(m@)))
            } else {
                &&& !(valid_utf8(before@) && valid_utf8(after@))
                &&& m@ == "Binary preview is not supported for this file type"@
            },
        },
        !highlight_json && valid_utf8(before@) && valid_utf8(after@) ==> result is Ok,
        result matches Ok(diff) ==> forall|i: int| 0 <= i < diff.rows.len() ==> (#[trigger] diff.rows@[i]).changed
            == (diff.rows@[i].left.kind == DiffKind::Removed || diff.rows@[i].right.kind == DiffKind::Added),
{
    let ghost bv = before@;
    let ghost av = after@;
    let (old_text, new_text) = if highlight_json {
        match prepare_json(before.as_slice(), after.as_slice(), ignored_keys.as_str(), prettify_json) {
            Ok(texts) => texts,
            Err(m) => return Err(m),
        }
    } else {
        let b = match string_from_utf8(before) {
            Ok(b) => b,
            Err(_) => return Err("Binary preview is not supported for this file type".to_owned()),
        };
        let a = match string_from_utf8(after) {
            Ok(a) => a,
            Err(_) => return Err("Binary preview is not supported for this file type".to_owned()),
        };
        (b, a)
    };
    let changes = diff_lines(old_text.as_str(), new_text.as_str());
    let diff = rows_from_changes(&changes, highlight_json);
    assert(diff_texts(bv, av, highlight_json, ignored_keys@, prettify_json, old_text@, new_text@));
    Ok(diff)
}

} // verus!
