//! Parsing `git status` output into changed files.
use vstd::prelude::*;
use vstd::multiset::Multiset;
use crate::bytes::{byte_views, decode_lossy, lenient_text, nonempty_fields, split_nonempty, split_state};
use crate::paths::{compare_fields, fields_order, lemma_fields_order_antisymmetric, lemma_fields_order_transitive, path_components, path_key, path_order};
use crate::reversed;
use crate::text::{chars_of, is_white, is_whitespace, string_from_chars, trim, trim_chars};

verus! {

/// How a file differs between `HEAD` and the working tree.
#[derive(Debug, Clone, Copy, PartialEq, Eq, Structural)]
pub enum FileStatus {
    Added,
    Modified,
    Deleted,
    Renamed,
    Untracked,
}

/// The one-letter label shown next to a file of the given status.
pub open spec fn status_label(status: FileStatus) -> Seq<char> {
    match status {
        FileStatus::Added => seq!['A'],
        FileStatus::Modified => seq!['M'],
        FileStatus::Deleted => seq!['D'],
        FileStatus::Renamed => seq!['R'],
        FileStatus::Untracked => seq!['?'],
    }
}

impl FileStatus {
    /// The one-letter label of this status.
    pub fn label(self) -> (label: &'static str)
        ensures
            label@ == status_label(self),
    {
        proof {
            reveal_strlit("A");
            reveal_strlit("M");
            reveal_strlit("D");
            reveal_strlit("R");
            reveal_strlit("?");
        }
        match self {
            FileStatus::Added => "A",
            FileStatus::Modified => "M",
            FileStatus::Deleted => "D",
            FileStatus::Renamed => "R",
            FileStatus::Untracked => "?",
        }
    }
}

/// Different statuses carry different labels.
pub proof fn lemma_labels_distinct(a: FileStatus, b: FileStatus)
    ensures
        a != b ==> status_label(a) != status_label(b),
{
    if a != b {
        assert(status_label(a)[0] != status_label(b)[0]);
    }
}

/// A path of the working tree that differs from `HEAD`.
#[derive(Debug, Clone, PartialEq, Eq)]
pub struct ChangedFile {
    pub path: String,
    pub status: FileStatus,
}

impl View for ChangedFile {
    type V = (Seq<char>, FileStatus);

    open spec fn view(&self) -> (Seq<char>, FileStatus) {
        (self.path@, self.status)
    }
}

/// The views of a sequence of changed files.
pub open spec fn file_views(files: Seq<ChangedFile>) -> Seq<(Seq<char>, FileStatus)> {
    files.map_values(|f: ChangedFile| f@)
}

/// The status that a two-letter porcelain code `xy` stands for.
pub open spec fn status_of_code(x: u8, y: u8) -> FileStatus {
    if x == '?' as u8 && y == '?' as u8 {
        FileStatus::Untracked
    } else if x == 'D' as u8 || y == 'D' as u8 {
        FileStatus::Deleted
    } else if x == 'R' as u8 || y == 'R' as u8 {
        FileStatus::Renamed
    } else if x == 'A' as u8 || y == 'A' as u8 {
        FileStatus::Added
    } else {
        FileStatus::Modified
    }
}

/// Whether a porcelain code marks a rename or a copy, whose entry is
/// followed by one naming the source path.
pub open spec fn code_has_source(x: u8, y: u8) -> bool {
    x == 'R' as u8 || y == 'R' as u8 || x == 'C' as u8 || y == 'C' as u8
}

/// The changed files that a sequence of porcelain entries describes:
/// entries shorter than four bytes are skipped, and the entry after a
/// rename or copy (its source path) is consumed with it.
pub open spec fn parse_entries(entries: Seq<Seq<u8>>) -> Seq<(Seq<char>, FileStatus)>
    decreases entries.len(),
{
    if entries.len() == 0 {
        seq![]
    } else {
        let e = entries[0];
        if e.len() < 4 {
            parse_entries(entries.drop_first())
        } else {
            let step: int = if code_has_source(e[0], e[1]) && entries.len() >= 2 {
                2
            } else {
                1
            };
            seq![(lenient_text(e.subrange(3, e.len() as int)), status_of_code(e[0], e[1]))]
                + parse_entries(entries.subrange(step, entries.len() as int))
        }
    }
}

/// An entry that leads the porcelain output lists its path first, with
/// the status its two-letter code gives: untracked for `??`; otherwise
/// deleted when either letter is `D`, else renamed when either is `R`,
/// else added when either is `A`, else modified.
pub proof fn lemma_entry_status(entries: Seq<Seq<u8>>)
    requires
        entries.len() > 0,
        entries[0].len() >= 4,
    ensures
        parse_entries(entries).len() > 0,
        parse_entries(entries)[0].0 == lenient_text(entries[0].subrange(3, entries[0].len() as int)),
        ({
            let x = entries[0][0];
            let y = entries[0][1];
            let status = parse_entries(entries)[0].1;
            &&& (x == 0x3f && y == 0x3f) ==> status == FileStatus::Untracked
            &&& !(x == 0x3f && y == 0x3f) && (x == 0x44 || y == 0x44) ==> status == FileStatus::Deleted
            &&& !(x == 0x3f && y == 0x3f) && x != 0x44 && y != 0x44 && (x == 0x52 || y == 0x52) ==> status
                == FileStatus::Renamed
            &&& !(x == 0x3f && y == 0x3f) && x != 0x44 && y != 0x44 && x != 0x52 && y != 0x52 && (x == 0x41
                || y == 0x41) ==> status == FileStatus::Added
            &&& !(x == 0x3f && y == 0x3f) && x != 0x44 && y != 0x44 && x != 0x52 && y != 0x52 && x != 0x41
                && y != 0x41 ==> status == FileStatus::Modified
        }),
{
}

proof fn lemma_split_without_separator(e: Seq<u8>, sep: u8)
    requires
        forall|k: int| 0 <= k < e.len() ==> e[k] != sep,
    ensures
        split_state(e, sep) == (Seq::<Seq<u8>>::empty(), e),
    decreases e.len(),
{
    if e.len() > 0 {
        lemma_split_without_separator(e.drop_last(), sep);
        assert(e.drop_last().push(e.last()) =~= e);
    }
}

/// Output that holds one entry, ended by a NUL, lists exactly the file
/// that entry describes.
pub proof fn lemma_single_entry_output(e: Seq<u8>)
    requires
        e.len() >= 4,
        forall|k: int| 0 <= k < e.len() ==> e[k] != 0u8,
    ensures
        parse_status_spec(e.push(0u8)) == parse_entries(seq![e]),
        parse_status_spec(e.push(0u8)).len() == 1,
{
    lemma_split_without_separator(e, 0u8);
    assert(e.push(0u8).drop_last() =~= e);
    assert(nonempty_fields(e.push(0u8), 0u8) =~= seq![e]);
    assert(seq![e].drop_first() =~= Seq::<Seq<u8>>::empty());
    assert(seq![e].subrange(1, 1) =~= Seq::<Seq<u8>>::empty());
    assert(parse_entries(Seq::<Seq<u8>>::empty()) == Seq::<(Seq<char>, FileStatus)>::empty());
    assert(seq![e][0] == e);
    assert(parse_entries(seq![e]) =~= seq![(lenient_text(e.subrange(3, e.len() as int)), status_of_code(e[0], e[1]))]);
}

/// The changed files listed by `git status --porcelain=v1 -z` output.
pub open spec fn parse_status_spec(bytes: Seq<u8>) -> Seq<(Seq<char>, FileStatus)> {
    parse_entries(nonempty_fields(bytes, 0))
}

/// Parses the NUL-separated output of `git status --porcelain=v1 -z`.
pub fn parse_status(bytes: &[u8]) -> (files: Vec<ChangedFile>)
    ensures
        file_views(files@) == parse_status_spec(bytes@),
{
    let entries = split_nonempty(bytes, 0);
    let ghost all = byte_views(entries@);
    let mut files: Vec<ChangedFile> = Vec::new();
    let mut index: usize = 0;
    assert(all.subrange(0, all.len() as int) =~= all);
    while index < entries.len()
        invariant
            0 <= index <= entries.len(),
            all == byte_views(entries@),
            all.len() == entries.len(),
            file_views(files@) + parse_entries(all.subrange(index as int, all.len() as int))
                == parse_entries(all),
        decreases entries.len() - index,
    {
        let ghost rest = all.subrange(index as int, all.len() as int);
        assert(rest.drop_first() =~= all.subrange(index + 1, all.len() as int));
        let entry = &entries[index];
        assert(entry@ == rest[0]);
        if entry.len() < 4 {
            index = index + 1;
        } else {
            let x = entry[0];
            let y = entry[1];
            let status = if x == '?' as u8 && y == '?' as u8 {
                FileStatus::Untracked
            } else if x == 'D' as u8 || y == 'D' as u8 {
                FileStatus::Deleted
            } else if x == 'R' as u8 || y == 'R' as u8 {
                FileStatus::Renamed
            } else if x == 'A' as u8 || y == 'A' as u8 {
                FileStatus::Added
            } else {
                FileStatus::Modified
            };
            let path = decode_lossy(vstd::slice::slice_subrange(entry.as_slice(), 3, entry.len()));
            let ghost before = files@;
            files.push(ChangedFile { path, status });
            assert(file_views(files@) =~= file_views(before).push((path@, status)));
            let step: usize = if (x == 'R' as u8 || y == 'R' as u8 || x == 'C' as u8 || y == 'C' as u8) && entries.len() - index >= 2 {
                2
            } else {
                1
            };
            assert(rest.subrange(step as int, rest.len() as int) =~= all.subrange(index + step, all.len() as int));
            assert(file_views(files@) + parse_entries(all.subrange(index + step, all.len() as int))
                =~= file_views(before) + parse_entries(rest));
            index = index + step;
        }
    }
    assert(all.subrange(index as int, all.len() as int) =~= Seq::<Seq<u8>>::empty());
    assert(file_views(files@) + parse_entries(Seq::<Seq<u8>>::empty()) =~= file_views(files@));
    files
}

/// Paths ascend (ties allowed) along `s`.
pub open spec fn paths_ascending(s: Seq<(Seq<char>, FileStatus)>) -> bool {
    forall|i: int, j: int| 0 <= i < j < s.len() ==> #[trigger] path_order(s[i].0, s[j].0) <= 0
}

/// Every path of `a` is at most every path of `b`.
pub open spec fn paths_below(a: Seq<(Seq<char>, FileStatus)>, b: Seq<(Seq<char>, FileStatus)>) -> bool {
    forall|i: int, j: int|
        0 <= i < a.len() && 0 <= j < b.len() ==> #[trigger] path_order(a[i].0, b[j].0) <= 0
}

/// `path_order` is a total preorder.
pub proof fn lemma_path_order(a: Seq<char>, b: Seq<char>, c: Seq<char>)
    ensures
        path_order(a, b) == -path_order(b, a),
        path_order(a, a) == 0,
        path_order(a, b) <= 0 && path_order(b, c) <= 0 ==> path_order(a, c) <= 0,
{
    let ka = path_components(vstd::utf8::encode_utf8(a));
    let kb = path_components(vstd::utf8::encode_utf8(b));
    let kc = path_components(vstd::utf8::encode_utf8(c));
    lemma_fields_order_antisymmetric(ka, kb);
    lemma_fields_order_antisymmetric(ka, ka);
    if fields_order(ka, kb) <= 0 && fields_order(kb, kc) <= 0 {
        lemma_fields_order_transitive(ka, kb, kc);
    }
}

/// Compares the paths of two changed files as `path_order` does.
fn compare_paths(a: &ChangedFile, b: &ChangedFile) -> (c: i8)
    ensures
        c == path_order(a.path@, b.path@),
{
    let ka = path_key(a.path.as_str());
    let kb = path_key(b.path.as_str());
    compare_fields(&ka, &kb)
}

/// The entries of `s` whose path compares equal to `k`, in order.
pub open spec fn path_class(s: Seq<(Seq<char>, FileStatus)>, k: Seq<char>) -> Seq<(Seq<char>, FileStatus)>
    decreases s.len(),
{
    if s.len() == 0 {
        s
    } else if path_order(s.last().0, k) == 0 {
        path_class(s.drop_last(), k).push(s.last())
    } else {
        path_class(s.drop_last(), k)
    }
}

/// Taking a class distributes over concatenation.
proof fn lemma_path_class_add(a: Seq<(Seq<char>, FileStatus)>, b: Seq<(Seq<char>, FileStatus)>, k: Seq<char>)
    ensures
        path_class(a + b, k) == path_class(a, k) + path_class(b, k),
    decreases b.len(),
{
    if b.len() == 0 {
        assert(a + b =~= a);
        assert(path_class(a, k) + path_class(b, k) =~= path_class(a, k));
    } else {
        lemma_path_class_add(a, b.drop_last(), k);
        assert((a + b).drop_last() =~= a + b.drop_last());
        assert((a + b).last() == b.last());
        assert((path_class(a, k) + path_class(b.drop_last(), k)).push(b.last()) =~= path_class(a, k)
            + path_class(b.drop_last(), k).push(b.last()));
    }
}

/// A sequence with no entry equal to `k` has an empty class.
proof fn lemma_path_class_none(s: Seq<(Seq<char>, FileStatus)>, k: Seq<char>)
    requires
        forall|i: int| 0 <= i < s.len() ==> path_order(#[trigger] s[i].0, k) != 0,
    ensures
        path_class(s, k) == Seq::<(Seq<char>, FileStatus)>::empty(),
    decreases s.len(),
{
    if s.len() > 0 {
        assert(path_order(s[s.len() - 1].0, k) != 0);
        lemma_path_class_none(s.drop_last(), k);
    }
}

/// The class of a single entry.
proof fn lemma_path_class_single(x: (Seq<char>, FileStatus), k: Seq<char>)
    ensures
        path_class(seq![x], k) == (if path_order(x.0, k) == 0 {
            seq![x]
        } else {
            Seq::<(Seq<char>, FileStatus)>::empty()
        }),
{
    let e = seq![x].drop_last();
    assert(e =~= Seq::<(Seq<char>, FileStatus)>::empty());
    assert(path_class(e, k) == e);
    assert(seq![x].last() == x);
    assert(e.push(x) =~= seq![x]);
}

/// One step of the merge keeps the classes of what is left and what has
/// been placed: an entry from the left run is placed only when the right
/// run holds nothing equal to it.
proof fn lemma_merge_step_classes(
    lv: Seq<(Seq<char>, FileStatus)>,
    rv: Seq<(Seq<char>, FileStatus)>,
    dv: Seq<(Seq<char>, FileStatus)>,
    nl: Seq<(Seq<char>, FileStatus)>,
    nr: Seq<(Seq<char>, FileStatus)>,
    xv: (Seq<char>, FileStatus),
    take_left: bool,
    k: Seq<char>,
)
    requires
        take_left ==> lv == nl.push(xv) && rv == nr && forall|i: int|
            0 <= i < nr.len() ==> path_order(#[trigger] nr[i].0, xv.0) < 0,
        !take_left ==> rv == nr.push(xv) && lv == nl,
    ensures
        path_class(lv, k) + path_class(rv, k) + path_class(dv.reverse(), k) == path_class(nl, k)
            + path_class(nr, k) + path_class(dv.push(xv).reverse(), k),
{
    let cx = path_class(seq![xv], k);
    let cd = path_class(dv.reverse(), k);
    assert(dv.push(xv).reverse() =~= seq![xv] + dv.reverse());
    lemma_path_class_add(seq![xv], dv.reverse(), k);
    lemma_path_class_single(xv, k);
    if take_left {
        assert(nl.push(xv) =~= nl + seq![xv]);
        lemma_path_class_add(nl, seq![xv], k);
        if path_order(xv.0, k) == 0 {
            assert forall|i: int| 0 <= i < nr.len() implies path_order(#[trigger] nr[i].0, k) != 0 by {
                assert(path_order(nr[i].0, xv.0) < 0);
                if path_order(nr[i].0, k) == 0 {
                    lemma_path_order(nr[i].0, k, xv.0);
                    lemma_path_order(xv.0, k, nr[i].0);
                    lemma_path_order(nr[i].0, xv.0, k);
                }
            }
            lemma_path_class_none(nr, k);
        } else {
            assert(cx =~= Seq::<(Seq<char>, FileStatus)>::empty());
        }
        assert(path_class(nl, k) + cx + path_class(nr, k) + cd =~= path_class(nl, k) + path_class(
            nr,
            k,
        ) + (cx + cd));
    } else {
        assert(nr.push(xv) =~= nr + seq![xv]);
        lemma_path_class_add(nr, seq![xv], k);
        assert(path_class(nl, k) + (path_class(nr, k) + cx) + cd =~= path_class(nl, k) + path_class(
            nr,
            k,
        ) + (cx + cd));
    }
}

/// Merges two runs whose paths ascend into one, taking ties from the
/// left run first.
fn merge(l: Vec<ChangedFile>, r: Vec<ChangedFile>) -> (out: Vec<ChangedFile>)
    requires
        paths_ascending(file_views(l@)),
        paths_ascending(file_views(r@)),
    ensures
        paths_ascending(file_views(out@)),
        file_views(out@).to_multiset() == file_views(l@).to_multiset().add(
            file_views(r@).to_multiset(),
        ),
        forall|k: Seq<char>| #[trigger] path_class(file_views(out@), k) == path_class(file_views(l@), k)
            + path_class(file_views(r@), k),
{
    broadcast use vstd::seq_lib::group_to_multiset_ensures;

    let ghost total = file_views(l@).to_multiset().add(file_views(r@).to_multiset());
    let ghost l0 = file_views(l@);
    let ghost r0 = file_views(r@);
    let mut l = l;
    let mut r = r;
    let mut desc: Vec<ChangedFile> = Vec::new();
    proof {
        assert forall|k: Seq<char>| #[trigger] path_class(l0, k) + path_class(r0, k) == path_class(
            file_views(l@),
            k,
        ) + path_class(file_views(r@), k) + path_class(file_views(desc@).reverse(), k) by {
            assert(file_views(desc@).reverse() =~= Seq::<(Seq<char>, FileStatus)>::empty());
            assert(path_class(l0, k) + path_class(r0, k) =~= path_class(l0, k) + path_class(r0, k)
                + path_class(file_views(desc@).reverse(), k));
        }
    }
    while l.len() > 0 || r.len() > 0
        invariant
            paths_ascending(file_views(l@)),
            paths_ascending(file_views(r@)),
            paths_below(file_views(l@), file_views(desc@)),
            paths_below(file_views(r@), file_views(desc@)),
            forall|i: int, j: int|
                0 <= i < j < desc.len() ==> #[trigger] path_order(
                    file_views(desc@)[j].0,
                    file_views(desc@)[i].0,
                ) <= 0,
            file_views(desc@).to_multiset().add(file_views(l@).to_multiset()).add(
                file_views(r@).to_multiset(),
            ) == total,
            forall|k: Seq<char>| #[trigger] path_class(l0, k) + path_class(r0, k) == path_class(
                file_views(l@),
                k,
            ) + path_class(file_views(r@), k) + path_class(file_views(desc@).reverse(), k),
        decreases l.len() + r.len(),
    {
        let ghost lv = file_views(l@);
        let ghost rv = file_views(r@);
        let ghost dv = file_views(desc@);
        let take_left = if l.len() == 0 {
            false
        } else if r.len() == 0 {
            true
        } else {
            compare_paths(&l[l.len() - 1], &r[r.len() - 1]) > 0
        };
        let x = if take_left {
            l.pop().unwrap()
        } else {
            r.pop().unwrap()
        };
        let ghost xv = x@;
        let ghost nl = file_views(l@);
        let ghost nr = file_views(r@);
        proof {
            if take_left {
                assert(lv =~= nl.push(xv));
                assert(rv =~= nr);
            } else {
                assert(rv =~= nr.push(xv));
                assert(lv =~= nl);
            }
            assert forall|i: int| 0 <= i < nl.len() implies #[trigger] path_order(nl[i].0, xv.0)
                <= 0 by {
                assert(nl[i] == lv[i]);
                lemma_path_order(lv[i].0, lv[lv.len() - 1].0, xv.0);
                if i < lv.len() - 1 {
                    assert(path_order(lv[i].0, lv[lv.len() - 1].0) <= 0);
                }
                if !take_left {
                    lemma_path_order(lv[lv.len() - 1].0, rv[rv.len() - 1].0, xv.0);
                }
            }
            assert forall|i: int| 0 <= i < nr.len() implies #[trigger] path_order(nr[i].0, xv.0)
                <= 0 by {
                assert(nr[i] == rv[i]);
                lemma_path_order(rv[i].0, rv[rv.len() - 1].0, xv.0);
                if i < rv.len() - 1 {
                    assert(path_order(rv[i].0, rv[rv.len() - 1].0) <= 0);
                }
                if take_left {
                    lemma_path_order(lv[lv.len() - 1].0, rv[rv.len() - 1].0, xv.0);
                }
            }
            assert forall|j: int| 0 <= j < dv.len() implies #[trigger] path_order(xv.0, dv[j].0)
                <= 0 by {
                if take_left {
                    assert(path_order(lv[lv.len() - 1].0, dv[j].0) <= 0);
                } else {
                    assert(path_order(rv[rv.len() - 1].0, dv[j].0) <= 0);
                }
            }
            assert forall|i: int, j: int| 0 <= i < j < nl.len() implies #[trigger] path_order(
                nl[i].0,
                nl[j].0,
            ) <= 0 by {
                assert(nl[i] == lv[i] && nl[j] == lv[j]);
            }
            assert forall|i: int, j: int| 0 <= i < j < nr.len() implies #[trigger] path_order(
                nr[i].0,
                nr[j].0,
            ) <= 0 by {
                assert(nr[i] == rv[i] && nr[j] == rv[j]);
            }
            assert forall|i: int, j: int| 0 <= i < nl.len() && 0 <= j < dv.len() implies #[trigger] path_order(
                nl[i].0,
                dv[j].0,
            ) <= 0 by {
                assert(nl[i] == lv[i]);
            }
            assert forall|i: int, j: int| 0 <= i < nr.len() && 0 <= j < dv.len() implies #[trigger] path_order(
                nr[i].0,
                dv[j].0,
            ) <= 0 by {
                assert(nr[i] == rv[i]);
            }
            if take_left {
                assert forall|i: int| 0 <= i < nr.len() implies path_order(#[trigger] nr[i].0, xv.0)
                    < 0 by {
                    assert(nr[i] == rv[i]);
                    lemma_path_order(xv.0, rv[i].0, rv[rv.len() - 1].0);
                    if i < rv.len() - 1 {
                        assert(path_order(rv[i].0, rv[rv.len() - 1].0) <= 0);
                    }
                }
            }
            assert forall|k: Seq<char>| #[trigger] path_class(l0, k) + path_class(r0, k) == path_class(
                nl,
                k,
            ) + path_class(nr, k) + path_class(dv.push(xv).reverse(), k) by {
                lemma_merge_step_classes(lv, rv, dv, nl, nr, xv, take_left, k);
            }
            if take_left {
                vstd::seq_lib::to_multiset_build(nl, xv);
                assert(lv.to_multiset() == nl.to_multiset().insert(xv));
            } else {
                vstd::seq_lib::to_multiset_build(nr, xv);
                assert(rv.to_multiset() == nr.to_multiset().insert(xv));
            }
        }
        desc.push(x);
        assert(file_views(desc@) =~= dv.push(xv));
        proof { vstd::seq_lib::to_multiset_build(dv, xv); }
        assert(file_views(desc@).to_multiset().add(nl.to_multiset()).add(nr.to_multiset())
            =~= dv.to_multiset().add(lv.to_multiset()).add(rv.to_multiset()));
    }
    let ghost d = file_views(desc@);
    let out = reversed(desc);
    assert(file_views(out@) =~= d.reverse());
    proof {
        d.lemma_reverse_to_multiset();
        assert(file_views(l@).to_multiset() =~= Multiset::empty());
        assert(file_views(r@).to_multiset() =~= Multiset::empty());
        assert forall|k: Seq<char>| #[trigger] path_class(file_views(out@), k) == path_class(l0, k)
            + path_class(r0, k) by {
            assert(file_views(l@) =~= Seq::<(Seq<char>, FileStatus)>::empty());
            assert(file_views(r@) =~= Seq::<(Seq<char>, FileStatus)>::empty());
            assert(path_class(l0, k) + path_class(r0, k) =~= path_class(d.reverse(), k));
        }
        assert forall|i: int, j: int| 0 <= i < j < file_views(out@).len() implies #[trigger] path_order(
            file_views(out@)[i].0,
            file_views(out@)[j].0,
        ) <= 0 by {
            assert(file_views(out@)[i] == d[d.len() - 1 - i]);
            assert(file_views(out@)[j] == d[d.len() - 1 - j]);
        }
    }
    out
}

/// Sorts changed files by path, in the order of `Path`'s comparison;
/// files with equal paths keep their order (each class of equal paths
/// comes out as it went in).
pub fn sort_by_path(files: Vec<ChangedFile>) -> (sorted: Vec<ChangedFile>)
    ensures
        file_views(sorted@).to_multiset() == file_views(files@).to_multiset(),
        paths_ascending(file_views(sorted@)),
        forall|k: Seq<char>| #[trigger] path_class(file_views(sorted@), k) == path_class(
            file_views(files@),
            k,
        ),
    decreases files.len(),
{
    if files.len() <= 1 {
        return files;
    }
    let ghost whole = file_views(files@);
    let mut left = files;
    let mid = left.len() / 2;
    let right = left.split_off(mid);
    proof {
        assert(whole =~= file_views(left@) + file_views(right@));
        vstd::seq_lib::lemma_multiset_commutative(file_views(left@), file_views(right@));
    }
    let ghost lv = file_views(left@);
    let ghost rv = file_views(right@);
    let l = sort_by_path(left);
    let r = sort_by_path(right);
    let out = merge(l, r);
    proof {
        assert forall|k: Seq<char>| #[trigger] path_class(file_views(out@), k) == path_class(whole, k) by {
            lemma_path_class_add(lv, rv, k);
        }
    }
    out
}

/// The changed files listed by `git status --porcelain=v1 -z` output,
/// sorted by path.
pub fn changed_files_from_status(bytes: &[u8]) -> (files: Vec<ChangedFile>)
    ensures
        file_views(files@).to_multiset() == parse_status_spec(bytes@).to_multiset(),
        paths_ascending(file_views(files@)),
        forall|k: Seq<char>| #[trigger] path_class(file_views(files@), k) == path_class(
            parse_status_spec(bytes@),
            k,
        ),
{
    let parsed = parse_status(bytes);
    sort_by_path(parsed)
}

/// Whether a file has a version in `HEAD` to compare with: added and
/// untracked files have none.
pub open spec fn has_head_version_spec(status: FileStatus) -> bool {
    !(status == FileStatus::Added || status == FileStatus::Untracked)
}

/// Whether a file has a version in `HEAD` to compare with.
pub fn has_head_version(status: FileStatus) -> (has: bool)
    ensures
        has == has_head_version_spec(status),
{
    !matches!(status, FileStatus::Added | FileStatus::Untracked)
}

/// The object name `HEAD:<path>` that asks Git for a file's committed
/// version.
pub fn head_object_name(path: &str) -> (name: String)
    ensures
        name@ == "HEAD:"@ + path@,
{
    let mut name = "HEAD:".to_owned();
    name.append(path);
    name
}

/// The state of a left-to-right scan that splits `s` into words at
/// whitespace: the words already closed, and the word still open.
pub open spec fn word_state(s: Seq<char>) -> (Seq<Seq<char>>, Seq<char>)
    decreases s.len(),
{
    if s.len() == 0 {
        (seq![], seq![])
    } else {
        let (done, open) = word_state(s.drop_last());
        if is_white(s.last()) {
            if open.len() > 0 {
                (done.push(open), seq![])
            } else {
                (done, seq![])
            }
        } else {
            (done, open.push(s.last()))
        }
    }
}

/// The words of `s`, as `str::split_whitespace` yields them.
pub open spec fn words_of(s: Seq<char>) -> Seq<Seq<char>> {
    let (done, open) = word_state(s);
    if open.len() > 0 {
        done.push(open)
    } else {
        done
    }
}

pub open spec fn is_digit_char(c: char) -> bool {
    '0' <= c && c <= '9'
}

pub open spec fn all_digits(d: Seq<char>) -> bool {
    forall|i: int| 0 <= i < d.len() ==> is_digit_char(#[trigger] d[i])
}

/// The number that decimal digits spell.
pub open spec fn decimal_value(d: Seq<char>) -> int
    decreases d.len(),
{
    if d.len() == 0 {
        0
    } else {
        decimal_value(d.drop_last()) * 10 + (d.last() as int - '0' as int)
    }
}

/// A word read as a `usize` the way `str::parse::<usize>` reads it: an
/// optional `+`, then at least one decimal digit, with a value that fits.
/// The digits of a word that `str::parse::<usize>` reads: all of it but a
/// leading `+`.
pub open spec fn usize_digits(w: Seq<char>) -> Seq<char> {
    if w.len() > 0 && w[0] == '+' { w.drop_first() } else { w }
}

pub open spec fn parse_usize(w: Seq<char>) -> Option<usize> {
    let digits = usize_digits(w);
    if digits.len() > 0 && all_digits(digits) && decimal_value(digits) <= usize::MAX {
        Some(decimal_value(digits) as usize)
    } else {
        None
    }
}

/// The object size in a `git cat-file --batch` header line
/// (`<object> <type> <size>`): its third word, read as a number.
pub open spec fn object_size_spec(header: Seq<char>) -> Option<usize> {
    let words = words_of(header);
    if words.len() > 2 {
        parse_usize(words[2])
    } else {
        None
    }
}

/// Reads a word as a `usize`.
fn parse_usize_chars(w: &Vec<char>) -> (n: Option<usize>)
    ensures
        n == parse_usize(w@),
{
    let start: usize = if w.len() > 0 && w[0] == '+' { 1 } else { 0 };
    let ghost digits = usize_digits(w@);
    assert(digits =~= w@.skip(start as int));
    if start >= w.len() {
        return None;
    }
    let mut k = start;
    while k < w.len()
        invariant
            start <= k <= w.len(),
            digits =~= w@.skip(start as int),
            digits == usize_digits(w@),
            forall|j: int| 0 <= j < k - start ==> is_digit_char(#[trigger] digits[j]),
        decreases w.len() - k,
    {
        if !('0' <= w[k] && w[k] <= '9') {
            assert(!is_digit_char(digits[k - start]));
            assert(!all_digits(digits));
            assert(parse_usize(w@) is None);
            return None;
        }
        k = k + 1;
    }
    assert(all_digits(digits));
    let mut value: usize = 0;
    let mut i = start;
    while i < w.len()
        invariant
            start <= i <= w.len(),
            digits =~= w@.skip(start as int),
            digits == usize_digits(w@),
            all_digits(digits),
            value == decimal_value(digits.take(i - start)),
        decreases w.len() - i,
    {
        let c = w[i];
        assert(digits.take(i - start + 1).drop_last() =~= digits.take(i - start));
        assert(digits[i - start] == c);
        assert(is_digit_char(c));
        let d = (c as u32 - '0' as u32) as usize;
        assert(d == c as int - '0' as int);
        assert(decimal_value(digits.take(i - start + 1)) == value * 10 + d);
        let next = match value.checked_mul(10) {
            Some(v) => v.checked_add(d),
            None => None,
        };
        match next {
            Some(v) => {
                value = v;
            },
            None => {
                proof {
                    lemma_decimal_prefix_bound(digits, i - start + 1);
                }
                assert(decimal_value(digits) > usize::MAX);
                assert(parse_usize(w@) is None);
                return None;
            },
        }
        i = i + 1;
    }
    assert(digits.take(w.len() - start) =~= digits);
    Some(value)
}

/// A prefix of digits never spells more than the whole.
proof fn lemma_decimal_prefix_bound(d: Seq<char>, k: int)
    requires
        0 <= k <= d.len(),
        all_digits(d),
    ensures
        decimal_value(d.take(k)) <= decimal_value(d),
    decreases d.len() - k,
{
    if k < d.len() {
        lemma_decimal_prefix_bound(d, k + 1);
        assert(d.take(k + 1).drop_last() =~= d.take(k));
        assert(is_digit_char(d[k]));
        lemma_decimal_nonneg(d.take(k));
    } else {
        assert(d.take(k) =~= d);
    }
}

proof fn lemma_decimal_nonneg(d: Seq<char>)
    requires
        all_digits(d),
    ensures
        decimal_value(d) >= 0,
    decreases d.len(),
{
    if d.len() > 0 {
        assert(is_digit_char(d.last()));
        assert(all_digits(d.drop_last()));
        lemma_decimal_nonneg(d.drop_last());
    }
}

/// Reads the object size from a `git cat-file --batch` header line.
pub fn object_size(header: &str) -> (size: Option<usize>)
    ensures
        size == object_size_spec(header@),
{
    let chars = chars_of(header);
    let ghost s = header@;
    let mut done: Vec<Vec<char>> = Vec::new();
    let mut open: Vec<char> = Vec::new();
    let mut i: usize = 0;
    while i < chars.len()
        invariant
            chars@ == s,
            0 <= i <= chars.len(),
            (done@.map_values(|w: Vec<char>| w@), open@) == word_state(s.take(i as int)),
        decreases chars.len() - i,
    {
        assert(s.take(i + 1).drop_last() =~= s.take(i as int));
        let c = chars[i];
        if is_whitespace(c) {
            if open.len() > 0 {
                let ghost before = done@;
                let mut w: Vec<char> = Vec::new();
                std::mem::swap(&mut w, &mut open);
                done.push(w);
                assert(done@.map_values(|w: Vec<char>| w@) =~= before.map_values(|w: Vec<char>| w@).push(w@));
            }
        } else {
            open.push(c);
        }
        i = i + 1;
    }
    assert(s.take(s.len() as int) =~= s);
    if open.len() > 0 {
        let ghost before = done@;
        let ghost last = open@;
        done.push(open);
        assert(done@.map_values(|w: Vec<char>| w@) =~= before.map_values(|w: Vec<char>| w@).push(last));
    }
    assert(done@.map_values(|w: Vec<char>| w@) == words_of(s));
    if done.len() > 2 {
        parse_usize_chars(&done[2])
    } else {
        None
    }
}

/// What Git printed, decoded leniently and with surrounding whitespace
/// trimmed: a repository root, or the text of an error.
pub fn output_text(bytes: &[u8]) -> (text: String)
    ensures
        text@ == trim(lenient_text(bytes@)),
{
    let decoded = decode_lossy(bytes);
    let chars = chars_of(decoded.as_str());
    let trimmed = trim_chars(chars.as_slice());
    string_from_chars(trimmed.as_slice())
}

} // verus!
