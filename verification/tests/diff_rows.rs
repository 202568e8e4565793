use std::collections::HashSet;
use visual_diff::diff::{
    diff_cell_data, prepare_diff, rows_from_changes, unified_cell, visible_rows, DiffKind, DiffRow,
    LineChange, VisibleRow,
};

#[test]
fn prepares_and_caches_json_tokens() {
    let diff = prepare_diff(
        br#"{"count":1}"#.to_vec(),
        br#"{"count":2}"#.to_vec(),
        true,
        String::new(),
        false,
    )
    .unwrap();

    assert!(
        diff.rows
            .iter()
            .flat_map(|row| [&row.left, &row.right])
            .filter(|cell| !cell.line.is_empty())
            .all(|cell| !cell.tokens.is_empty())
    );
}

fn unchanged() -> DiffRow {
    DiffRow {
        left: diff_cell_data(" ", "same", DiffKind::Unchanged, false),
        right: diff_cell_data(" ", "same", DiffKind::Unchanged, false),
        changed: false,
    }
}

fn changed() -> DiffRow {
    DiffRow {
        left: diff_cell_data("-", "before", DiffKind::Removed, false),
        right: diff_cell_data("+", "after", DiffKind::Added, false),
        changed: true,
    }
}

#[test]
fn collapses_large_unchanged_sections() {
    let mut rows = vec![changed()];
    rows.extend((0..100_000).map(|_| unchanged()));
    rows.push(changed());

    let visible = visible_rows(&rows, &HashSet::new());

    assert_eq!(visible.len(), 9);
    assert_eq!(
        visible[4],
        VisibleRow::Collapsed {
            start: 1,
            count: 99_994,
        }
    );
}

#[test]
fn expanded_sections_show_every_row() {
    let mut rows = vec![changed()];
    rows.extend((0..20).map(|_| unchanged()));
    rows.push(changed());
    let mut expanded = HashSet::new();
    expanded.insert(1);
    let visible = visible_rows(&rows, &expanded);
    assert_eq!(visible.len(), 22);
    assert!(visible.iter().enumerate().all(|(i, v)| *v == VisibleRow::Line(i)));
}

#[test]
fn leading_and_trailing_runs_keep_context_only_next_to_changes() {
    let mut rows: Vec<DiffRow> = (0..10).map(|_| unchanged()).collect();
    rows.push(changed());
    rows.extend((0..10).map(|_| unchanged()));
    let visible = visible_rows(&rows, &HashSet::new());
    assert_eq!(
        visible,
        vec![
            VisibleRow::Collapsed { start: 0, count: 7 },
            VisibleRow::Line(7),
            VisibleRow::Line(8),
            VisibleRow::Line(9),
            VisibleRow::Line(10),
            VisibleRow::Line(11),
            VisibleRow::Line(12),
            VisibleRow::Line(13),
            VisibleRow::Collapsed { start: 11, count: 7 },
        ]
    );
}

#[test]
fn short_runs_are_never_folded() {
    let rows = vec![changed(), unchanged(), unchanged(), unchanged(), unchanged(), unchanged(), unchanged(), unchanged(), changed()];
    let visible = visible_rows(&rows, &HashSet::new());
    assert_eq!(visible.len(), 9);
    let all_unchanged: Vec<DiffRow> = (0..5).map(|_| unchanged()).collect();
    assert_eq!(visible_rows(&all_unchanged, &HashSet::new()).len(), 5);
    assert!(visible_rows(&[], &HashSet::new()).is_empty());
}

#[test]
fn selects_the_changed_cell_for_unified_rows() {
    let diff = prepare_diff(
        b"same\nbefore\n".to_vec(),
        b"same\nafter\n".to_vec(),
        false,
        String::new(),
        false,
    )
    .unwrap();
    let markers = diff
        .rows
        .iter()
        .map(|row| unified_cell(row).marker)
        .collect::<Vec<_>>();

    assert_eq!(markers, vec![" ", "-", "+"]);
}

#[test]
fn rows_follow_line_changes() {
    let changes = vec![
        (LineChange::Equal, "a\n".to_string()),
        (LineChange::Delete, "b\n\n".to_string()),
        (LineChange::Insert, "c".to_string()),
    ];
    let diff = rows_from_changes(&changes, false);
    assert_eq!(diff.rows.len(), 3);
    assert_eq!(diff.rows[0].left.line, "a");
    assert_eq!(diff.rows[0].right.marker, " ");
    assert!(!diff.rows[0].changed);
    assert_eq!(diff.rows[1].left.line, "b");
    assert_eq!(diff.rows[1].left.kind, DiffKind::Removed);
    assert_eq!(diff.rows[1].right.line, "");
    assert_eq!(diff.rows[2].right.marker, "+");
    assert_eq!(diff.rows[2].right.kind, DiffKind::Added);
    assert!(diff.rows[2].left.tokens.is_empty());
}

#[test]
fn binary_files_are_not_previewed() {
    let error = prepare_diff(vec![0xff, 0xfe], b"text".to_vec(), false, String::new(), false).unwrap_err();
    assert_eq!(error, "Binary preview is not supported for this file type");
}

#[test]
fn json_diffs_strip_keys_before_comparing() {
    let diff = prepare_diff(
        br#"{"id":1,"v":2}"#.to_vec(),
        br#"{"id":9,"v":2}"#.to_vec(),
        true,
        "id".to_string(),
        false,
    )
    .unwrap();
    assert_eq!(diff.rows.len(), 1);
    assert!(!diff.rows[0].changed);
    assert_eq!(diff.rows[0].left.line, r#"{"v":2}"#);
}

#[test]
fn carriage_returns_break_lines() {
    let diff = prepare_diff(b"x\ry\r\nz".to_vec(), b"x\ry\r\nz".to_vec(), false, String::new(), false).unwrap();
    assert_eq!(diff.rows.len(), 3);
    assert!(diff.rows.iter().all(|row| !row.changed));
}
