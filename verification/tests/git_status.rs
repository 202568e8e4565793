use visual_diff::git::{
    changed_files_from_status, has_head_version, head_object_name, object_size, output_text, parse_status,
    sort_by_path, ChangedFile, FileStatus,
};

#[test]
fn parses_common_porcelain_entries() {
    let files = parse_status(b" M src/main.rs\0?? new file.json\0D  old.png\0");

    assert_eq!(
        files,
        vec![
            ChangedFile {
                path: "src/main.rs".into(),
                status: FileStatus::Modified,
            },
            ChangedFile {
                path: "new file.json".into(),
                status: FileStatus::Untracked,
            },
            ChangedFile {
                path: "old.png".into(),
                status: FileStatus::Deleted,
            },
        ]
    );
}

#[test]
fn consumes_rename_source_path() {
    let files = parse_status(b"R  renamed.txt\0original.txt\0 M next.txt\0");

    assert_eq!(files.len(), 2);
    assert_eq!(files[0].path, String::from("renamed.txt"));
    assert_eq!(files[1].path, String::from("next.txt"));
}

#[test]
fn copies_also_consume_their_source_path() {
    let files = parse_status(b"C  copy.txt\0source.txt\0A  added.txt\0");
    assert_eq!(files.len(), 2);
    assert_eq!(files[0].path, "copy.txt");
    assert_eq!(files[0].status, FileStatus::Modified);
    assert_eq!(files[1].status, FileStatus::Added);
}

#[test]
fn skips_short_entries_and_empty_fields() {
    let files = parse_status(b"\0\0?? \0 M\0 M a\0MM b.txt\0");
    assert_eq!(
        files,
        vec![
            ChangedFile {
                path: "a".into(),
                status: FileStatus::Modified,
            },
            ChangedFile {
                path: "b.txt".into(),
                status: FileStatus::Modified,
            },
        ]
    );
}

#[test]
fn status_codes_pick_the_strongest_status() {
    let files = parse_status(b"AD a\0AM c\0?? d\0 T e\0RM b\0source\0");
    let statuses: Vec<FileStatus> = files.iter().map(|f| f.status).collect();
    assert_eq!(
        statuses,
        vec![
            FileStatus::Deleted,
            FileStatus::Added,
            FileStatus::Untracked,
            FileStatus::Modified,
            FileStatus::Renamed,
        ]
    );
}

#[test]
fn rename_at_the_end_of_the_output_is_kept() {
    let files = parse_status(b"R  last.txt\0");
    assert_eq!(files.len(), 1);
    assert_eq!(files[0].path, "last.txt");
    assert_eq!(files[0].status, FileStatus::Renamed);
}

#[test]
fn invalid_utf8_paths_are_decoded_lossily() {
    let files = parse_status(b" M a\xffb\0");
    assert_eq!(files[0].path, "a\u{fffd}b");
}

#[test]
fn labels_name_each_status() {
    assert_eq!(FileStatus::Added.label(), "A");
    assert_eq!(FileStatus::Modified.label(), "M");
    assert_eq!(FileStatus::Deleted.label(), "D");
    assert_eq!(FileStatus::Renamed.label(), "R");
    assert_eq!(FileStatus::Untracked.label(), "?");
}

#[test]
fn sorts_by_path_components() {
    let files = changed_files_from_status(b" M b.txt\0 M a.txt\0 M a/b\0?? a b\0");
    let paths: Vec<&str> = files.iter().map(|f| f.path.as_str()).collect();
    // component order puts "a/b" (components "a", "b") before "a b" and "a.txt"
    assert_eq!(paths, vec!["a/b", "a b", "a.txt", "b.txt"]);
}

#[test]
fn sorting_keeps_equal_paths_in_order() {
    let files = vec![
        ChangedFile { path: "z".into(), status: FileStatus::Added },
        ChangedFile { path: "x/".into(), status: FileStatus::Deleted },
        ChangedFile { path: "x".into(), status: FileStatus::Modified },
    ];
    let sorted = sort_by_path(files);
    assert_eq!(sorted[0].status, FileStatus::Deleted);
    assert_eq!(sorted[1].status, FileStatus::Modified);
    assert_eq!(sorted[2].path, "z");
}

#[test]
fn added_and_untracked_files_have_no_head_version() {
    assert!(!has_head_version(FileStatus::Added));
    assert!(!has_head_version(FileStatus::Untracked));
    assert!(has_head_version(FileStatus::Modified));
    assert!(has_head_version(FileStatus::Deleted));
    assert!(has_head_version(FileStatus::Renamed));
}

#[test]
fn names_the_head_object_of_a_path() {
    assert_eq!(head_object_name("assets/logo.png"), "HEAD:assets/logo.png");
}

#[test]
fn reads_object_sizes_from_batch_headers() {
    assert_eq!(object_size("e69de29 blob 6\n"), Some(6));
    assert_eq!(object_size("e69de29 blob +12\n"), Some(12));
    assert_eq!(object_size("HEAD:missing missing\n"), None);
    assert_eq!(object_size("e69de29 blob 1x\n"), None);
    assert_eq!(object_size("e69de29 blob +\n"), None);
    assert_eq!(object_size("e69de29 blob 99999999999999999999999\n"), None);
}

#[test]
fn status_listing_keeps_equal_paths_in_order() {
    let files = changed_files_from_status(b" M b\0?? a/\0D  a\0 M c\0");
    let paths: Vec<&str> = files.iter().map(|f| f.path.as_str()).collect();
    assert_eq!(paths, vec!["a/", "a", "b", "c"]);
    assert_eq!(files[0].status, FileStatus::Untracked);
    assert_eq!(files[1].status, FileStatus::Deleted);
}

#[test]
fn git_output_is_decoded_and_trimmed() {
    assert_eq!(output_text(b"  /work/repo\n"), "/work/repo");
    assert_eq!(output_text(b"\xff\n"), "\u{fffd}");
}
