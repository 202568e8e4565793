use visual_diff::recent::{recent_repos_from_text, recent_repos_text};
use visual_diff::diff::{diff_cell_data, DiffKind, DiffRow, PreparedDiff};
use visual_diff::git::FileStatus;
use visual_diff::images::ImageClassification;
use visual_diff::session::{key_by_path, remember_repository, Command, Event, Session, TextLayout};

fn open(session: &mut Session) {
    let commands = session.update(Event::OpenRepository("/work/repo/sub".into()));
    assert!(matches!(&commands[..], [Command::ResolveRepository(p)] if p == "/work/repo/sub"));
    let commands = session.update(Event::RepositoryResolved(Ok("/work/repo".into())));
    assert_eq!(commands.len(), 2);
    assert!(matches!(&commands[0], Command::SaveRecentRepos(r) if r[0] == "/work/repo"));
    assert!(matches!(&commands[1], Command::ReadStatus(r) if r == "/work/repo"));
}

#[test]
fn opening_a_repository_reads_its_status_and_selects_the_first_file() {
    let mut session = Session::new(vec!["/old".into(), "/work/repo".into()]);
    open(&mut session);
    assert_eq!(session.recent_repos, vec!["/work/repo".to_string(), "/old".to_string()]);
    let commands = session.update(Event::StatusRead(Ok(b" M z.txt\0?? a.png\0".to_vec())));
    assert_eq!(session.files[0].path, "a.png");
    assert_eq!(session.image_classification_generation, 2);
    assert_eq!(commands.len(), 2);
    assert!(matches!(&commands[0], Command::LoadVersions { index: 0, file, .. } if file.path == "a.png"));
    assert!(matches!(&commands[1], Command::ClassifyImages { generation: 2, files, .. } if files.len() == 1));
    assert!(session.classifying_images);
}

#[test]
fn loading_text_versions_prepares_a_diff() {
    let mut session = Session::new(Vec::new());
    open(&mut session);
    session.update(Event::StatusRead(Ok(b" M notes.json\0".to_vec())));
    let commands = session.update(Event::VersionsLoaded(0, Ok((b"{}".to_vec(), b"[]".to_vec()))));
    assert_eq!(session.selected, Some(0));
    assert!(session.preparing_diff);
    assert!(matches!(&commands[..], [Command::PrepareDiff { generation: 1, is_json: true, .. }]));

    let row = DiffRow {
        left: diff_cell_data(" ", "x", DiffKind::Unchanged, false),
        right: diff_cell_data(" ", "x", DiffKind::Unchanged, false),
        changed: false,
    };
    // a result for an older generation is ignored
    session.update(Event::DiffPrepared(0, Ok(PreparedDiff { rows: vec![] })));
    assert!(session.prepared_diff.is_none());
    assert!(session.preparing_diff);
    session.update(Event::DiffPrepared(1, Ok(PreparedDiff { rows: vec![row] })));
    assert!(!session.preparing_diff);
    assert_eq!(session.prepared_diff.as_ref().unwrap().rows.len(), 1);
}

#[test]
fn typing_ignored_keys_debounces_and_outdates_earlier_work() {
    let mut session = Session::new(Vec::new());
    open(&mut session);
    session.update(Event::StatusRead(Ok(b" M a.json\0".to_vec())));
    session.update(Event::VersionsLoaded(0, Ok((b"{}".to_vec(), b"{}".to_vec()))));
    session.update(Event::ExpandSection(4));
    let commands = session.update(Event::IgnoredKeysChanged("id".into()));
    assert!(matches!(&commands[..], [Command::Debounce(2)]));
    assert!(session.expanded_sections.is_empty());
    assert!(session.update(Event::BeginPreparation(1)).is_empty());
    let commands = session.update(Event::BeginPreparation(2));
    assert!(matches!(&commands[..], [Command::PrepareDiff { generation: 2, ignored_keys, .. }] if ignored_keys == "id"));
    session.update(Event::DiffPrepared(2, Err("Invalid JSON: x".into())));
    assert_eq!(session.diff_error.as_deref(), Some("Invalid JSON: x"));
}

#[test]
fn pixel_identical_images_are_hidden_and_the_selection_moves() {
    let mut session = Session::new(Vec::new());
    open(&mut session);
    session.update(Event::StatusRead(Ok(b" M a.png\0 M b.txt\0".to_vec())));
    session.update(Event::VersionsLoaded(0, Ok((vec![1], vec![2]))));
    assert_eq!(session.selected, Some(0));
    // stale classification results change nothing
    assert!(session.update(Event::ImagesClassified(1, Ok(vec![("a.png".into(), ImageClassification::PixelIdentical)]))).is_empty());
    assert!(session.classifying_images);
    let commands = session.update(Event::ImagesClassified(
        2,
        Ok(vec![("a.png".into(), ImageClassification::PixelIdentical)]),
    ));
    assert!(matches!(&commands[..], [Command::LoadVersions { index: 1, .. }]));
    assert_eq!(session.visible_count(), 1);
    assert_eq!(session.identical_count(), 1);
    assert!(!session.file_visible(0));
    assert_eq!(session.first_visible_file(), Some(1));
    session.update(Event::ShowPixelIdenticalChanged(true));
    assert!(session.file_visible(0));
    assert_eq!(session.visible_count(), 2);
}

#[test]
fn failures_are_reported() {
    let mut session = Session::new(Vec::new());
    session.update(Event::RepositoryResolved(Err("/tmp is not a Git repository".into())));
    assert_eq!(session.error.as_deref(), Some("/tmp is not a Git repository"));
    assert!(session.update(Event::Refresh).is_empty());
    open(&mut session);
    assert!(session.error.is_none());
    session.update(Event::StatusRead(Err("fatal".into())));
    assert_eq!(session.error.as_deref(), Some("fatal"));
    let commands = session.update(Event::StatusRead(Ok(Vec::new())));
    assert!(commands.is_empty());
    assert!(session.selected.is_none());
    session.update(Event::TextLayoutChanged(TextLayout::Unified));
    assert_eq!(session.text_layout, TextLayout::Unified);
    assert!(matches!(&session.update(Event::ChooseRepository)[..], [Command::PickFolder]));
    assert!(session.update(Event::RepositoryPicked(None)).is_empty());
}

#[test]
fn images_are_not_prepared_as_text() {
    let mut session = Session::new(Vec::new());
    open(&mut session);
    session.update(Event::StatusRead(Ok(b"A  pic.gif\0".to_vec())));
    assert_eq!(session.files[0].status, FileStatus::Added);
    let commands = session.update(Event::VersionsLoaded(0, Ok((Vec::new(), vec![1]))));
    assert!(commands.is_empty());
    assert!(!session.preparing_diff);
}

#[test]
fn recent_repositories_move_to_the_front_and_stay_few() {
    let recent: Vec<String> = (0..8).map(|i| format!("/r{i}")).collect();
    let updated = remember_repository(&recent, &"/r5".to_string());
    assert_eq!(updated.len(), 8);
    assert_eq!(updated[0], "/r5");
    assert_eq!(updated[1], "/r0");
    let updated = remember_repository(&recent, &"/new".to_string());
    assert_eq!(updated.len(), 8);
    assert_eq!(updated[7], "/r6");
}

#[test]
fn stored_repository_lists_read_back_unchanged() {
    let repos = vec!["/a/b".to_string(), "/c d".to_string(), "/e".to_string()];
    let text = recent_repos_text(&repos);
    assert_eq!(text, "/a/b\n/c d\n/e");
    assert_eq!(recent_repos_from_text(&text), repos);
    assert_eq!(recent_repos_from_text("x\r\ny\n\nz\n"), vec!["x", "y", "", "z"]);
    assert_eq!(recent_repos_from_text("w\r"), vec!["w\r"]);
    assert!(recent_repos_from_text("").is_empty());
    assert_eq!(recent_repos_text(&Vec::new()), "");
}

#[test]
fn recent_list_drops_the_same_path_written_differently() {
    let recent = vec!["/a/b/".to_string(), "/c".to_string()];
    let updated = remember_repository(&recent, &"/a/b".to_string());
    assert_eq!(updated, vec!["/a/b".to_string(), "/c".to_string()]);
}

#[test]
fn classifications_keep_the_last_entry_per_path() {
    let keyed = key_by_path(vec![
        ("a.png".to_string(), ImageClassification::VisuallyChanged),
        ("b.png".to_string(), ImageClassification::PixelIdentical),
        ("a.png".to_string(), ImageClassification::PixelIdentical),
    ]);
    assert_eq!(
        keyed,
        vec![
            ("b.png".to_string(), ImageClassification::PixelIdentical),
            ("a.png".to_string(), ImageClassification::PixelIdentical),
        ]
    );
}
