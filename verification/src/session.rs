//! The decisions of the diff viewer: what it remembers, and what outside
//! work (Git, files, background preparation) each event calls for.
use vstd::prelude::*;
use std::collections::HashSet;
use crate::diff::{row_views, PreparedDiff, RowView};
use crate::git::{changed_files_from_status, file_views, parse_status_spec, path_class, paths_ascending, ChangedFile, FileStatus};
use crate::images::ImageClassification;
use crate::json_doc::string_views;
use crate::paths::{lemma_path_order_equal, same_path, same_path_spec, classifiable_image_extensions, has_extension_in, image_extensions, is_classifiable_image, is_image, is_json};
use vstd::utf8::encode_utf8;

verus! {

/// How many repositories the recent list keeps.
pub const RECENT_LIMIT: usize = 8;

/// How a text diff is laid out.
#[derive(Debug, Clone, Copy, PartialEq, Eq, Structural)]
pub enum TextLayout {
    SideBySide,
    Unified,
}

/// How an image diff is laid out.
#[derive(Debug, Clone, Copy, PartialEq, Eq, Structural)]
pub enum ImageLayout {
    Reveal,
    SideBySide,
}

/// `recent` without the entries that name the same path as `root`.
pub open spec fn without_repo(recent: Seq<Seq<char>>, root: Seq<char>) -> Seq<Seq<char>>
    decreases recent.len(),
{
    if recent.len() == 0 {
        seq![]
    } else {
        let rest = without_repo(recent.drop_last(), root);
        if same_path_spec(recent.last(), root) {
            rest
        } else {
            rest.push(recent.last())
        }
    }
}

/// The recent list after opening `root`: `root` first, then the others
/// (those naming another path) in their order, at most eight in all.
pub open spec fn remembered(recent: Seq<Seq<char>>, root: Seq<char>) -> Seq<Seq<char>> {
    let all = seq![root] + without_repo(recent, root);
    if all.len() <= 8 {
        all
    } else {
        all.take(8)
    }
}

/// Puts `root` first in the recent list, dropping earlier mentions of the
/// same path and keeping at most eight.
pub fn remember_repository(recent: &Vec<String>, root: &String) -> (updated: Vec<String>)
    ensures
        string_views(updated@) == remembered(string_views(recent@), root@),
{
    let ghost rv = string_views(recent@);
    let mut rest: Vec<String> = Vec::new();
    let mut i: usize = 0;
    while i < recent.len()
        invariant
            0 <= i <= recent.len(),
            rv == string_views(recent@),
            string_views(rest@) == without_repo(rv.take(i as int), root@),
        decreases recent.len() - i,
    {
        assert(rv.take(i + 1).drop_last() =~= rv.take(i as int));
        let ghost before = rest@;
        if !same_path(recent[i].as_str(), root.as_str()) {
            rest.push(recent[i].clone());
            assert(string_views(rest@) =~= string_views(before).push(rv[i as int]));
        }
        i = i + 1;
    }
    assert(rv.take(recent.len() as int) =~= rv);
    let mut updated: Vec<String> = Vec::new();
    updated.push(root.clone());
    let mut j: usize = 0;
    while j < rest.len() && updated.len() < RECENT_LIMIT
        invariant
            0 <= j <= rest.len(),
            updated.len() == j + 1,
            updated.len() <= RECENT_LIMIT,
            string_views(updated@) == seq![root@] + string_views(rest@).take(j as int),
        decreases rest.len() - j,
    {
        let ghost before = updated@;
        updated.push(rest[j].clone());
        assert(string_views(updated@) =~= string_views(before).push(string_views(rest@)[j as int]));
        assert(string_views(rest@).take(j + 1) =~= string_views(rest@).take(j as int).push(string_views(rest@)[j as int]));
        j = j + 1;
    }
    let ghost all = seq![root@] + string_views(rest@);
    assert(string_views(updated@) =~= remembered(string_views(recent@), root@)) by {
        if all.len() <= 8 {
            assert(string_views(rest@).take(j as int) =~= string_views(rest@));
        } else {
            assert(string_views(rest@).len() == rest.len());
            assert(j == 7);
            assert(string_views(updated@) =~= all.take(8));
        }
    }
    updated
}

/// The classification recorded for `path`: the last one recorded.
pub open spec fn classification_of(
    entries: Seq<(Seq<char>, ImageClassification)>,
    path: Seq<char>,
) -> Option<ImageClassification>
    decreases entries.len(),
{
    if entries.len() == 0 {
        None
    } else if entries.last().0 == path {
        Some(entries.last().1)
    } else {
        classification_of(entries.drop_last(), path)
    }
}

/// `entries` without those recorded for `path`.
pub open spec fn without_path(
    entries: Seq<(Seq<char>, ImageClassification)>,
    path: Seq<char>,
) -> Seq<(Seq<char>, ImageClassification)>
    decreases entries.len(),
{
    if entries.len() == 0 {
        entries
    } else if entries.last().0 == path {
        without_path(entries.drop_last(), path)
    } else {
        without_path(entries.drop_last(), path).push(entries.last())
    }
}

/// The classifications as a map keyed by path holds them: each path once,
/// with the classification recorded for it last.
pub open spec fn keyed_by_path(
    entries: Seq<(Seq<char>, ImageClassification)>,
) -> Seq<(Seq<char>, ImageClassification)>
    decreases entries.len(),
{
    if entries.len() == 0 {
        entries
    } else {
        without_path(keyed_by_path(entries.drop_last()), entries.last().0).push(entries.last())
    }
}

/// No path is recorded twice.
pub open spec fn unique_paths(entries: Seq<(Seq<char>, ImageClassification)>) -> bool {
    forall|i: int, j: int|
        0 <= i < entries.len() && 0 <= j < entries.len() && i != j ==> #[trigger] entries[i].0
            != #[trigger] entries[j].0
}

proof fn lemma_without_path(entries: Seq<(Seq<char>, ImageClassification)>, path: Seq<char>)
    ensures
        unique_paths(entries) ==> unique_paths(without_path(entries, path)),
        forall|i: int| 0 <= i < without_path(entries, path).len() ==> #[trigger] without_path(entries, path)[i].0 != path,
        forall|i: int| 0 <= i < without_path(entries, path).len() ==> exists|m: int|
            0 <= m < entries.len() && #[trigger] without_path(entries, path)[i] == entries[m],
    decreases entries.len(),
{
    if entries.len() > 0 {
        let d = entries.drop_last();
        lemma_without_path(d, path);
        let rest = without_path(d, path);
        let w = without_path(entries, path);
        assert forall|i: int| 0 <= i < w.len() implies exists|m: int| 0 <= m < entries.len() && #[trigger] w[i] == entries[m] by {
            if i < rest.len() {
                assert(w[i] == rest[i]);
                let m = choose|m: int| 0 <= m < d.len() && rest[i] == d[m];
                assert(d[m] == entries[m]);
            } else {
                assert(w[i] == entries[entries.len() - 1]);
            }
        }
        if unique_paths(entries) {
            assert(unique_paths(d)) by {
                assert forall|i: int, j: int| 0 <= i < d.len() && 0 <= j < d.len() && i != j implies #[trigger] d[i].0 != #[trigger] d[j].0 by {
                    assert(d[i] == entries[i] && d[j] == entries[j]);
                }
            }
            if entries.last().0 != path {
                let x = entries.last();
                assert forall|i: int| 0 <= i < rest.len() implies #[trigger] rest[i].0 != x.0 by {
                    let m = choose|m: int| 0 <= m < d.len() && rest[i] == d[m];
                    assert(d[m] == entries[m]);
                    assert(entries[m].0 != entries[entries.len() - 1].0);
                }
                assert forall|i: int, j: int| 0 <= i < w.len() && 0 <= j < w.len() && i != j implies #[trigger] w[i].0 != #[trigger] w[j].0 by {
                    if i < rest.len() && j < rest.len() {
                        assert(w[i] == rest[i] && w[j] == rest[j]);
                    } else if i < rest.len() {
                        assert(w[i] == rest[i]);
                        assert(w[j] == x);
                    } else {
                        assert(w[j] == rest[j]);
                        assert(w[i] == x);
                    }
                }
            }
        }
    }
}

/// Keyed classifications record no path twice.
pub proof fn lemma_keyed_by_path_unique(entries: Seq<(Seq<char>, ImageClassification)>)
    ensures
        unique_paths(keyed_by_path(entries)),
    decreases entries.len(),
{
    if entries.len() > 0 {
        lemma_keyed_by_path_unique(entries.drop_last());
        let x = entries.last();
        let w = without_path(keyed_by_path(entries.drop_last()), x.0);
        lemma_without_path(keyed_by_path(entries.drop_last()), x.0);
        let k = w.push(x);
        assert forall|i: int, j: int| 0 <= i < k.len() && 0 <= j < k.len() && i != j implies #[trigger] k[i].0 != #[trigger] k[j].0 by {
            if i < w.len() && j < w.len() {
                assert(k[i] == w[i] && k[j] == w[j]);
            } else if i < w.len() {
                assert(k[i] == w[i]);
            } else {
                assert(k[j] == w[j]);
            }
        }
    }
}

/// Keeps, for each path, the classification recorded for it last, as
/// inserting the entries one by one into a map keyed by path does.
pub fn key_by_path(entries: Vec<(String, ImageClassification)>) -> (keyed: Vec<(String, ImageClassification)>)
    ensures
        classification_views(keyed@) == keyed_by_path(classification_views(entries@)),
{
    let ghost ev = classification_views(entries@);
    let mut keyed: Vec<(String, ImageClassification)> = Vec::new();
    let mut i: usize = 0;
    while i < entries.len()
        invariant
            0 <= i <= entries.len(),
            ev == classification_views(entries@),
            classification_views(keyed@) == keyed_by_path(ev.take(i as int)),
        decreases entries.len() - i,
    {
        assert(ev.take(i + 1).drop_last() =~= ev.take(i as int));
        let path = &entries[i].0;
        let mut kept: Vec<(String, ImageClassification)> = Vec::new();
        let mut j: usize = 0;
        let ghost kv = classification_views(keyed@);
        while j < keyed.len()
            invariant
                0 <= j <= keyed.len(),
                kv == classification_views(keyed@),
                classification_views(kept@) == without_path(kv.take(j as int), path@),
            decreases keyed.len() - j,
        {
            assert(kv.take(j + 1).drop_last() =~= kv.take(j as int));
            if keyed[j].0 != *path {
                let ghost before = kept@;
                kept.push((keyed[j].0.clone(), keyed[j].1));
                assert(classification_views(kept@) =~= classification_views(before).push(kv[j as int]));
            }
            j = j + 1;
        }
        assert(kv.take(keyed.len() as int) =~= kv);
        let ghost before = kept@;
        kept.push((entries[i].0.clone(), entries[i].1));
        assert(classification_views(kept@) =~= classification_views(before).push(ev[i as int]));
        keyed = kept;
        i = i + 1;
    }
    assert(ev.take(entries.len() as int) =~= ev);
    keyed
}

/// The views of recorded classifications.
pub open spec fn classification_views(
    entries: Seq<(String, ImageClassification)>,
) -> Seq<(Seq<char>, ImageClassification)> {
    entries.map_values(|e: (String, ImageClassification)| (e.0@, e.1))
}

/// What the viewer remembers, as plain values.
pub struct SessionView {
    pub repo: Option<Seq<char>>,
    pub recent_repos: Seq<Seq<char>>,
    pub files: Seq<(Seq<char>, FileStatus)>,
    pub image_classifications: Seq<(Seq<char>, ImageClassification)>,
    pub classifying_images: bool,
    pub image_classification_generation: u64,
    pub show_pixel_identical: bool,
    pub selected: Option<usize>,
    pub versions: Option<(Seq<u8>, Seq<u8>)>,
    pub text_layout: TextLayout,
    pub image_layout: ImageLayout,
    pub prepared_diff: Option<Seq<RowView>>,
    pub diff_error: Option<Seq<char>>,
    pub preparing_diff: bool,
    pub prepare_generation: u64,
    pub expanded_sections: Set<usize>,
    pub ignored_keys: Seq<char>,
    pub prettify_json: bool,
    pub wrap_lines: bool,
    pub error: Option<Seq<char>>,
}

/// What the viewer remembers between events.
#[derive(Debug)]
pub struct Session {
    pub repo: Option<String>,
    pub recent_repos: Vec<String>,
    pub files: Vec<ChangedFile>,
    pub image_classifications: Vec<(String, ImageClassification)>,
    pub classifying_images: bool,
    pub image_classification_generation: u64,
    pub show_pixel_identical: bool,
    pub selected: Option<usize>,
    pub versions: Option<(Vec<u8>, Vec<u8>)>,
    pub text_layout: TextLayout,
    pub image_layout: ImageLayout,
    pub prepared_diff: Option<PreparedDiff>,
    pub diff_error: Option<String>,
    pub preparing_diff: bool,
    pub prepare_generation: u64,
    pub expanded_sections: HashSet<usize>,
    pub ignored_keys: String,
    pub prettify_json: bool,
    pub wrap_lines: bool,
    pub error: Option<String>,
}

pub open spec fn opt_text(o: Option<String>) -> Option<Seq<char>> {
    match o {
        Some(s) => Some(s@),
        None => None,
    }
}

impl View for Session {
    type V = SessionView;

    open spec fn view(&self) -> SessionView {
        SessionView {
            repo: opt_text(self.repo),
            recent_repos: string_views(self.recent_repos@),
            files: file_views(self.files@),
            image_classifications: classification_views(self.image_classifications@),
            classifying_images: self.classifying_images,
            image_classification_generation: self.image_classification_generation,
            show_pixel_identical: self.show_pixel_identical,
            selected: self.selected,
            versions: match self.versions {
                Some(v) => Some((v.0@, v.1@)),
                None => None,
            },
            text_layout: self.text_layout,
            image_layout: self.image_layout,
            prepared_diff: match self.prepared_diff {
                Some(d) => Some(row_views(d.rows@)),
                None => None,
            },
            diff_error: opt_text(self.diff_error),
            preparing_diff: self.preparing_diff,
            prepare_generation: self.prepare_generation,
            expanded_sections: self.expanded_sections@,
            ignored_keys: self.ignored_keys@,
            prettify_json: self.prettify_json,
            wrap_lines: self.wrap_lines,
            error: opt_text(self.error),
        }
    }
}

/// Whether the file at `index` is listed: always when pixel-identical
/// images are shown, otherwise unless its image was found pixel-identical.
pub open spec fn file_visible_spec(s: SessionView, index: int) -> bool {
    s.show_pixel_identical || classification_of(s.image_classifications, s.files[index].0)
        != Some(ImageClassification::PixelIdentical)
}

/// The first listed file at or after `i`.
pub open spec fn first_visible_from(s: SessionView, i: int) -> Option<usize>
    decreases s.files.len() - i,
{
    if i < 0 || i >= s.files.len() {
        None
    } else if file_visible_spec(s, i) {
        Some(i as usize)
    } else {
        first_visible_from(s, i + 1)
    }
}

/// Whether a selection points at a file that is no longer listed.
pub open spec fn selection_hidden(s: SessionView) -> bool {
    s.selected matches Some(i) && i < s.files.len() && !file_visible_spec(s, i as int)
}

impl Session {
    /// A session with no repository open, remembering `recent_repos`.
    pub fn new(recent_repos: Vec<String>) -> (s: Session)
        ensures
            s@ == (SessionView {
                repo: None,
                recent_repos: string_views(recent_repos@),
                files: seq![],
                image_classifications: seq![],
                classifying_images: false,
                image_classification_generation: 0,
                show_pixel_identical: false,
                selected: None,
                versions: None,
                text_layout: TextLayout::SideBySide,
                image_layout: ImageLayout::Reveal,
                prepared_diff: None,
                diff_error: None,
                preparing_diff: false,
                prepare_generation: 0,
                expanded_sections: Set::empty(),
                ignored_keys: seq![],
                prettify_json: true,
                wrap_lines: true,
                error: None,
            }),
            unique_paths(s@.image_classifications),
    {
        let s = Session {
            repo: None,
            recent_repos,
            files: Vec::new(),
            image_classifications: Vec::new(),
            classifying_images: false,
            image_classification_generation: 0,
            show_pixel_identical: false,
            selected: None,
            versions: None,
            text_layout: TextLayout::SideBySide,
            image_layout: ImageLayout::Reveal,
            prepared_diff: None,
            diff_error: None,
            preparing_diff: false,
            prepare_generation: 0,
            expanded_sections: HashSet::new(),
            ignored_keys: String::new(),
            prettify_json: true,
            wrap_lines: true,
            error: None,
        };
        assert(s@.files =~= Seq::<(Seq<char>, FileStatus)>::empty());
        assert(s@.image_classifications =~= Seq::<(Seq<char>, ImageClassification)>::empty());
        s
    }

    /// The classification recorded for a path.
    pub fn classification(&self, path: &String) -> (c: Option<ImageClassification>)
        ensures
            c == classification_of(self@.image_classifications, path@),
    {
        let ghost e = self@.image_classifications;
        let mut i = self.image_classifications.len();
        assert(e.take(i as int) =~= e);
        while i > 0
            invariant
                0 <= i <= self.image_classifications.len(),
                e == self@.image_classifications,
                classification_of(e, path@) == classification_of(e.take(i as int), path@),
            decreases i,
        {
            assert(e.take(i as int).drop_last() =~= e.take(i - 1));
            assert(e.take(i as int).last() == e[i - 1]);
            if self.image_classifications[i - 1].0 == *path {
                return Some(self.image_classifications[i - 1].1);
            }
            i = i - 1;
        }
        None
    }

    /// Whether the file at `index` is listed.
    pub fn file_visible(&self, index: usize) -> (visible: bool)
        requires
            index < self.files.len(),
        ensures
            visible == file_visible_spec(self@, index as int),
    {
        if self.show_pixel_identical {
            return true;
        }
        match self.classification(&self.files[index].path) {
            Some(ImageClassification::PixelIdentical) => false,
            _ => true,
        }
    }

    /// The first listed file.
    pub fn first_visible_file(&self) -> (index: Option<usize>)
        ensures
            index == first_visible_from(self@, 0),
    {
        let mut i: usize = 0;
        while i < self.files.len()
            invariant
                0 <= i <= self.files.len(),
                first_visible_from(self@, 0) == first_visible_from(self@, i as int),
            decreases self.files.len() - i,
        {
            if self.file_visible(i) {
                return Some(i);
            }
            i = i + 1;
        }
        None
    }

    /// How many files are listed.
    pub fn visible_count(&self) -> (count: usize)
        ensures
            count == Set::new(|i: int| 0 <= i < self.files.len() && file_visible_spec(self@, i)).len(),
    {
        let mut count: usize = 0;
        let mut i: usize = 0;
        let ghost mut listed: Set<int> = Set::empty();
        while i < self.files.len()
            invariant
                0 <= i <= self.files.len(),
                count <= i,
                listed == Set::new(|k: int| 0 <= k < i && file_visible_spec(self@, k)),
                listed.finite(),
                count == listed.len(),
            decreases self.files.len() - i,
        {
            let visible = self.file_visible(i);
            proof {
                let next = Set::new(|k: int| 0 <= k < i + 1 && file_visible_spec(self@, k));
                if visible {
                    assert(next =~= listed.insert(i as int));
                } else {
                    assert(next =~= listed);
                }
                listed = next;
            }
            if visible {
                count = count + 1;
            }
            i = i + 1;
        }
        count
    }

    /// How many recorded images are pixel-identical.
    pub fn identical_count(&self) -> (count: usize)
        ensures
            count == self@.image_classifications.filter(
                |e: (Seq<char>, ImageClassification)| e.1 == ImageClassification::PixelIdentical,
            ).len(),
    {
        let ghost e = self@.image_classifications;
        let mut count: usize = 0;
        let mut i: usize = 0;
        while i < self.image_classifications.len()
            invariant
                0 <= i <= self.image_classifications.len(),
                e == self@.image_classifications,
                count <= i,
                count == e.take(i as int).filter(
                    |e: (Seq<char>, ImageClassification)| e.1 == ImageClassification::PixelIdentical,
                ).len(),
            decreases self.image_classifications.len() - i,
        {
            reveal_with_fuel(Seq::filter, 1);
            assert(e.take(i + 1).drop_last() =~= e.take(i as int));
            if self.image_classifications[i].1 == ImageClassification::PixelIdentical {
                count = count + 1;
            }
            i = i + 1;
        }
        assert(e.take(i as int) =~= e);
        count
    }
}

/// Outside work the viewer asks for.
#[derive(Debug)]
pub enum Command {
    /// Let the user pick a folder.
    PickFolder,
    /// Find the root of the repository holding this path.
    ResolveRepository(String),
    /// Store the recent repository list.
    SaveRecentRepos(Vec<String>),
    /// Run `git status` in the repository.
    ReadStatus(String),
    /// Read the `HEAD` and working versions of a listed file.
    LoadVersions { index: usize, repo: String, file: ChangedFile },
    /// Compare the pixels of these images in the background.
    ClassifyImages { generation: u64, repo: String, files: Vec<ChangedFile> },
    /// Wait a moment, then begin preparing this diff.
    Debounce(u64),
    /// Prepare the rows of this diff in the background.
    PrepareDiff {
        generation: u64,
        before: Vec<u8>,
        after: Vec<u8>,
        is_json: bool,
        ignored_keys: String,
        prettify_json: bool,
    },
}

/// Outside work, as plain values.
pub enum CommandView {
    PickFolder,
    ResolveRepository(Seq<char>),
    SaveRecentRepos(Seq<Seq<char>>),
    ReadStatus(Seq<char>),
    LoadVersions { index: usize, repo: Seq<char>, file: (Seq<char>, FileStatus) },
    ClassifyImages { generation: u64, repo: Seq<char>, files: Seq<(Seq<char>, FileStatus)> },
    Debounce(u64),
    PrepareDiff {
        generation: u64,
        before: Seq<u8>,
        after: Seq<u8>,
        is_json: bool,
        ignored_keys: Seq<char>,
        prettify_json: bool,
    },
}

pub open spec fn command_view(c: Command) -> CommandView {
    match c {
        Command::PickFolder => CommandView::PickFolder,
        Command::ResolveRepository(p) => CommandView::ResolveRepository(p@),
        Command::SaveRecentRepos(r) => CommandView::SaveRecentRepos(string_views(r@)),
        Command::ReadStatus(r) => CommandView::ReadStatus(r@),
        Command::LoadVersions { index, repo, file } => CommandView::LoadVersions { index, repo: repo@, file: file@ },
        Command::ClassifyImages { generation, repo, files } => CommandView::ClassifyImages {
            generation,
            repo: repo@,
            files: file_views(files@),
        },
        Command::Debounce(g) => CommandView::Debounce(g),
        Command::PrepareDiff { generation, before, after, is_json, ignored_keys, prettify_json } =>
            CommandView::PrepareDiff {
            generation,
            before: before@,
            after: after@,
            is_json,
            ignored_keys: ignored_keys@,
            prettify_json,
        },
    }
}

pub open spec fn command_views(c: Seq<Command>) -> Seq<CommandView> {
    c.map_values(|x: Command| command_view(x))
}

/// What happens to the viewer.
#[derive(Debug)]
pub enum Event {
    ChooseRepository,
    RepositoryPicked(Option<String>),
    OpenRepository(String),
    RepositoryResolved(Result<String, String>),
    Refresh,
    StatusRead(Result<Vec<u8>, String>),
    SelectFile(usize),
    VersionsLoaded(usize, Result<(Vec<u8>, Vec<u8>), String>),
    IgnoredKeysChanged(String),
    PrettifyJsonChanged(bool),
    WrapLinesChanged(bool),
    BeginPreparation(u64),
    DiffPrepared(u64, Result<PreparedDiff, String>),
    ExpandSection(usize),
    ImagesClassified(u64, Result<Vec<(String, ImageClassification)>, String>),
    ShowPixelIdenticalChanged(bool),
    TextLayoutChanged(TextLayout),
    ImageLayoutChanged(ImageLayout),
}

pub open spec fn is_image_path(p: Seq<char>) -> bool {
    has_extension_in(encode_utf8(p), image_extensions())
}

pub open spec fn is_json_path(p: Seq<char>) -> bool {
    crate::paths::extension_bytes(encode_utf8(p)) == Some(crate::paths::ascii("json"@))
}

pub open spec fn is_classifiable_path(p: Seq<char>) -> bool {
    has_extension_in(encode_utf8(p), classifiable_image_extensions())
}

/// Selecting the file at `i` asks for its versions.
pub open spec fn select_step(s: SessionView, i: usize) -> (SessionView, Seq<CommandView>) {
    match s.repo {
        Some(r) => if i < s.files.len() {
            (s, seq![CommandView::LoadVersions { index: i, repo: r, file: s.files[i as int] }])
        } else {
            (s, seq![])
        },
        None => (s, seq![]),
    }
}

/// Preparing the selected diff: nothing for an image, else a background
/// preparation of its versions with the current JSON options.
pub open spec fn prepare_step(s: SessionView, generation: u64) -> (SessionView, Seq<CommandView>) {
    match (s.selected, s.versions) {
        (Some(i), Some((before, after))) => if i < s.files.len() {
            let path = s.files[i as int].0;
            if is_image_path(path) {
                (SessionView { preparing_diff: false, ..s }, seq![])
            } else {
                (SessionView { preparing_diff: true, ..s }, seq![
                    CommandView::PrepareDiff {
                        generation,
                        before,
                        after,
                        is_json: is_json_path(path),
                        ignored_keys: s.ignored_keys,
                        prettify_json: s.prettify_json,
                    },
                ])
            }
        } else {
            (s, seq![])
        },
        _ => (s, seq![]),
    }
}

/// Scheduling a new preparation starts a new generation and folds all
/// sections again; with debouncing it waits first.
pub open spec fn schedule_step(s: SessionView, debounce: bool) -> (SessionView, Seq<CommandView>) {
    let s1 = SessionView {
        prepare_generation: (s.prepare_generation + 1) as u64,
        expanded_sections: Set::empty(),
        ..s
    };
    if debounce {
        (s1, seq![CommandView::Debounce(s1.prepare_generation)])
    } else {
        prepare_step(s1, s1.prepare_generation)
    }
}

/// The listed files whose pixels are compared.
pub open spec fn classifiable_files(files: Seq<(Seq<char>, FileStatus)>) -> Seq<(Seq<char>, FileStatus)>
    decreases files.len(),
{
    if files.len() == 0 {
        seq![]
    } else {
        let rest = classifiable_files(files.drop_last());
        if is_classifiable_path(files.last().0) {
            rest.push(files.last())
        } else {
            rest
        }
    }
}

/// Classifying the images of the repository in a new generation.
pub open spec fn classify_step(s: SessionView) -> (SessionView, Seq<CommandView>) {
    match s.repo {
        Some(r) => {
            let files = classifiable_files(s.files);
            if files.len() == 0 {
                (SessionView { classifying_images: false, ..s }, seq![])
            } else {
                let s1 = SessionView {
                    classifying_images: true,
                    image_classification_generation: (s.image_classification_generation + 1) as u64,
                    ..s
                };
                (s1, seq![CommandView::ClassifyImages {
                    generation: s1.image_classification_generation,
                    repo: r,
                    files,
                }])
            }
        },
        None => (s, seq![]),
    }
}

/// Refreshing asks for the status of the open repository.
pub open spec fn refresh_step(s: SessionView) -> (SessionView, Seq<CommandView>) {
    match s.repo {
        Some(r) => (s, seq![CommandView::ReadStatus(r)]),
        None => (s, seq![]),
    }
}

/// Taking a new file list: classifications start over in a new
/// generation; with no files nothing is selected, otherwise the file at
/// the old selection (or the first, or the last when the list shrank) is
/// selected and the images are classified.
pub open spec fn files_loaded_step(s: SessionView, files: Seq<(Seq<char>, FileStatus)>) -> (SessionView, Seq<CommandView>) {
    let s1 = SessionView {
        files,
        image_classifications: seq![],
        image_classification_generation: (s.image_classification_generation + 1) as u64,
        error: None,
        ..s
    };
    if files.len() == 0 {
        (SessionView { selected: None, versions: None, prepared_diff: None, ..s1 }, seq![])
    } else {
        let want: int = match s.selected {
            Some(i) => i as int,
            None => 0,
        };
        let index: usize = if want <= files.len() - 1 { want as usize } else { (files.len() - 1) as usize };
        let (s2, c1) = select_step(s1, index);
        let (s3, c2) = classify_step(s2);
        (s3, c1 + c2)
    }
}

/// The whole behaviour of the viewer on an event other than a status
/// read: how it changes and what outside work it asks for.
pub open spec fn step(s: SessionView, e: Event) -> (SessionView, Seq<CommandView>) {
    match e {
        Event::ChooseRepository => (s, seq![CommandView::PickFolder]),
        Event::RepositoryPicked(Some(p)) => (s, seq![CommandView::ResolveRepository(p@)]),
        Event::OpenRepository(p) => (s, seq![CommandView::ResolveRepository(p@)]),
        Event::RepositoryPicked(None) => (s, seq![]),
        Event::RepositoryResolved(Err(m)) => (SessionView { error: Some(m@), ..s }, seq![]),
        Event::RepositoryResolved(Ok(root)) => {
            let s1 = SessionView {
                repo: Some(root@),
                error: None,
                recent_repos: remembered(s.recent_repos, root@),
                ..s
            };
            let (s2, c) = refresh_step(s1);
            (s2, seq![CommandView::SaveRecentRepos(s1.recent_repos)] + c)
        },
        Event::Refresh => refresh_step(s),
        Event::StatusRead(Err(m)) => (SessionView { error: Some(m@), ..s }, seq![]),
        Event::StatusRead(Ok(_)) => (s, seq![]),
        Event::SelectFile(i) => select_step(s, i),
        Event::VersionsLoaded(i, r) => if i < s.files.len() {
            match r {
                Ok((before, after)) => schedule_step(
                    SessionView {
                        selected: Some(i),
                        versions: Some((before@, after@)),
                        error: None,
                        prepared_diff: None,
                        diff_error: None,
                        expanded_sections: Set::empty(),
                        ..s
                    },
                    false,
                ),
                Err(m) => (SessionView { error: Some(m@), ..s }, seq![]),
            }
        } else {
            (s, seq![])
        },
        Event::IgnoredKeysChanged(k) => schedule_step(SessionView { ignored_keys: k@, ..s }, true),
        Event::PrettifyJsonChanged(p) => schedule_step(SessionView { prettify_json: p, ..s }, false),
        Event::WrapLinesChanged(w) => (SessionView { wrap_lines: w, ..s }, seq![]),
        Event::BeginPreparation(g) => if g == s.prepare_generation {
            prepare_step(s, g)
        } else {
            (s, seq![])
        },
        Event::DiffPrepared(g, r) => if g == s.prepare_generation {
            match r {
                Ok(d) => (SessionView {
                    preparing_diff: false,
                    prepared_diff: Some(row_views(d.rows@)),
                    diff_error: None,
                    ..s
                }, seq![]),
                Err(m) => (SessionView {
                    preparing_diff: false,
                    prepared_diff: None,
                    diff_error: Some(m@),
                    ..s
                }, seq![]),
            }
        } else {
            (s, seq![])
        },
        Event::ExpandSection(start) => (SessionView {
            expanded_sections: s.expanded_sections.insert(start),
            ..s
        }, seq![]),
        Event::ImagesClassified(g, r) => if g != s.image_classification_generation {
            (s, seq![])
        } else {
            let s1 = match r {
                Ok(c) => SessionView {
                    classifying_images: false,
                    image_classifications: keyed_by_path(classification_views(c@)),
                    ..s
                },
                Err(m) => SessionView { classifying_images: false, error: Some(m@), ..s },
            };
            if selection_hidden(s1) {
                match first_visible_from(s1, 0) {
                    Some(j) => select_step(s1, j),
                    None => (SessionView { selected: None, versions: None, ..s1 }, seq![]),
                }
            } else {
                (s1, seq![])
            }
        },
        Event::ShowPixelIdenticalChanged(show) => {
            let s1 = SessionView { show_pixel_identical: show, ..s };
            if selection_hidden(s1) && first_visible_from(s1, 0) is Some {
                select_step(s1, first_visible_from(s1, 0)->0)
            } else {
                (s1, seq![])
            }
        },
        Event::TextLayoutChanged(l) => (SessionView { text_layout: l, ..s }, seq![]),
        Event::ImageLayoutChanged(l) => (SessionView { image_layout: l, ..s }, seq![]),
    }
}

/// The viewer may go from `s` to `s2`, asking for `commands`, on `e`: for
/// a status read, the new file list is the one the output lists, sorted by
/// path with equal paths kept in their order; otherwise as `step` says.
pub open spec fn allowed_step(s: SessionView, e: Event, s2: SessionView, commands: Seq<CommandView>) -> bool {
    match e {
        Event::StatusRead(Ok(bytes)) => {
            &&& s2.files.to_multiset() == parse_status_spec(bytes@).to_multiset()
            &&& paths_ascending(s2.files)
            &&& forall|k: Seq<char>| #[trigger] path_class(s2.files, k) == path_class(
                parse_status_spec(bytes@),
                k,
            )
            &&& (s2, commands) == files_loaded_step(s, s2.files)
        },
        _ => (s2, commands) == step(s, e),
    }
}

proof fn lemma_small_views(c: Seq<Command>)
    ensures
        c.len() == 0 ==> command_views(c) =~= Seq::<CommandView>::empty(),
        c.len() == 1 ==> command_views(c) =~= seq![command_view(c[0])],
{
}

/// A copy of a changed file.
pub fn copy_file(f: &ChangedFile) -> (c: ChangedFile)
    ensures
        c@ == f@,
{
    ChangedFile { path: f.path.clone(), status: f.status }
}

impl Session {
    /// Asks for the versions of the file at `index`.
    fn select_file(&mut self, index: usize) -> (commands: Vec<Command>)
        ensures
            (final(self)@, command_views(commands@)) == select_step(old(self)@, index),
    {
        let mut commands: Vec<Command> = Vec::new();
        match &self.repo {
            Some(repo) => {
                if index < self.files.len() {
                    commands.push(Command::LoadVersions {
                        index,
                        repo: repo.clone(),
                        file: copy_file(&self.files[index]),
                    });
                }
            },
            None => {},
        }
        assert(command_views(commands@) =~= select_step(self@, index).1);
        commands
    }

    /// Begins preparing the selected diff in generation `generation`.
    fn prepare_selected(&mut self, generation: u64) -> (commands: Vec<Command>)
        ensures
            (final(self)@, command_views(commands@)) == prepare_step(old(self)@, generation),
    {
        let mut commands: Vec<Command> = Vec::new();
        let index = match self.selected {
            Some(i) => i,
            None => {
                assert(command_views(commands@) =~= Seq::<CommandView>::empty());
                return commands;
            },
        };
        if self.versions.is_none() || index >= self.files.len() {
            assert(command_views(commands@) =~= Seq::<CommandView>::empty());
            return commands;
        }
        let path = self.files[index].path.as_str();
        if is_image(path) {
            self.preparing_diff = false;
            assert(command_views(commands@) =~= Seq::<CommandView>::empty());
            return commands;
        }
        self.preparing_diff = true;
        let json = is_json(path);
        match &self.versions {
            Some((before, after)) => {
                commands.push(Command::PrepareDiff {
                    generation,
                    before: vstd::slice::slice_to_vec(before.as_slice()),
                    after: vstd::slice::slice_to_vec(after.as_slice()),
                    is_json: json,
                    ignored_keys: self.ignored_keys.clone(),
                    prettify_json: self.prettify_json,
                });
            },
            None => {},
        }
        assert(command_views(commands@) =~= prepare_step(old(self)@, generation).1);
        commands
    }

    /// Starts a new preparation generation, folding all sections again.
    fn schedule_preparation(&mut self, debounce: bool) -> (commands: Vec<Command>)
        requires
            old(self).prepare_generation < u64::MAX,
        ensures
            (final(self)@, command_views(commands@)) == schedule_step(old(self)@, debounce),
    {
        self.prepare_generation = self.prepare_generation + 1;
        let generation = self.prepare_generation;
        self.expanded_sections.clear();
        if debounce {
            let mut commands: Vec<Command> = Vec::new();
            commands.push(Command::Debounce(generation));
            assert(command_views(commands@) =~= seq![CommandView::Debounce(generation)]);
            commands
        } else {
            self.prepare_selected(generation)
        }
    }

    /// Starts comparing the pixels of the listed images.
    fn classify_images(&mut self) -> (commands: Vec<Command>)
        requires
            old(self).image_classification_generation < u64::MAX,
        ensures
            (final(self)@, command_views(commands@)) == classify_step(old(self)@),
    {
        let mut commands: Vec<Command> = Vec::new();
        let repo = match &self.repo {
            Some(r) => r.clone(),
            None => {
                assert(command_views(commands@) =~= Seq::<CommandView>::empty());
                return commands;
            },
        };
        let ghost fv = file_views(self.files@);
        let mut files: Vec<ChangedFile> = Vec::new();
        let mut i: usize = 0;
        while i < self.files.len()
            invariant
                0 <= i <= self.files.len(),
                fv == file_views(self.files@),
                file_views(files@) == classifiable_files(fv.take(i as int)),
            decreases self.files.len() - i,
        {
            assert(fv.take(i + 1).drop_last() =~= fv.take(i as int));
            let ghost before = files@;
            if is_classifiable_image(self.files[i].path.as_str()) {
                files.push(copy_file(&self.files[i]));
                assert(file_views(files@) =~= file_views(before).push(fv[i as int]));
            }
            i = i + 1;
        }
        assert(fv.take(self.files.len() as int) =~= fv);
        if files.len() == 0 {
            self.classifying_images = false;
            assert(command_views(commands@) =~= Seq::<CommandView>::empty());
            return commands;
        }
        self.classifying_images = true;
        self.image_classification_generation = self.image_classification_generation + 1;
        commands.push(Command::ClassifyImages {
            generation: self.image_classification_generation,
            repo,
            files,
        });
        assert(command_views(commands@) =~= classify_step(old(self)@).1);
        commands
    }

    /// Asks for the status of the open repository.
    fn refresh(&mut self) -> (commands: Vec<Command>)
        ensures
            (final(self)@, command_views(commands@)) == refresh_step(old(self)@),
    {
        let mut commands: Vec<Command> = Vec::new();
        match &self.repo {
            Some(r) => {
                commands.push(Command::ReadStatus(r.clone()));
            },
            None => {},
        }
        assert(command_views(commands@) =~= refresh_step(self@).1);
        commands
    }

    /// Takes a new file list.
    fn status_read(&mut self, bytes: &Vec<u8>) -> (commands: Vec<Command>)
        requires
            old(self).image_classification_generation < u64::MAX - 1,
        ensures
            final(self)@.files.to_multiset() == parse_status_spec(bytes@).to_multiset(),
            paths_ascending(final(self)@.files),
            forall|k: Seq<char>| #[trigger] path_class(final(self)@.files, k) == path_class(
                parse_status_spec(bytes@),
                k,
            ),
            (final(self)@, command_views(commands@)) == files_loaded_step(old(self)@, final(self)@.files),
    {
        let files = changed_files_from_status(bytes.as_slice());
        self.files_loaded(files)
    }

    fn files_loaded(&mut self, files: Vec<ChangedFile>) -> (commands: Vec<Command>)
        requires
            old(self).image_classification_generation < u64::MAX - 1,
        ensures
            (final(self)@, command_views(commands@)) == files_loaded_step(old(self)@, file_views(files@)),
    {
        let previous = self.selected;
        self.files = files;
        self.image_classifications = Vec::new();
        self.image_classification_generation = self.image_classification_generation + 1;
        self.error = None;
        assert(self@.image_classifications =~= Seq::<(Seq<char>, ImageClassification)>::empty());
        if self.files.len() == 0 {
            self.selected = None;
            self.versions = None;
            self.prepared_diff = None;
            let commands: Vec<Command> = Vec::new();
            assert(command_views(commands@) =~= Seq::<CommandView>::empty());
            return commands;
        }
        let want = match previous {
            Some(i) => i,
            None => 0,
        };
        let index = if want <= self.files.len() - 1 { want } else { self.files.len() - 1 };
        let mut commands = self.select_file(index);
        let ghost c1 = command_views(commands@);
        let mut more = self.classify_images();
        let ghost c2 = command_views(more@);
        commands.append(&mut more);
        assert(command_views(commands@) =~= c1 + c2);
        commands
    }
}

impl Session {
    fn repository_resolved(&mut self, root: String) -> (commands: Vec<Command>)
        ensures
            (final(self)@, command_views(commands@)) == step(old(self)@, Event::RepositoryResolved(Ok(root))),
    {
        let recent = remember_repository(&self.recent_repos, &root);
        self.repo = Some(root);
        self.error = None;
        self.recent_repos = recent;
        let ghost s1 = self@;
        let copy = self.recent_repos.clone();
        assert(string_views(copy@) =~= string_views(self.recent_repos@)) by {
            assert forall|i: int| 0 <= i < copy@.len() implies copy@[i]@ == self.recent_repos@[i]@ by {
                assert(vstd::pervasive::cloned(self.recent_repos@[i], copy@[i]));
            }
        }
        let mut commands: Vec<Command> = Vec::new();
        commands.push(Command::SaveRecentRepos(copy));
        proof {
            lemma_small_views(commands@);
        }
        let ghost c1 = command_views(commands@);
        assert(c1 == seq![CommandView::SaveRecentRepos(s1.recent_repos)]);
        let mut more = self.refresh();
        let ghost c2 = command_views(more@);
        commands.append(&mut more);
        assert(command_views(commands@) =~= c1 + c2);
        commands
    }

    fn versions_loaded(&mut self, index: usize, result: Result<(Vec<u8>, Vec<u8>), String>) -> (commands: Vec<Command>)
        requires
            old(self).prepare_generation < u64::MAX,
        ensures
            (final(self)@, command_views(commands@)) == step(old(self)@, Event::VersionsLoaded(index, result)),
    {
        broadcast use vstd::std_specs::hash::group_hash_axioms;

        let mut commands: Vec<Command> = Vec::new();
        if index < self.files.len() {
            match result {
                Ok(versions) => {
                    self.selected = Some(index);
                    self.versions = Some(versions);
                    self.error = None;
                    self.prepared_diff = None;
                    self.diff_error = None;
                    self.expanded_sections.clear();
                    commands = self.schedule_preparation(false);
                },
                Err(message) => {
                    self.error = Some(message);
                },
            }
        }
        proof {
            lemma_small_views(commands@);
        }
        commands
    }

    fn images_classified(
        &mut self,
        generation: u64,
        result: Result<Vec<(String, ImageClassification)>, String>,
    ) -> (commands: Vec<Command>)
        ensures
            (final(self)@, command_views(commands@)) == step(old(self)@, Event::ImagesClassified(generation, result)),
    {
        let mut commands: Vec<Command> = Vec::new();
        if generation == self.image_classification_generation {
            self.classifying_images = false;
            match result {
                Ok(classifications) => {
                    self.image_classifications = key_by_path(classifications);
                },
                Err(message) => {
                    self.error = Some(message);
                },
            }
            let hidden = match self.selected {
                Some(i) => i < self.files.len() && !self.file_visible(i),
                None => false,
            };
            if hidden {
                match self.first_visible_file() {
                    Some(j) => {
                        commands = self.select_file(j);
                    },
                    None => {
                        self.selected = None;
                        self.versions = None;
                    },
                }
            }
        }
        proof {
            lemma_small_views(commands@);
        }
        commands
    }

    fn show_pixel_identical_changed(&mut self, show: bool) -> (commands: Vec<Command>)
        ensures
            (final(self)@, command_views(commands@)) == step(old(self)@, Event::ShowPixelIdenticalChanged(show)),
    {
        let mut commands: Vec<Command> = Vec::new();
        self.show_pixel_identical = show;
        let hidden = match self.selected {
            Some(i) => i < self.files.len() && !self.file_visible(i),
            None => false,
        };
        if hidden {
            match self.first_visible_file() {
                Some(j) => {
                    commands = self.select_file(j);
                },
                None => {},
            }
        }
        proof {
            lemma_small_views(commands@);
        }
        commands
    }
}

impl Session {
    /// Takes an event: updates what the viewer remembers and returns the
    /// outside work to do, as `allowed_step` describes.
    pub fn update(&mut self, event: Event) -> (commands: Vec<Command>)
        requires
            old(self).prepare_generation < u64::MAX,
            old(self).image_classification_generation < u64::MAX - 1,
        ensures
            allowed_step(old(self)@, event, final(self)@, command_views(commands@)),
    {
        broadcast use vstd::std_specs::hash::group_hash_axioms;

        let mut commands: Vec<Command> = Vec::new();
        match event {
            Event::ChooseRepository => {
                commands.push(Command::PickFolder);
            },
            Event::RepositoryPicked(Some(path)) => {
                commands.push(Command::ResolveRepository(path));
            },
            Event::OpenRepository(path) => {
                commands.push(Command::ResolveRepository(path));
            },
            Event::RepositoryPicked(None) => {},
            Event::RepositoryResolved(Err(message)) => {
                self.error = Some(message);
            },
            Event::RepositoryResolved(Ok(root)) => {
                commands = self.repository_resolved(root);
            },
            Event::Refresh => {
                commands = self.refresh();
            },
            Event::StatusRead(Err(message)) => {
                self.error = Some(message);
            },
            Event::StatusRead(Ok(bytes)) => {
                commands = self.status_read(&bytes);
            },
            Event::SelectFile(index) => {
                commands = self.select_file(index);
            },
            Event::VersionsLoaded(index, result) => {
                commands = self.versions_loaded(index, result);
            },
            Event::IgnoredKeysChanged(keys) => {
                self.ignored_keys = keys;
                commands = self.schedule_preparation(true);
            },
            Event::PrettifyJsonChanged(prettify) => {
                self.prettify_json = prettify;
                commands = self.schedule_preparation(false);
            },
            Event::WrapLinesChanged(wrap) => {
                self.wrap_lines = wrap;
            },
            Event::BeginPreparation(generation) => {
                if generation == self.prepare_generation {
                    commands = self.prepare_selected(generation);
                }
            },
            Event::DiffPrepared(generation, result) => {
                if generation == self.prepare_generation {
                    self.preparing_diff = false;
                    match result {
                        Ok(diff) => {
                            self.prepared_diff = Some(diff);
                            self.diff_error = None;
                        },
                        Err(message) => {
                            self.prepared_diff = None;
                            self.diff_error = Some(message);
                        },
                    }
                }
            },
            Event::ExpandSection(start) => {
                self.expanded_sections.insert(start);
            },
            Event::ImagesClassified(generation, result) => {
                commands = self.images_classified(generation, result);
            },
            Event::ShowPixelIdenticalChanged(show) => {
                commands = self.show_pixel_identical_changed(show);
            },
            Event::TextLayoutChanged(layout) => {
                self.text_layout = layout;
            },
            Event::ImageLayoutChanged(layout) => {
                self.image_layout = layout;
            },
        }
        proof {
            lemma_small_views(commands@);
        }
        commands
    }
}

/// A diff prepared for a generation that has been superseded changes
/// nothing and asks for nothing; the same holds for images classified in
/// a superseded generation.
pub proof fn lemma_stale_results_are_ignored(
    s: SessionView,
    g: u64,
    diff: Result<PreparedDiff, String>,
    classes: Result<Vec<(String, ImageClassification)>, String>,
)
    ensures
        g != s.prepare_generation ==> step(s, Event::DiffPrepared(g, diff)) == (s, Seq::<CommandView>::empty()),
        g != s.image_classification_generation ==> step(s, Event::ImagesClassified(g, classes)) == (
            s,
            Seq::<CommandView>::empty(),
        ),
{
}

/// Whether every background preparation (or wait before one) among the
/// commands belongs to generation `g`.
pub open spec fn preparations_of(commands: Seq<CommandView>, g: u64) -> bool {
    forall|i: int|
        0 <= i < commands.len() ==> match #[trigger] commands[i] {
            CommandView::PrepareDiff { generation, .. } => generation == g,
            CommandView::Debounce(generation) => generation == g,
            _ => true,
        }
}

/// Whether every image classification among the commands belongs to
/// generation `g`.
pub open spec fn classifications_of(commands: Seq<CommandView>, g: u64) -> bool {
    forall|i: int|
        0 <= i < commands.len() ==> match #[trigger] commands[i] {
            CommandView::ClassifyImages { generation, .. } => generation == g,
            _ => true,
        }
}

proof fn lemma_prepare_step(s: SessionView, g: u64)
    ensures
        prepare_step(s, g).0 == (SessionView { preparing_diff: prepare_step(s, g).0.preparing_diff, ..s }),
        preparations_of(prepare_step(s, g).1, g),
        classifications_of(prepare_step(s, g).1, s.image_classification_generation),
{
}

proof fn lemma_schedule_step(s: SessionView, debounce: bool)
    requires
        s.prepare_generation < u64::MAX,
    ensures
        schedule_step(s, debounce).0.prepare_generation == s.prepare_generation + 1,
        schedule_step(s, debounce).0.image_classification_generation == s.image_classification_generation,
        schedule_step(s, debounce).0.expanded_sections == Set::<usize>::empty(),
        preparations_of(schedule_step(s, debounce).1, schedule_step(s, debounce).0.prepare_generation),
        classifications_of(schedule_step(s, debounce).1, s.image_classification_generation),
{
    let s1 = SessionView {
        prepare_generation: (s.prepare_generation + 1) as u64,
        expanded_sections: Set::empty(),
        ..s
    };
    lemma_prepare_step(s1, s1.prepare_generation);
}

proof fn lemma_files_loaded_step(s: SessionView, files: Seq<(Seq<char>, FileStatus)>)
    requires
        s.image_classification_generation < u64::MAX - 1,
    ensures
        files_loaded_step(s, files).0.prepare_generation == s.prepare_generation,
        files_loaded_step(s, files).0.image_classification_generation > s.image_classification_generation,
        preparations_of(files_loaded_step(s, files).1, s.prepare_generation),
        classifications_of(files_loaded_step(s, files).1, files_loaded_step(s, files).0.image_classification_generation),
{
    let r = files_loaded_step(s, files);
    if files.len() > 0 {
        let s1 = SessionView {
            files,
            image_classifications: seq![],
            image_classification_generation: (s.image_classification_generation + 1) as u64,
            error: None,
            ..s
        };
        let want: int = match s.selected {
            Some(i) => i as int,
            None => 0,
        };
        let index: usize = if want <= files.len() - 1 { want as usize } else { (files.len() - 1) as usize };
        let (s2, c1) = select_step(s1, index);
        let (s3, c2) = classify_step(s2);
        assert(r.1 == c1 + c2);
        assert forall|i: int| 0 <= i < r.1.len() implies match #[trigger] r.1[i] {
            CommandView::PrepareDiff { generation, .. } => generation == s.prepare_generation,
            CommandView::Debounce(generation) => generation == s.prepare_generation,
            _ => true,
        } by {
            if i < c1.len() {
                assert(r.1[i] == c1[i]);
            } else {
                assert(r.1[i] == c2[i - c1.len()]);
            }
        }
        assert forall|i: int| 0 <= i < r.1.len() implies match #[trigger] r.1[i] {
            CommandView::ClassifyImages { generation, .. } => generation == r.0.image_classification_generation,
            _ => true,
        } by {
            if i < c1.len() {
                assert(r.1[i] == c1[i]);
            } else {
                assert(r.1[i] == c2[i - c1.len()]);
            }
        }
    }
}

#[verifier::rlimit(60)]
#[verifier::spinoff_prover]
/// Generations only move forward, and every background task the viewer
/// asks for is tagged with the generation current once the event has been
/// taken, so its result is accepted exactly while no newer task of its
/// kind has been started.
pub proof fn lemma_generations(s: SessionView, e: Event, s2: SessionView, commands: Seq<CommandView>)
    requires
        s.prepare_generation < u64::MAX,
        s.image_classification_generation < u64::MAX - 1,
        allowed_step(s, e, s2, commands),
    ensures
        s2.prepare_generation >= s.prepare_generation,
        s2.image_classification_generation >= s.image_classification_generation,
        preparations_of(commands, s2.prepare_generation),
        classifications_of(commands, s2.image_classification_generation),
{
    match e {
        Event::StatusRead(Ok(bytes)) => {
            lemma_files_loaded_step(s, s2.files);
        },
        Event::VersionsLoaded(i, r) => {
            if i < s.files.len() {
                if let Ok((before, after)) = r {
                    lemma_schedule_step(
                        SessionView {
                            selected: Some(i),
                            versions: Some((before@, after@)),
                            error: None,
                            prepared_diff: None,
                            diff_error: None,
                            expanded_sections: Set::empty(),
                            ..s
                        },
                        false,
                    );
                }
            }
        },
        Event::IgnoredKeysChanged(k) => {
            lemma_schedule_step(SessionView { ignored_keys: k@, ..s }, true);
        },
        Event::PrettifyJsonChanged(p) => {
            lemma_schedule_step(SessionView { prettify_json: p, ..s }, false);
        },
        Event::BeginPreparation(g) => {
            lemma_prepare_step(s, g);
        },
        Event::RepositoryResolved(Ok(root)) => {
            let s1 = SessionView {
                repo: Some(root@),
                error: None,
                recent_repos: remembered(s.recent_repos, root@),
                ..s
            };
            let (s3, c) = refresh_step(s1);
            assert(commands == seq![CommandView::SaveRecentRepos(s1.recent_repos)] + c);
            assert forall|i: int| 0 <= i < commands.len() implies match #[trigger] commands[i] {
                CommandView::PrepareDiff { generation, .. } => generation == s2.prepare_generation,
                CommandView::Debounce(generation) => generation == s2.prepare_generation,
                _ => true,
            } by {
                if i > 0 {
                    assert(commands[i] == c[i - 1]);
                }
            }
            assert forall|i: int| 0 <= i < commands.len() implies match #[trigger] commands[i] {
                CommandView::ClassifyImages { generation, .. } => generation == s2.image_classification_generation,
                _ => true,
            } by {
                if i > 0 {
                    assert(commands[i] == c[i - 1]);
                }
            }
        },
        _ => {},
    }
}

/// Every event keeps the recorded image classifications keyed by path:
/// no path is recorded twice.
pub proof fn lemma_classifications_keyed_by_path(
    s: SessionView,
    e: Event,
    s2: SessionView,
    commands: Seq<CommandView>,
)
    requires
        unique_paths(s.image_classifications),
        allowed_step(s, e, s2, commands),
    ensures
        unique_paths(s2.image_classifications),
{
    assert(unique_paths(Seq::<(Seq<char>, ImageClassification)>::empty()));
    match e {
        Event::ImagesClassified(g, Ok(c)) => {
            lemma_keyed_by_path_unique(classification_views(c@));
        },
        _ => {},
    }
}

/// Expanding a folded section adds its start to the expanded sections,
/// changes nothing else and asks for nothing; expanding it again changes
/// nothing.
pub proof fn lemma_expand_section_idempotent(s: SessionView, start: usize)
    ensures
        step(s, Event::ExpandSection(start)) == (SessionView {
            expanded_sections: s.expanded_sections.insert(start),
            ..s
        }, Seq::<CommandView>::empty()),
        step(step(s, Event::ExpandSection(start)).0, Event::ExpandSection(start)) == step(
            s,
            Event::ExpandSection(start),
        ),
{
    let s1 = step(s, Event::ExpandSection(start)).0;
    assert(s1.expanded_sections.insert(start) =~= s1.expanded_sections);
    assert(seq![] =~= Seq::<CommandView>::empty());
}

/// The file a refresh selects: the old selection (the first file when
/// none was selected), or the last file when the list has shrunk below it.
pub open spec fn refreshed_selection(old: Option<usize>, len: int) -> usize {
    let want: int = match old {
        Some(i) => i as int,
        None => 0,
    };
    if want <= len - 1 { want as usize } else { (len - 1) as usize }
}

/// Refreshing: once the status is read, the new file list is taken, the
/// classifications start over, and with no files nothing is selected,
/// shown or prepared. Otherwise the first command loads the versions of
/// the refreshed selection, which is in range, and once they are loaded
/// that file is the one selected.
pub proof fn lemma_refresh_keeps_selection_in_range(
    s: SessionView,
    bytes: Vec<u8>,
    s2: SessionView,
    commands: Seq<CommandView>,
    versions: (Vec<u8>, Vec<u8>),
)
    requires
        s.repo is Some,
        allowed_step(s, Event::StatusRead(Ok(bytes)), s2, commands),
    ensures
        s2.image_classifications == Seq::<(Seq<char>, ImageClassification)>::empty(),
        s2.repo == s.repo,
        s2.error is None,
        s2.files.len() == 0 ==> s2.selected is None && s2.versions is None && s2.prepared_diff is None
            && commands.len() == 0,
        s2.files.len() > 0 ==> ({
            let index = refreshed_selection(s.selected, s2.files.len() as int);
            &&& index < s2.files.len()
            &&& commands.len() > 0
            &&& commands[0] == CommandView::LoadVersions {
                index,
                repo: s.repo->0,
                file: s2.files[index as int],
            }
            &&& step(s2, Event::VersionsLoaded(index, Ok(versions))).0.selected == Some(index)
        }),
{
    let files = s2.files;
    let s1 = SessionView {
        files,
        image_classifications: seq![],
        image_classification_generation: (s.image_classification_generation + 1) as u64,
        error: None,
        ..s
    };
    if files.len() > 0 {
        let index = refreshed_selection(s.selected, files.len() as int);
        let (sa, c1) = select_step(s1, index);
        let (sb, c2) = classify_step(sa);
        assert(c1 == seq![CommandView::LoadVersions { index, repo: s.repo->0, file: files[index as int] }]);
        assert((c1 + c2)[0] == c1[0]);
        let sv = SessionView {
            selected: Some(index),
            versions: Some((versions.0@, versions.1@)),
            error: None,
            prepared_diff: None,
            diff_error: None,
            expanded_sections: Set::empty(),
            ..s2
        };
        let sw = SessionView {
            prepare_generation: (sv.prepare_generation + 1) as u64,
            expanded_sections: Set::empty(),
            ..sv
        };
        assert(prepare_step(sw, sw.prepare_generation).0.selected == Some(index));
    }
}

/// Opening a repository that resolved to `root`: it becomes the current
/// repository and the first of the recent list, which is saved before the
/// status is read; a repository that did not resolve leaves everything
/// but the error as it was.
pub proof fn lemma_open_repository(s: SessionView, root: String, message: String)
    ensures
        ({
            let (s2, c) = step(s, Event::RepositoryResolved(Ok(root)));
            &&& s2 == SessionView {
                repo: Some(root@),
                error: None,
                recent_repos: remembered(s.recent_repos, root@),
                ..s
            }
            &&& c == seq![
                CommandView::SaveRecentRepos(remembered(s.recent_repos, root@)),
                CommandView::ReadStatus(root@),
            ]
        }),
        step(s, Event::RepositoryResolved(Err(message))) == (SessionView { error: Some(message@), ..s }, Seq::<CommandView>::empty()),
{
    let s1 = SessionView { repo: Some(root@), error: None, recent_repos: remembered(s.recent_repos, root@), ..s };
    assert(seq![CommandView::SaveRecentRepos(s1.recent_repos)] + seq![CommandView::ReadStatus(root@)] =~= seq![
        CommandView::SaveRecentRepos(remembered(s.recent_repos, root@)),
        CommandView::ReadStatus(root@),
    ]);
    assert(seq![] =~= Seq::<CommandView>::empty());
}

/// Changing the JSON options of a shown diff prepares it anew in a new
/// generation: turning prettifying on or off asks at once for the
/// preparation of the selected file's versions with the new setting,
/// while a change of the ignored keys waits for the typing to settle.
/// Nothing else changes but the folded sections, which close.
pub proof fn lemma_json_options_reprepare(s: SessionView, pretty: bool, keys: String)
    requires
        s.prepare_generation < u64::MAX,
        s.selected is Some,
        s.selected->0 < s.files.len(),
        s.versions is Some,
        !is_image_path(s.files[s.selected->0 as int].0),
    ensures
        ({
            let g = (s.prepare_generation + 1) as u64;
            let path = s.files[s.selected->0 as int].0;
            step(s, Event::PrettifyJsonChanged(pretty)) == (SessionView {
                prettify_json: pretty,
                prepare_generation: g,
                expanded_sections: Set::empty(),
                preparing_diff: true,
                ..s
            }, seq![
                CommandView::PrepareDiff {
                    generation: g,
                    before: (s.versions->0).0,
                    after: (s.versions->0).1,
                    is_json: is_json_path(path),
                    ignored_keys: s.ignored_keys,
                    prettify_json: pretty,
                },
            ])
        }),
        step(s, Event::IgnoredKeysChanged(keys)) == (SessionView {
            ignored_keys: keys@,
            prepare_generation: (s.prepare_generation + 1) as u64,
            expanded_sections: Set::empty(),
            ..s
        }, seq![CommandView::Debounce((s.prepare_generation + 1) as u64)]),
{
}

/// No two entries of `s` name the same path.
pub open spec fn distinct_paths(s: Seq<Seq<char>>) -> bool {
    forall|i: int, j: int| 0 <= i < s.len() && 0 <= j < s.len() && i != j ==> !same_path_spec(#[trigger] s[i], #[trigger] s[j])
}

/// The recent list after opening a repository starts with it, holds at
/// most eight entries, and names no path twice when it named none twice
/// before.
pub proof fn lemma_remembered(recent: Seq<Seq<char>>, root: Seq<char>)
    ensures
        remembered(recent, root)[0] == root,
        remembered(recent, root).len() <= 8,
        distinct_paths(recent) ==> distinct_paths(remembered(recent, root)),
{
    lemma_without_repo(recent, root);
    let w = without_repo(recent, root);
    let all = seq![root] + w;
    assert(all[0] == root);
    if distinct_paths(recent) {
        assert(distinct_paths(all)) by {
            assert forall|i: int, j: int| 0 <= i < all.len() && 0 <= j < all.len() && i != j implies !same_path_spec(#[trigger] all[i], #[trigger] all[j]) by {
                if i > 0 && j > 0 {
                    assert(all[i] == w[i - 1]);
                    assert(all[j] == w[j - 1]);
                } else if i == 0 {
                    assert(all[j] == w[j - 1]);
                    assert(!same_path_spec(w[j - 1], root));
                    lemma_path_order_equal(w[j - 1], root);
                } else {
                    assert(all[i] == w[i - 1]);
                    assert(!same_path_spec(w[i - 1], root));
                }
            }
        }
        if all.len() > 8 {
            assert forall|i: int, j: int| 0 <= i < 8 && 0 <= j < 8 && i != j implies !same_path_spec(#[trigger] all.take(8)[i], #[trigger] all.take(8)[j]) by {
                assert(all.take(8)[i] == all[i] && all.take(8)[j] == all[j]);
            }
        }
    }
}

proof fn lemma_without_repo(recent: Seq<Seq<char>>, root: Seq<char>)
    ensures
        forall|i: int| 0 <= i < without_repo(recent, root).len() ==> !same_path_spec(#[trigger] without_repo(recent, root)[i], root),
        distinct_paths(recent) ==> distinct_paths(without_repo(recent, root)),
        forall|i: int| 0 <= i < without_repo(recent, root).len() ==> exists|m: int| 0 <= m < recent.len() && #[trigger] without_repo(recent, root)[i] == recent[m],
    decreases recent.len(),
{
    if recent.len() > 0 {
        let d = recent.drop_last();
        lemma_without_repo(d, root);
        let rest = without_repo(d, root);
        let w = without_repo(recent, root);
        assert forall|i: int| 0 <= i < w.len() implies exists|m: int| 0 <= m < recent.len() && #[trigger] w[i] == recent[m] by {
            if i < rest.len() {
                assert(w[i] == rest[i]);
                let m = choose|m: int| 0 <= m < d.len() && rest[i] == d[m];
                assert(d[m] == recent[m]);
            } else {
                assert(w[i] == recent[recent.len() - 1]);
            }
        }
        if distinct_paths(recent) {
            assert(distinct_paths(d)) by {
                assert forall|i: int, j: int| 0 <= i < d.len() && 0 <= j < d.len() && i != j implies !same_path_spec(#[trigger] d[i], #[trigger] d[j]) by {
                    assert(d[i] == recent[i] && d[j] == recent[j]);
                }
            }
            if !same_path_spec(recent.last(), root) {
                let x = recent.last();
                assert forall|i: int| 0 <= i < rest.len() implies !same_path_spec(#[trigger] rest[i], x) by {
                    let m = choose|m: int| 0 <= m < d.len() && rest[i] == d[m];
                    assert(d[m] == recent[m]);
                    assert(!same_path_spec(recent[m], recent[recent.len() - 1]));
                }
                assert forall|i: int, j: int| 0 <= i < w.len() && 0 <= j < w.len() && i != j implies !same_path_spec(#[trigger] w[i], #[trigger] w[j]) by {
                    if i < rest.len() && j < rest.len() {
                        assert(w[i] == rest[i] && w[j] == rest[j]);
                    } else if i < rest.len() {
                        assert(w[i] == rest[i]);
                        assert(w[j] == x);
                    } else {
                        assert(w[j] == rest[j]);
                        assert(w[i] == x);
                        assert(!same_path_spec(rest[j], x));
                        lemma_path_order_equal(rest[j], x);
                    }
                }
            }
        }
    }
}

} // verus!
