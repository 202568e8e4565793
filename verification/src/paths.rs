//! Paths as Unix `Path` sees them: their components, their order, and
//! the names and extensions that pick how a file is shown.
use vstd::prelude::*;
use crate::bytes::{byte_views, decode_lossy, lenient_text, nonempty_fields, split_nonempty};
use vstd::string::StringSliceAdditionalSpecFns;

verus! {

/// Three-way lexicographic comparison of byte strings: -1, 0 or 1.
pub open spec fn bytes_order(a: Seq<u8>, b: Seq<u8>) -> int
    decreases a.len(),
{
    if a.len() == 0 {
        if b.len() == 0 { 0 } else { -1 }
    } else if b.len() == 0 {
        1
    } else if a[0] < b[0] {
        -1
    } else if a[0] > b[0] {
        1
    } else {
        bytes_order(a.drop_first(), b.drop_first())
    }
}

/// Three-way lexicographic comparison of sequences of byte strings.
pub open spec fn fields_order(a: Seq<Seq<u8>>, b: Seq<Seq<u8>>) -> int
    decreases a.len(),
{
    if a.len() == 0 {
        if b.len() == 0 { 0 } else { -1 }
    } else if b.len() == 0 {
        1
    } else if bytes_order(a[0], b[0]) != 0 {
        bytes_order(a[0], b[0])
    } else {
        fields_order(a.drop_first(), b.drop_first())
    }
}

pub proof fn lemma_bytes_order_antisymmetric(a: Seq<u8>, b: Seq<u8>)
    ensures
        bytes_order(a, b) == -bytes_order(b, a),
        bytes_order(a, b) == 0 ==> a == b,
        -1 <= bytes_order(a, b) <= 1,
    decreases a.len(),
{
    if a.len() > 0 && b.len() > 0 && a[0] == b[0] {
        lemma_bytes_order_antisymmetric(a.drop_first(), b.drop_first());
        if bytes_order(a, b) == 0 {
            assert(a =~= seq![a[0]] + a.drop_first());
            assert(b =~= seq![b[0]] + b.drop_first());
        }
    }
    if a.len() == 0 && b.len() == 0 {
        assert(a =~= b);
    }
}

pub proof fn lemma_bytes_order_transitive(a: Seq<u8>, b: Seq<u8>, c: Seq<u8>)
    requires
        bytes_order(a, b) <= 0,
        bytes_order(b, c) <= 0,
    ensures
        bytes_order(a, c) <= 0,
    decreases a.len(),
{
    if a.len() > 0 && b.len() > 0 && c.len() > 0 && a[0] == b[0] && b[0] == c[0] {
        lemma_bytes_order_transitive(a.drop_first(), b.drop_first(), c.drop_first());
    }
}

pub proof fn lemma_fields_order_antisymmetric(a: Seq<Seq<u8>>, b: Seq<Seq<u8>>)
    ensures
        fields_order(a, b) == -fields_order(b, a),
        -1 <= fields_order(a, b) <= 1,
    decreases a.len(),
{
    if a.len() > 0 && b.len() > 0 {
        lemma_bytes_order_antisymmetric(a[0], b[0]);
        if bytes_order(a[0], b[0]) == 0 {
            lemma_fields_order_antisymmetric(a.drop_first(), b.drop_first());
        }
    }
}

pub proof fn lemma_fields_order_transitive(a: Seq<Seq<u8>>, b: Seq<Seq<u8>>, c: Seq<Seq<u8>>)
    requires
        fields_order(a, b) <= 0,
        fields_order(b, c) <= 0,
    ensures
        fields_order(a, c) <= 0,
    decreases a.len(),
{
    if a.len() > 0 && b.len() > 0 && c.len() > 0 {
        lemma_bytes_order_antisymmetric(a[0], b[0]);
        lemma_bytes_order_antisymmetric(b[0], c[0]);
        lemma_bytes_order_antisymmetric(a[0], c[0]);
        lemma_bytes_order_transitive(a[0], b[0], c[0]);
        if bytes_order(a[0], c[0]) == 0 {
            // a[0] == c[0], so both comparisons through b[0] are ties
            lemma_bytes_order_transitive(b[0], c[0], a[0]);
            lemma_bytes_order_transitive(c[0], a[0], b[0]);
            lemma_fields_order_transitive(a.drop_first(), b.drop_first(), c.drop_first());
        }
    }
}

/// The components that the segments of a path (between slashes) stand
/// for: `.` stands for none, `..` for the parent marker `[3]`, and any
/// other segment `s` for the name `[4] + s`. The leading byte ranks the
/// kinds of component as `Path` orders them.
pub open spec fn segment_components(segments: Seq<Seq<u8>>) -> Seq<Seq<u8>>
    decreases segments.len(),
{
    if segments.len() == 0 {
        seq![]
    } else {
        let rest = segment_components(segments.drop_last());
        let s = segments.last();
        if s == seq!['.' as u8] {
            rest
        } else if s == seq!['.' as u8, '.' as u8] {
            rest.push(seq![3u8])
        } else {
            rest.push(seq![4u8] + s)
        }
    }
}

/// The components of a Unix path given by its bytes, each as a byte string
/// whose first byte ranks its kind: the root `[1]` for a leading slash,
/// the current directory `[2]` for a leading `.` segment of a relative
/// path, then the components of the segments.
pub open spec fn path_components(p: Seq<u8>) -> Seq<Seq<u8>> {
    let lead: Seq<Seq<u8>> = if p.len() > 0 && p[0] == '/' as u8 {
        seq![seq![1u8]]
    } else if p =~= seq!['.' as u8] || (p.len() >= 2 && p[0] == '.' as u8 && p[1] == '/' as u8) {
        seq![seq![2u8]]
    } else {
        seq![]
    };
    lead + segment_components(nonempty_fields(p, '/' as u8))
}

/// The order of two paths, given as text, as `Path`'s `Ord` compares them:
/// component by component.
pub open spec fn path_order(a: Seq<char>, b: Seq<char>) -> int {
    fields_order(
        path_components(vstd::utf8::encode_utf8(a)),
        path_components(vstd::utf8::encode_utf8(b)),
    )
}

/// Whether `a` and `b` name the same path: `Path` compares equal when
/// the components agree, so `/a/b/` and `/a/b` are the same path.
pub open spec fn same_path_spec(a: Seq<char>, b: Seq<char>) -> bool {
    path_order(a, b) == 0
}

/// Naming the same path is symmetric.
pub proof fn lemma_path_order_equal(a: Seq<char>, b: Seq<char>)
    ensures
        same_path_spec(a, b) == same_path_spec(b, a),
{
    lemma_fields_order_antisymmetric(
        path_components(vstd::utf8::encode_utf8(a)),
        path_components(vstd::utf8::encode_utf8(b)),
    );
}

/// Compares two byte strings lexicographically.
pub fn compare_bytes(a: &[u8], b: &[u8]) -> (c: i8)
    ensures
        c == bytes_order(a@, b@),
{
    let mut i: usize = 0;
    assert(a@.skip(0) =~= a@ && b@.skip(0) =~= b@);
    while i < a.len() && i < b.len() && a[i] == b[i]
        invariant
            0 <= i <= a.len(),
            i <= b.len(),
            bytes_order(a@, b@) == bytes_order(a@.skip(i as int), b@.skip(i as int)),
        decreases a.len() - i,
    {
        assert(a@.skip(i as int).drop_first() =~= a@.skip(i + 1));
        assert(b@.skip(i as int).drop_first() =~= b@.skip(i + 1));
        i = i + 1;
    }
    if i == a.len() {
        if i == b.len() { 0 } else { -1 }
    } else if i == b.len() {
        1
    } else if a[i] < b[i] {
        -1
    } else {
        1
    }
}

/// Compares two sequences of byte strings lexicographically.
pub fn compare_fields(a: &Vec<Vec<u8>>, b: &Vec<Vec<u8>>) -> (c: i8)
    ensures
        c == fields_order(byte_views(a@), byte_views(b@)),
{
    let ghost av = byte_views(a@);
    let ghost bv = byte_views(b@);
    let mut i: usize = 0;
    assert(av.skip(0) =~= av && bv.skip(0) =~= bv);
    while i < a.len() && i < b.len()
        invariant
            0 <= i <= a.len(),
            i <= b.len(),
            av == byte_views(a@),
            bv == byte_views(b@),
            fields_order(av, bv) == fields_order(av.skip(i as int), bv.skip(i as int)),
        decreases a.len() - i,
    {
        let c = compare_bytes(a[i].as_slice(), b[i].as_slice());
        assert(av.skip(i as int)[0] == a@[i as int]@);
        assert(bv.skip(i as int)[0] == b@[i as int]@);
        if c != 0 {
            return c;
        }
        assert(av.skip(i as int).drop_first() =~= av.skip(i + 1));
        assert(bv.skip(i as int).drop_first() =~= bv.skip(i + 1));
        i = i + 1;
    }
    if i == a.len() {
        if i == b.len() { 0 } else { -1 }
    } else {
        1
    }
}

fn single_byte(b: u8) -> (v: Vec<u8>)
    ensures
        v@ == seq![b],
{
    let mut v: Vec<u8> = Vec::new();
    v.push(b);
    v
}

/// The components of a path, ranked as `path_components` describes.
pub fn path_key(path: &str) -> (key: Vec<Vec<u8>>)
    ensures
        byte_views(key@) == path_components(path.spec_bytes()),
{
    let p = path.as_bytes();
    let segments = split_nonempty(p, '/' as u8);
    let ghost segs = byte_views(segments@);
    let mut key: Vec<Vec<u8>> = Vec::new();
    if p.len() > 0 && p[0] == '/' as u8 {
        key.push(single_byte(1));
    } else if (p.len() == 1 && p[0] == '.' as u8) || (p.len() >= 2 && p[0] == '.' as u8 && p[1] == '/' as u8) {
        key.push(single_byte(2));
    }
    let ghost lead = byte_views(key@);
    assert(p@ == path.spec_bytes());
    assert(lead =~= path_components(p@).subrange(0, lead.len() as int));
    assert(p@.len() == 1 && p@[0] == '.' as u8 ==> p@ =~= seq!['.' as u8]);
    assert(p@ =~= seq!['.' as u8] ==> p@.len() == 1 && p@[0] == '.' as u8);
    let mut i: usize = 0;
    while i < segments.len()
        invariant
            0 <= i <= segments.len(),
            segs == byte_views(segments@),
            byte_views(key@) == lead + segment_components(segs.take(i as int)),
        decreases segments.len() - i,
    {
        let s = &segments[i];
        assert(segs.take(i + 1).drop_last() =~= segs.take(i as int));
        assert(segs.take(i + 1).last() == s@);
        let ghost before = key@;
        if s.len() == 1 && s[0] == '.' as u8 {
            assert(s@ =~= seq!['.' as u8]);
        } else if s.len() == 2 && s[0] == '.' as u8 && s[1] == '.' as u8 {
            assert(s@ =~= seq!['.' as u8, '.' as u8]);
            key.push(single_byte(3));
            assert(byte_views(key@) =~= byte_views(before).push(seq![3u8]));
        } else {
            assert(s@ != seq!['.' as u8]);
            assert(s@ != seq!['.' as u8, '.' as u8]);
            let mut c: Vec<u8> = single_byte(4);
            let mut j: usize = 0;
            while j < s.len()
                invariant
                    0 <= j <= s.len(),
                    c@ == seq![4u8] + s@.take(j as int),
                decreases s.len() - j,
            {
                c.push(s[j]);
                assert(s@.take(j + 1) =~= s@.take(j as int).push(s@[j as int]));
                j = j + 1;
            }
            assert(s@.take(s.len() as int) =~= s@);
            key.push(c);
            assert(byte_views(key@) =~= byte_views(before).push(seq![4u8] + s@));
        }
        assert(lead + segment_components(segs.take(i + 1)) =~= byte_views(key@));
        i = i + 1;
    }
    assert(segs.take(segs.len() as int) =~= segs);
    key
}

/// Whether two paths name the same path, component for component.
pub fn same_path(a: &str, b: &str) -> (same: bool)
    ensures
        same == same_path_spec(a@, b@),
{
    let ka = path_key(a);
    let kb = path_key(b);
    compare_fields(&ka, &kb) == 0
}

/// The final component of a path when it is a name, as `Path::file_name`
/// gives it.
pub open spec fn file_name_bytes(p: Seq<u8>) -> Option<Seq<u8>> {
    let comps = path_components(p);
    if comps.len() > 0 && comps.last().len() > 0 && comps.last()[0] == 4 {
        Some(comps.last().drop_first())
    } else {
        None
    }
}

/// The index of the last `.` in `name`, or -1.
pub open spec fn last_dot(name: Seq<u8>) -> int
    decreases name.len(),
{
    if name.len() == 0 {
        -1
    } else if name.last() == '.' as u8 {
        name.len() - 1
    } else {
        last_dot(name.drop_last())
    }
}

/// The extension of a path, as `Path::extension` gives it: what follows
/// the last dot of the file name, unless that dot is its first byte.
pub open spec fn extension_bytes(p: Seq<u8>) -> Option<Seq<u8>> {
    match file_name_bytes(p) {
        Some(name) => if last_dot(name) > 0 {
            Some(name.skip(last_dot(name) + 1))
        } else {
            None
        },
        None => None,
    }
}

/// The name of a path's final component, if it is a name.
fn file_name_of(path: &str) -> (name: Option<Vec<u8>>)
    ensures
        match name {
            Some(n) => file_name_bytes(path.spec_bytes()) == Some(n@),
            None => file_name_bytes(path.spec_bytes()) is None,
        },
{
    let key = path_key(path);
    let n = key.len();
    if n > 0 && key[n - 1].len() > 0 && key[n - 1][0] == 4 {
        let last = &key[n - 1];
        assert(byte_views(key@).last() == last@);
        let mut name: Vec<u8> = Vec::new();
        let mut j: usize = 1;
        while j < last.len()
            invariant
                1 <= j <= last.len(),
                name@ == last@.subrange(1, j as int),
            decreases last.len() - j,
        {
            name.push(last[j]);
            assert(last@.subrange(1, j + 1) =~= last@.subrange(1, j as int).push(last@[j as int]));
            j = j + 1;
        }
        assert(last@.subrange(1, last.len() as int) =~= last@.drop_first());
        Some(name)
    } else {
        proof {
            if n > 0 {
                assert(byte_views(key@).last() == key@[n - 1]@);
            }
        }
        None
    }
}

/// The extension of a path, if it has one.
pub fn extension_of(path: &str) -> (ext: Option<Vec<u8>>)
    ensures
        match ext {
            Some(e) => extension_bytes(path.spec_bytes()) == Some(e@),
            None => extension_bytes(path.spec_bytes()) is None,
        },
{
    match file_name_of(path) {
        None => None,
        Some(name) => {
            let mut i = name.len();
            assert(name@.take(name.len() as int) =~= name@);
            while i > 0 && name[i - 1] != '.' as u8
                invariant
                    0 <= i <= name.len(),
                    last_dot(name@) == last_dot(name@.take(i as int)),
                decreases i,
            {
                assert(name@.take(i as int).drop_last() =~= name@.take(i - 1));
                i = i - 1;
            }
            proof {
                assert(name@.take(name@.len() as int) =~= name@);
            }
            if i <= 1 {
                None
            } else {
                let mut e: Vec<u8> = Vec::new();
                let mut j = i;
                while j < name.len()
                    invariant
                        i <= j <= name.len(),
                        e@ == name@.subrange(i as int, j as int),
                    decreases name.len() - j,
                {
                    e.push(name[j]);
                    assert(name@.subrange(i as int, j + 1) =~= name@.subrange(i as int, j as int).push(name@[j as int]));
                    j = j + 1;
                }
                assert(name@.subrange(i as int, name.len() as int) =~= name@.skip(i as int));
                Some(e)
            }
        },
    }
}

/// Whether the extension of `p` is one of `words`.
pub open spec fn has_extension_in(p: Seq<u8>, words: Seq<Seq<u8>>) -> bool {
    extension_bytes(p) matches Some(e) && words.contains(e)
}

fn is_word(e: &Vec<u8>, w: &[u8]) -> (same: bool)
    ensures
        same == (e@ == w@),
{
    if e.len() != w.len() {
        return false;
    }
    let mut i: usize = 0;
    while i < e.len()
        invariant
            e.len() == w.len(),
            0 <= i <= e.len(),
            forall|k: int| 0 <= k < i ==> e@[k] == w@[k],
        decreases e.len() - i,
    {
        if e[i] != w[i] {
            return false;
        }
        i = i + 1;
    }
    assert(e@ =~= w@);
    true
}

pub open spec fn image_extensions() -> Seq<Seq<u8>> {
    seq![
        ascii("png"@),
        ascii("jpg"@),
        ascii("jpeg"@),
        ascii("gif"@),
        ascii("bmp"@),
        ascii("webp"@),
    ]
}

pub open spec fn video_extensions() -> Seq<Seq<u8>> {
    seq![
        ascii("avi"@),
        ascii("m4v"@),
        ascii("mkv"@),
        ascii("mov"@),
        ascii("mp4"@),
        ascii("mpeg"@),
        ascii("mpg"@),
        ascii("webm"@),
    ]
}

pub open spec fn classifiable_image_extensions() -> Seq<Seq<u8>> {
    seq![
        ascii("png"@),
        ascii("jpg"@),
        ascii("jpeg"@),
        ascii("bmp"@),
    ]
}

/// Whether `e` is one of the words in `words`.
fn is_one_of(e: &Vec<u8>, words: &Vec<Vec<u8>>) -> (found: bool)
    ensures
        found == byte_views(words@).contains(e@),
{
    let mut i: usize = 0;
    while i < words.len()
        invariant
            0 <= i <= words.len(),
            forall|k: int| 0 <= k < i ==> byte_views(words@)[k] != e@,
        decreases words.len() - i,
    {
        if is_word(e, words[i].as_slice()) {
            assert(byte_views(words@)[i as int] == e@);
            return true;
        }
        i = i + 1;
    }
    false
}

/// The bytes of ASCII characters.
pub open spec fn ascii(w: Seq<char>) -> Seq<u8> {
    w.map_values(|c: char| c as u8)
}

/// The bytes of an ASCII word.
fn ascii_word(w: &str) -> (v: Vec<u8>)
    requires
        vstd::string::is_ascii(w),
    ensures
        v@ == ascii(w@),
{
    broadcast use vstd::string::is_ascii_spec_bytes;

    let v = vstd::slice::slice_to_vec(w.as_bytes());
    assert(v@ =~= ascii(w@));
    v
}

/// Whether a path names an image that can be previewed.
pub fn is_image(path: &str) -> (image: bool)
    ensures
        image == has_extension_in(path.spec_bytes(), image_extensions()),
{
    proof {
        reveal_strlit("png");
        reveal_strlit("jpg");
        reveal_strlit("jpeg");
        reveal_strlit("gif");
        reveal_strlit("bmp");
        reveal_strlit("webp");
    }
    let mut words: Vec<Vec<u8>> = Vec::new();
    words.push(ascii_word("png"));
    words.push(ascii_word("jpg"));
    words.push(ascii_word("jpeg"));
    words.push(ascii_word("gif"));
    words.push(ascii_word("bmp"));
    words.push(ascii_word("webp"));
    assert(byte_views(words@) =~= image_extensions());
    match extension_of(path) {
        Some(e) => is_one_of(&e, &words),
        None => false,
    }
}

/// Whether a path names a video.
pub fn is_video(path: &str) -> (video: bool)
    ensures
        video == has_extension_in(path.spec_bytes(), video_extensions()),
{
    proof {
        reveal_strlit("avi");
        reveal_strlit("m4v");
        reveal_strlit("mkv");
        reveal_strlit("mov");
        reveal_strlit("mp4");
        reveal_strlit("mpeg");
        reveal_strlit("mpg");
        reveal_strlit("webm");
    }
    let mut words: Vec<Vec<u8>> = Vec::new();
    words.push(ascii_word("avi"));
    words.push(ascii_word("m4v"));
    words.push(ascii_word("mkv"));
    words.push(ascii_word("mov"));
    words.push(ascii_word("mp4"));
    words.push(ascii_word("mpeg"));
    words.push(ascii_word("mpg"));
    words.push(ascii_word("webm"));
    assert(byte_views(words@) =~= video_extensions());
    match extension_of(path) {
        Some(e) => is_one_of(&e, &words),
        None => false,
    }
}

/// Whether a path names an image whose pixels are compared.
pub fn is_classifiable_image(path: &str) -> (classifiable: bool)
    ensures
        classifiable == has_extension_in(path.spec_bytes(), classifiable_image_extensions()),
{
    proof {
        reveal_strlit("png");
        reveal_strlit("jpg");
        reveal_strlit("jpeg");
        reveal_strlit("bmp");
    }
    let mut words: Vec<Vec<u8>> = Vec::new();
    words.push(ascii_word("png"));
    words.push(ascii_word("jpg"));
    words.push(ascii_word("jpeg"));
    words.push(ascii_word("bmp"));
    assert(byte_views(words@) =~= classifiable_image_extensions());
    match extension_of(path) {
        Some(e) => is_one_of(&e, &words),
        None => false,
    }
}

/// Whether a path names a JSON file.
pub fn is_json(path: &str) -> (json: bool)
    ensures
        json == (extension_bytes(path.spec_bytes()) == Some(ascii("json"@))),
{
    match extension_of(path) {
        Some(e) => {
            proof {
                reveal_strlit("json");
            }
            let w = ascii_word("json");
            is_word(&e, w.as_slice())
        },
        None => false,
    }
}

/// The name shown for a repository: the final component of its path, or
/// the whole path when that is not a name.
pub fn repo_name(path: &str) -> (name: String)
    ensures
        name@ == match file_name_bytes(path.spec_bytes()) {
            Some(n) => lenient_text(n),
            None => path@,
        },
{
    match file_name_of(path) {
        Some(n) => decode_lossy(n.as_slice()),
        None => path.to_owned(),
    }
}

} // verus!
