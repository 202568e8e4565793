//! Splitting byte strings on a separator, and decoding them as text.
use vstd::prelude::*;
use vstd::utf8::*;

verus! {

/// The state of a left-to-right scan that splits `s` on `sep`: the
/// non-empty fields already closed by a separator, and the bytes of the
/// field still open.
pub open spec fn split_state(s: Seq<u8>, sep: u8) -> (Seq<Seq<u8>>, Seq<u8>)
    decreases s.len(),
{
    if s.len() == 0 {
        (seq![], seq![])
    } else {
        let (done, open) = split_state(s.drop_last(), sep);
        if s.last() == sep {
            if open.len() > 0 {
                (done.push(open), seq![])
            } else {
                (done, seq![])
            }
        } else {
            (done, open.push(s.last()))
        }
    }
}

/// The non-empty runs of `s` between occurrences of `sep`, in order.
pub open spec fn nonempty_fields(s: Seq<u8>, sep: u8) -> Seq<Seq<u8>> {
    let (done, open) = split_state(s, sep);
    if open.len() > 0 {
        done.push(open)
    } else {
        done
    }
}

/// The views of a vector of byte vectors.
pub open spec fn byte_views(v: Seq<Vec<u8>>) -> Seq<Seq<u8>> {
    v.map_values(|b: Vec<u8>| b@)
}

/// Splits `s` on `sep`, dropping the empty fields.
pub fn split_nonempty(s: &[u8], sep: u8) -> (fields: Vec<Vec<u8>>)
    ensures
        byte_views(fields@) == nonempty_fields(s@, sep),
{
    let mut done: Vec<Vec<u8>> = Vec::new();
    let mut open: Vec<u8> = Vec::new();
    let mut i: usize = 0;
    while i < s.len()
        invariant
            0 <= i <= s.len(),
            (byte_views(done@), open@) == split_state(s@.take(i as int), sep),
        decreases s.len() - i,
    {
        assert(s@.take(i + 1).drop_last() =~= s@.take(i as int));
        let b = s[i];
        if b == sep {
            if open.len() > 0 {
                let ghost before = done@;
                let mut field: Vec<u8> = Vec::new();
                std::mem::swap(&mut field, &mut open);
                done.push(field);
                assert(byte_views(done@) =~= byte_views(before).push(field@));
            }
        } else {
            open.push(b);
        }
        i = i + 1;
    }
    assert(s@.take(s.len() as int) =~= s@);
    if open.len() > 0 {
        let ghost before = done@;
        let ghost last = open@;
        done.push(open);
        assert(byte_views(done@) =~= byte_views(before).push(last));
    }
    assert(byte_views(done@) =~= nonempty_fields(s@, sep));
    done
}

/// The text that `String::from_utf8_lossy` makes of `bytes`.
pub uninterp spec fn lossy_text(bytes: Seq<u8>) -> Seq<char>;

/// Calls `String::from_utf8_lossy` and takes the result as an owned
/// `String`. The result is named by `lossy_text`; the documentation of
/// the function says that valid UTF-8 is decoded unchanged, which the
/// second clause states. What replaces invalid sequences is left unsaid.
#[verifier::external_body]
pub(crate) fn decode_lossy(bytes: &[u8]) -> (text: String)
    ensures
        text@ == lossy_text(bytes@),
        valid_utf8(bytes@) ==> text@ == decode_utf8(bytes@),
{
    String::from_utf8_lossy(bytes).into_owned()
}

/// Bytes read as text leniently: valid UTF-8 decodes to its characters,
/// anything else as `String::from_utf8_lossy` repairs it.
pub open spec fn lenient_text(bytes: Seq<u8>) -> Seq<char> {
    if valid_utf8(bytes) {
        decode_utf8(bytes)
    } else {
        lossy_text(bytes)
    }
}

} // verus!
