//! JSON documents: reading them, dropping ignored keys at every depth,
//! and writing them back compactly or prettily.
use vstd::prelude::*;
use vstd::utf8::{decode_utf8, valid_utf8};
use serde_json::{Number, Value};
use crate::reversed;
use crate::text::{chars_of, comma_fields, comma_state, string_from_chars, trim, trim_chars};

verus! {

#[verifier::external_type_specification]
#[verifier::external_body]
pub struct ExJsonNumber(serde_json::Number);

#[verifier::external_type_specification]
#[verifier::external_body]
pub struct ExJsonValue(serde_json::Value);

/// A JSON value. Object members are held in the order `serde_json` hands
/// them over (its map is sorted by key); numbers are carried as
/// `serde_json` holds them.
pub enum JsonValue {
    Null,
    Bool(bool),
    Number(Number),
    String(String),
    Array(Vec<JsonValue>),
    Object(Vec<(String, JsonValue)>),
}

/// `b` is `a` with every object member whose key is in `ignored` dropped,
/// at every depth; everything else is kept in order.
pub open spec fn stripped(a: JsonValue, b: JsonValue, ignored: Set<Seq<char>>) -> bool
    decreases a,
{
    match a {
        JsonValue::Object(ea) => match b {
            JsonValue::Object(eb) => members_stripped(ea@, eb@, ignored),
            _ => false,
        },
        JsonValue::Array(xa) => match b {
            JsonValue::Array(xb) => items_stripped(xa@, xb@, ignored),
            _ => false,
        },
        _ => b == a,
    }
}

pub open spec fn items_stripped(xa: Seq<JsonValue>, xb: Seq<JsonValue>, ignored: Set<Seq<char>>) -> bool
    decreases xa,
{
    if xa.len() == 0 {
        xb.len() == 0
    } else {
        &&& xb.len() > 0
        &&& stripped(xa.last(), xb.last(), ignored)
        &&& items_stripped(xa.drop_last(), xb.drop_last(), ignored)
    }
}

pub open spec fn members_stripped(
    ea: Seq<(String, JsonValue)>,
    eb: Seq<(String, JsonValue)>,
    ignored: Set<Seq<char>>,
) -> bool
    decreases ea,
{
    if ea.len() == 0 {
        eb.len() == 0
    } else if ignored.contains(ea.last().0@) {
        members_stripped(ea.drop_last(), eb, ignored)
    } else {
        &&& eb.len() > 0
        &&& eb.last().0@ == ea.last().0@
        &&& stripped(ea.last().1, eb.last().1, ignored)
        &&& members_stripped(ea.drop_last(), eb.drop_last(), ignored)
    }
}

/// No object at any depth of `v` has a key in `ignored`.
pub open spec fn free_of_keys(v: JsonValue, ignored: Set<Seq<char>>) -> bool
    decreases v,
{
    match v {
        JsonValue::Object(e) => members_free_of_keys(e@, ignored),
        JsonValue::Array(x) => items_free_of_keys(x@, ignored),
        _ => true,
    }
}

pub open spec fn items_free_of_keys(x: Seq<JsonValue>, ignored: Set<Seq<char>>) -> bool
    decreases x,
{
    x.len() > 0 ==> free_of_keys(x.last(), ignored) && items_free_of_keys(x.drop_last(), ignored)
}

pub open spec fn members_free_of_keys(e: Seq<(String, JsonValue)>, ignored: Set<Seq<char>>) -> bool
    decreases e,
{
    e.len() > 0 ==> !ignored.contains(e.last().0@) && free_of_keys(e.last().1, ignored)
        && members_free_of_keys(e.drop_last(), ignored)
}

/// The set of keys a list of keys names.
pub open spec fn key_set(keys: Seq<String>) -> Set<Seq<char>> {
    Set::new(|k: Seq<char>| exists|i: int| 0 <= i < keys.len() && (#[trigger] keys[i])@ == k)
}

/// Whether `key` is one of `keys`.
fn is_ignored(keys: &Vec<String>, key: &String) -> (found: bool)
    ensures
        found == key_set(keys@).contains(key@),
{
    let mut i: usize = 0;
    while i < keys.len()
        invariant
            0 <= i <= keys.len(),
            forall|j: int| 0 <= j < i ==> (#[trigger] keys@[j])@ != key@,
        decreases keys.len() - i,
    {
        if keys[i] == *key {
            assert(key_set(keys@).contains(key@)) by {
                assert(keys@[i as int]@ == key@);
            }
            return true;
        }
        i = i + 1;
    }
    false
}

/// `value` without the object members whose key is in `keys`, at every depth.
pub fn without_keys(value: JsonValue, keys: &Vec<String>) -> (result: JsonValue)
    ensures
        stripped(value, result, key_set(keys@)),
    decreases value,
{
    let ghost ig = key_set(keys@);
    let ghost v0 = value;
    match value {
        JsonValue::Object(members) => {
            let ghost m0 = members@;
            let ghost mv = members;
            let mut pending = reversed(members);
            let total = pending.len();
            let mut kept: Vec<(String, JsonValue)> = Vec::new();
            let mut done: usize = 0;
            while pending.len() > 0
                invariant
                    pending@ == m0.reverse().take(pending.len() as int),
                    done + pending.len() == m0.len(),
                    total == m0.len(),
                    members_stripped(m0.take(done as int), kept@, ig),
                    ig == key_set(keys@),
                    v0 == JsonValue::Object(mv),
                    v0 == value,
                    mv@ == m0,
                decreases pending.len(),
            {
                let (key, item) = pending.pop().unwrap();
                assert(m0.take(done + 1).drop_last() =~= m0.take(done as int));
                assert(m0.take(done + 1).last() == m0[done as int]);
                assert((key, item) == m0[done as int]);
                if is_ignored(keys, &key) {
                } else {
                    assert(decreases_to!(v0 => v0->Object_0));
                    assert(v0->Object_0 == mv);
                    assert(decreases_to!(mv => mv@));
                    assert(decreases_to!(mv@ => mv@[done as int]));
                    assert(decreases_to!(mv@[done as int] => mv@[done as int].1));
                    assert(decreases_to!(v0 => item));
                    let stripped_item = without_keys(item, keys);
                    let ghost before = kept@;
                    kept.push((key, stripped_item));
                    assert(kept@.drop_last() =~= before);
                }
                done = done + 1;
            }
            assert(m0.take(m0.len() as int) =~= m0);
            JsonValue::Object(kept)
        },
        JsonValue::Array(items) => {
            let ghost x0 = items@;
            let ghost xv = items;
            let mut pending = reversed(items);
            let mut kept: Vec<JsonValue> = Vec::new();
            while pending.len() > 0
                invariant
                    pending@ == x0.reverse().take(pending.len() as int),
                    kept.len() + pending.len() == x0.len(),
                    items_stripped(x0.take(kept.len() as int), kept@, ig),
                    ig == key_set(keys@),
                    v0 == JsonValue::Array(xv),
                    v0 == value,
                    xv@ == x0,
                decreases pending.len(),
            {
                let n = kept.len();
                let item = pending.pop().unwrap();
                assert(x0.take(n + 1).drop_last() =~= x0.take(n as int));
                assert(item == x0[n as int]);
                assert(decreases_to!(v0 => v0->Array_0));
                assert(v0->Array_0 == xv);
                assert(decreases_to!(xv => xv@));
                assert(decreases_to!(xv@ => xv@[n as int]));
                assert(decreases_to!(v0 => item));
                let stripped_item = without_keys(item, keys);
                let ghost before = kept@;
                kept.push(stripped_item);
                assert(kept@.drop_last() =~= before);
            }
            assert(x0.take(x0.len() as int) =~= x0);
            JsonValue::Array(kept)
        },
        JsonValue::Null => JsonValue::Null,
        JsonValue::Bool(b) => JsonValue::Bool(b),
        JsonValue::Number(n) => JsonValue::Number(n),
        JsonValue::String(s) => JsonValue::String(s),
    }
}

/// Whatever a document was, once the ignored keys are stripped no object
/// at any depth of it has one of them.
pub proof fn lemma_stripped_is_free_of_keys(a: JsonValue, b: JsonValue, ignored: Set<Seq<char>>)
    requires
        stripped(a, b, ignored),
    ensures
        free_of_keys(b, ignored),
    decreases a,
{
    match a {
        JsonValue::Object(ea) => {
            let eb = b->Object_0;
            lemma_members_stripped_free(ea@, eb@, ignored);
        },
        JsonValue::Array(xa) => {
            let xb = b->Array_0;
            lemma_items_stripped_free(xa@, xb@, ignored);
        },
        _ => {},
    }
}

proof fn lemma_items_stripped_free(xa: Seq<JsonValue>, xb: Seq<JsonValue>, ignored: Set<Seq<char>>)
    requires
        items_stripped(xa, xb, ignored),
    ensures
        items_free_of_keys(xb, ignored),
    decreases xa,
{
    if xa.len() > 0 {
        lemma_stripped_is_free_of_keys(xa.last(), xb.last(), ignored);
        lemma_items_stripped_free(xa.drop_last(), xb.drop_last(), ignored);
    }
}

proof fn lemma_members_stripped_free(
    ea: Seq<(String, JsonValue)>,
    eb: Seq<(String, JsonValue)>,
    ignored: Set<Seq<char>>,
)
    requires
        members_stripped(ea, eb, ignored),
    ensures
        members_free_of_keys(eb, ignored),
    decreases ea,
{
    if ea.len() > 0 {
        if ignored.contains(ea.last().0@) {
            lemma_members_stripped_free(ea.drop_last(), eb, ignored);
        } else {
            lemma_stripped_is_free_of_keys(ea.last().1, eb.last().1, ignored);
            lemma_members_stripped_free(ea.drop_last(), eb.drop_last(), ignored);
        }
    }
}

/// Drops, at every depth of `value`, the object members whose key is in `keys`.
pub fn remove_keys(value: &mut JsonValue, keys: &Vec<String>)
    ensures
        stripped(*old(value), *final(value), key_set(keys@)),
{
    let mut taken = JsonValue::Null;
    std::mem::swap(&mut taken, value);
    *value = without_keys(taken, keys);
}

/// The keys named by a comma-separated list: each field trimmed of
/// whitespace, empty ones dropped.
pub open spec fn keys_of_fields(fields: Seq<Seq<char>>) -> Seq<Seq<char>>
    decreases fields.len(),
{
    if fields.len() == 0 {
        seq![]
    } else {
        let rest = keys_of_fields(fields.drop_last());
        let t = trim(fields.last());
        if t.len() > 0 {
            rest.push(t)
        } else {
            rest
        }
    }
}

/// The keys named by a comma-separated list of ignored keys.
pub open spec fn ignored_key_list(text: Seq<char>) -> Seq<Seq<char>> {
    keys_of_fields(comma_fields(text))
}

/// The views of a vector of strings.
pub open spec fn string_views(v: Seq<String>) -> Seq<Seq<char>> {
    v.map_values(|s: String| s@)
}

/// Reads a comma-separated list of keys: fields are trimmed of
/// whitespace and empty ones dropped.
pub fn ignored_keys(text: &str) -> (keys: Vec<String>)
    ensures
        string_views(keys@) == ignored_key_list(text@),
{
    let chars = chars_of(text);
    let ghost s = text@;
    let mut keys: Vec<String> = Vec::new();
    let mut open: Vec<char> = Vec::new();
    let mut i: usize = 0;
    let ghost mut done: Seq<Seq<char>> = seq![];
    while i < chars.len()
        invariant
            chars@ == s,
            0 <= i <= chars.len(),
            (done, open@) == comma_state(s.take(i as int)),
            string_views(keys@) == keys_of_fields(done),
        decreases chars.len() - i,
    {
        assert(s.take(i + 1).drop_last() =~= s.take(i as int));
        let c = chars[i];
        if c == ',' {
            let t = trim_chars(open.as_slice());
            let ghost before = keys@;
            if t.len() > 0 {
                keys.push(string_from_chars(t.as_slice()));
                assert(string_views(keys@) =~= string_views(before).push(t@));
            }
            proof {
                assert(done.push(open@).drop_last() =~= done);
                done = done.push(open@);
            }
            open = Vec::new();
        } else {
            open.push(c);
        }
        i = i + 1;
    }
    assert(s.take(s.len() as int) =~= s);
    let t = trim_chars(open.as_slice());
    let ghost before = keys@;
    if t.len() > 0 {
        keys.push(string_from_chars(t.as_slice()));
        assert(string_views(keys@) =~= string_views(before).push(t@));
    }
    assert(done.push(open@).drop_last() =~= done);
    keys
}

/// The document that `serde_json::from_slice` reads from `bytes`, or
/// `None` where it reports an error.
pub uninterp spec fn json_document(bytes: Seq<u8>) -> Option<JsonValue>;

/// The message of the error `serde_json::from_slice` reports on `bytes`.
pub uninterp spec fn json_error_text(bytes: Seq<u8>) -> Seq<char>;

/// The text `serde_json::to_string` writes for a document.
pub uninterp spec fn json_compact_text(value: JsonValue) -> Seq<char>;

/// The text `serde_json::to_string_pretty` writes for a document.
pub uninterp spec fn json_pretty_text(value: JsonValue) -> Seq<char>;

/// The message of the error `String::from_utf8` reports on `bytes`.
pub uninterp spec fn utf8_error_text(bytes: Seq<u8>) -> Seq<char>;

/// Moves a `serde_json` value into a `JsonValue`, variant for variant;
/// members keep the order of the `serde_json` map.
#[verifier::external_body]
fn from_serde(value: Value) -> JsonValue {
    match value {
        Value::Null => JsonValue::Null,
        Value::Bool(b) => JsonValue::Bool(b),
        Value::Number(n) => JsonValue::Number(n),
        Value::String(s) => JsonValue::String(s),
        Value::Array(items) => JsonValue::Array(items.into_iter().map(from_serde).collect()),
        Value::Object(members) => JsonValue::Object(
            members.into_iter().map(|(k, v)| (k, from_serde(v))).collect(),
        ),
    }
}

/// Moves a `JsonValue` back into a `serde_json` value, variant for variant.
#[verifier::external_body]
fn to_serde(value: JsonValue) -> Value {
    match value {
        JsonValue::Null => Value::Null,
        JsonValue::Bool(b) => Value::Bool(b),
        JsonValue::Number(n) => Value::Number(n),
        JsonValue::String(s) => Value::String(s),
        JsonValue::Array(items) => Value::Array(items.into_iter().map(to_serde).collect()),
        JsonValue::Object(members) => Value::Object(
            members.into_iter().map(|(k, v)| (k, to_serde(v))).collect(),
        ),
    }
}

/// Calls `serde_json::from_slice` for a `serde_json::Value`. Its result
/// is named by `json_document`, and the text of its error by
/// `json_error_text`.
#[verifier::external_body]
fn read_json(bytes: &[u8]) -> (result: Result<JsonValue, String>)
    ensures
        match result {
            Ok(v) => json_document(bytes@) == Some(v),
            Err(m) => json_document(bytes@) is None && m@ == json_error_text(bytes@),
        },
{
    match serde_json::from_slice::<Value>(bytes) {
        Ok(value) => Ok(from_serde(value)),
        Err(error) => Err(error.to_string()),
    }
}

/// Calls `serde_json::to_string` on the document. What it writes is named
/// by `json_compact_text`. Writing fails only where a `Serialize` impl
/// fails or a map has a key that is not a string, neither of which a
/// `serde_json::Value` can hold, so it succeeds.
#[verifier::external_body]
fn write_json_compact(value: JsonValue) -> (result: Result<String, String>)
    ensures
        result is Ok,
        result matches Ok(t) ==> t@ == json_compact_text(value),
{
    serde_json::to_string(&to_serde(value)).map_err(|error| error.to_string())
}

/// Calls `serde_json::to_string_pretty` on the document. What it writes
/// is named by `json_pretty_text`; as with the compact form, writing a
/// `serde_json::Value` succeeds.
#[verifier::external_body]
fn write_json_pretty(value: JsonValue) -> (result: Result<String, String>)
    ensures
        result is Ok,
        result matches Ok(t) ==> t@ == json_pretty_text(value),
{
    serde_json::to_string_pretty(&to_serde(value)).map_err(|error| error.to_string())
}

/// Calls `String::from_utf8`, which succeeds exactly on valid UTF-8 and
/// then holds the decoded text; the text of its error is named by
/// `utf8_error_text`.
#[verifier::external_body]
pub(crate) fn string_from_utf8(bytes: Vec<u8>) -> (result: Result<String, String>)
    ensures
        result is Ok <==> valid_utf8(bytes@),
        result matches Ok(s) ==> s@ == decode_utf8(bytes@),
        result matches Err(m) ==> m@ == utf8_error_text(bytes@),
{
    String::from_utf8(bytes).map_err(|error| error.to_string())
}

/// The plain-value picture of a text result.
pub open spec fn text_result(r: Result<String, String>) -> Result<Seq<char>, Seq<char>> {
    match r {
        Ok(t) => Ok(t@),
        Err(m) => Err(m@),
    }
}

/// What showing one side of a JSON file may give: nothing for an empty
/// file; its text unchanged when no key is ignored and it is not
/// prettified; otherwise the document with the ignored keys stripped,
/// written compactly or prettily, or an error when it is not JSON.
pub open spec fn json_side_outcome(
    bytes: Seq<u8>,
    keys: Seq<Seq<char>>,
    pretty: bool,
    r: Result<Seq<char>, Seq<char>>,
) -> bool {
    if bytes.len() == 0 {
        r == Ok::<Seq<char>, Seq<char>>(seq![])
    } else if keys.len() == 0 && !pretty {
        if valid_utf8(bytes) {
            r == Ok::<Seq<char>, Seq<char>>(decode_utf8(bytes))
        } else {
            r == Err::<Seq<char>, Seq<char>>(utf8_error_text(bytes))
        }
    } else {
        match json_document(bytes) {
            None => r == Err::<Seq<char>, Seq<char>>("Invalid JSON: "@ + json_error_text(bytes)),
            Some(doc) => exists|b: JsonValue|
                stripped(doc, b, keys.to_set()) && r == Ok::<Seq<char>, Seq<char>>(if pretty {
                    json_pretty_text(b)
                } else {
                    json_compact_text(b)
                }),
        }
    }
}

/// A side kept as it is (no key ignored, nothing prettified) is prepared
/// to itself when its prepared text is read again.
pub proof fn lemma_kept_text_is_prepared_to_itself(bytes: Seq<u8>, keys: Seq<Seq<char>>, t: Seq<char>)
    requires
        keys.len() == 0,
        json_side_outcome(bytes, keys, false, Ok(t)),
    ensures
        json_side_outcome(vstd::utf8::encode_utf8(t), keys, false, Ok(t)),
{
    vstd::utf8::encode_utf8_valid_utf8(t);
    vstd::utf8::encode_utf8_decode_utf8(t);
    if vstd::utf8::encode_utf8(t).len() == 0 {
        assert(decode_utf8(vstd::utf8::encode_utf8(t)) =~= Seq::<char>::empty());
    }
}

/// Prepares one side of a JSON file for display.
pub fn prepare_json_side(bytes: &[u8], keys: &Vec<String>, pretty: bool) -> (result: Result<String, String>)
    ensures
        json_side_outcome(bytes@, string_views(keys@), pretty, text_result(result)),
{
    proof {
        assert(key_set(keys@) =~= string_views(keys@).to_set()) by {
            assert forall|k: Seq<char>| key_set(keys@).contains(k) implies string_views(keys@).to_set().contains(k) by {
                let i = choose|i: int| 0 <= i < keys@.len() && (#[trigger] keys@[i])@ == k;
                assert(string_views(keys@)[i] == k);
            }
            assert forall|k: Seq<char>| string_views(keys@).to_set().contains(k) implies key_set(keys@).contains(k) by {
                let i = choose|i: int| 0 <= i < string_views(keys@).len() && string_views(keys@)[i] == k;
                assert(keys@[i]@ == k);
            }
        }
    }
    if bytes.len() == 0 {
        return Ok(String::new());
    }
    if keys.len() == 0 && !pretty {
        return string_from_utf8(vstd::slice::slice_to_vec(bytes));
    }
    let mut value = match read_json(bytes) {
        Ok(value) => value,
        Err(error) => {
            let mut message = "Invalid JSON: ".to_owned();
            message.append(error.as_str());
            return Err(message);
        },
    };
    let ghost doc = value;
    remove_keys(&mut value, keys);
    let ghost b = value;
    let written = if pretty {
        write_json_pretty(value)
    } else {
        write_json_compact(value)
    };
    proof {
        assert(stripped(doc, b, string_views(keys@).to_set()));
    }
    written
}

/// Prepares both sides of a JSON file for display: the text of each side
/// is kept as it is when no key is ignored and nothing is prettified, and
/// otherwise rewritten from the document with the ignored keys (a
/// comma-separated list) stripped. The first side that fails gives the error.
pub fn prepare_json(before: &[u8], after: &[u8], ignored: &str, pretty: bool) -> (result: Result<(String, String), String>)
    ensures
        ({
            let keys = ignored_key_list(ignored@);
            match result {
                Ok((b, a)) => json_side_outcome(before@, keys, pretty, Ok(b@))
                    && json_side_outcome(after@, keys, pretty, Ok(a@)),
                Err(m) => json_side_outcome(before@, keys, pretty, Err(m@)) || (exists|b: Seq<char>|
                    json_side_outcome(before@, keys, pretty, Ok(b)) && json_side_outcome(after@, keys, pretty, Err(m@))),
            }
        }),
{
    let keys = ignored_keys(ignored);
    let b = prepare_json_side(before, &keys, pretty);
    match b {
        Err(m) => Err(m),
        Ok(b) => {
            let a = prepare_json_side(after, &keys, pretty);
            match a {
                Err(m) => Err(m),
                Ok(a) => Ok((b, a)),
            }
        },
    }
}

} // verus!
