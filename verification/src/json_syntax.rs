//! Splitting a line of JSON into runs of characters by syntactic class,
//! for highlighting.
use vstd::prelude::*;
use crate::text::{chars_of, is_white, is_whitespace, string_from_chars};

verus! {

/// The syntactic class of a run of characters in a line of JSON.
#[derive(Debug, Clone, Copy, PartialEq, Eq, Structural)]
pub enum JsonToken {
    Plain,
    Key,
    String,
    Number,
    Boolean,
    Null,
}

pub open spec fn is_digit(c: char) -> bool {
    '0' <= c && c <= '9'
}

/// Where a string literal ends when its body is scanned from `i`: just
/// past the first unescaped `"`, or at the end of the line.
pub open spec fn string_end(s: Seq<char>, i: int, escaped: bool) -> int
    decreases s.len() - i,
{
    if i < 0 || i >= s.len() {
        s.len() as int
    } else if s[i] == '"' && !escaped {
        i + 1
    } else {
        string_end(s, i + 1, s[i] == '\\' && !escaped)
    }
}

/// Whether the first character at or after `i` that is not whitespace is
/// a colon.
pub open spec fn colon_follows(s: Seq<char>, i: int) -> bool
    decreases s.len() - i,
{
    if i < 0 || i >= s.len() {
        false
    } else if is_white(s[i]) {
        colon_follows(s, i + 1)
    } else {
        s[i] == ':'
    }
}

pub open spec fn in_number(c: char) -> bool {
    is_digit(c) || c == '.' || c == 'e' || c == 'E' || c == '+' || c == '-'
}

/// Where a number that starts before `i` ends: at the first character from
/// `i` on that cannot continue a number.
pub open spec fn number_end(s: Seq<char>, i: int) -> int
    decreases s.len() - i,
{
    if i < 0 || i >= s.len() {
        s.len() as int
    } else if in_number(s[i]) {
        number_end(s, i + 1)
    } else {
        i
    }
}

/// Whether `word` occurs in `s` at `i`.
pub open spec fn occurs_at(s: Seq<char>, i: int, word: Seq<char>) -> bool {
    0 <= i && i + word.len() <= s.len() && s.subrange(i, i + word.len()) == word
}

/// The end and class of the token that starts at `i` (with `i < s.len()`):
/// a string literal (a key when a colon follows it), a number (a digit, or
/// a minus sign before a digit, and what may continue it), one of the words
/// `true`, `false` and `null`, or else one plain character.
pub open spec fn token_at(s: Seq<char>, i: int) -> (int, JsonToken) {
    if s[i] == '"' {
        let end = string_end(s, i + 1, false);
        (end, if colon_follows(s, end) { JsonToken::Key } else { JsonToken::String })
    } else if is_digit(s[i]) || (s[i] == '-' && i + 1 < s.len() && is_digit(s[i + 1])) {
        (number_end(s, i + 1), JsonToken::Number)
    } else if occurs_at(s, i, seq!['t', 'r', 'u', 'e']) {
        (i + 4, JsonToken::Boolean)
    } else if occurs_at(s, i, seq!['f', 'a', 'l', 's', 'e']) {
        (i + 5, JsonToken::Boolean)
    } else if occurs_at(s, i, seq!['n', 'u', 'l', 'l']) {
        (i + 4, JsonToken::Null)
    } else {
        (i + 1, JsonToken::Plain)
    }
}

pub proof fn lemma_string_end_bounds(s: Seq<char>, i: int, escaped: bool)
    requires
        0 <= i <= s.len(),
    ensures
        i <= string_end(s, i, escaped) <= s.len(),
        i < s.len() ==> i < string_end(s, i, escaped),
    decreases s.len() - i,
{
    if i < s.len() {
        lemma_string_end_bounds(s, i + 1, s[i] == '\\' && !escaped);
    }
}

pub proof fn lemma_number_end_bounds(s: Seq<char>, i: int)
    requires
        0 <= i <= s.len(),
    ensures
        i <= number_end(s, i) <= s.len(),
    decreases s.len() - i,
{
    if i < s.len() {
        lemma_number_end_bounds(s, i + 1);
    }
}

pub proof fn lemma_token_at_bounds(s: Seq<char>, i: int)
    requires
        0 <= i < s.len(),
    ensures
        i < token_at(s, i).0 <= s.len(),
{
    lemma_string_end_bounds(s, i + 1, false);
    lemma_number_end_bounds(s, i + 1);
}

/// Appends a token, joining it to the last one when they share a class.
pub open spec fn push_token(
    tokens: Seq<(Seq<char>, JsonToken)>,
    text: Seq<char>,
    kind: JsonToken,
) -> Seq<(Seq<char>, JsonToken)> {
    if tokens.len() > 0 && tokens.last().1 == kind {
        tokens.drop_last().push((tokens.last().0 + text, kind))
    } else {
        tokens.push((text, kind))
    }
}

/// The tokens of `s` from `i` on, appended to `acc`.
pub open spec fn scan_tokens(
    s: Seq<char>,
    i: int,
    acc: Seq<(Seq<char>, JsonToken)>,
) -> Seq<(Seq<char>, JsonToken)>
    decreases s.len() - i,
{
    if i < 0 || i >= s.len() {
        acc
    } else {
        let (end, kind) = token_at(s, i);
        proof {
            lemma_token_at_bounds(s, i);
        }
        scan_tokens(s, end, push_token(acc, s.subrange(i, end), kind))
    }
}

/// The highlighting tokens of a line.
pub open spec fn line_tokens(s: Seq<char>) -> Seq<(Seq<char>, JsonToken)> {
    scan_tokens(s, 0, seq![])
}

/// The texts of the tokens, one after another.
pub open spec fn joined(tokens: Seq<(Seq<char>, JsonToken)>) -> Seq<char>
    decreases tokens.len(),
{
    if tokens.len() == 0 {
        seq![]
    } else {
        joined(tokens.drop_last()) + tokens.last().0
    }
}

/// No token is empty and no two neighbours share a class.
pub open spec fn well_split(tokens: Seq<(Seq<char>, JsonToken)>) -> bool {
    &&& forall|i: int| 0 <= i < tokens.len() ==> (#[trigger] tokens[i]).0.len() > 0
    &&& forall|i: int| 0 < i < tokens.len() ==> (#[trigger] tokens[i]).1 != tokens[i - 1].1
}

pub proof fn lemma_push_token(tokens: Seq<(Seq<char>, JsonToken)>, text: Seq<char>, kind: JsonToken)
    requires
        well_split(tokens),
        text.len() > 0,
    ensures
        joined(push_token(tokens, text, kind)) == joined(tokens) + text,
        well_split(push_token(tokens, text, kind)),
{
    let r = push_token(tokens, text, kind);
    if tokens.len() > 0 && tokens.last().1 == kind {
        let d = tokens.drop_last();
        assert(r.drop_last() =~= d);
        assert(joined(tokens) == joined(d) + tokens.last().0);
        assert(joined(r) =~= joined(tokens) + text);
        assert forall|i: int| 0 < i < r.len() implies (#[trigger] r[i]).1 != r[i - 1].1 by {
            if i < r.len() - 1 {
                assert(r[i] == tokens[i] && r[i - 1] == tokens[i - 1]);
            } else {
                assert(r[i - 1] == tokens[i - 1]);
            }
        }
        assert forall|i: int| 0 <= i < r.len() implies (#[trigger] r[i]).0.len() > 0 by {
            if i < r.len() - 1 {
                assert(r[i] == tokens[i]);
            }
        }
    } else {
        assert(r.drop_last() =~= tokens);
        assert forall|i: int| 0 < i < r.len() implies (#[trigger] r[i]).1 != r[i - 1].1 by {
            if i < r.len() - 1 {
                assert(r[i] == tokens[i] && r[i - 1] == tokens[i - 1]);
            } else {
                assert(r[i - 1] == tokens[i - 1]);
            }
        }
        assert forall|i: int| 0 <= i < r.len() implies (#[trigger] r[i]).0.len() > 0 by {
            if i < r.len() - 1 {
                assert(r[i] == tokens[i]);
            }
        }
    }
}

/// Scanning keeps the tokens well split and their texts spell the line.
pub proof fn lemma_scan_tokens(s: Seq<char>, i: int, acc: Seq<(Seq<char>, JsonToken)>)
    requires
        0 <= i <= s.len(),
        well_split(acc),
    ensures
        joined(scan_tokens(s, i, acc)) == joined(acc) + s.subrange(i, s.len() as int),
        well_split(scan_tokens(s, i, acc)),
    decreases s.len() - i,
{
    if i >= s.len() {
        assert(s.subrange(i, s.len() as int) =~= Seq::<char>::empty());
        assert(joined(acc) + Seq::<char>::empty() =~= joined(acc));
    } else {
        let (end, kind) = token_at(s, i);
        lemma_token_at_bounds(s, i);
        lemma_push_token(acc, s.subrange(i, end), kind);
        lemma_scan_tokens(s, end, push_token(acc, s.subrange(i, end), kind));
        assert(s.subrange(i, end) + s.subrange(end, s.len() as int) =~= s.subrange(i, s.len() as int));
    }
}

/// The texts of the tokens of a line spell the line, no token is empty,
/// and no two neighbouring tokens share a class.
pub proof fn lemma_line_tokens(s: Seq<char>)
    ensures
        joined(line_tokens(s)) == s,
        well_split(line_tokens(s)),
{
    lemma_scan_tokens(s, 0, seq![]);
    assert(joined(Seq::<(Seq<char>, JsonToken)>::empty()) + s.subrange(0, s.len() as int) =~= s);
}

/// A character that may stand in a JSON number as highlighted: a digit,
/// a decimal point, an exponent mark or a sign.
pub open spec fn numeric_char(c: char) -> bool {
    ('0' <= c && c <= '9') || c == '.' || c == 'e' || c == 'E' || c == '+' || c == '-'
}

/// Every token of class `Number` is made of numeric characters only.
pub open spec fn numbers_numeric(tokens: Seq<(Seq<char>, JsonToken)>) -> bool {
    forall|i: int, k: int|
        0 <= i < tokens.len() && tokens[i].1 == JsonToken::Number && 0 <= k < tokens[i].0.len()
            ==> numeric_char(#[trigger] tokens[i].0[k])
}

proof fn lemma_number_end_numeric(s: Seq<char>, i: int, k: int)
    requires
        0 <= i <= k < number_end(s, i),
        i <= s.len(),
    ensures
        numeric_char(s[k]),
    decreases s.len() - i,
{
    if i < k {
        lemma_number_end_numeric(s, i + 1, k);
    }
}

proof fn lemma_scan_numbers(s: Seq<char>, i: int, acc: Seq<(Seq<char>, JsonToken)>)
    requires
        0 <= i <= s.len(),
        numbers_numeric(acc),
    ensures
        numbers_numeric(scan_tokens(s, i, acc)),
    decreases s.len() - i,
{
    if i < s.len() {
        let (end, kind) = token_at(s, i);
        lemma_token_at_bounds(s, i);
        let text = s.subrange(i, end);
        if kind == JsonToken::Number {
            assert forall|k: int| 0 <= k < text.len() implies numeric_char(#[trigger] text[k]) by {
                if k > 0 {
                    lemma_number_end_numeric(s, i + 1, i + k);
                }
            }
        }
        let r = push_token(acc, text, kind);
        assert(numbers_numeric(r)) by {
            assert forall|a: int, k: int|
                0 <= a < r.len() && r[a].1 == JsonToken::Number && 0 <= k < r[a].0.len()
                    implies numeric_char(#[trigger] r[a].0[k]) by {
                if acc.len() > 0 && acc.last().1 == kind {
                    if a < r.len() - 1 {
                        assert(r[a] == acc[a]);
                    } else {
                        let last = acc.last().0;
                        assert(r[a].0 == last + text);
                        if k < last.len() {
                            assert(acc[acc.len() - 1].0[k] == last[k]);
                        } else {
                            assert(r[a].0[k] == text[k - last.len()]);
                        }
                    }
                } else {
                    if a < r.len() - 1 {
                        assert(r[a] == acc[a]);
                    } else {
                        assert(r[a].0 == text);
                    }
                }
            }
        }
        lemma_scan_numbers(s, end, r);
    }
}

/// The tokens a line is split into that are numbers hold only digits,
/// decimal points, exponent marks and signs: a bracket, brace, comma or
/// space after a number is never part of it.
pub proof fn lemma_number_tokens_are_numeric(s: Seq<char>)
    ensures
        forall|i: int, k: int|
            0 <= i < line_tokens(s).len() && line_tokens(s)[i].1 == JsonToken::Number && 0 <= k
                < line_tokens(s)[i].0.len() ==> ('0' <= #[trigger] line_tokens(s)[i].0[k] && line_tokens(s)[i].0[k]
                <= '9') || line_tokens(s)[i].0[k] == '.' || line_tokens(s)[i].0[k] == 'e'
                || line_tokens(s)[i].0[k] == 'E' || line_tokens(s)[i].0[k] == '+' || line_tokens(s)[i].0[k]
                == '-',
{
    lemma_scan_numbers(s, 0, seq![]);
    let t = line_tokens(s);
    assert forall|i: int, k: int|
        0 <= i < t.len() && t[i].1 == JsonToken::Number && 0 <= k < t[i].0.len() implies numeric_char(
            #[trigger] t[i].0[k],
        ) by {
    }
}

/// The views of exec tokens.
pub open spec fn token_views(tokens: Seq<(String, JsonToken)>) -> Seq<(Seq<char>, JsonToken)> {
    tokens.map_values(|t: (String, JsonToken)| (t.0@, t.1))
}

/// Appends `value` as a token of class `kind`, joining it to the last
/// token when that has the same class.
pub fn push_json_token(tokens: &mut Vec<(String, JsonToken)>, value: &str, kind: JsonToken)
    ensures
        token_views(final(tokens)@) == push_token(token_views(old(tokens)@), value@, kind),
{
    let ghost old_views = token_views(tokens@);
    let n = tokens.len();
    if n > 0 && tokens[n - 1].1 == kind {
        let (mut previous, previous_kind) = tokens.pop().unwrap();
        let ghost prev = previous@;
        previous.append(value);
        tokens.push((previous, previous_kind));
        assert(token_views(tokens@) =~= old_views.drop_last().push((prev + value@, kind)));
    } else {
        tokens.push((value.to_owned(), kind));
        assert(token_views(tokens@) =~= old_views.push((value@, kind)));
    }
}

/// Splits a line into runs of plain text, keys, strings, numbers,
/// booleans and nulls, joining neighbouring runs of the same class.
pub fn json_tokens(line: &str) -> (tokens: Vec<(String, JsonToken)>)
    ensures
        token_views(tokens@) == line_tokens(line@),
        joined(token_views(tokens@)) == line@,
        well_split(token_views(tokens@)),
        numbers_numeric(token_views(tokens@)),
{
    let chars = chars_of(line);
    let ghost s = line@;
    let len = chars.len();
    let mut tokens: Vec<(String, JsonToken)> = Vec::new();
    let mut index: usize = 0;
    assert(token_views(tokens@) =~= Seq::<(Seq<char>, JsonToken)>::empty());
    while index < len
        invariant
            chars@ == s,
            len == s.len(),
            0 <= index <= len,
            scan_tokens(s, index as int, token_views(tokens@)) == line_tokens(s),
        decreases len - index,
    {
        let c = chars[index];
        let mut end: usize;
        let kind: JsonToken;
        if c == '"' {
            end = index + 1;
            let mut escaped = false;
            let mut closed = false;
            while end < len && !closed
                invariant
                    chars@ == s,
                    len == s.len(),
                    index < end <= len,
                    closed ==> end == string_end(s, index + 1, false),
                    !closed ==> string_end(s, end as int, escaped) == string_end(s, index + 1, false),
                decreases len - end,
            {
                if chars[end] == '"' && !escaped {
                    closed = true;
                } else {
                    escaped = chars[end] == '\\' && !escaped;
                }
                end = end + 1;
            }
            proof {
                lemma_string_end_bounds(s, index + 1, false);
            }
            let mut after = end;
            while after < len && is_whitespace(chars[after])
                invariant
                    chars@ == s,
                    len == s.len(),
                    end <= after <= len,
                    colon_follows(s, after as int) == colon_follows(s, end as int),
                decreases len - after,
            {
                after = after + 1;
            }
            kind = if after < len && chars[after] == ':' {
                JsonToken::Key
            } else {
                JsonToken::String
            };
        } else if ('0' <= c && c <= '9') || (c == '-' && index + 1 < len && '0' <= chars[index
            + 1] && chars[index + 1] <= '9') {
            end = index + 1;
            while end < len && (('0' <= chars[end] && chars[end] <= '9') || chars[end] == '.'
                || chars[end] == 'e' || chars[end] == 'E' || chars[end] == '+' || chars[end] == '-')
                invariant
                    chars@ == s,
                    len == s.len(),
                    index < end <= len,
                    number_end(s, end as int) == number_end(s, index + 1),
                decreases len - end,
            {
                end = end + 1;
            }
            kind = JsonToken::Number;
        } else if len - index >= 4 && c == 't' && chars[index + 1] == 'r' && chars[index + 2] == 'u'
            && chars[index + 3] == 'e' {
            assert(s.subrange(index as int, index + 4) =~= seq!['t', 'r', 'u', 'e']);
            end = index + 4;
            kind = JsonToken::Boolean;
        } else if len - index >= 5 && c == 'f' && chars[index + 1] == 'a' && chars[index + 2] == 'l'
            && chars[index + 3] == 's' && chars[index + 4] == 'e' {
            assert(s.subrange(index as int, index + 5) =~= seq!['f', 'a', 'l', 's', 'e']);
            end = index + 5;
            kind = JsonToken::Boolean;
        } else if len - index >= 4 && c == 'n' && chars[index + 1] == 'u' && chars[index + 2] == 'l'
            && chars[index + 3] == 'l' {
            assert(s.subrange(index as int, index + 4) =~= seq!['n', 'u', 'l', 'l']);
            end = index + 4;
            kind = JsonToken::Null;
        } else {
            proof {
                if occurs_at(s, index as int, seq!['t', 'r', 'u', 'e']) {
                    assert(s.subrange(index as int, index + 4)[1] == s[index + 1]);
                    assert(s.subrange(index as int, index + 4)[2] == s[index + 2]);
                    assert(s.subrange(index as int, index + 4)[3] == s[index + 3]);
                }
                if occurs_at(s, index as int, seq!['f', 'a', 'l', 's', 'e']) {
                    assert(s.subrange(index as int, index + 5)[1] == s[index + 1]);
                    assert(s.subrange(index as int, index + 5)[2] == s[index + 2]);
                    assert(s.subrange(index as int, index + 5)[3] == s[index + 3]);
                    assert(s.subrange(index as int, index + 5)[4] == s[index + 4]);
                }
                if occurs_at(s, index as int, seq!['n', 'u', 'l', 'l']) {
                    assert(s.subrange(index as int, index + 4)[1] == s[index + 1]);
                    assert(s.subrange(index as int, index + 4)[2] == s[index + 2]);
                    assert(s.subrange(index as int, index + 4)[3] == s[index + 3]);
                }
            }
            end = index + 1;
            kind = JsonToken::Plain;
        }
        assert(token_at(s, index as int) == (end as int, kind));
        let text = string_from_chars(vstd::slice::slice_subrange(chars.as_slice(), index, end));
        push_json_token(&mut tokens, text.as_str(), kind);
        index = end;
    }
    proof {
        lemma_line_tokens(s);
        lemma_scan_numbers(s, 0, seq![]);
    }
    tokens
}

} // verus!
