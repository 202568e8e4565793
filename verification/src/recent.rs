//! The stored list of recently opened repositories: one path per line.
use vstd::prelude::*;
use crate::json_doc::string_views;
use crate::text::{chars_of, string_from_chars};

verus! {

/// The paths joined with line feeds between them.
pub open spec fn joined_lines(repos: Seq<Seq<char>>) -> Seq<char>
    decreases repos.len(),
{
    if repos.len() == 0 {
        seq![]
    } else if repos.len() == 1 {
        repos[0]
    } else {
        joined_lines(repos.drop_last()) + seq!['\n'] + repos.last()
    }
}

/// A line without the carriage return that ended it with its line feed.
pub open spec fn without_cr(line: Seq<char>) -> Seq<char> {
    if line.len() > 0 && line.last() == '\r' {
        line.drop_last()
    } else {
        line
    }
}

/// The state of a left-to-right scan of `s` into lines: the lines already
/// ended by a line feed, and the line still open.
pub open spec fn line_state(s: Seq<char>) -> (Seq<Seq<char>>, Seq<char>)
    decreases s.len(),
{
    if s.len() == 0 {
        (seq![], seq![])
    } else {
        let (done, open) = line_state(s.drop_last());
        if s.last() == '\n' {
            (done.push(without_cr(open)), seq![])
        } else {
            (done, open.push(s.last()))
        }
    }
}

/// The lines of `s`, as `str::lines` yields them: split after each line
/// feed, a final line feed ending no further line, and a carriage return
/// before a line feed dropped.
pub open spec fn text_lines(s: Seq<char>) -> Seq<Seq<char>> {
    let (done, open) = line_state(s);
    if open.len() > 0 {
        done.push(open)
    } else {
        done
    }
}

/// The text that stores a list of repositories.
pub fn recent_repos_text(repos: &Vec<String>) -> (text: String)
    ensures
        text@ == joined_lines(string_views(repos@)),
{
    let ghost rv = string_views(repos@);
    let mut text = String::new();
    let mut i: usize = 0;
    while i < repos.len()
        invariant
            0 <= i <= repos.len(),
            rv == string_views(repos@),
            text@ == joined_lines(rv.take(i as int)),
        decreases repos.len() - i,
    {
        assert(rv.take(i + 1).drop_last() =~= rv.take(i as int));
        if i > 0 {
            text.append("\n");
            proof {
                reveal_strlit("\n");
            }
        }
        text.append(repos[i].as_str());
        proof {
            if i == 0 {
                assert(joined_lines(Seq::<Seq<char>>::empty()) =~= Seq::<char>::empty());
                assert(text@ =~= rv[0]);
            } else {
                assert(text@ =~= joined_lines(rv.take(i as int)) + seq!['\n'] + rv[i as int]);
            }
        }
        i = i + 1;
    }
    assert(rv.take(repos.len() as int) =~= rv);
    text
}

/// Reads a stored list of repositories: one per line.
pub fn recent_repos_from_text(text: &str) -> (repos: Vec<String>)
    ensures
        string_views(repos@) == text_lines(text@),
{
    let chars = chars_of(text);
    let ghost s = text@;
    let mut repos: Vec<String> = Vec::new();
    let mut open: Vec<char> = Vec::new();
    let mut i: usize = 0;
    while i < chars.len()
        invariant
            chars@ == s,
            0 <= i <= chars.len(),
            (string_views(repos@), open@) == line_state(s.take(i as int)),
        decreases chars.len() - i,
    {
        assert(s.take(i + 1).drop_last() =~= s.take(i as int));
        let c = chars[i];
        if c == '\n' {
            let n = open.len();
            let end = if n > 0 && open[n - 1] == '\r' { n - 1 } else { n };
            let line = string_from_chars(vstd::slice::slice_subrange(open.as_slice(), 0, end));
            let ghost before = repos@;
            assert(line@ =~= without_cr(open@));
            repos.push(line);
            assert(string_views(repos@) =~= string_views(before).push(line@));
            open = Vec::new();
        } else {
            open.push(c);
        }
        i = i + 1;
    }
    assert(s.take(s.len() as int) =~= s);
    if open.len() > 0 {
        let line = string_from_chars(open.as_slice());
        let ghost before = repos@;
        repos.push(line);
        assert(string_views(repos@) =~= string_views(before).push(line@));
    }
    repos
}

proof fn lemma_line_state_without_newlines(x: Seq<char>, y: Seq<char>)
    requires
        forall|i: int| 0 <= i < y.len() ==> y[i] != '\n',
    ensures
        line_state(x + y) == (line_state(x).0, line_state(x).1 + y),
    decreases y.len(),
{
    if y.len() == 0 {
        assert(x + y =~= x);
        assert(line_state(x).1 + y =~= line_state(x).1);
    } else {
        lemma_line_state_without_newlines(x, y.drop_last());
        assert((x + y).drop_last() =~= x + y.drop_last());
        assert((x + y).last() == y.last());
        assert(line_state(x).1 + y =~= (line_state(x).1 + y.drop_last()).push(y.last()));
    }
}

/// Whether a list of repositories survives being stored: no path holds a
/// line feed, none but the last ends with a carriage return, and the last
/// is not empty.
pub open spec fn storable(repos: Seq<Seq<char>>) -> bool {
    &&& forall|i: int, j: int| 0 <= i < repos.len() && 0 <= j < repos[i].len() ==> #[trigger] repos[i][j] != '\n'
    &&& forall|i: int| 0 <= i < repos.len() - 1 ==> without_cr(#[trigger] repos[i]) == repos[i]
    &&& repos.len() > 0 ==> repos.last().len() > 0
}

proof fn lemma_line_state_of_joined(repos: Seq<Seq<char>>)
    requires
        repos.len() > 0,
        forall|i: int, j: int| 0 <= i < repos.len() && 0 <= j < repos[i].len() ==> #[trigger] repos[i][j] != '\n',
        forall|i: int| 0 <= i < repos.len() - 1 ==> without_cr(#[trigger] repos[i]) == repos[i],
    ensures
        line_state(joined_lines(repos)) == (repos.drop_last(), repos.last()),
    decreases repos.len(),
{
    if repos.len() == 1 {
        lemma_line_state_without_newlines(Seq::<char>::empty(), repos[0]);
        assert(Seq::<char>::empty() + repos[0] =~= repos[0]);
        assert(repos.drop_last() =~= Seq::<Seq<char>>::empty());
        assert(line_state(Seq::<char>::empty()).1 + repos[0] =~= repos[0]);
    } else {
        let d = repos.drop_last();
        assert forall|i: int, j: int| 0 <= i < d.len() && 0 <= j < d[i].len() implies #[trigger] d[i][j] != '\n' by {
            assert(d[i] == repos[i]);
        }
        assert forall|i: int| 0 <= i < d.len() - 1 implies without_cr(#[trigger] d[i]) == d[i] by {
            assert(d[i] == repos[i]);
        }
        lemma_line_state_of_joined(d);
        let a = joined_lines(d) + seq!['\n'];
        assert(a.drop_last() =~= joined_lines(d));
        assert(line_state(a) == (d.drop_last().push(without_cr(d.last())), Seq::<char>::empty()));
        assert(without_cr(d.last()) == d.last()) by {
            assert(d.last() == repos[repos.len() - 2]);
        }
        assert(d.drop_last().push(d.last()) =~= d);
        assert forall|j: int| 0 <= j < repos.last().len() implies repos.last()[j] != '\n' by {
            assert(repos.last() == repos[repos.len() - 1]);
        }
        lemma_line_state_without_newlines(a, repos.last());
        assert(joined_lines(repos) == a + repos.last());
        assert(Seq::<char>::empty() + repos.last() =~= repos.last());
    }
}

/// Reading back a stored list of repositories gives the list that was
/// stored, whenever it is storable.
pub proof fn lemma_recent_repos_round_trip(repos: Seq<Seq<char>>)
    requires
        storable(repos),
    ensures
        text_lines(joined_lines(repos)) == repos,
{
    if repos.len() == 0 {
        assert(text_lines(Seq::<char>::empty()) =~= Seq::<Seq<char>>::empty());
    } else {
        lemma_line_state_of_joined(repos);
        assert(repos.drop_last().push(repos.last()) =~= repos);
    }
}

} // verus!
