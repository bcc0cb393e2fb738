//! A text as the list of its lines.
//!
//! The lines of a text are what stands between its line feeds: a text with
//! `n` line feeds has `n + 1` lines, the last of which is empty where the
//! text ends with a line feed. Joining the lines with line feeds gives the
//! text back.

use crate::unidiff::line_end;
use vstd::prelude::*;

verus! {

/// The lines of `s` from the position `from` on, which is where a line
/// begins.
pub open spec fn lines_of(s: Seq<char>, from: int) -> Seq<Seq<char>>
    decreases s.len() - from,
{
    let end = line_end(s, from);
    if from < 0 || from > s.len() || end < from || end > s.len() {
        Seq::empty()
    } else if end == s.len() {
        seq![s.subrange(from, end)]
    } else {
        seq![s.subrange(from, end)] + lines_of(s, end + 1)
    }
}

/// Whether a line holds no line feed.
pub open spec fn no_feed(line: Seq<char>) -> bool {
    forall|k: int| 0 <= k < line.len() ==> line[k] != '\n'
}

/// Whether no line of a list holds a line feed.
pub open spec fn no_feeds(lines: Seq<Seq<char>>) -> bool {
    forall|i: int| 0 <= i < lines.len() ==> no_feed(#[trigger] lines[i])
}

/// The lines with a line feed between each two.
pub open spec fn joined(lines: Seq<Seq<char>>) -> Seq<char>
    decreases lines.len(),
{
    if lines.len() == 0 {
        Seq::empty()
    } else if lines.len() == 1 {
        lines[0]
    } else {
        joined(lines.drop_last()) + seq!['\n'] + lines.last()
    }
}

/// Where the line that begins at `i` ends.
pub proof fn lemma_line_end_bounds(s: Seq<char>, i: int)
    requires
        0 <= i <= s.len(),
    ensures
        i <= line_end(s, i) <= s.len(),
        line_end(s, i) == s.len() || s[line_end(s, i)] == '\n',
        forall|k: int| i <= k < line_end(s, i) ==> s[k] != '\n',
    decreases s.len() - i,
{
    if i < s.len() && s[i] != '\n' {
        lemma_line_end_bounds(s, i + 1);
    }
}

/// The line that begins at `begin` ends at `end`, where no line feed stands
/// between and one stands at `end`, or the text ends there.
pub proof fn lemma_line_end_is(s: Seq<char>, begin: int, end: int)
    requires
        0 <= begin <= end <= s.len(),
        end == s.len() || s[end] == '\n',
        forall|k: int| begin <= k < end ==> s[k] != '\n',
    ensures
        line_end(s, begin) == end,
    decreases end - begin,
{
    if begin < end {
        lemma_line_end_is(s, begin + 1, end);
    }
}

/// Joining a line and a list of lines.
pub proof fn lemma_joined_front(x: Seq<char>, rest: Seq<Seq<char>>)
    requires
        rest.len() >= 1,
    ensures
        joined(seq![x] + rest) == x + seq!['\n'] + joined(rest),
    decreases rest.len(),
{
    let all = seq![x] + rest;
    assert(all.last() == rest.last());
    if rest.len() == 1 {
        assert(all.drop_last() =~= seq![x]);
        assert(joined(all.drop_last()) == x);
        assert(joined(rest) == rest[0]);
    } else {
        assert(all.drop_last() =~= seq![x] + rest.drop_last());
        lemma_joined_front(x, rest.drop_last());
        assert(joined(all) =~= x + seq!['\n'] + joined(rest));
    }
}

/// Joining a list of lines and one more line.
pub proof fn lemma_joined_push(lines: Seq<Seq<char>>, x: Seq<char>)
    ensures
        joined(lines.push(x)) == (if lines.len() == 0 {
            x
        } else {
            joined(lines) + seq!['\n'] + x
        }),
{
    let all = lines.push(x);
    assert(all.last() == x);
    assert(all.drop_last() =~= lines);
}

/// A text has at least one line, no line holds a line feed, and the lines
/// joined are the text.
pub proof fn lemma_lines_of(s: Seq<char>, from: int)
    requires
        0 <= from <= s.len(),
    ensures
        lines_of(s, from).len() >= 1,
        no_feeds(lines_of(s, from)),
        joined(lines_of(s, from)) == s.subrange(from, s.len() as int),
    decreases s.len() - from,
{
    lemma_line_end_bounds(s, from);
    let end = line_end(s, from);
    let x = s.subrange(from, end);
    assert(no_feed(x));
    if end == s.len() {
        assert(lines_of(s, from) == seq![x]);
    } else {
        let rest = lines_of(s, end + 1);
        lemma_lines_of(s, end + 1);
        assert(lines_of(s, from) == seq![x] + rest);
        lemma_joined_front(x, rest);
        assert(x + seq!['\n'] + s.subrange(end + 1, s.len() as int) =~= s.subrange(
            from,
            s.len() as int,
        ));
        assert forall|i: int| 0 <= i < (seq![x] + rest).len() implies no_feed(
            #[trigger] (seq![x] + rest)[i],
        ) by {
            if i > 0 {
                assert((seq![x] + rest)[i] == rest[i - 1]);
            }
        }
    }
}

/// The lines of a text behind a part that ends with a line feed are the
/// lines of the text alone.
pub proof fn lemma_lines_shift(p: Seq<char>, t: Seq<char>, i: int)
    requires
        0 <= i <= t.len(),
    ensures
        lines_of(p + t, p.len() + i) == lines_of(t, i),
    decreases t.len() - i,
{
    let s = p + t;
    lemma_line_end_bounds(t, i);
    let e = line_end(t, i);
    assert forall|k: int| p.len() + i <= k < p.len() + e implies s[k] != '\n' by {
        assert(s[k] == t[k - p.len()]);
    }
    if e < t.len() {
        assert(s[p.len() + e] == t[e]);
    }
    lemma_line_end_is(s, p.len() + i, p.len() + e);
    assert(s.subrange(p.len() + i, p.len() + e) =~= t.subrange(i, e));
    if e < t.len() {
        lemma_lines_shift(p, t, e + 1);
    }
}

/// The lines of what a list of lines is joined to are the list, where no
/// line holds a line feed.
pub proof fn lemma_lines_of_joined(lines: Seq<Seq<char>>)
    requires
        lines.len() >= 1,
        no_feeds(lines),
    ensures
        lines_of(joined(lines), 0) == lines,
    decreases lines.len(),
{
    let x = lines[0];
    assert(no_feed(x));
    if lines.len() == 1 {
        let j = joined(lines);
        assert(j == x);
        lemma_line_end_is(j, 0, j.len() as int);
        assert(j.subrange(0, j.len() as int) =~= x);
        assert(lines =~= seq![x]);
    } else {
        let rest = lines.drop_first();
        assert(lines =~= seq![x] + rest);
        lemma_joined_front(x, rest);
        let t = joined(rest);
        let p = x + seq!['\n'];
        let j = joined(lines);
        assert(j =~= p + t);
        assert(j[x.len() as int] == '\n');
        assert forall|k: int| 0 <= k < x.len() implies j[k] != '\n' by {
            assert(j[k] == x[k]);
        }
        lemma_line_end_is(j, 0, x.len() as int);
        assert(j.subrange(0, x.len() as int) =~= x);
        assert forall|i: int| 0 <= i < rest.len() implies no_feed(#[trigger] rest[i]) by {
            assert(rest[i] == lines[i + 1]);
        }
        lemma_lines_of_joined(rest);
        lemma_lines_shift(p, t, 0);
        assert(lines_of(j, x.len() as int + 1) == rest);
    }
}

} // verus!
