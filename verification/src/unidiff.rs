//! The reversal of a text diff in unidiff form: the patch that undoes it.
//!
//! A line that adds text becomes one that removes it and the other way
//! round, and the header of a hunk swaps the range of the old text with
//! that of the new one. The hunks are listed from the last to the first:
//! each hunk is named by its place in the text as the hunks before it have
//! left it, so they are undone in the opposite order.

use crate::decimal::{parse_decimal, parse_index};
use crate::lines::{
    joined, lemma_joined_push, lemma_line_end_is, lemma_lines_of, lemma_lines_of_joined, lines_of,
    no_feed, no_feeds,
};
use vstd::prelude::*;
use vstd::string::StringExecFns;

verus! {

/// The position at which the line that holds position `i` begins.
pub open spec fn line_begin(s: Seq<char>, i: int) -> int
    decreases i,
{
    if i <= 0 || i > s.len() {
        0
    } else if s[i - 1] == '\n' {
        i
    } else {
        line_begin(s, i - 1)
    }
}

/// The position at which the line that holds position `i` ends: that of
/// its line feed, or the length of the text.
pub open spec fn line_end(s: Seq<char>, i: int) -> int
    decreases s.len() - i,
{
    if i < 0 || i >= s.len() {
        s.len() as int
    } else if s[i] == '\n' {
        i
    } else {
        line_end(s, i + 1)
    }
}

/// The first position from `from` on at which `line` holds a blank; the
/// length of the line where there is none.
pub open spec fn next_blank(line: Seq<char>, from: int) -> int
    decreases line.len() - from,
{
    if from < 0 || from >= line.len() {
        line.len() as int
    } else if line[from] == ' ' {
        from
    } else {
        next_blank(line, from + 1)
    }
}

/// Whether a line is the header of a hunk: `@@ -` and the range of the old
/// text, ` +` and the range of the new text, ` @@`, the ranges without
/// blanks.
pub open spec fn is_header(line: Seq<char>) -> bool {
    let p = next_blank(line, 4);
    &&& line.len() >= 9
    &&& line[0] == '@'
    &&& line[1] == '@'
    &&& line[2] == ' '
    &&& line[3] == '-'
    &&& p + 1 < line.len() - 3
    &&& line[p + 1] == '+'
    &&& next_blank(line, p + 1) == line.len() - 3
    &&& line[line.len() - 2] == '@'
    &&& line[line.len() - 1] == '@'
}

/// The header with the two ranges swapped.
pub open spec fn swapped_header(line: Seq<char>) -> Seq<char> {
    let p = next_blank(line, 4);
    let old_range = line.subrange(4, p);
    let new_range = line.subrange(p + 2, line.len() - 3);
    line.subrange(0, 4) + new_range + line.subrange(p, p + 2) + old_range + line.subrange(
        line.len() - 3,
        line.len() as int,
    )
}

/// The reversal of one line.
pub open spec fn reversed_line(line: Seq<char>) -> Seq<char> {
    if line.len() == 0 {
        line
    } else if line[0] == '+' {
        line.update(0, '-')
    } else if line[0] == '-' {
        line.update(0, '+')
    } else if is_header(line) {
        swapped_header(line)
    } else {
        line
    }
}

/// Where the blank after the old range of a header lies.
pub proof fn lemma_next_blank(line: Seq<char>, from: int)
    requires
        0 <= from <= line.len(),
    ensures
        from <= next_blank(line, from) <= line.len(),
        next_blank(line, from) < line.len() ==> line[next_blank(line, from)] == ' ',
        forall|k: int| from <= k < next_blank(line, from) ==> line[k] != ' ',
    decreases line.len() - from,
{
    if from < line.len() && line[from] != ' ' {
        lemma_next_blank(line, from + 1);
    }
}

/// The first blank from `from` on is the position `at`, where `at` holds a
/// blank, or is the end of the line, and nothing between does.
pub proof fn lemma_next_blank_is(line: Seq<char>, from: int, at: int)
    requires
        0 <= from <= at <= line.len(),
        at < line.len() ==> line[at] == ' ',
        forall|k: int| from <= k < at ==> line[k] != ' ',
    ensures
        next_blank(line, from) == at,
    decreases at - from,
{
    if from < at {
        lemma_next_blank_is(line, from + 1, at);
    }
}

/// The reversal of a line has the length of the line and holds no line
/// feed where the line holds none; and the reversal of the reversal is the
/// line.
pub proof fn lemma_reversed_line(line: Seq<char>)
    requires
        forall|k: int| 0 <= k < line.len() ==> line[k] != '\n',
    ensures
        reversed_line(line).len() == line.len(),
        forall|k: int| 0 <= k < line.len() ==> reversed_line(line)[k] != '\n',
        reversed_line(reversed_line(line)) == line,
{
    if line.len() == 0 {
    } else if line[0] == '+' {
        assert(line.update(0, '-').update(0, '+') =~= line);
    } else if line[0] == '-' {
        assert(line.update(0, '+').update(0, '-') =~= line);
    } else if is_header(line) {
        let n = line.len() as int;
        let p = next_blank(line, 4);
        lemma_next_blank(line, 4);
        lemma_next_blank(line, p + 1);
        let swapped = swapped_header(line);
        let old_len = p - 4;
        let new_len = n - 3 - (p + 2);
        assert(swapped.len() == n);
        let q = 4 + new_len;
        assert forall|k: int| 0 <= k < n implies swapped[k] == (if k < 4 {
            line[k]
        } else if k < q {
            line[p + 2 + (k - 4)]
        } else if k < q + 2 {
            line[p + (k - q)]
        } else if k < n - 3 {
            line[4 + (k - q - 2)]
        } else {
            line[k]
        }) by {}
        assert(swapped[q] == ' ');
        assert(swapped[q + 1] == '+');
        assert forall|k: int| 4 <= k < q implies swapped[k] != ' ' by {
            assert(swapped[k] == line[p + 2 + (k - 4)]);
        }
        lemma_next_blank_is(swapped, 4, q);
        assert forall|k: int| q + 1 <= k < n - 3 implies swapped[k] != ' ' by {
            if k >= q + 2 {
                assert(swapped[k] == line[4 + (k - q - 2)]);
            }
        }
        assert(swapped[n - 3] == ' ');
        lemma_next_blank_is(swapped, q + 1, n - 3);
        assert(is_header(swapped));
        assert(swapped_header(swapped) =~= line);
    }
}

/// Where the line of a position begins and ends: `begin` and `end` bound
/// the line that holds `i`.
pub proof fn lemma_line_bounds(s: Seq<char>, begin: int, end: int, i: int)
    requires
        0 <= begin <= i <= end <= s.len(),
        begin == 0 || s[begin - 1] == '\n',
        end == s.len() || s[end] == '\n',
        forall|k: int| begin <= k < end ==> s[k] != '\n',
    ensures
        line_begin(s, i) == begin,
        line_end(s, i) == end,
{
    lemma_line_begin(s, begin, i);
    lemma_line_end_is(s, i, end);
}

proof fn lemma_line_begin(s: Seq<char>, begin: int, i: int)
    requires
        0 <= begin <= i <= s.len(),
        begin == 0 || s[begin - 1] == '\n',
        forall|k: int| begin <= k < i ==> s[k] != '\n',
    ensures
        line_begin(s, i) == begin,
    decreases i - begin,
{
    if i > begin {
        lemma_line_begin(s, begin, i - 1);
    }
}

/// The character of `text` at the position `i`.
pub(crate) fn char_at(text: &str, ascii: bool, i: usize) -> (c: char)
    requires
        ascii ==> text.is_ascii(),
        i < text@.len(),
    ensures
        c == text@[i as int],
{
    if ascii {
        let b = text.get_ascii(i);
        b as char
    } else {
        text.get_char(i)
    }
}

/// The part of `text` from `from` to `to`.
pub(crate) fn part_of<'a>(text: &'a str, ascii: bool, from: usize, to: usize) -> (r: &'a str)
    requires
        ascii ==> text.is_ascii(),
        from <= to <= text@.len(),
    ensures
        r@ == text@.subrange(from as int, to as int),
        ascii ==> r.is_ascii(),
{
    if ascii {
        text.substring_ascii(from, to)
    } else {
        text.substring_char(from, to)
    }
}

/// The first position from `from` on at which `line` holds a blank.
pub(crate) fn find_blank(line: &str, ascii: bool, len: usize, from: usize) -> (r: usize)
    requires
        ascii ==> line.is_ascii(),
        len == line@.len(),
        from <= len,
    ensures
        r == next_blank(line@, from as int),
        from <= r <= len,
{
    let mut k = from;
    while k < len && char_at(line, ascii, k) != ' '
        invariant
            from <= k <= len,
            len == line@.len(),
            ascii ==> line.is_ascii(),
            next_blank(line@, from as int) == next_blank(line@, k as int),
        decreases len - k,
    {
        k += 1;
    }
    k
}

/// Appends the reversal of `line` to `out`.
fn push_reversed_line(out: &mut String, line: &str, ascii: bool, len: usize)
    requires
        ascii ==> line.is_ascii(),
        len == line@.len(),
    ensures
        final(out)@ == old(out)@ + reversed_line(line@),
{
    let ghost given = out@;
    if len == 0 {
        assert(out@ =~= given + reversed_line(line@));
        return ;
    }
    let first = char_at(line, ascii, 0);
    if first == '+' || first == '-' {
        proof {
            reveal_strlit("-");
            reveal_strlit("+");
        }
        if first == '+' {
            out.append("-");
        } else {
            out.append("+");
        }
        out.append(part_of(line, ascii, 1, len));
        assert(out@ =~= given + reversed_line(line@));
        return ;
    }
    if len >= 9 && first == '@' && char_at(line, ascii, 1) == '@' && char_at(line, ascii, 2) == ' '
        && char_at(line, ascii, 3) == '-' && char_at(line, ascii, len - 2) == '@' && char_at(
        line,
        ascii,
        len - 1,
    ) == '@' {
        let p = find_blank(line, ascii, len, 4);
        if p < len - 4 && char_at(line, ascii, p + 1) == '+' {
            let q = find_blank(line, ascii, len, p + 1);
            if q == len - 3 {
                assert(is_header(line@));
                out.append(part_of(line, ascii, 0, 4));
                out.append(part_of(line, ascii, p + 2, len - 3));
                out.append(part_of(line, ascii, p, p + 2));
                out.append(part_of(line, ascii, 4, p));
                out.append(part_of(line, ascii, len - 3, len));
                assert(out@ =~= given + reversed_line(line@));
                return ;
            }
        }
    }
    assert(!is_header(line@));
    out.append(line);
}

/// Whether a line begins a hunk: it begins with `@`.
pub open spec fn begins_hunk(line: Seq<char>) -> bool {
    line.len() > 0 && line[0] == '@'
}

/// The first position from `from` on at which a line of the list begins a
/// hunk; the length of the list where none does.
pub open spec fn next_hunk(lines: Seq<Seq<char>>, from: int) -> int
    decreases lines.len() - from,
{
    if from < 0 || from >= lines.len() {
        lines.len() as int
    } else if begins_hunk(lines[from]) {
        from
    } else {
        next_hunk(lines, from + 1)
    }
}

/// The last position before `upto` at which a line of the list begins a
/// hunk; zero where none does.
pub open spec fn last_hunk(lines: Seq<Seq<char>>, upto: int) -> int
    decreases upto,
{
    if upto <= 1 || upto > lines.len() {
        0
    } else if begins_hunk(lines[upto - 1]) {
        upto - 1
    } else {
        last_hunk(lines, upto - 1)
    }
}

/// The hunks of a list of lines, which begins with a hunk, from the last
/// to the first. A hunk is a line that begins one and the lines behind it
/// up to the next such line.
pub open spec fn hunks_reversed(lines: Seq<Seq<char>>) -> Seq<Seq<char>>
    decreases lines.len(),
{
    let k = last_hunk(lines, lines.len() as int);
    if lines.len() == 0 || k < 0 || k >= lines.len() {
        lines
    } else {
        lines.subrange(k, lines.len() as int) + hunks_reversed(lines.subrange(0, k))
    }
}

/// The lines before the first hunk, then the hunks from the last to the
/// first.
pub open spec fn reordered(lines: Seq<Seq<char>>) -> Seq<Seq<char>> {
    let f = next_hunk(lines, 0);
    lines.subrange(0, f) + hunks_reversed(lines.subrange(f, lines.len() as int))
}

/// Each line of the list reversed.
pub open spec fn swapped(lines: Seq<Seq<char>>) -> Seq<Seq<char>> {
    Seq::new(lines.len(), |i: int| reversed_line(lines[i]))
}

/// Whether no line of a list is empty.
pub open spec fn no_blanks(lines: Seq<Seq<char>>) -> bool {
    forall|i: int| 0 <= i < lines.len() ==> (#[trigger] lines[i]).len() > 0
}

/// The lines of the list that are not empty, in their order.
pub open spec fn solid(lines: Seq<Seq<char>>) -> Seq<Seq<char>>
    decreases lines.len(),
{
    if lines.len() == 0 {
        lines
    } else if lines.last().len() == 0 {
        solid(lines.drop_last())
    } else {
        solid(lines.drop_last()).push(lines.last())
    }
}

/// The list `lines` with the lines of `by`, in their order, in the place
/// of its lines that are not empty. Its empty lines stay where they are.
pub open spec fn refilled(lines: Seq<Seq<char>>, by: Seq<Seq<char>>) -> Seq<Seq<char>> {
    Seq::new(
        lines.len(),
        |i: int|
            if lines[i].len() == 0 {
                lines[i]
            } else {
                by[solid(lines.subrange(0, i)).len() as int]
            },
    )
}

/// The lines of the reversal of a text diff, before each line is reversed.
/// The lines that are not empty are listed with the hunks from the last to
/// the first; an empty line, which is part of no hunk, stays where it is.
pub open spec fn relisted(lines: Seq<Seq<char>>) -> Seq<Seq<char>> {
    refilled(lines, reordered(solid(lines)))
}

/// The reversal of a text diff. Each line is reversed, and the hunks are
/// listed from the last to the first: a hunk is named by its place in the
/// text as the hunks before it have left it, so the hunk that was applied
/// last is the first to be undone. Empty lines, such as the one behind the
/// last line feed, are part of no hunk and stay where they are.
pub open spec fn reversed_text(s: Seq<char>) -> Seq<char> {
    joined(swapped(relisted(lines_of(s, 0))))
}

/// The reversal of a line begins a hunk where the line does.
pub proof fn lemma_begins_hunk_kept(line: Seq<char>)
    ensures
        begins_hunk(reversed_line(line)) == begins_hunk(line),
{
    if line.len() > 0 && line[0] != '+' && line[0] != '-' && is_header(line) {
        lemma_next_blank(line, 4);
        assert(swapped_header(line)[0] == line.subrange(0, 4)[0]);
    }
}

/// Where the first hunk from `from` on lies.
pub proof fn lemma_next_hunk(lines: Seq<Seq<char>>, from: int)
    requires
        0 <= from <= lines.len(),
    ensures
        from <= next_hunk(lines, from) <= lines.len(),
        next_hunk(lines, from) < lines.len() ==> begins_hunk(lines[next_hunk(lines, from)]),
        forall|i: int| from <= i < next_hunk(lines, from) ==> !begins_hunk(#[trigger] lines[i]),
    decreases lines.len() - from,
{
    if from < lines.len() && !begins_hunk(lines[from]) {
        lemma_next_hunk(lines, from + 1);
    }
}

/// The first hunk from `from` on lies at `at`, where a hunk begins at `at`,
/// or the list ends there, and none begins between.
pub proof fn lemma_next_hunk_is(lines: Seq<Seq<char>>, from: int, at: int)
    requires
        0 <= from <= at <= lines.len(),
        at < lines.len() ==> begins_hunk(lines[at]),
        forall|i: int| from <= i < at ==> !begins_hunk(#[trigger] lines[i]),
    ensures
        next_hunk(lines, from) == at,
    decreases at - from,
{
    if from < at {
        lemma_next_hunk_is(lines, from + 1, at);
    }
}

/// Where the last hunk before `upto` lies.
pub proof fn lemma_last_hunk(lines: Seq<Seq<char>>, upto: int)
    requires
        0 <= upto <= lines.len(),
    ensures
        0 <= last_hunk(lines, upto),
        upto >= 1 ==> last_hunk(lines, upto) < upto,
        last_hunk(lines, upto) > 0 ==> begins_hunk(lines[last_hunk(lines, upto)]),
        forall|i: int| last_hunk(lines, upto) < i < upto ==> !begins_hunk(#[trigger] lines[i]),
    decreases upto,
{
    if upto > 1 && !begins_hunk(lines[upto - 1]) {
        lemma_last_hunk(lines, upto - 1);
    }
}

/// The last hunk before `upto` lies at `at`, where `at` is zero or a hunk
/// begins there, and none begins behind it.
pub proof fn lemma_last_hunk_is(lines: Seq<Seq<char>>, upto: int, at: int)
    requires
        0 <= at < upto <= lines.len(),
        at == 0 || begins_hunk(lines[at]),
        forall|i: int| at < i < upto ==> !begins_hunk(#[trigger] lines[i]),
    ensures
        last_hunk(lines, upto) == at,
    decreases upto - at,
{
    if upto > 1 && at < upto - 1 {
        lemma_last_hunk_is(lines, upto - 1, at);
    }
}

/// Listing the hunks from the last to the first keeps the number of
/// lines, keeps the lines free of line feeds, and begins with a hunk where
/// the list does.
pub proof fn lemma_hunks_reversed(lines: Seq<Seq<char>>)
    ensures
        hunks_reversed(lines).len() == lines.len(),
        no_feeds(lines) ==> no_feeds(hunks_reversed(lines)),
        no_blanks(lines) ==> no_blanks(hunks_reversed(lines)),
        lines.len() > 0 && begins_hunk(lines[0]) ==> begins_hunk(hunks_reversed(lines)[0]),
    decreases lines.len(),
{
    if lines.len() > 0 {
        let n = lines.len() as int;
        let k = last_hunk(lines, n);
        lemma_last_hunk(lines, n);
        let tail = lines.subrange(k, n);
        let head = lines.subrange(0, k);
        lemma_hunks_reversed(head);
        let r = hunks_reversed(lines);
        assert(r == tail + hunks_reversed(head));
        assert(r[0] == lines[k]);
        if no_feeds(lines) {
            assert forall|i: int| 0 <= i < head.len() implies no_feed(#[trigger] head[i]) by {
                assert(head[i] == lines[i]);
            }
            assert forall|i: int| 0 <= i < r.len() implies no_feed(#[trigger] r[i]) by {
                if i < tail.len() {
                    assert(r[i] == lines[k + i]);
                } else {
                    assert(r[i] == hunks_reversed(head)[i - tail.len()]);
                }
            }
        }
        if no_blanks(lines) {
            assert forall|i: int| 0 <= i < head.len() implies (#[trigger] head[i]).len() > 0 by {
                assert(head[i] == lines[i]);
            }
            assert forall|i: int| 0 <= i < r.len() implies (#[trigger] r[i]).len() > 0 by {
                if i < tail.len() {
                    assert(r[i] == lines[k + i]);
                } else {
                    assert(r[i] == hunks_reversed(head)[i - tail.len()]);
                }
            }
        }
    }
}

/// A hunk before a list of hunks comes last when the hunks are listed from
/// the last to the first.
pub proof fn lemma_hunk_in_front(hunk: Seq<Seq<char>>, rest: Seq<Seq<char>>)
    requires
        hunk.len() >= 1,
        forall|i: int| 1 <= i < hunk.len() ==> !begins_hunk(#[trigger] hunk[i]),
        rest.len() == 0 || begins_hunk(rest[0]),
    ensures
        hunks_reversed(hunk + rest) == hunks_reversed(rest) + hunk,
    decreases rest.len(),
{
    let all = hunk + rest;
    let n = all.len() as int;
    if rest.len() == 0 {
        assert(all =~= hunk);
        lemma_last_hunk_is(hunk, hunk.len() as int, 0);
        assert(hunk.subrange(0, hunk.len() as int) =~= hunk);
        assert(hunk.subrange(0, 0) =~= Seq::<Seq<char>>::empty());
        assert(hunks_reversed(hunk.subrange(0, 0)) =~= Seq::<Seq<char>>::empty());
        assert(hunks_reversed(hunk) =~= hunk);
        assert(hunks_reversed(rest) + hunk =~= hunk);
    } else {
        let m = rest.len() as int;
        let k = last_hunk(rest, m);
        lemma_last_hunk(rest, m);
        let at = hunk.len() + k;
        assert(all[at] == rest[k]);
        assert forall|i: int| at < i < n implies !begins_hunk(#[trigger] all[i]) by {
            assert(all[i] == rest[i - hunk.len()]);
        }
        lemma_last_hunk_is(all, n, at);
        assert(all.subrange(at, n) =~= rest.subrange(k, m));
        assert(all.subrange(0, at) =~= hunk + rest.subrange(0, k));
        let before = rest.subrange(0, k);
        if k > 0 {
            assert(before[0] == rest[0]);
        }
        lemma_hunk_in_front(hunk, before);
        assert(hunks_reversed(all) == rest.subrange(k, m) + (hunks_reversed(before) + hunk));
        assert(hunks_reversed(rest) == rest.subrange(k, m) + hunks_reversed(before));
        assert(hunks_reversed(all) =~= hunks_reversed(rest) + hunk);
    }
}

/// Listing the hunks from the last to the first twice gives the list back.
pub proof fn lemma_hunks_reversed_twice(lines: Seq<Seq<char>>)
    requires
        lines.len() == 0 || begins_hunk(lines[0]),
    ensures
        hunks_reversed(hunks_reversed(lines)) == lines,
    decreases lines.len(),
{
    if lines.len() > 0 {
        let n = lines.len() as int;
        let k = last_hunk(lines, n);
        lemma_last_hunk(lines, n);
        let hunk = lines.subrange(k, n);
        let before = lines.subrange(0, k);
        if k > 0 {
            assert(before[0] == lines[0]);
        }
        assert forall|i: int| 1 <= i < hunk.len() implies !begins_hunk(#[trigger] hunk[i]) by {
            assert(hunk[i] == lines[k + i]);
        }
        lemma_hunks_reversed(before);
        lemma_hunk_in_front(hunk, hunks_reversed(before));
        lemma_hunks_reversed_twice(before);
        assert(before + hunk =~= lines);
    }
}

/// Reversing each line and listing the hunks from the last to the first
/// can be done in either order.
pub proof fn lemma_hunks_reversed_swapped(lines: Seq<Seq<char>>)
    ensures
        hunks_reversed(swapped(lines)) == swapped(hunks_reversed(lines)),
    decreases lines.len(),
{
    let sw = swapped(lines);
    if lines.len() > 0 {
        let n = lines.len() as int;
        let k = last_hunk(lines, n);
        lemma_last_hunk(lines, n);
        assert forall|i: int| 0 <= i < n implies begins_hunk(#[trigger] sw[i]) == begins_hunk(
            lines[i],
        ) by {
            lemma_begins_hunk_kept(lines[i]);
        }
        lemma_last_hunk_is(sw, n, k);
        let before = lines.subrange(0, k);
        lemma_hunks_reversed_swapped(before);
        lemma_hunks_reversed(before);
        assert(sw.subrange(0, k) =~= swapped(before));
        assert(hunks_reversed(sw) == sw.subrange(k, n) + swapped(hunks_reversed(before)));
        assert(hunks_reversed(sw) =~= swapped(hunks_reversed(lines)));
    } else {
        assert(sw =~= lines);
        assert(swapped(hunks_reversed(lines)) =~= lines);
    }
}

/// Listing the hunks from the last to the first keeps the number of lines,
/// keeps them free of line feeds and of empty lines, and leaves the first
/// hunk where it begins.
pub proof fn lemma_reordered(lines: Seq<Seq<char>>)
    ensures
        reordered(lines).len() == lines.len(),
        no_feeds(lines) ==> no_feeds(reordered(lines)),
        no_blanks(lines) ==> no_blanks(reordered(lines)),
        next_hunk(reordered(lines), 0) == next_hunk(lines, 0),
        reordered(lines).subrange(0, next_hunk(lines, 0)) == lines.subrange(0, next_hunk(lines, 0)),
        reordered(lines).subrange(next_hunk(lines, 0), lines.len() as int) == hunks_reversed(
            lines.subrange(next_hunk(lines, 0), lines.len() as int),
        ),
{
    let n = lines.len() as int;
    let f = next_hunk(lines, 0);
    lemma_next_hunk(lines, 0);
    let before = lines.subrange(0, f);
    let hunks = lines.subrange(f, n);
    lemma_hunks_reversed(hunks);
    let listed = reordered(lines);
    assert(listed == before + hunks_reversed(hunks));
    assert(listed.subrange(0, f) =~= before);
    assert(listed.subrange(f, n) =~= hunks_reversed(hunks));
    assert forall|i: int| 0 <= i < f implies !begins_hunk(#[trigger] listed[i]) by {
        assert(listed[i] == lines[i]);
    }
    if f < n {
        assert(hunks[0] == lines[f]);
        assert(listed[f] == hunks_reversed(hunks)[0]);
    }
    lemma_next_hunk_is(listed, 0, f);
    if no_feeds(lines) {
        assert forall|i: int| 0 <= i < hunks.len() implies no_feed(#[trigger] hunks[i]) by {
            assert(hunks[i] == lines[f + i]);
        }
        assert forall|i: int| 0 <= i < n implies no_feed(#[trigger] listed[i]) by {
            if i < f {
                assert(listed[i] == lines[i]);
            } else {
                assert(listed[i] == hunks_reversed(hunks)[i - f]);
            }
        }
    }
    if no_blanks(lines) {
        assert forall|i: int| 0 <= i < hunks.len() implies (#[trigger] hunks[i]).len() > 0 by {
            assert(hunks[i] == lines[f + i]);
        }
        assert forall|i: int| 0 <= i < n implies (#[trigger] listed[i]).len() > 0 by {
            if i < f {
                assert(listed[i] == lines[i]);
            } else {
                assert(listed[i] == hunks_reversed(hunks)[i - f]);
            }
        }
    }
}

/// Listing the hunks from the last to the first twice gives the list back.
pub proof fn lemma_reordered_twice(lines: Seq<Seq<char>>)
    ensures
        reordered(reordered(lines)) == lines,
{
    let n = lines.len() as int;
    let f = next_hunk(lines, 0);
    lemma_next_hunk(lines, 0);
    lemma_reordered(lines);
    let hunks = lines.subrange(f, n);
    if f < n {
        assert(hunks[0] == lines[f]);
    }
    lemma_hunks_reversed_twice(hunks);
    let listed = reordered(lines);
    assert(reordered(listed) == listed.subrange(0, f) + hunks_reversed(listed.subrange(f, n)));
    assert(lines.subrange(0, f) + hunks =~= lines);
}

/// Reversing each line and listing the hunks from the last to the first
/// can be done in either order.
pub proof fn lemma_reordered_swapped(lines: Seq<Seq<char>>)
    ensures
        reordered(swapped(lines)) == swapped(reordered(lines)),
{
    let n = lines.len() as int;
    let f = next_hunk(lines, 0);
    lemma_next_hunk(lines, 0);
    let sw = swapped(lines);
    assert forall|i: int| 0 <= i < n implies begins_hunk(#[trigger] sw[i]) == begins_hunk(
        lines[i],
    ) by {
        lemma_begins_hunk_kept(lines[i]);
    }
    lemma_next_hunk_is(sw, 0, f);
    let hunks = lines.subrange(f, n);
    lemma_hunks_reversed_swapped(hunks);
    lemma_hunks_reversed(hunks);
    assert(sw.subrange(f, n) =~= swapped(hunks));
    assert(reordered(sw) == sw.subrange(0, f) + swapped(hunks_reversed(hunks)));
    assert(reordered(sw) =~= swapped(reordered(lines)));
}

/// The lines that are not empty among one more line of a list.
pub proof fn lemma_solid_step(lines: Seq<Seq<char>>, i: int)
    requires
        0 <= i < lines.len(),
    ensures
        solid(lines.subrange(0, i + 1)) == (if lines[i].len() == 0 {
            solid(lines.subrange(0, i))
        } else {
            solid(lines.subrange(0, i)).push(lines[i])
        }),
{
    let more = lines.subrange(0, i + 1);
    assert(more.drop_last() =~= lines.subrange(0, i));
    assert(more.last() == lines[i]);
}

/// The lines that are not empty among the first lines of a list are the
/// first of those of the list.
pub proof fn lemma_solid_prefix(lines: Seq<Seq<char>>, j: int)
    requires
        0 <= j <= lines.len(),
    ensures
        solid(lines.subrange(0, j)).len() <= solid(lines).len(),
        solid(lines).subrange(0, solid(lines.subrange(0, j)).len() as int) == solid(
            lines.subrange(0, j),
        ),
    decreases lines.len() - j,
{
    if j == lines.len() {
        assert(lines.subrange(0, j) =~= lines);
        assert(solid(lines).subrange(0, solid(lines).len() as int) =~= solid(lines));
    } else {
        lemma_solid_step(lines, j);
        lemma_solid_prefix(lines, j + 1);
        let less = solid(lines.subrange(0, j));
        let more = solid(lines.subrange(0, j + 1));
        assert(solid(lines).subrange(0, less.len() as int) =~= more.subrange(0, less.len() as int));
        assert(more.subrange(0, less.len() as int) =~= less);
    }
}

/// A line that is not empty stands among those of its list at the place
/// that the lines before it give it.
pub proof fn lemma_solid_at(lines: Seq<Seq<char>>, i: int)
    requires
        0 <= i < lines.len(),
        lines[i].len() > 0,
    ensures
        solid(lines.subrange(0, i)).len() < solid(lines).len(),
        solid(lines)[solid(lines.subrange(0, i)).len() as int] == lines[i],
{
    lemma_solid_step(lines, i);
    lemma_solid_prefix(lines, i + 1);
    let rank = solid(lines.subrange(0, i)).len() as int;
    let more = solid(lines.subrange(0, i + 1));
    assert(more[rank] == lines[i]);
    assert(solid(lines).subrange(0, more.len() as int)[rank] == more[rank]);
}

/// The lines that are not empty are not empty, and hold no line feed where
/// the lines of the list hold none.
pub proof fn lemma_solid(lines: Seq<Seq<char>>)
    ensures
        no_blanks(solid(lines)),
        no_feeds(lines) ==> no_feeds(solid(lines)),
    decreases lines.len(),
{
    if lines.len() > 0 {
        let less = lines.drop_last();
        lemma_solid(less);
        if no_feeds(lines) {
            assert forall|i: int| 0 <= i < less.len() implies no_feed(#[trigger] less[i]) by {
                assert(less[i] == lines[i]);
            }
            assert(no_feed(lines.last()));
        }
    }
}

/// Where the lines of `by` stand in the place of the lines of a list that
/// are not empty, they are the lines of the new list that are not empty.
pub proof fn lemma_solid_refilled(lines: Seq<Seq<char>>, by: Seq<Seq<char>>, k: int)
    requires
        by.len() == solid(lines).len(),
        no_blanks(by),
        0 <= k <= lines.len(),
    ensures
        solid(lines.subrange(0, k)).len() <= by.len(),
        solid(refilled(lines, by).subrange(0, k)) == by.subrange(
            0,
            solid(lines.subrange(0, k)).len() as int,
        ),
    decreases k,
{
    let filled = refilled(lines, by);
    lemma_solid_prefix(lines, k);
    if k == 0 {
        assert(filled.subrange(0, 0) =~= Seq::<Seq<char>>::empty());
        assert(lines.subrange(0, 0) =~= Seq::<Seq<char>>::empty());
        assert(by.subrange(0, 0) =~= Seq::<Seq<char>>::empty());
    } else {
        lemma_solid_refilled(lines, by, k - 1);
        lemma_solid_step(lines, k - 1);
        lemma_solid_step(filled, k - 1);
        let rank = solid(lines.subrange(0, k - 1)).len() as int;
        if lines[k - 1].len() > 0 {
            lemma_solid_at(lines, k - 1);
            assert(filled[k - 1] == by[rank]);
            assert(by.subrange(0, rank).push(by[rank]) =~= by.subrange(0, rank + 1));
        }
    }
}

/// The reversals of the lines that are not empty are the lines of the
/// reversals that are not empty.
pub proof fn lemma_solid_swapped(lines: Seq<Seq<char>>)
    requires
        no_feeds(lines),
    ensures
        solid(swapped(lines)) == swapped(solid(lines)),
    decreases lines.len(),
{
    let sw = swapped(lines);
    if lines.len() == 0 {
        assert(sw =~= lines);
        assert(swapped(solid(lines)) =~= lines);
    } else {
        let less = lines.drop_last();
        assert forall|i: int| 0 <= i < less.len() implies no_feed(#[trigger] less[i]) by {
            assert(less[i] == lines[i]);
        }
        lemma_solid_swapped(less);
        assert(sw.drop_last() =~= swapped(less));
        assert(sw.last() == reversed_line(lines.last()));
        assert(no_feed(lines.last()));
        lemma_reversed_line(lines.last());
        if lines.last().len() > 0 {
            assert(swapped(solid(less).push(lines.last())) =~= swapped(solid(less)).push(
                reversed_line(lines.last()),
            ));
        }
    }
}

/// Reversing a text diff twice gives the text diff back.
pub proof fn lemma_reversed_text_twice(s: Seq<char>)
    ensures
        reversed_text(reversed_text(s)) == s,
{
    let lines = lines_of(s, 0);
    lemma_lines_of(s, 0);
    assert(s.subrange(0, s.len() as int) =~= s);
    let n = lines.len() as int;
    let firm = solid(lines);
    lemma_solid(lines);
    let listed = reordered(firm);
    lemma_reordered(firm);
    let filled = refilled(lines, listed);
    let turned = swapped(filled);
    // the lines of the reversal are the lines that it was joined from
    assert(no_feeds(filled)) by {
        assert forall|i: int| 0 <= i < n implies no_feed(#[trigger] filled[i]) by {
            if lines[i].len() > 0 {
                lemma_solid_at(lines, i);
                assert(no_feed(listed[solid(lines.subrange(0, i)).len() as int]));
            } else {
                assert(no_feed(lines[i]));
            }
        }
    }
    assert(no_feeds(turned)) by {
        assert forall|i: int| 0 <= i < n implies no_feed(#[trigger] turned[i]) by {
            assert(no_feed(filled[i]));
            lemma_reversed_line(filled[i]);
        }
    }
    lemma_lines_of_joined(turned);
    // of these, those that are not empty are the hunks of the text, listed
    // from the last to the first and reversed
    lemma_solid_swapped(filled);
    lemma_solid_refilled(lines, listed, n);
    assert(lines.subrange(0, n) =~= lines);
    assert(filled.subrange(0, n) =~= filled);
    assert(listed.subrange(0, listed.len() as int) =~= listed);
    assert(solid(turned) == swapped(listed));
    lemma_reordered_swapped(listed);
    lemma_reordered_twice(firm);
    assert(reordered(solid(turned)) == swapped(firm));
    // and they come to stand where the lines of the text stood
    let back = swapped(relisted(turned));
    assert(back =~= lines) by {
        assert forall|i: int| 0 <= i < n implies back[i] == lines[i] by {
            assert(no_feed(lines[i]));
            assert(no_feed(filled[i]));
            lemma_reversed_line(lines[i]);
            lemma_reversed_line(filled[i]);
            lemma_solid_refilled(lines, listed, i);
            lemma_solid_step(lines, i);
            if lines[i].len() > 0 {
                lemma_solid_at(lines, i);
                let rank = solid(lines.subrange(0, i)).len() as int;
                assert(turned.subrange(0, i) =~= swapped(filled.subrange(0, i)));
                assert forall|j: int| 0 <= j < i implies no_feed(
                    #[trigger] filled.subrange(0, i)[j],
                ) by {
                    assert(filled.subrange(0, i)[j] == filled[j]);
                }
                lemma_solid_swapped(filled.subrange(0, i));
                assert(solid(turned.subrange(0, i)).len() == rank);
                assert(relisted(turned)[i] == swapped(firm)[rank]);
            } else {
                assert(filled[i] == lines[i]);
            }
        }
    }
}

/// The lines `lines` are what stands in `s` between the positions that
/// `begins` and `ends` hold.
pub open spec fn cut_at(
    s: Seq<char>,
    lines: Seq<Seq<char>>,
    begins: Seq<usize>,
    ends: Seq<usize>,
) -> bool {
    &&& begins.len() == lines.len()
    &&& ends.len() == lines.len()
    &&& forall|i: int|
        #![trigger lines[i]]
        #![trigger begins[i]]
        #![trigger ends[i]]
        0 <= i < lines.len() ==> begins[i] <= ends[i] && ends[i] <= s.len() && lines[i]
            == s.subrange(begins[i] as int, ends[i] as int)
}

/// Whether the line of `text` from `begin` to `end` begins a hunk.
fn is_hunk_line(text: &str, ascii: bool, begin: usize, end: usize) -> (r: bool)
    requires
        ascii ==> text.is_ascii(),
        begin <= end <= text@.len(),
    ensures
        r == begins_hunk(text@.subrange(begin as int, end as int)),
{
    end > begin && char_at(text, ascii, begin) == '@'
}

/// Appends the reversal of the line of `text` from `begin` to `end` to
/// `out`, behind a line feed unless it is the first line there.
fn emit_reversed(
    out: &mut String,
    text: &str,
    ascii: bool,
    begin: usize,
    end: usize,
    first: bool,
    Ghost(written): Ghost<Seq<Seq<char>>>,
)
    requires
        ascii ==> text.is_ascii(),
        begin <= end <= text@.len(),
        old(out)@ == joined(swapped(written)),
        first == (written.len() == 0),
    ensures
        final(out)@ == joined(swapped(written.push(text@.subrange(begin as int, end as int)))),
{
    let ghost line = text@.subrange(begin as int, end as int);
    let ghost given = out@;
    proof {
        reveal_strlit("\n");
        assert("\n"@ =~= seq!['\n']);
        lemma_joined_push(swapped(written), reversed_line(line));
        assert(swapped(written.push(line)) =~= swapped(written).push(reversed_line(line)));
    }
    if !first {
        out.append("\n");
    }
    push_reversed_line(out, part_of(text, ascii, begin, end), ascii, end - begin);
    proof {
        if written.len() == 0 {
            assert(swapped(written) =~= Seq::<Seq<char>>::empty());
            assert(out@ =~= reversed_line(line));
        } else {
            assert(out@ =~= given + seq!['\n'] + reversed_line(line));
        }
    }
}

/// The patch that undoes the text diff `text`: in each line that adds or
/// removes text the sign is swapped, in the header of each hunk the two
/// ranges, and the hunks are listed from the last to the first. Empty
/// lines stay where they are.
pub fn reverse_patch(text: &str) -> (r: String)
    ensures
        r@ == reversed_text(text@),
{
    let ascii = text.is_ascii();
    let n = text.unicode_len();
    let ghost s = text@;
    let ghost lines = lines_of(s, 0);
    // where the lines begin and end
    let mut begins: Vec<usize> = Vec::new();
    let mut ends: Vec<usize> = Vec::new();
    let mut begin: usize = 0;
    let mut finished = false;
    let ghost mut found: Seq<Seq<char>> = Seq::empty();
    proof {
        lemma_lines_of(s, 0);
        assert(found + lines_of(s, 0) =~= lines);
    }
    while !finished
        invariant
            0 <= begin <= n,
            n == s.len(),
            s == text@,
            ascii ==> text.is_ascii(),
            lines == lines_of(s, 0),
            cut_at(s, found, begins@, ends@),
            !finished ==> lines == found + lines_of(s, begin as int),
            finished ==> lines == found,
        decreases n - begin + (if finished { 0int } else { 1int }),
    {
        let mut end = begin;
        while end < n && char_at(text, ascii, end) != '\n'
            invariant
                begin <= end <= n,
                n == s.len(),
                s == text@,
                ascii ==> text.is_ascii(),
                forall|k: int| begin <= k < end ==> s[k] != '\n',
            decreases n - end,
        {
            end += 1;
        }
        let ghost begins_before = begins@;
        let ghost ends_before = ends@;
        begins.push(begin);
        ends.push(end);
        proof {
            lemma_line_end_is(s, begin as int, end as int);
            let line = s.subrange(begin as int, end as int);
            assert forall|i: int| 0 <= i < found.len() + 1 implies begins@[i] <= ends@[i] && ends@[i]
                <= s.len() && #[trigger] found.push(line)[i] == s.subrange(
                begins@[i] as int,
                ends@[i] as int,
            ) by {
                if i < found.len() {
                    assert(begins@[i] == begins_before[i]);
                    assert(ends@[i] == ends_before[i]);
                    assert(found.push(line)[i] == found[i]);
                }
            }
            if end == n {
                assert(lines_of(s, begin as int) == seq![line]);
                assert(lines =~= found.push(line));
            } else {
                assert(lines_of(s, begin as int) == seq![line] + lines_of(s, end + 1));
                assert(lines =~= found.push(line) + lines_of(s, end + 1));
            }
            found = found.push(line);
        }
        if end < n {
            begin = end + 1;
        } else {
            finished = true;
        }
    }
    let count = begins.len();
    // which lines are not empty
    let ghost firm = solid(lines);
    let mut marks: Vec<usize> = Vec::new();
    let mut i: usize = 0;
    proof {
        assert(lines.subrange(0, 0) =~= Seq::<Seq<char>>::empty());
    }
    while i < count
        invariant
            0 <= i <= count,
            count == lines.len(),
            cut_at(s, lines, begins@, ends@),
            marks@.len() == solid(lines.subrange(0, i as int)).len(),
            forall|k: int|
                0 <= k < marks@.len() ==> (#[trigger] marks@[k]) < count && lines[marks@[k] as int]
                    == solid(lines.subrange(0, i as int))[k],
        decreases count - i,
    {
        proof {
            lemma_solid_step(lines, i as int);
            assert(lines[i as int].len() == ends@[i as int] - begins@[i as int]);
        }
        if ends[i] > begins[i] {
            marks.push(i);
        }
        i += 1;
    }
    let m = marks.len();
    proof {
        assert(lines.subrange(0, count as int) =~= lines);
        lemma_solid(lines);
    }
    // in what order they are listed
    let ghost target = reordered(firm);
    let mut f: usize = 0;
    while f < m && !is_hunk_line(text, ascii, begins[marks[f]], ends[marks[f]])
        invariant
            0 <= f <= m,
            m == marks@.len(),
            m == firm.len(),
            count == lines.len(),
            n == s.len(),
            s == text@,
            ascii ==> text.is_ascii(),
            cut_at(s, lines, begins@, ends@),
            forall|k: int|
                0 <= k < m ==> (#[trigger] marks@[k]) < count && lines[marks@[k] as int] == firm[k],
            next_hunk(firm, 0) == next_hunk(firm, f as int),
        decreases m - f,
    {
        f += 1;
    }
    let mut turn: Vec<usize> = Vec::new();
    let ghost mut listed: Seq<Seq<char>> = Seq::empty();
    let mut k: usize = 0;
    proof {
        assert(next_hunk(firm, 0) == f);
        assert(listed =~= firm.subrange(0, 0));
    }
    while k < f
        invariant
            0 <= k <= f <= m,
            m == marks@.len(),
            m == firm.len(),
            count == lines.len(),
            forall|k: int|
                0 <= k < m ==> (#[trigger] marks@[k]) < count && lines[marks@[k] as int] == firm[k],
            listed == firm.subrange(0, k as int),
            turn@.len() == listed.len(),
            forall|j: int|
                0 <= j < turn@.len() ==> (#[trigger] turn@[j]) < count && lines[turn@[j] as int]
                    == listed[j],
        decreases f - k,
    {
        turn.push(marks[k]);
        proof {
            listed = listed.push(firm[k as int]);
            assert(listed =~= firm.subrange(0, k + 1));
        }
        k += 1;
    }
    let mut hi = m;
    proof {
        assert(firm.subrange(0, f as int) + hunks_reversed(firm.subrange(f as int, m as int))
            == target);
    }
    while hi > f
        invariant
            f <= hi <= m,
            m == marks@.len(),
            m == firm.len(),
            count == lines.len(),
            n == s.len(),
            s == text@,
            ascii ==> text.is_ascii(),
            cut_at(s, lines, begins@, ends@),
            forall|k: int|
                0 <= k < m ==> (#[trigger] marks@[k]) < count && lines[marks@[k] as int] == firm[k],
            listed + hunks_reversed(firm.subrange(f as int, hi as int)) == target,
            turn@.len() == listed.len(),
            forall|j: int|
                0 <= j < turn@.len() ==> (#[trigger] turn@[j]) < count && lines[turn@[j] as int]
                    == listed[j],
        decreases hi,
    {
        let mut lo = hi - 1;
        while lo > f && !is_hunk_line(text, ascii, begins[marks[lo]], ends[marks[lo]])
            invariant
                f <= lo < hi <= m,
                m == marks@.len(),
                m == firm.len(),
                count == lines.len(),
                n == s.len(),
                s == text@,
                ascii ==> text.is_ascii(),
                cut_at(s, lines, begins@, ends@),
                forall|k: int|
                    0 <= k < m ==> (#[trigger] marks@[k]) < count && lines[marks@[k] as int]
                        == firm[k],
                forall|j: int| lo < j < hi ==> !begins_hunk(#[trigger] firm[j]),
            decreases lo,
        {
            lo -= 1;
        }
        let ghost base = listed;
        proof {
            let x = firm.subrange(f as int, hi as int);
            let at = lo - f;
            assert(x[at] == firm[lo as int]);
            assert forall|j: int| at < j < x.len() implies !begins_hunk(#[trigger] x[j]) by {
                assert(x[j] == firm[f + j]);
            }
            lemma_last_hunk_is(x, x.len() as int, at);
            assert(x.subrange(at, x.len() as int) =~= firm.subrange(lo as int, hi as int));
            assert(x.subrange(0, at) =~= firm.subrange(f as int, lo as int));
            assert(hunks_reversed(x) == firm.subrange(lo as int, hi as int) + hunks_reversed(
                firm.subrange(f as int, lo as int),
            ));
            assert(listed =~= base + firm.subrange(lo as int, lo as int));
        }
        let mut j = lo;
        while j < hi
            invariant
                lo <= j <= hi <= m,
                m == marks@.len(),
                m == firm.len(),
                count == lines.len(),
                forall|k: int|
                    0 <= k < m ==> (#[trigger] marks@[k]) < count && lines[marks@[k] as int]
                        == firm[k],
                listed == base + firm.subrange(lo as int, j as int),
                turn@.len() == listed.len(),
                forall|j: int|
                    0 <= j < turn@.len() ==> (#[trigger] turn@[j]) < count && lines[turn@[j] as int]
                        == listed[j],
            decreases hi - j,
        {
            turn.push(marks[j]);
            proof {
                listed = listed.push(firm[j as int]);
                assert(listed =~= base + firm.subrange(lo as int, j + 1));
            }
            j += 1;
        }
        proof {
            assert(listed + hunks_reversed(firm.subrange(f as int, lo as int)) =~= base
                + hunks_reversed(firm.subrange(f as int, hi as int)));
        }
        hi = lo;
    }
    proof {
        assert(firm.subrange(f as int, f as int) =~= Seq::<Seq<char>>::empty());
        assert(hunks_reversed(firm.subrange(f as int, f as int)) =~= Seq::<Seq<char>>::empty());
        assert(listed =~= target);
        lemma_reordered(firm);
    }
    // the lines, each in its place
    let ghost wanted = refilled(lines, target);
    let mut out = String::new();
    let ghost mut written: Seq<Seq<char>> = Seq::empty();
    let mut first = true;
    let mut taken: usize = 0;
    let mut i: usize = 0;
    proof {
        assert(swapped(written) =~= Seq::<Seq<char>>::empty());
        assert(written =~= wanted.subrange(0, 0));
        assert(lines.subrange(0, 0) =~= Seq::<Seq<char>>::empty());
    }
    while i < count
        invariant
            0 <= i <= count,
            count == lines.len(),
            n == s.len(),
            s == text@,
            ascii ==> text.is_ascii(),
            cut_at(s, lines, begins@, ends@),
            m == firm.len(),
            firm == solid(lines),
            target.len() == m,
            turn@.len() == m,
            forall|j: int|
                0 <= j < m ==> (#[trigger] turn@[j]) < count && lines[turn@[j] as int] == target[j],
            wanted == refilled(lines, target),
            taken == solid(lines.subrange(0, i as int)).len(),
            written == wanted.subrange(0, i as int),
            out@ == joined(swapped(written)),
            first == (written.len() == 0),
        decreases count - i,
    {
        proof {
            lemma_solid_step(lines, i as int);
            assert(lines[i as int].len() == ends@[i as int] - begins@[i as int]);
        }
        if ends[i] > begins[i] {
            proof {
                lemma_solid_at(lines, i as int);
            }
            let t = turn[taken];
            emit_reversed(&mut out, text, ascii, begins[t], ends[t], first, Ghost(written));
            proof {
                assert(wanted[i as int] == target[taken as int]);
                assert(lines[t as int] == s.subrange(begins@[t as int] as int, ends@[t as int] as int));
            }
            taken += 1;
        } else {
            emit_reversed(&mut out, text, ascii, begins[i], ends[i], first, Ghost(written));
            proof {
                assert(wanted[i as int] == lines[i as int]);
            }
        }
        proof {
            written = written.push(wanted[i as int]);
            assert(written =~= wanted.subrange(0, i + 1));
        }
        first = false;
        i += 1;
    }
    proof {
        assert(wanted.subrange(0, count as int) =~= wanted);
    }
    out
}

/// The greatest position and the greatest length that the header of a hunk
/// may name for the hunk to be handed on.
pub const RANGE_BOUND: usize = 0x4000_0000;

/// The first position from `from` on at which `range` holds a comma; the
/// length of the range where there is none.
pub open spec fn next_comma(range: Seq<char>, from: int) -> int
    decreases range.len() - from,
{
    if from < 0 || from >= range.len() {
        range.len() as int
    } else if range[from] == ',' {
        from
    } else {
        next_comma(range, from + 1)
    }
}

/// Whether a range of a header is in order: a position, or a position, a
/// comma and a length, both in decimal and within bounds; the position is
/// one or more, but for the empty range, which has the length zero.
pub open spec fn is_range(range: Seq<char>) -> bool {
    let c = next_comma(range, 0);
    match parse_decimal(range.subrange(0, c)) {
        Some(start) => {
            if c == range.len() {
                1 <= start <= RANGE_BOUND
            } else {
                match parse_decimal(range.subrange(c + 1, range.len() as int)) {
                    Some(length) => start <= RANGE_BOUND && length <= RANGE_BOUND && (start >= 1
                        || length == 0),
                    None => false,
                }
            }
        },
        None => false,
    }
}

/// Whether a line is the header of a hunk with both ranges in order.
pub open spec fn is_sound_header(line: Seq<char>) -> bool {
    is_header(line) && is_range(line.subrange(4, next_blank(line, 4))) && is_range(
        line.subrange(next_blank(line, 4) + 2, line.len() - 3),
    )
}

/// Whether a line of the text begins with `@` at the position `i`.
pub open spec fn begins_header(s: Seq<char>, i: int) -> bool {
    0 <= i < s.len() && s[i] == '@' && line_begin(s, i) == i
}

/// A text in which every line that begins with `@` is the header of a hunk
/// with both ranges in order. Only such a text is handed to the text-diff
/// library as a patch.
pub open spec fn is_sound_patch(s: Seq<char>) -> bool {
    forall|i: int| #[trigger] begins_header(s, i) ==> is_sound_header(s.subrange(i, line_end(s, i)))
}

/// The first position from `from` on at which `range` holds a comma.
pub(crate) fn find_comma(range: &str, ascii: bool, len: usize, from: usize) -> (r: usize)
    requires
        ascii ==> range.is_ascii(),
        len == range@.len(),
        from <= len,
    ensures
        r == next_comma(range@, from as int),
        from <= r <= len,
{
    let mut k = from;
    while k < len && char_at(range, ascii, k) != ','
        invariant
            from <= k <= len,
            len == range@.len(),
            ascii ==> range.is_ascii(),
            next_comma(range@, from as int) == next_comma(range@, k as int),
        decreases len - k,
    {
        k += 1;
    }
    k
}

/// Whether a range of a header is in order.
fn check_range(range: &str, ascii: bool) -> (r: bool)
    requires
        ascii ==> range.is_ascii(),
    ensures
        r == is_range(range@),
{
    let len = range.unicode_len();
    let c = find_comma(range, ascii, len, 0);
    let first = part_of(range, ascii, 0, c);
    proof {
        assert(first@.subrange(0, first@.len() as int) =~= first@);
    }
    match parse_index(first, 0) {
        Some(start) => {
            if c == len {
                1 <= start && start <= RANGE_BOUND
            } else {
                let second = part_of(range, ascii, c + 1, len);
                proof {
                    assert(second@.subrange(0, second@.len() as int) =~= second@);
                }
                match parse_index(second, 0) {
                    Some(length) => start <= RANGE_BOUND && length <= RANGE_BOUND && (start >= 1
                        || length == 0),
                    None => false,
                }
            }
        },
        None => false,
    }
}

/// Whether a line is the header of a hunk with both ranges in order.
pub(crate) fn check_header(line: &str, ascii: bool, len: usize) -> (r: bool)
    requires
        ascii ==> line.is_ascii(),
        len == line@.len(),
    ensures
        r == is_sound_header(line@),
{
    if len >= 9 && char_at(line, ascii, 0) == '@' && char_at(line, ascii, 1) == '@' && char_at(
        line,
        ascii,
        2,
    ) == ' ' && char_at(line, ascii, 3) == '-' && char_at(line, ascii, len - 2) == '@' && char_at(
        line,
        ascii,
        len - 1,
    ) == '@' {
        let p = find_blank(line, ascii, len, 4);
        if p < len - 4 && char_at(line, ascii, p + 1) == '+' {
            let q = find_blank(line, ascii, len, p + 1);
            if q == len - 3 {
                assert(is_header(line@));
                return check_range(part_of(line, ascii, 4, p), ascii) && check_range(
                    part_of(line, ascii, p + 2, len - 3),
                    ascii,
                );
            }
        }
    }
    assert(!is_header(line@));
    false
}

/// Whether every line of `text` that begins with `@` is the header of a
/// hunk with both ranges in order.
pub fn check_patch(text: &str) -> (r: bool)
    ensures
        r == is_sound_patch(text@),
{
    let ascii = text.is_ascii();
    let n = text.unicode_len();
    let ghost s = text@;
    let mut begin: usize = 0;
    while begin < n
        invariant
            0 <= begin <= n,
            n == s.len(),
            s == text@,
            ascii ==> text.is_ascii(),
            begin == n || begin == 0 || s[begin - 1] == '\n',
            forall|i: int|
                0 <= i < begin && #[trigger] begins_header(s, i) ==> is_sound_header(
                    s.subrange(i, line_end(s, i)),
                ),
        decreases n - begin,
    {
        let mut end = begin;
        while end < n && char_at(text, ascii, end) != '\n'
            invariant
                begin <= end <= n,
                n == s.len(),
                s == text@,
                ascii ==> text.is_ascii(),
                forall|k: int| begin <= k < end ==> s[k] != '\n',
            decreases n - end,
        {
            end += 1;
        }
        proof {
            lemma_line_bounds(s, begin as int, end as int, begin as int);
        }
        if end > begin && char_at(text, ascii, begin) == '@' {
            let line = part_of(text, ascii, begin, end);
            if !check_header(line, ascii, end - begin) {
                proof {
                    assert(begins_header(s, begin as int));
                }
                return false;
            }
        }
        proof {
            assert forall|i: int| 0 <= i < end + 1 && i < n && #[trigger] begins_header(
                s,
                i,
            ) implies is_sound_header(s.subrange(i, line_end(s, i))) by {
                if i > begin {
                    if i < end {
                        lemma_line_bounds(s, begin as int, end as int, i);
                    }
                }
            }
        }
        if end < n {
            begin = end + 1;
        } else {
            begin = n;
        }
    }
    true
}

} // verus!
