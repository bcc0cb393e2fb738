//! Whether a text diff fits a text exactly: every hunk finds the text that
//! it expects at the very place that its header names.
//!
//! The `diff_match_patch_rs` crate looks for the best place of a hunk that
//! does not stand where it is expected, and on that way it computes with
//! positions and lengths without a check. A patch is therefore handed to it
//! only where this module finds that every hunk fits exactly. Then the
//! crate finds each hunk at once, replaces it where it stands, and never
//! looks further.
//!
//! The test follows the crate in what it does before it applies a hunk:
//!
//! - `patch_from_text` reads the patch line by line. The first line is the
//!   header of a hunk; every other line is empty and skipped, or the header
//!   of the next hunk, or a piece of the hunk: a blank, `-` or `+`, and
//!   text in which `%` and two hexadecimal digits stand for one byte. The
//!   place of a hunk is the position that the second range of its header
//!   names, less one unless the range is empty.
//! - `patch_apply` puts the bytes 1, 2, 3, 4 before and behind the text.
//!   `patch_add_padding` moves every hunk four bytes on, and fills the kept
//!   text at the head of the first hunk and at the tail of the last with
//!   those bytes until it is four bytes long.
//! - Each hunk is then looked for at its place in the text as the hunks
//!   before it have left it, and `match_internal` first of all compares the
//!   text at that place with the text that the hunk expects.
//!
//! A hunk whose header names more than 32 bytes is cut into smaller ones by
//! `split_max`. Each of these expects, between a few kept bytes, the next
//! part of what the hunk expects, at the place that this part has when the
//! parts before it have been replaced: where the hunk fits, so do they. For
//! a hunk that is found, the lengths that its header names decide nothing
//! but this cutting, so they are not part of the test.

use crate::decimal::{parse_decimal, parse_index};
use crate::lines::lemma_line_end_is;
use crate::unidiff::{
    char_at, check_header, find_blank, find_comma, is_sound_header, line_end, next_blank,
    next_comma, part_of,
};
use vstd::prelude::*;
use vstd::utf8::{encode_utf8, is_ascii_chars};

verus! {

/// The bytes that are put before and behind a text, and round the hunks at
/// its ends.
pub open spec fn padding() -> Seq<u8> {
    seq![1u8, 2u8, 3u8, 4u8]
}

/// The number that a hexadecimal digit stands for.
pub open spec fn hex_value(c: char) -> Option<u8> {
    let n = c as u32;
    if 48 <= n <= 57 {
        Some((n - 48) as u8)
    } else if 65 <= n <= 70 {
        Some((n - 55) as u8)
    } else if 97 <= n <= 102 {
        Some((n - 87) as u8)
    } else {
        None
    }
}

/// Whether an escape stands at the position `at` of a line: `%` and two
/// hexadecimal digits.
pub open spec fn is_escape(line: Seq<char>, at: int) -> bool {
    0 <= at && at + 2 < line.len() && line[at] == '%' && hex_value(line[at + 1]) is Some
        && hex_value(line[at + 2]) is Some
}

/// The bytes that a line of characters below 128 stands for from the
/// position `from` on: an escape is the byte that its two digits name, any
/// other character is itself.
pub open spec fn unescaped(line: Seq<char>, from: int) -> Seq<u8>
    decreases line.len() - from,
{
    if from < 0 || from >= line.len() {
        Seq::empty()
    } else if is_escape(line, from) {
        seq![(hex_value(line[from + 1])->0 * 16 + hex_value(line[from + 2])->0) as u8] + unescaped(
            line,
            from + 3,
        )
    } else {
        seq![line[from] as u8] + unescaped(line, from + 1)
    }
}

/// The place that a range of a header names, counted from zero: the
/// position itself where the range is empty, one less where it is not.
pub open spec fn range_place(range: Seq<char>) -> int {
    let c = next_comma(range, 0);
    let start = parse_decimal(range.subrange(0, c))->0 as int;
    if c < range.len() && parse_decimal(range.subrange(c + 1, range.len() as int)) == Some(0nat) {
        start
    } else {
        start - 1
    }
}

/// The place in the new text that the header of a hunk names.
pub open spec fn header_place(line: Seq<char>) -> int {
    range_place(line.subrange(next_blank(line, 4) + 2, line.len() - 3))
}

/// How far the reading of a patch has come.
pub struct Fitting {
    /// The padded text, as the hunks read so far have left it.
    pub text: Seq<u8>,
    /// Whether all is in order so far.
    pub fits: bool,
    /// Whether a header was read, so that a hunk is being read.
    pub open: bool,
    /// Whether the hunk that is being read, or will be, is the first.
    pub first: bool,
    /// The place that the header of the hunk names.
    pub place: int,
    /// The text that the hunk expects.
    pub expected: Seq<u8>,
    /// The text that the hunk puts in its place.
    pub replacement: Seq<u8>,
    /// Whether the hunk has no piece so far.
    pub bare: bool,
    /// Whether the hunk has no piece, or one piece that keeps text.
    pub sole: bool,
    /// How many bytes, up to four, the first piece of the hunk keeps.
    pub lead: int,
    /// How many bytes, up to four, the last piece of the hunk keeps.
    pub trail: int,
}

/// The state before the first line is read.
pub open spec fn fitting_start(text: Seq<u8>) -> Fitting {
    Fitting {
        text: padding() + text + padding(),
        fits: true,
        open: false,
        first: true,
        place: 0,
        expected: Seq::empty(),
        replacement: Seq::empty(),
        bare: true,
        sole: true,
        lead: 0,
        trail: 0,
    }
}

/// The state after the hunk that is being read has ended: the hunk, with
/// the padding that it is due, must stand in the text at its place, and is
/// replaced there. `last` says that no other hunk follows.
pub open spec fn closed(s: Fitting, last: bool) -> Fitting {
    if !s.open || !s.fits {
        s
    } else {
        let head = if s.first {
            padding().subrange(s.lead, 4)
        } else {
            Seq::<u8>::empty()
        };
        let tail = if last && !(s.first && s.sole) {
            padding().subrange(0, 4 - s.trail)
        } else {
            Seq::<u8>::empty()
        };
        let at = s.place + (if s.first {
            s.lead
        } else {
            4
        });
        let expected = head + s.expected + tail;
        let replacement = head + s.replacement + tail;
        if at + expected.len() <= s.text.len() && s.text.subrange(at, at + expected.len())
            == expected {
            Fitting {
                text: s.text.subrange(0, at) + replacement + s.text.subrange(
                    at + expected.len(),
                    s.text.len() as int,
                ),
                open: false,
                first: false,
                ..s
            }
        } else {
            Fitting { fits: false, ..s }
        }
    }
}

/// The state after one more line. An empty line counts for nothing behind
/// a header. A line that begins with `@` must be a header in order: it ends
/// the hunk before it and begins the next. Any other line must stand behind
/// a header and begin with a blank, `+` or `-`: it is a piece of the hunk.
pub open spec fn with_line(s: Fitting, line: Seq<char>) -> Fitting {
    if !s.fits {
        s
    } else if line.len() == 0 {
        Fitting { fits: s.open, ..s }
    } else if line[0] == '@' {
        if is_sound_header(line) {
            Fitting {
                open: true,
                place: header_place(line),
                expected: Seq::empty(),
                replacement: Seq::empty(),
                bare: true,
                sole: true,
                lead: 0,
                trail: 0,
                ..closed(s, false)
            }
        } else {
            Fitting { fits: false, ..s }
        }
    } else if s.open && (line[0] == ' ' || line[0] == '+' || line[0] == '-') {
        let data = unescaped(line, 1);
        let kept: int = if line[0] != ' ' {
            0
        } else if data.len() < 4 {
            data.len() as int
        } else {
            4
        };
        Fitting {
            expected: if line[0] == '+' {
                s.expected
            } else {
                s.expected + data
            },
            replacement: if line[0] == '-' {
                s.replacement
            } else {
                s.replacement + data
            },
            bare: false,
            sole: s.bare && line[0] == ' ',
            lead: if s.bare {
                kept
            } else {
                s.lead
            },
            trail: kept,
            ..s
        }
    } else {
        Fitting { fits: false, ..s }
    }
}

/// The state after the lines of `patch` from the position `from` on.
pub open spec fn with_lines(patch: Seq<char>, from: int, s: Fitting) -> Fitting
    decreases patch.len() - from,
{
    let end = line_end(patch, from);
    if from < 0 || from > patch.len() || end < from {
        s
    } else if end >= patch.len() {
        with_line(s, patch.subrange(from, end))
    } else {
        with_lines(patch, end + 1, with_line(s, patch.subrange(from, end)))
    }
}

/// Whether the patch `patch` fits the text `text` exactly: it is empty, or
/// it holds no character from 128 on, begins with a header, has every
/// line in order, and each of its hunks stands in the text, as the hunks
/// before it have left it, at the place that its header names.
pub open spec fn fits_exactly(patch: Seq<char>, text: Seq<char>) -> bool {
    patch.len() == 0 || (is_ascii_chars(patch) && closed(
        with_lines(patch, 0, fitting_start(encode_utf8(text))),
        true,
    ).fits)
}

/// The number that a hexadecimal digit stands for.
fn hex_of(c: char) -> (r: Option<u8>)
    ensures
        r == hex_value(c),
{
    let n: u32 = c as u32;
    if 48 <= n && n <= 57 {
        Some((n - 48) as u8)
    } else if 65 <= n && n <= 70 {
        Some((n - 55) as u8)
    } else if 97 <= n && n <= 102 {
        Some((n - 87) as u8)
    } else {
        None
    }
}

/// Appends to `out` the bytes that `line` stands for from `from` on.
fn unescape(out: &mut Vec<u8>, line: &str, len: usize, from: usize)
    requires
        line.is_ascii(),
        len == line@.len(),
        from <= len,
    ensures
        final(out)@ == old(out)@ + unescaped(line@, from as int),
{
    let ghost given = out@;
    let ghost wanted = unescaped(line@, from as int);
    let mut i: usize = from;
    proof {
        assert(out@ + unescaped(line@, i as int) =~= given + wanted);
    }
    while i < len
        invariant
            from <= i <= len,
            len == line@.len(),
            line.is_ascii(),
            out@ + unescaped(line@, i as int) == given + wanted,
        decreases len - i,
    {
        let ghost before = out@;
        let c = char_at(line, true, i);
        let mut escape: Option<u8> = None;
        if c == '%' && len > 2 && i < len - 2 {
            match (hex_of(char_at(line, true, i + 1)), hex_of(char_at(line, true, i + 2))) {
                (Some(high), Some(low)) => {
                    escape = Some(high * 16 + low);
                },
                _ => {},
            }
        }
        match escape {
            Some(b) => {
                out.push(b);
                proof {
                    assert(is_escape(line@, i as int));
                    assert(out@ + unescaped(line@, i + 3) =~= before + unescaped(line@, i as int));
                }
                i += 3;
            },
            None => {
                out.push(c as u8);
                proof {
                    assert(!is_escape(line@, i as int));
                    assert(out@ + unescaped(line@, i + 1) =~= before + unescaped(line@, i as int));
                }
                i += 1;
            },
        }
    }
    proof {
        assert(out@ + unescaped(line@, i as int) =~= out@);
    }
}

/// Appends to `out` the bytes of `part` from `from` to `to`.
fn append_range(out: &mut Vec<u8>, part: &Vec<u8>, from: usize, to: usize)
    requires
        from <= to <= part@.len(),
    ensures
        final(out)@ == old(out)@ + part@.subrange(from as int, to as int),
{
    let ghost given = out@;
    let mut i: usize = from;
    proof {
        assert(out@ =~= given + part@.subrange(from as int, i as int));
    }
    while i < to
        invariant
            from <= i <= to <= part@.len(),
            out@ == given + part@.subrange(from as int, i as int),
        decreases to - i,
    {
        out.push(part[i]);
        i += 1;
        proof {
            assert(out@ =~= given + part@.subrange(from as int, i as int));
        }
    }
}

/// Appends to `out` the bytes of the padding from `from` to `to`.
fn append_padding(out: &mut Vec<u8>, from: usize, to: usize)
    requires
        from <= to <= 4,
    ensures
        final(out)@ == old(out)@ + padding().subrange(from as int, to as int),
{
    let ghost given = out@;
    let mut i: usize = from;
    proof {
        assert(out@ =~= given + padding().subrange(from as int, i as int));
    }
    while i < to
        invariant
            from <= i <= to <= 4,
            out@ == given + padding().subrange(from as int, i as int),
        decreases to - i,
    {
        let b: u8 = if i == 0 {
            1
        } else if i == 1 {
            2
        } else if i == 2 {
            3
        } else {
            4
        };
        out.push(b);
        i += 1;
        proof {
            assert(out@ =~= given + padding().subrange(from as int, i as int));
        }
    }
}

/// Whether `part` stands in `text` at the position `at`.
fn stands_at(text: &Vec<u8>, at: usize, part: &Vec<u8>) -> (r: bool)
    requires
        at + part@.len() <= text@.len(),
    ensures
        r == (text@.subrange(at as int, at + part@.len()) == part@),
{
    let n = part.len();
    let mut i: usize = 0;
    while i < n
        invariant
            0 <= i <= n,
            n == part@.len(),
            at + n <= text@.len(),
            forall|j: int| 0 <= j < i ==> text@[at + j] == part@[j],
        decreases n - i,
    {
        assert(text@.len() == text.len());
        if text[at + i] != part[i] {
            proof {
                assert(text@.subrange(at as int, at + part@.len())[i as int] != part@[i as int]);
            }
            return false;
        }
        i += 1;
    }
    proof {
        assert(text@.subrange(at as int, at + part@.len()) =~= part@);
    }
    true
}

/// The reading of a patch, as it runs.
struct FitState {
    text: Vec<u8>,
    fits: bool,
    open: bool,
    first: bool,
    place: usize,
    expected: Vec<u8>,
    replacement: Vec<u8>,
    bare: bool,
    sole: bool,
    lead: usize,
    trail: usize,
}

impl FitState {
    /// What the state stands for.
    spec fn model(&self) -> Fitting {
        Fitting {
            text: self.text@,
            fits: self.fits,
            open: self.open,
            first: self.first,
            place: self.place as int,
            expected: self.expected@,
            replacement: self.replacement@,
            bare: self.bare,
            sole: self.sole,
            lead: self.lead as int,
            trail: self.trail as int,
        }
    }

    /// The numbers of the state are within bounds.
    spec fn bounded(&self) -> bool {
        self.lead <= 4 && self.trail <= 4 && self.place <= crate::unidiff::RANGE_BOUND
    }
}

/// The place that a range in order names.
fn place_of_range(range: &str) -> (r: usize)
    requires
        range.is_ascii(),
    ensures
        crate::unidiff::is_range(range@) ==> r == range_place(range@) && r
            <= crate::unidiff::RANGE_BOUND,
{
    let len = range.unicode_len();
    let c = find_comma(range, true, len, 0);
    let first = part_of(range, true, 0, c);
    proof {
        assert(first@.subrange(0, first@.len() as int) =~= first@);
    }
    match parse_index(first, 0) {
        Some(start) => {
            if c == len {
                if start >= 1 {
                    start - 1
                } else {
                    0
                }
            } else {
                let second = part_of(range, true, c + 1, len);
                proof {
                    assert(second@.subrange(0, second@.len() as int) =~= second@);
                }
                match parse_index(second, 0) {
                    Some(length) => if length == 0 {
                        start
                    } else if start >= 1 {
                        start - 1
                    } else {
                        0
                    },
                    None => 0,
                }
            }
        },
        None => 0,
    }
}

/// Ends the hunk that is being read.
fn close_hunk(state: &mut FitState, last: bool)
    requires
        old(state).bounded(),
    ensures
        final(state).model() == closed(old(state).model(), last),
        final(state).bounded(),
{
    if !state.open || !state.fits {
        return ;
    }
    let mut expected: Vec<u8> = Vec::new();
    let mut replacement: Vec<u8> = Vec::new();
    let ghost head = if state.first {
        padding().subrange(state.lead as int, 4)
    } else {
        Seq::<u8>::empty()
    };
    let ghost tail = if last && !(state.first && state.sole) {
        padding().subrange(0, 4 - state.trail)
    } else {
        Seq::<u8>::empty()
    };
    if state.first {
        append_padding(&mut expected, state.lead, 4);
        append_padding(&mut replacement, state.lead, 4);
    }
    append_range(&mut expected, &state.expected, 0, state.expected.len());
    append_range(&mut replacement, &state.replacement, 0, state.replacement.len());
    if last && !(state.first && state.sole) {
        append_padding(&mut expected, 0, 4 - state.trail);
        append_padding(&mut replacement, 0, 4 - state.trail);
    }
    proof {
        assert(state.expected@.subrange(0, state.expected@.len() as int) =~= state.expected@);
        assert(state.replacement@.subrange(0, state.replacement@.len() as int)
            =~= state.replacement@);
        assert(expected@ =~= head + state.expected@ + tail);
        assert(replacement@ =~= head + state.replacement@ + tail);
    }
    let at: usize = state.place + (if state.first {
        state.lead
    } else {
        4
    });
    let size = expected.len();
    let length = state.text.len();
    if size <= length && at <= length - size && stands_at(&state.text, at, &expected) {
        let mut text: Vec<u8> = Vec::new();
        append_range(&mut text, &state.text, 0, at);
        append_range(&mut text, &replacement, 0, replacement.len());
        append_range(&mut text, &state.text, at + size, length);
        proof {
            assert(replacement@.subrange(0, replacement@.len() as int) =~= replacement@);
        }
        state.text = text;
        state.open = false;
        state.first = false;
    } else {
        state.fits = false;
    }
}

/// Reads one more line.
fn take_line(state: &mut FitState, line: &str, len: usize)
    requires
        old(state).bounded(),
        line.is_ascii(),
        len == line@.len(),
    ensures
        final(state).model() == with_line(old(state).model(), line@),
        final(state).bounded(),
{
    if !state.fits {
        return ;
    }
    if len == 0 {
        state.fits = state.open;
        return ;
    }
    let sign = char_at(line, true, 0);
    if sign == '@' {
        if check_header(line, true, len) {
            close_hunk(state, false);
            let p = find_blank(line, true, len, 4);
            let place = place_of_range(part_of(line, true, p + 2, len - 3));
            state.open = true;
            state.place = place;
            state.expected = Vec::new();
            state.replacement = Vec::new();
            state.bare = true;
            state.sole = true;
            state.lead = 0;
            state.trail = 0;
        } else {
            state.fits = false;
        }
    } else if state.open && (sign == ' ' || sign == '+' || sign == '-') {
        let mut data: Vec<u8> = Vec::new();
        unescape(&mut data, line, len, 1);
        proof {
            assert(data@ =~= unescaped(line@, 1));
        }
        let kept: usize = if sign != ' ' {
            0
        } else if data.len() < 4 {
            data.len()
        } else {
            4
        };
        if sign != '+' {
            append_range(&mut state.expected, &data, 0, data.len());
        }
        if sign != '-' {
            append_range(&mut state.replacement, &data, 0, data.len());
        }
        proof {
            assert(data@.subrange(0, data@.len() as int) =~= data@);
        }
        if state.bare {
            state.lead = kept;
        }
        state.sole = state.bare && sign == ' ';
        state.bare = false;
        state.trail = kept;
    } else {
        state.fits = false;
    }
}

/// Whether the patch `patch` fits the text `text` exactly.
pub fn check_fit(patch: &str, text: &str) -> (r: bool)
    ensures
        r == fits_exactly(patch@, text@),
{
    let n = patch.unicode_len();
    if n == 0 {
        return true;
    }
    if !patch.is_ascii() {
        return false;
    }
    let bytes = text.as_bytes_vec();
    let mut padded: Vec<u8> = Vec::new();
    append_padding(&mut padded, 0, 4);
    append_range(&mut padded, &bytes, 0, bytes.len());
    append_padding(&mut padded, 0, 4);
    proof {
        assert(padding().subrange(0, 4) =~= padding());
        assert(bytes@.subrange(0, bytes@.len() as int) =~= bytes@);
        assert(padded@ =~= padding() + encode_utf8(text@) + padding());
    }
    let mut state = FitState {
        text: padded,
        fits: true,
        open: false,
        first: true,
        place: 0,
        expected: Vec::new(),
        replacement: Vec::new(),
        bare: true,
        sole: true,
        lead: 0,
        trail: 0,
    };
    let ghost s = patch@;
    let ghost start = fitting_start(encode_utf8(text@));
    proof {
        assert(state.model().expected =~= start.expected);
        assert(state.model().replacement =~= start.replacement);
        assert(state.model() == start);
    }
    let mut begin: usize = 0;
    let mut finished = false;
    while !finished
        invariant
            0 <= begin <= n,
            n == s.len(),
            s == patch@,
            patch.is_ascii(),
            state.bounded(),
            !finished ==> with_lines(s, 0, start) == with_lines(s, begin as int, state.model()),
            finished ==> with_lines(s, 0, start) == state.model(),
        decreases n - begin + (if finished { 0int } else { 1int }),
    {
        let mut end = begin;
        while end < n && char_at(patch, true, end) != '\n'
            invariant
                begin <= end <= n,
                n == s.len(),
                s == patch@,
                patch.is_ascii(),
                forall|k: int| begin <= k < end ==> s[k] != '\n',
            decreases n - end,
        {
            end += 1;
        }
        proof {
            lemma_line_end_is(s, begin as int, end as int);
        }
        let line = part_of(patch, true, begin, end);
        take_line(&mut state, line, end - begin);
        if end < n {
            begin = end + 1;
        } else {
            finished = true;
        }
    }
    close_hunk(&mut state, true);
    state.fits
}

} // verus!
