//! Positions written in decimal, as the keys of array deltas hold them.

use vstd::prelude::*;

verus! {

/// The character of a decimal digit.
pub open spec fn digit_char(d: nat) -> char {
    if d == 0 {
        '0'
    } else if d == 1 {
        '1'
    } else if d == 2 {
        '2'
    } else if d == 3 {
        '3'
    } else if d == 4 {
        '4'
    } else if d == 5 {
        '5'
    } else if d == 6 {
        '6'
    } else if d == 7 {
        '7'
    } else if d == 8 {
        '8'
    } else {
        '9'
    }
}

/// The digit that a character stands for, if it is one.
pub open spec fn digit_value(c: char) -> Option<nat> {
    if c == '0' {
        Some(0)
    } else if c == '1' {
        Some(1)
    } else if c == '2' {
        Some(2)
    } else if c == '3' {
        Some(3)
    } else if c == '4' {
        Some(4)
    } else if c == '5' {
        Some(5)
    } else if c == '6' {
        Some(6)
    } else if c == '7' {
        Some(7)
    } else if c == '8' {
        Some(8)
    } else if c == '9' {
        Some(9)
    } else {
        None
    }
}

/// A number in decimal, without leading zeros.
pub open spec fn decimal(n: nat) -> Seq<char>
    decreases n,
{
    if n < 10 {
        seq![digit_char(n)]
    } else {
        decimal(n / 10).push(digit_char(n % 10))
    }
}

/// Whether every character of `s` is a decimal digit.
pub open spec fn all_digits(s: Seq<char>) -> bool {
    forall|i: int| 0 <= i < s.len() ==> digit_value(#[trigger] s[i]) is Some
}

/// The number that a sequence of digits stands for.
pub open spec fn digits_value(s: Seq<char>) -> nat
    decreases s.len(),
{
    if s.len() == 0 {
        0
    } else {
        digits_value(s.drop_last()) * 10 + match digit_value(s.last()) {
            Some(d) => d,
            None => 0,
        }
    }
}

/// The number that `s` stands for, where `s` is a number in decimal without
/// leading zeros.
pub open spec fn parse_decimal(s: Seq<char>) -> Option<nat> {
    if s.len() == 0 || !all_digits(s) || (s.len() > 1 && s[0] == '0') {
        None
    } else {
        Some(digits_value(s))
    }
}

/// Reading a number that was written gives the number back.
pub proof fn lemma_decimal_parses(n: nat)
    ensures
        decimal(n).len() > 0,
        all_digits(decimal(n)),
        digits_value(decimal(n)) == n,
        decimal(n).len() > 1 ==> decimal(n)[0] != '0',
        n > 0 ==> decimal(n)[0] != '0',
        parse_decimal(decimal(n)) == Some(n),
    decreases n,
{
    if n < 10 {
        let s = decimal(n);
        assert(s.drop_last() =~= Seq::<char>::empty());
        assert(digits_value(s.drop_last()) == 0);
    } else {
        lemma_decimal_parses(n / 10);
        let init = decimal(n / 10);
        let s = decimal(n);
        assert(s.drop_last() =~= init);
        assert(s[0] == init[0]);
    }
}

/// Only one text is the decimal form of a number: what parses as `n` is
/// `decimal(n)`.
pub proof fn lemma_parse_is_decimal(s: Seq<char>)
    requires
        parse_decimal(s) is Some,
    ensures
        s == decimal(parse_decimal(s)->0),
    decreases s.len(),
{
    let n = digits_value(s);
    if s.len() == 1 {
        assert(s.drop_last() =~= Seq::<char>::empty());
        assert(digits_value(s.drop_last()) == 0);
        assert(s =~= decimal(n));
    } else {
        let init = s.drop_last();
        assert(all_digits(init)) by {
            assert forall|i: int| 0 <= i < init.len() implies digit_value(#[trigger] init[i])
                is Some by {
                assert(init[i] == s[i]);
            }
        }
        assert(init[0] == s[0]);
        if init.len() == 1 {
            assert(init.drop_last() =~= Seq::<char>::empty());
            assert(digits_value(init.drop_last()) == 0);
            assert(digits_value(init) >= 1);
        } else {
            lemma_parse_is_decimal(init);
            lemma_leading_digit(init);
        }
        lemma_parse_is_decimal(init);
        let d = digit_value(s.last())->0;
        assert(n == digits_value(init) * 10 + d);
        assert(n >= 10);
        assert(n / 10 == digits_value(init));
        assert(n % 10 == d);
        assert(s =~= decimal(n / 10).push(digit_char(n % 10)));
    }
}

/// A sequence of digits that does not start with zero stands for a number
/// that is not zero.
pub proof fn lemma_leading_digit(s: Seq<char>)
    requires
        s.len() > 0,
        all_digits(s),
        s[0] != '0',
    ensures
        digits_value(s) >= 1,
    decreases s.len(),
{
    if s.len() == 1 {
        assert(s.drop_last() =~= Seq::<char>::empty());
        assert(digits_value(s.drop_last()) == 0);
    } else {
        let init = s.drop_last();
        assert(init[0] == s[0]);
        assert forall|i: int| 0 <= i < init.len() implies digit_value(#[trigger] init[i])
            is Some by {
            assert(init[i] == s[i]);
        }
        lemma_leading_digit(init);
    }
}

/// The text of one decimal digit.
fn digit_str(d: usize) -> (r: &'static str)
    requires
        d < 10,
    ensures
        r@ == seq![digit_char(d as nat)],
{
    proof {
        reveal_strlit("0");
        reveal_strlit("1");
        reveal_strlit("2");
        reveal_strlit("3");
        reveal_strlit("4");
        reveal_strlit("5");
        reveal_strlit("6");
        reveal_strlit("7");
        reveal_strlit("8");
        reveal_strlit("9");
    }
    let r = if d == 0 {
        "0"
    } else if d == 1 {
        "1"
    } else if d == 2 {
        "2"
    } else if d == 3 {
        "3"
    } else if d == 4 {
        "4"
    } else if d == 5 {
        "5"
    } else if d == 6 {
        "6"
    } else if d == 7 {
        "7"
    } else if d == 8 {
        "8"
    } else {
        "9"
    };
    assert(r@ =~= seq![digit_char(d as nat)]);
    r
}

/// Appends `n` in decimal to `out`.
pub fn push_decimal(out: &mut String, n: usize)
    ensures
        final(out)@ == old(out)@ + decimal(n as nat),
    decreases n,
{
    if n < 10 {
        out.append(digit_str(n));
    } else {
        push_decimal(out, n / 10);
        out.append(digit_str(n % 10));
        assert(final(out)@ =~= old(out)@ + decimal(n as nat)) by {
            assert(decimal(n as nat) == decimal(n as nat / 10).push(digit_char(n as nat % 10)));
        }
    }
}

/// `n` in decimal.
pub fn to_decimal(n: usize) -> (r: String)
    ensures
        r@ == decimal(n as nat),
{
    let mut out = String::new();
    push_decimal(&mut out, n);
    assert(out@ =~= decimal(n as nat));
    out
}

/// The digit that `c` stands for, if it is one.
fn digit_of(c: char) -> (r: Option<usize>)
    ensures
        match r {
            Some(d) => digit_value(c) == Some(d as nat) && d < 10,
            None => digit_value(c) is None,
        },
{
    if c == '0' {
        Some(0)
    } else if c == '1' {
        Some(1)
    } else if c == '2' {
        Some(2)
    } else if c == '3' {
        Some(3)
    } else if c == '4' {
        Some(4)
    } else if c == '5' {
        Some(5)
    } else if c == '6' {
        Some(6)
    } else if c == '7' {
        Some(7)
    } else if c == '8' {
        Some(8)
    } else if c == '9' {
        Some(9)
    } else {
        None
    }
}

/// The number that a sequence of digits stands for grows with the sequence.
proof fn lemma_digits_value_grows(s: Seq<char>, k: int)
    requires
        0 <= k <= s.len(),
    ensures
        digits_value(s.subrange(0, k)) <= digits_value(s),
    decreases s.len() - k,
{
    if k < s.len() {
        lemma_digits_value_grows(s, k + 1);
        let longer = s.subrange(0, k + 1);
        assert(longer.drop_last() =~= s.subrange(0, k));
    } else {
        assert(s.subrange(0, k) =~= s);
    }
}

/// Reads the characters of `s` from `from` on as a position: a number in
/// decimal, without leading zeros, that fits the machine's word.
pub fn parse_index(s: &str, from: usize) -> (r: Option<usize>)
    requires
        from <= s@.len(),
    ensures
        r == (match parse_decimal(s@.subrange(from as int, s@.len() as int)) {
            Some(n) => if n <= usize::MAX {
                Some(n as usize)
            } else {
                None
            },
            None => None,
        }),
{
    let len = s.unicode_len();
    let ghost text = s@.subrange(from as int, s@.len() as int);
    if from >= len {
        return None;
    }
    if len - from > 1 && s.get_char(from) == '0' {
        assert(text[0] == '0');
        return None;
    }
    let mut value: usize = 0;
    let mut i: usize = from;
    while i < len
        invariant
            from <= i <= len,
            len == s@.len(),
            text == s@.subrange(from as int, s@.len() as int),
            all_digits(text.subrange(0, i - from)),
            value == digits_value(text.subrange(0, i - from)),
        decreases len - i,
    {
        let ghost seen = text.subrange(0, i - from);
        let ghost more = text.subrange(0, i + 1 - from);
        proof {
            assert(more.drop_last() =~= seen);
            assert(more.last() == s@[i as int]);
            lemma_digits_value_grows(text, i + 1 - from);
        }
        match digit_of(s.get_char(i)) {
            Some(d) => {
                if value > (usize::MAX - d) / 10 {
                    proof {
                        assert(digits_value(more) == value * 10 + d);
                        assert(digits_value(more) > usize::MAX);
                        if all_digits(text) {
                        }
                    }
                    return None;
                }
                value = value * 10 + d;
                proof {
                    assert forall|k: int| 0 <= k < more.len() implies digit_value(
                        #[trigger] more[k],
                    ) is Some by {
                        if k < more.len() - 1 {
                            assert(more[k] == seen[k]);
                        }
                    }
                }
            },
            None => {
                proof {
                    assert(text[i - from] == s@[i as int]);
                    assert(!all_digits(text));
                }
                return None;
            },
        }
        i += 1;
    }
    proof {
        assert(text.subrange(0, len - from) =~= text);
    }
    Some(value)
}

} // verus!
