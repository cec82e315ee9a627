//! What a line of input stands for.

use crate::error::Error;
use vstd::prelude::*;

verus! {

/// The characters with the Unicode property White_Space.
pub open spec fn is_space(c: char) -> bool {
    let n = c as u32;
    (0x09 <= n <= 0x0D) || n == 0x20 || n == 0x85 || n == 0xA0 || n == 0x1680 || (0x2000 <= n
        <= 0x200A) || n == 0x2028 || n == 0x2029 || n == 0x202F || n == 0x205F || n == 0x3000
}

/// A line without the white space at its two ends.
pub open spec fn trimmed(line: Seq<char>) -> Seq<char>
    decreases line.len(),
{
    if line.len() > 0 && is_space(line[0]) {
        trimmed(line.skip(1))
    } else if line.len() > 0 && is_space(line.last()) {
        trimmed(line.drop_last())
    } else {
        line
    }
}

/// The ten decimal digits.
pub open spec fn is_digit(c: char) -> bool {
    0x30 <= c as u32 <= 0x39
}

/// The number that a digit stands for.
pub open spec fn digit_value(c: char) -> nat {
    if is_digit(c) {
        (c as u32 - 0x30) as nat
    } else {
        0
    }
}

/// The number that a run of digits writes in base ten.
pub open spec fn decimal_value(digits: Seq<char>) -> nat
    decreases digits.len(),
{
    if digits.len() == 0 {
        0
    } else {
        10 * decimal_value(digits.drop_last()) + digit_value(digits.last())
    }
}

/// Whether every character of a text is a digit.
pub open spec fn all_digits(text: Seq<char>) -> bool {
    forall|i: int| 0 <= i < text.len() ==> is_digit(#[trigger] text[i])
}

/// A text without the plus sign in front of it, if it has one.
pub open spec fn unsigned(text: Seq<char>) -> Seq<char> {
    if text.len() > 0 && text[0] == '+' {
        text.skip(1)
    } else {
        text
    }
}

/// The byte that a text writes as a number: one or more decimal digits,
/// with or without a plus sign in front, that make a number up to 255.
pub open spec fn byte_of(text: Seq<char>) -> Option<u8> {
    let digits = unsigned(text);
    if digits.len() > 0 && all_digits(digits) && decimal_value(digits) <= 255 {
        Some(decimal_value(digits) as u8)
    } else {
        None
    }
}

/// The low eight bits of a character's code point.
pub open spec fn low_byte(c: char) -> u8 {
    (c as u32 % 256) as u8
}

/// The byte that a line of input stands for. Without the white space at its
/// ends, the line is a number up to 255 and stands for it; or it is
/// anything else and stands for the code point of its first character, cut
/// down to eight bits; or it is empty and stands for nothing.
pub open spec fn decode(line: Seq<char>) -> Option<u8> {
    let text = trimmed(line);
    match byte_of(text) {
        Some(value) => Some(value),
        None => if text.len() > 0 {
            Some(low_byte(text[0]))
        } else {
            None
        },
    }
}

/// More digits never write a smaller number.
pub proof fn lemma_decimal_value_grows(digits: Seq<char>, k: int)
    requires
        0 <= k <= digits.len(),
    ensures
        decimal_value(digits.take(k)) <= decimal_value(digits),
    decreases digits.len(),
{
    if k == digits.len() {
        assert(digits.take(k) =~= digits);
    } else {
        lemma_decimal_value_grows(digits.drop_last(), k);
        assert(digits.drop_last().take(k) =~= digits.take(k));
    }
}

/// Tells whether a character is white space.
pub fn is_whitespace(c: char) -> (space: bool)
    ensures
        space == is_space(c),
{
    let n = c as u32;
    (0x09 <= n && n <= 0x0D) || n == 0x20 || n == 0x85 || n == 0xA0 || n == 0x1680 || (0x2000 <= n
        && n <= 0x200A) || n == 0x2028 || n == 0x2029 || n == 0x202F || n == 0x205F || n == 0x3000
}

/// The characters of a text.
fn chars_of(text: &str) -> (chars: Vec<char>)
    ensures
        chars@ == text@,
{
    let mut chars: Vec<char> = Vec::new();
    for c in it: text.chars()
        invariant
            it.seq() == text@,
            chars@ == text@.take(it.index()),
    {
        proof {
            assert(text@.take(it.index()).push(c) =~= text@.take(it.index() + 1));
        }
        chars.push(c);
    }
    proof {
        assert(text@.take(text@.len() as int) =~= text@);
    }
    chars
}

/// Where the line begins and ends once the white space at its ends is left
/// out.
fn trim_bounds(chars: &Vec<char>) -> (bounds: (usize, usize))
    ensures
        bounds.0 <= bounds.1 <= chars.len(),
        chars@.subrange(bounds.0 as int, bounds.1 as int) == trimmed(chars@),
{
    let mut from: usize = 0;
    proof {
        assert(chars@.subrange(0, chars.len() as int) =~= chars@);
    }
    while from < chars.len() && is_whitespace(chars[from])
        invariant
            from <= chars.len(),
            trimmed(chars@) == trimmed(chars@.subrange(from as int, chars.len() as int)),
        decreases chars.len() - from,
    {
        proof {
            let part = chars@.subrange(from as int, chars.len() as int);
            assert(part.skip(1) =~= chars@.subrange(from + 1, chars.len() as int));
        }
        from += 1;
    }
    let mut to: usize = chars.len();
    while to > from && is_whitespace(chars[to - 1])
        invariant
            from <= to <= chars.len(),
            from < chars.len() ==> !is_space(chars@[from as int]),
            trimmed(chars@) == trimmed(chars@.subrange(from as int, to as int)),
        decreases to - from,
    {
        proof {
            let part = chars@.subrange(from as int, to as int);
            assert(part[0] == chars@[from as int]);
            assert(part.last() == chars@[to - 1]);
            assert(part.drop_last() =~= chars@.subrange(from as int, to - 1));
        }
        to -= 1;
    }
    proof {
        let part = chars@.subrange(from as int, to as int);
        if to > from {
            assert(part[0] == chars@[from as int]);
            assert(part.last() == chars@[to - 1]);
        }
    }
    (from, to)
}

/// Reads the characters from `from` up to `to` as a number.
fn parse_byte(chars: &Vec<char>, from: usize, to: usize) -> (value: Option<u8>)
    requires
        from <= to <= chars.len(),
    ensures
        value == byte_of(chars@.subrange(from as int, to as int)),
{
    let ghost text = chars@.subrange(from as int, to as int);
    let mut start: usize = from;
    if from < to && chars[from] == '+' {
        start = from + 1;
    }
    let ghost digits = chars@.subrange(start as int, to as int);
    proof {
        if start == from {
            assert(from < to ==> text[0] == chars@[from as int]);
            assert(digits =~= text);
        } else {
            assert(text[0] == chars@[from as int]);
            assert(digits =~= text.skip(1));
        }
    }
    if start == to {
        return None;
    }
    let mut n: u16 = 0;
    let mut at: usize = start;
    proof {
        assert(digits.take(0) =~= Seq::<char>::empty());
    }
    while at < to
        invariant
            from <= start <= at <= to <= chars.len(),
            text == chars@.subrange(from as int, to as int),
            digits == chars@.subrange(start as int, to as int),
            digits == unsigned(text),
            n <= 255,
            n == decimal_value(digits.take(at - start)),
            forall|i: int| 0 <= i < at - start ==> is_digit(#[trigger] digits[i]),
        decreases to - at,
    {
        let c = chars[at];
        let code = c as u32;
        assert(digits[at - start] == c);
        if code < 0x30 || code > 0x39 {
            return None;
        }
        proof {
            assert(digits.take(at - start + 1).drop_last() =~= digits.take(at - start));
            assert(digits.take(at - start + 1).last() == c);
        }
        n = n * 10 + (code - 0x30) as u16;
        if n > 255 {
            proof {
                lemma_decimal_value_grows(digits, at - start + 1);
            }
            return None;
        }
        at += 1;
    }
    proof {
        assert(digits.take(to - start) =~= digits);
    }
    Some(n as u8)
}

/// Decodes a line of input into the byte it stands for.
///
/// Fails with [`Error::InputParseError`] exactly where the line is empty
/// but for white space.
pub fn decode_input(line: &str) -> (result: Result<u8, Error>)
    ensures
        result == match decode(line@) {
            Some(value) => Ok::<u8, Error>(value),
            None => Err(Error::InputParseError),
        },
{
    let chars = chars_of(line);
    let (from, to) = trim_bounds(&chars);
    let ghost text = chars@.subrange(from as int, to as int);
    match parse_byte(&chars, from, to) {
        Some(value) => Ok(value),
        None => {
            if from < to {
                assert(text[0] == chars@[from as int]);
                Ok((chars[from] as u32 % 256) as u8)
            } else {
                Err(Error::InputParseError)
            }
        },
    }
}

} // verus!
