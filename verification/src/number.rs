//! Numbers written in digits.

use vstd::prelude::*;
use crate::text::to_chars;

verus! {

/// Whether `c` is a digit of the given radix (at most ten).
pub open spec fn is_digit(c: char, radix: nat) -> bool {
    '0' <= c && (c as int) - ('0' as int) < radix
}

/// The number that a run of digits denotes, most significant digit first.
pub open spec fn digits_value(digits: Seq<char>, radix: nat) -> nat
    decreases digits.len(),
{
    if digits.len() == 0 {
        0
    } else {
        (digits_value(digits.drop_last(), radix) * radix + (digits.last() as int - '0' as int))
            as nat
    }
}

/// The digits of a number text: the text itself, without one `+` in front
/// where it has one.
pub open spec fn unsigned_part(text: Seq<char>) -> Seq<char> {
    if text.len() > 0 && text[0] == '+' {
        text.subrange(1, text.len() as int)
    } else {
        text
    }
}

/// Whether `text` is a number of the given radix that does not exceed `max`:
/// at least one digit, digits only, an optional `+` in front.
pub open spec fn is_number(text: Seq<char>, radix: nat, max: nat) -> bool {
    let digits = unsigned_part(text);
    &&& digits.len() > 0
    &&& forall|i: int| 0 <= i < digits.len() ==> is_digit(#[trigger] digits[i], radix)
    &&& digits_value(digits, radix) <= max
}

/// The number that `text` denotes, where it denotes one.
pub open spec fn parsed_number(text: Seq<char>, radix: nat, max: nat) -> Option<nat> {
    if is_number(text, radix, max) {
        Some(digits_value(unsigned_part(text), radix))
    } else {
        None
    }
}

/// The radix of octal or of decimal numbers.
pub open spec fn radix_of(octal: bool) -> nat {
    if octal {
        8
    } else {
        10
    }
}

/// Reads a number, octal or decimal, that does not exceed `max`.
pub(crate) fn parse_number(text: &str, octal: bool, max: u64) -> (number: Option<u64>)
    ensures
        match number {
            Some(value) => parsed_number(text@, radix_of(octal), max as nat) == Some(value as nat),
            None => parsed_number(text@, radix_of(octal), max as nat) is None,
        },
{
    let chars = to_chars(text);
    let start: usize = if chars.len() > 0 && chars[0] == '+' { 1 } else { 0 };
    if start == chars.len() {
        return None;
    }
    let top: char = if octal { '7' } else { '9' };
    let ghost radix = radix_of(octal);
    let ghost digits = unsigned_part(text@);
    let mut value: u64 = 0;
    let mut fits = true;
    let mut i: usize = start;
    while i < chars.len()
        invariant
            start <= i <= chars.len(),
            chars@ == text@,
            radix == radix_of(octal),
            top == if octal { '7' } else { '9' },
            digits == unsigned_part(text@),
            digits == chars@.subrange(start as int, chars.len() as int),
            forall|j: int| 0 <= j < i - start ==> is_digit(#[trigger] digits[j], radix),
            fits ==> value == digits_value(digits.take(i - start), radix) && value <= max,
            !fits ==> digits_value(digits.take(i - start), radix) > max,
        decreases chars.len() - i,
    {
        let c = chars[i];
        if !('0' <= c && c <= top) {
            assert(digits[i - start] == c);
            return None;
        }
        let digit: u64 = (c as u32 - '0' as u32) as u64;
        proof {
            let next = digits.take(i + 1 - start);
            assert(next.drop_last() == digits.take(i - start));
        }
        if fits {
            if digit > max {
                fits = false;
            } else if octal && value <= (max - digit) / 8 {
                value = value * 8 + digit;
            } else if !octal && value <= (max - digit) / 10 {
                value = value * 10 + digit;
            } else {
                fits = false;
            }
        }
        i += 1;
    }
    assert(digits.take(chars.len() - start) == digits);
    if fits {
        Some(value)
    } else {
        None
    }
}

} // verus!
