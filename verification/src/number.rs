//! The grammar of number text.
//!
//! The scanner takes any run of digits, points, signs and exponent letters
//! for a number. Whether such a run denotes a double is decided here, by the
//! grammar of decimal floating-point literals:
//!
//! ```text
//! Float  ::= Sign? ( 'inf' | 'infinity' | 'nan' | Number )
//! Number ::= ( Digit+ | Digit+ '.' Digit* | Digit* '.' Digit+ ) Exp?
//! Exp    ::= ('e' | 'E') Sign? Digit+
//! Sign   ::= '+' | '-'
//! ```
//!
//! with the three words read without regard to case. Turning accepted text
//! into a double is left to the caller.

use vstd::prelude::*;
use crate::chars::{digit, is_digit};
use crate::lexer::to_chars;

verus! {

/// How many digits stand in a row from index `i` on.
pub open spec fn digit_run(s: Seq<char>, i: int) -> nat
    decreases s.len() - i,
{
    if 0 <= i < s.len() && is_digit(s[i]) {
        1 + digit_run(s, i + 1)
    } else {
        0
    }
}

pub open spec fn is_sign(c: char) -> bool {
    c == '+' || c == '-'
}

/// 1 where a sign stands at index `i`, else 0.
pub open spec fn sign_len(s: Seq<char>, i: int) -> int {
    if 0 <= i < s.len() && is_sign(s[i]) {
        1
    } else {
        0
    }
}

/// 1 where a decimal point stands at index `i`, else 0.
pub open spec fn point_len(s: Seq<char>, i: int) -> int {
    if 0 <= i < s.len() && s[i] == '.' {
        1
    } else {
        0
    }
}

/// An exponent letter, an optional sign and at least one digit fill `s` from
/// index `i` to its end.
pub open spec fn is_exponent(s: Seq<char>, i: int) -> bool {
    let digits_from = i + 1 + sign_len(s, i + 1);
    &&& 0 <= i < s.len()
    &&& (s[i] == 'e' || s[i] == 'E')
    &&& digit_run(s, digits_from) > 0
    &&& digits_from + digit_run(s, digits_from) == s.len()
}

/// Digits with at most one point and at least one digit, then an optional
/// exponent, fill `s` from index `start` to its end.
pub open spec fn is_decimal(s: Seq<char>, start: int) -> bool {
    let whole = digit_run(s, start);
    let frac_from = start + whole + point_len(s, start + whole);
    let frac = digit_run(s, frac_from);
    let rest = frac_from + frac;
    &&& whole + frac > 0
    &&& (rest == s.len() || is_exponent(s, rest))
}

/// `c` is the letter `lower` in either case.
pub open spec fn is_letter(c: char, lower: char, upper: char) -> bool {
    c == lower || c == upper
}

/// One of the words `inf`, `nan`, `infinity`, in any mix of cases, fills `s`
/// from index `start` to its end.
pub open spec fn is_special(s: Seq<char>, start: int) -> bool {
    let n = s.len() - start;
    ||| (n == 3 && is_letter(s[start], 'i', 'I') && is_letter(s[start + 1], 'n', 'N') && is_letter(
        s[start + 2],
        'f',
        'F',
    ))
    ||| (n == 3 && is_letter(s[start], 'n', 'N') && is_letter(s[start + 1], 'a', 'A') && is_letter(
        s[start + 2],
        'n',
        'N',
    ))
    ||| (n == 8 && is_letter(s[start], 'i', 'I') && is_letter(s[start + 1], 'n', 'N') && is_letter(
        s[start + 2],
        'f',
        'F',
    ) && is_letter(s[start + 3], 'i', 'I') && is_letter(s[start + 4], 'n', 'N') && is_letter(
        s[start + 5],
        'i',
        'I',
    ) && is_letter(s[start + 6], 't', 'T') && is_letter(s[start + 7], 'y', 'Y'))
}

/// The text denotes a double.
pub open spec fn is_number_text(s: Seq<char>) -> bool {
    let start = sign_len(s, 0);
    is_decimal(s, start) || is_special(s, start)
}

fn letter(c: char, lower: char, upper: char) -> (r: bool)
    ensures
        r == is_letter(c, lower, upper),
{
    c == lower || c == upper
}

/// The index just behind the run of digits that starts at `i`.
fn skip_digits(chars: &Vec<char>, i: usize) -> (end: usize)
    requires
        i <= chars.len(),
    ensures
        end == i + digit_run(chars@, i as int),
        end <= chars.len(),
{
    let mut k: usize = i;
    while k < chars.len() && digit(chars[k])
        invariant
            i <= k <= chars.len(),
            k + digit_run(chars@, k as int) == i + digit_run(chars@, i as int),
        decreases chars.len() - k,
    {
        k += 1;
    }
    k
}

fn special_from(chars: &Vec<char>, start: usize) -> (r: bool)
    requires
        start <= chars.len(),
    ensures
        r == is_special(chars@, start as int),
{
    let n = chars.len() - start;
    if n == 3 {
        (letter(chars[start], 'i', 'I') && letter(chars[start + 1], 'n', 'N') && letter(
            chars[start + 2],
            'f',
            'F',
        )) || (letter(chars[start], 'n', 'N') && letter(chars[start + 1], 'a', 'A') && letter(
            chars[start + 2],
            'n',
            'N',
        ))
    } else if n == 8 {
        letter(chars[start], 'i', 'I') && letter(chars[start + 1], 'n', 'N') && letter(
            chars[start + 2],
            'f',
            'F',
        ) && letter(chars[start + 3], 'i', 'I') && letter(chars[start + 4], 'n', 'N') && letter(
            chars[start + 5],
            'i',
            'I',
        ) && letter(chars[start + 6], 't', 'T') && letter(chars[start + 7], 'y', 'Y')
    } else {
        false
    }
}

fn exponent_from(chars: &Vec<char>, i: usize) -> (r: bool)
    requires
        i < chars.len(),
    ensures
        r == is_exponent(chars@, i as int),
{
    if chars[i] != 'e' && chars[i] != 'E' {
        return false;
    }
    let mut from: usize = i + 1;
    if from < chars.len() && (chars[from] == '+' || chars[from] == '-') {
        from += 1;
    }
    let end = skip_digits(chars, from);
    end > from && end == chars.len()
}

fn decimal_from(chars: &Vec<char>, start: usize) -> (r: bool)
    requires
        start <= chars.len(),
    ensures
        r == is_decimal(chars@, start as int),
{
    let whole_end = skip_digits(chars, start);
    let mut frac_from: usize = whole_end;
    if frac_from < chars.len() && chars[frac_from] == '.' {
        frac_from += 1;
    }
    let rest = skip_digits(chars, frac_from);
    if (whole_end - start) + (rest - frac_from) == 0 {
        false
    } else if rest == chars.len() {
        true
    } else {
        exponent_from(chars, rest)
    }
}

/// Decides whether number text denotes a double.
pub fn valid_number(text: &str) -> (r: bool)
    ensures
        r == is_number_text(text@),
{
    let chars = to_chars(text);
    let mut start: usize = 0;
    if chars.len() > 0 && (chars[0] == '+' || chars[0] == '-') {
        start = 1;
    }
    decimal_from(&chars, start) || special_from(&chars, start)
}

} // verus!
