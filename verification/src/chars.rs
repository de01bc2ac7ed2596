//! Character classes that the scanner dispatches on.

use vstd::prelude::*;

verus! {

/// The four characters that separate tokens without producing one.
pub open spec fn is_whitespace(c: char) -> bool {
    c == ' ' || c == '\n' || c == '\t' || c == '\r'
}

/// The ten decimal digits.
pub open spec fn is_digit(c: char) -> bool {
    '0' <= c && c <= '9'
}

/// The characters that may continue a number run.
pub open spec fn is_number_char(c: char) -> bool {
    is_digit(c) || c == '.' || c == 'e' || c == 'E' || c == '+' || c == '-'
}

/// The letters `a` to `z` and `A` to `Z`.
pub open spec fn is_ascii_letter(c: char) -> bool {
    ('a' <= c && c <= 'z') || ('A' <= c && c <= 'Z')
}

/// What the Unicode tables say of a character: whether it has the
/// `Alphabetic` property.
pub uninterp spec fn unicode_alphabetic(c: char) -> bool;

/// The characters that make up words. Among the first 128 characters these
/// are the letters; beyond them the Unicode tables decide.
pub open spec fn alphabetic(c: char) -> bool {
    if c <= '\x7f' {
        is_ascii_letter(c)
    } else {
        unicode_alphabetic(c)
    }
}

/// What a backslash followed by `c` stands for inside a string literal.
pub open spec fn unescape(c: char) -> char {
    if c == 'n' {
        '\n'
    } else if c == 't' {
        '\t'
    } else if c == 'r' {
        '\r'
    } else {
        c
    }
}

pub fn whitespace(c: char) -> (r: bool)
    ensures
        r == is_whitespace(c),
{
    c == ' ' || c == '\n' || c == '\t' || c == '\r'
}

pub fn digit(c: char) -> (r: bool)
    ensures
        r == is_digit(c),
{
    '0' <= c && c <= '9'
}

pub fn number_char(c: char) -> (r: bool)
    ensures
        r == is_number_char(c),
{
    digit(c) || c == '.' || c == 'e' || c == 'E' || c == '+' || c == '-'
}

/// Calls `char::is_alphabetic`. The Unicode tables behind it are not spelled
/// out here: the contract only gives the answer its name,
/// [`unicode_alphabetic`].
#[verifier::external_body]
fn in_unicode_alphabetic(c: char) -> (r: bool)
    ensures
        r == unicode_alphabetic(c),
{
    c.is_alphabetic()
}

/// Decides whether a character is alphabetic: by its range among the first
/// 128 characters, by the Unicode tables beyond them.
pub fn is_alphabetic(c: char) -> (r: bool)
    ensures
        r == alphabetic(c),
{
    if c <= '\x7f' {
        ('a' <= c && c <= 'z') || ('A' <= c && c <= 'Z')
    } else {
        in_unicode_alphabetic(c)
    }
}

pub fn decode_escape(c: char) -> (r: char)
    ensures
        r == unescape(c),
{
    if c == 'n' {
        '\n'
    } else if c == 't' {
        '\t'
    } else if c == 'r' {
        '\r'
    } else {
        c
    }
}

} // verus!
