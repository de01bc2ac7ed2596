//! The errors in words: one line each, with the character, token or text at
//! fault and, for scan errors, the character index.

use vstd::prelude::*;
use vstd::string::StringExecFns;
use crate::document::{Error, ErrorView};
use crate::parser::{ParseError, ParseErrorView};
use crate::token::{LexError, Token, TokenView};

verus! {

/// The character of a digit from 0 to 9.
pub open spec fn digit_char(d: nat) -> char {
    ('0' as nat + d) as char
}

/// A number in decimal, without sign or leading zeros.
pub open spec fn decimal_text(n: nat) -> Seq<char>
    decreases n,
{
    if n < 10 {
        seq![digit_char(n)]
    } else {
        decimal_text(n / 10).push(digit_char(n % 10))
    }
}

/// A text as `{:?}` writes it: between double quotes, with the characters
/// that cannot stand there escaped.
pub uninterp spec fn quoted_text(s: Seq<char>) -> Seq<char>;

/// An index in decimal.
pub fn decimal(n: usize) -> (r: String)
    ensures
        r@ == decimal_text(n as nat),
    decreases n,
{
    let last: u8 = (n % 10) as u8;
    let digit: char = (48u8 + last) as char;
    if n < 10 {
        let mut r = String::new();
        r.push(digit);
        r
    } else {
        let mut r = decimal(n / 10);
        r.push(digit);
        r
    }
}

/// Formats a text with `{:?}`. The escaping rules are not spelled out here:
/// the contract only gives the result its name, [`quoted_text`].
#[verifier::external_body]
fn quoted(s: &str) -> (r: String)
    ensures
        r@ == quoted_text(s@),
{
    format!("{:?}", s)
}

/// What [`LexError::message`] says.
pub open spec fn lex_error_text(e: LexError) -> Seq<char> {
    match e {
        LexError::InvalidToken(c, pos) => "Invalid token '"@ + seq![c] + "' at position "@
            + decimal_text(pos as nat),
        LexError::UnterminatedString(pos) => "Unterminated string starting at position "@
            + decimal_text(pos as nat),
    }
}

/// A token as it is shown inside a message: the name of its kind, and for a
/// string or a number its quoted text in round brackets.
pub open spec fn token_shown(t: TokenView) -> Seq<char> {
    match t {
        TokenView::LBrace => "LBrace"@,
        TokenView::RBrace => "RBrace"@,
        TokenView::LBracket => "LBracket"@,
        TokenView::RBracket => "RBracket"@,
        TokenView::Colon => "Colon"@,
        TokenView::Comma => "Comma"@,
        TokenView::String(s) => "String("@ + quoted_text(s) + ")"@,
        TokenView::Number(s) => "Number("@ + quoted_text(s) + ")"@,
        TokenView::True => "True"@,
        TokenView::False => "False"@,
        TokenView::Null => "Null"@,
    }
}

/// What [`ParseError::message`] says.
pub open spec fn parse_error_text(e: ParseErrorView) -> Seq<char> {
    match e {
        ParseErrorView::UnexpectedEndOfTokens => "Unexpected end of tokens (incomplete JSON)"@,
        ParseErrorView::UnexpectedToken(t) => "Unexpected token: "@ + token_shown(t),
        ParseErrorView::InvalidNumber(s) => "Invalid number: "@ + quoted_text(s),
    }
}

/// What [`Error::message`] says: the message of the stage's own error.
pub open spec fn error_text(e: ErrorView) -> Seq<char> {
    match e {
        ErrorView::Lex(e) => lex_error_text(e),
        ErrorView::Parse(e) => parse_error_text(e),
    }
}

impl LexError {
    /// The error in one line.
    pub fn message(&self) -> (r: String)
        ensures
            r@ == lex_error_text(*self),
    {
        match self {
            LexError::InvalidToken(c, pos) => {
                let mut r = String::from_str("Invalid token '");
                r.push(*c);
                r.append("' at position ");
                r.append(decimal(*pos).as_str());
                proof {
                    assert("Invalid token '"@.push(*c) =~= "Invalid token '"@ + seq![*c]);
                }
                r
            },
            LexError::UnterminatedString(pos) => {
                let mut r = String::from_str("Unterminated string starting at position ");
                r.append(decimal(*pos).as_str());
                r
            },
        }
    }
}

impl Token {
    /// The token as it is shown inside a message.
    pub fn shown(&self) -> (r: String)
        ensures
            r@ == token_shown(self@),
    {
        match self {
            Token::LBrace => String::from_str("LBrace"),
            Token::RBrace => String::from_str("RBrace"),
            Token::LBracket => String::from_str("LBracket"),
            Token::RBracket => String::from_str("RBracket"),
            Token::Colon => String::from_str("Colon"),
            Token::Comma => String::from_str("Comma"),
            Token::String(s) => {
                let mut r = String::from_str("String(");
                r.append(quoted(s.as_str()).as_str());
                r.append(")");
                r
            },
            Token::Number(s) => {
                let mut r = String::from_str("Number(");
                r.append(quoted(s.as_str()).as_str());
                r.append(")");
                r
            },
            Token::True => String::from_str("True"),
            Token::False => String::from_str("False"),
            Token::Null => String::from_str("Null"),
        }
    }
}

impl ParseError {
    /// The error in one line.
    pub fn message(&self) -> (r: String)
        ensures
            r@ == parse_error_text(self@),
    {
        match self {
            ParseError::UnexpectedEndOfTokens => String::from_str(
                "Unexpected end of tokens (incomplete JSON)",
            ),
            ParseError::UnexpectedToken(t) => {
                let mut r = String::from_str("Unexpected token: ");
                r.append(t.shown().as_str());
                r
            },
            ParseError::InvalidNumber(s) => {
                let mut r = String::from_str("Invalid number: ");
                r.append(quoted(s.as_str()).as_str());
                r
            },
        }
    }
}

impl Error {
    /// The error in one line.
    pub fn message(&self) -> (r: String)
        ensures
            r@ == error_text(self@),
    {
        match self {
            Error::Lex(e) => e.message(),
            Error::Parse(e) => e.message(),
        }
    }
}

} // verus!
