//! From text to value in one call: scan, then parse.

use vstd::prelude::*;
use crate::lexer::{lex, tokenize};
use crate::parser::{document_at, ParseError, ParseErrorView, Parser};
use crate::token::LexError;
use crate::value::{value_wf, JsonValue, ValueView};

verus! {

/// The error of either stage, tagged by the stage.
#[derive(Debug, Clone, PartialEq)]
pub enum Error {
    Lex(LexError),
    Parse(ParseError),
}

/// The model of an [`Error`].
pub enum ErrorView {
    Lex(LexError),
    Parse(ParseErrorView),
}

impl View for Error {
    type V = ErrorView;

    open spec fn view(&self) -> ErrorView {
        match self {
            Error::Lex(e) => ErrorView::Lex(*e),
            Error::Parse(e) => ErrorView::Parse(e@),
        }
    }
}

/// The value that a text denotes: its tokens must scan, and must make up
/// exactly one value.
pub open spec fn parse_text(s: Seq<char>) -> Result<ValueView, ErrorView> {
    match lex(s) {
        Err(e) => Err(ErrorView::Lex(e)),
        Ok(ts) => match document_at(ts, 0).result {
            Ok(v) => Ok(v),
            Err(e) => Err(ErrorView::Parse(e)),
        },
    }
}

/// Parses a JSON text.
///
/// The result is exactly [`parse_text`] of the text, and a value that comes
/// back is well formed.
pub fn parse_json_str(input: &str) -> (r: Result<JsonValue, Error>)
    ensures
        match parse_text(input@) {
            Ok(v) => r matches Ok(x) && x@ == v && value_wf(x),
            Err(e) => r matches Err(x) && x@ == e,
        },
{
    match tokenize(input) {
        Err(e) => Err(Error::Lex(e)),
        Ok(tokens) => {
            let mut parser = Parser::new(tokens);
            match parser.parse_json() {
                Ok(value) => Ok(value),
                Err(e) => Err(Error::Parse(e)),
            }
        },
    }
}

} // verus!
