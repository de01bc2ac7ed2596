//! A two-stage JSON reader: a scanner that turns text into tokens, and a
//! recursive-descent parser that turns tokens into a value tree.
//!
//! Every executable function carries a contract over mathematical models
//! (sequences of characters, sequences of tokens, maps from keys to values).
//! A number is kept as its text, held to the grammar of decimal literals;
//! turning it into a double is the caller's part.
//!
//! Two laws are proved of the reader: whitespace between lexemes changes
//! nothing, and the canonical text of a value reads back as that value.

pub mod chars;
pub mod token;
pub mod lexer;
pub mod number;
pub mod value;
pub mod parser;
pub mod document;
pub mod message;
pub mod whitespace;
pub mod canonical;

pub use crate::document::{parse_json_str, Error};
pub use crate::lexer::tokenize;
pub use crate::parser::{ParseError, Parser};
pub use crate::token::{LexError, Token};
pub use crate::value::JsonValue;
