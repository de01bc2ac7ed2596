//! Tokens, their mathematical view, and the scanner's errors.

use vstd::prelude::*;

verus! {

/// A syntactic unit produced by the scanner.
#[derive(Debug, PartialEq)]
pub enum Token {
    LBrace,
    RBrace,
    LBracket,
    RBracket,
    Colon,
    Comma,
    /// A string literal with its escapes already decoded.
    String(String),
    /// The raw text of a number, not yet checked for well-formedness.
    Number(String),
    True,
    False,
    Null,
}

/// The model of a [`Token`]: text is a sequence of characters.
pub enum TokenView {
    LBrace,
    RBrace,
    LBracket,
    RBracket,
    Colon,
    Comma,
    String(Seq<char>),
    Number(Seq<char>),
    True,
    False,
    Null,
}

impl View for Token {
    type V = TokenView;

    open spec fn view(&self) -> TokenView {
        match self {
            Token::LBrace => TokenView::LBrace,
            Token::RBrace => TokenView::RBrace,
            Token::LBracket => TokenView::LBracket,
            Token::RBracket => TokenView::RBracket,
            Token::Colon => TokenView::Colon,
            Token::Comma => TokenView::Comma,
            Token::String(s) => TokenView::String(s@),
            Token::Number(s) => TokenView::Number(s@),
            Token::True => TokenView::True,
            Token::False => TokenView::False,
            Token::Null => TokenView::Null,
        }
    }
}

impl Clone for Token {
    /// A copy with the same view.
    fn clone(&self) -> (r: Token)
        ensures
            r@ == self@,
    {
        match self {
            Token::LBrace => Token::LBrace,
            Token::RBrace => Token::RBrace,
            Token::LBracket => Token::LBracket,
            Token::RBracket => Token::RBracket,
            Token::Colon => Token::Colon,
            Token::Comma => Token::Comma,
            Token::String(s) => Token::String(s.clone()),
            Token::Number(s) => Token::Number(s.clone()),
            Token::True => Token::True,
            Token::False => Token::False,
            Token::Null => Token::Null,
        }
    }
}

/// The view of a token sequence, token by token.
pub open spec fn tokens_view(tokens: Seq<Token>) -> Seq<TokenView> {
    tokens.map_values(|t: Token| t@)
}

/// Why scanning stopped. Indices count characters, not bytes.
#[derive(Debug, Clone, Copy, PartialEq, Eq)]
pub enum LexError {
    /// A character that starts no token, or the first letter of a word that
    /// is not a keyword, with its index.
    InvalidToken(char, usize),
    /// A string literal that is never closed, with the index of its opening
    /// quote.
    UnterminatedString(usize),
}

} // verus!
