//! The parser: recursive descent over a token sequence with a cursor that
//! only moves forward.

use vstd::prelude::*;
use crate::number::{is_number_text, valid_number};
use crate::token::{tokens_view, Token, TokenView};
use crate::value::{
    entries_view, entries_wf, insert_member, items_view, lemma_items_push, value_wf, JsonValue,
    ValueView,
};

verus! {

/// Why parsing stopped.
#[derive(Debug, Clone, PartialEq)]
pub enum ParseError {
    /// A token was needed where the sequence had ended.
    UnexpectedEndOfTokens,
    /// A token stood where another kind was needed.
    UnexpectedToken(Token),
    /// Number text that denotes no double.
    InvalidNumber(String),
}

/// The model of a [`ParseError`].
pub enum ParseErrorView {
    UnexpectedEndOfTokens,
    UnexpectedToken(TokenView),
    InvalidNumber(Seq<char>),
}

impl View for ParseError {
    type V = ParseErrorView;

    open spec fn view(&self) -> ParseErrorView {
        match self {
            ParseError::UnexpectedEndOfTokens => ParseErrorView::UnexpectedEndOfTokens,
            ParseError::UnexpectedToken(t) => ParseErrorView::UnexpectedToken(t@),
            ParseError::InvalidNumber(s) => ParseErrorView::InvalidNumber(s@),
        }
    }
}

/// What a parsing step comes to: the value or the error, and where the
/// cursor then stands. After an error it stands on the token that caused
/// it, or at the end of the sequence.
pub ghost struct Outcome {
    pub result: Result<ValueView, ParseErrorView>,
    pub cursor: int,
}

pub open spec fn success(v: ValueView, cursor: int) -> Outcome {
    Outcome { result: Ok(v), cursor }
}

pub open spec fn failure(e: ParseErrorView, cursor: int) -> Outcome {
    Outcome { result: Err(e), cursor }
}

/// The value that starts at token `pos`.
pub open spec fn value_at(ts: Seq<TokenView>, pos: int) -> Outcome
    decreases ts.len() - pos, 0nat,
{
    if pos < 0 || pos >= ts.len() {
        failure(ParseErrorView::UnexpectedEndOfTokens, pos)
    } else {
        match ts[pos] {
            TokenView::LBrace => if pos + 1 < ts.len() && ts[pos + 1] == TokenView::RBrace {
                success(ValueView::Object(Map::empty()), pos + 2)
            } else {
                members_at(ts, pos + 1, Map::empty())
            },
            TokenView::LBracket => if pos + 1 < ts.len() && ts[pos + 1] == TokenView::RBracket {
                success(ValueView::Array(Seq::empty()), pos + 2)
            } else {
                elements_at(ts, pos + 1, Seq::empty())
            },
            TokenView::String(s) => success(ValueView::String(s), pos + 1),
            TokenView::Number(n) => if is_number_text(n) {
                success(ValueView::Number(n), pos + 1)
            } else {
                failure(ParseErrorView::InvalidNumber(n), pos)
            },
            TokenView::True => success(ValueView::Bool(true), pos + 1),
            TokenView::False => success(ValueView::Bool(false), pos + 1),
            TokenView::Null => success(ValueView::Null, pos + 1),
            other => failure(ParseErrorView::UnexpectedToken(other), pos),
        }
    }
}

/// The array whose earlier elements are `before` and whose next element
/// starts at token `pos`.
///
/// The test `pos <= next` shows that the definition terminates; it always
/// holds, by [`lemma_value_cursor`].
pub open spec fn elements_at(ts: Seq<TokenView>, pos: int, before: Seq<ValueView>) -> Outcome
    decreases ts.len() - pos, 1nat,
{
    let element = value_at(ts, pos);
    let next = element.cursor;
    match element.result {
        Err(_) => element,
        Ok(v) => if next < 0 || next >= ts.len() {
            failure(ParseErrorView::UnexpectedEndOfTokens, next)
        } else {
            match ts[next] {
                TokenView::Comma if pos <= next => elements_at(ts, next + 1, before.push(v)),
                TokenView::RBracket => success(ValueView::Array(before.push(v)), next + 1),
                other => failure(ParseErrorView::UnexpectedToken(other), next),
            }
        },
    }
}

/// The object whose earlier members are `before` and whose next key stands
/// at token `pos`.
///
/// The test `pos <= next` shows that the definition terminates; it always
/// holds, by [`lemma_value_cursor`].
pub open spec fn members_at(ts: Seq<TokenView>, pos: int, before: Map<Seq<char>, ValueView>)
    -> Outcome
    decreases ts.len() - pos, 1nat,
{
    if pos < 0 || pos >= ts.len() {
        failure(ParseErrorView::UnexpectedEndOfTokens, pos)
    } else if !(ts[pos] is String) {
        failure(ParseErrorView::UnexpectedToken(ts[pos]), pos)
    } else if pos + 1 >= ts.len() {
        failure(ParseErrorView::UnexpectedEndOfTokens, pos + 1)
    } else if ts[pos + 1] != TokenView::Colon {
        failure(ParseErrorView::UnexpectedToken(ts[pos + 1]), pos + 1)
    } else {
        let key = ts[pos]->String_0;
        let member = value_at(ts, pos + 2);
        let next = member.cursor;
        match member.result {
            Err(_) => member,
            Ok(v) => if next < 0 || next >= ts.len() {
                failure(ParseErrorView::UnexpectedEndOfTokens, next)
            } else {
                match ts[next] {
                    TokenView::Comma if pos <= next => members_at(
                        ts,
                        next + 1,
                        before.insert(key, v),
                    ),
                    TokenView::RBrace => success(
                        ValueView::Object(before.insert(key, v)),
                        next + 1,
                    ),
                    other => failure(ParseErrorView::UnexpectedToken(other), next),
                }
            },
        }
    }
}

/// The one value that the tokens from `pos` on make up: a value that is
/// followed by a further token is an error at that token.
pub open spec fn document_at(ts: Seq<TokenView>, pos: int) -> Outcome {
    let top = value_at(ts, pos);
    if top.result is Ok && 0 <= top.cursor < ts.len() {
        failure(ParseErrorView::UnexpectedToken(ts[top.cursor]), top.cursor)
    } else {
        top
    }
}

/// The cursor only moves forward and never leaves the sequence: a value
/// takes at least one token, and an error leaves the cursor on or behind
/// the token where parsing started.
pub proof fn lemma_value_cursor(ts: Seq<TokenView>, pos: int)
    requires
        0 <= pos <= ts.len(),
    ensures
        pos <= value_at(ts, pos).cursor <= ts.len(),
        value_at(ts, pos).result is Ok ==> pos < value_at(ts, pos).cursor,
    decreases ts.len() - pos, 0nat,
{
    if pos < ts.len() {
        match ts[pos] {
            TokenView::LBrace => {
                lemma_members_cursor(ts, pos + 1, Map::empty());
            },
            TokenView::LBracket => {
                lemma_elements_cursor(ts, pos + 1, Seq::empty());
            },
            _ => {},
        }
    }
}

/// As [`lemma_value_cursor`], for the elements of an array.
pub proof fn lemma_elements_cursor(ts: Seq<TokenView>, pos: int, before: Seq<ValueView>)
    requires
        0 <= pos <= ts.len(),
    ensures
        pos <= elements_at(ts, pos, before).cursor <= ts.len(),
        elements_at(ts, pos, before).result is Ok ==> pos < elements_at(ts, pos, before).cursor,
    decreases ts.len() - pos, 1nat,
{
    lemma_value_cursor(ts, pos);
    let element = value_at(ts, pos);
    let next = element.cursor;
    if let Ok(v) = element.result {
        if next < ts.len() && ts[next] == TokenView::Comma {
            lemma_elements_cursor(ts, next + 1, before.push(v));
        }
    }
}

/// As [`lemma_value_cursor`], for the members of an object.
pub proof fn lemma_members_cursor(ts: Seq<TokenView>, pos: int, before: Map<Seq<char>, ValueView>)
    requires
        0 <= pos <= ts.len(),
    ensures
        pos <= members_at(ts, pos, before).cursor <= ts.len(),
        members_at(ts, pos, before).result is Ok ==> pos < members_at(ts, pos, before).cursor,
    decreases ts.len() - pos, 1nat,
{
    if pos + 1 < ts.len() && ts[pos] is String && ts[pos + 1] == TokenView::Colon {
        lemma_value_cursor(ts, pos + 2);
        let member = value_at(ts, pos + 2);
        let next = member.cursor;
        if let Ok(v) = member.result {
            if next < ts.len() && ts[next] == TokenView::Comma {
                lemma_members_cursor(ts, next + 1, before.insert(ts[pos]->String_0, v));
            }
        }
    }
}

/// An executable result stands for an outcome: the value's view is the
/// outcome's value and the value is well formed, or the error's view is the
/// outcome's error.
pub open spec fn agrees(r: Result<JsonValue, ParseError>, o: Outcome) -> bool {
    match o.result {
        Ok(v) => r matches Ok(x) && x@ == v && value_wf(x),
        Err(e) => r matches Err(x) && x@ == e,
    }
}

/// A token sequence with a cursor into it.
pub struct Parser {
    tokens: Vec<Token>,
    position: usize,
}

impl Parser {
    /// The tokens that the parser reads.
    pub closed spec fn tokens(&self) -> Seq<TokenView> {
        tokens_view(self.tokens@)
    }

    /// The index of the token that is read next.
    pub closed spec fn cursor(&self) -> int {
        self.position as int
    }

    /// The cursor stands on a token or just behind the last one.
    pub closed spec fn wf(&self) -> bool {
        self.position <= self.tokens.len()
    }

    /// A parser that stands on the first token.
    pub fn new(tokens: Vec<Token>) -> (r: Parser)
        ensures
            r.wf(),
            r.tokens() == tokens_view(tokens@),
            r.cursor() == 0,
    {
        Parser { tokens, position: 0 }
    }

    /// The token under the cursor, if the sequence has not ended.
    fn current_token(&self) -> (r: Option<&Token>)
        ensures
            match r {
                Some(t) => self.position < self.tokens.len() && *t == self.tokens@[self.cursor()]
                    && t@ == self.tokens()[self.cursor()],
                None => self.position >= self.tokens.len(),
            },
    {
        if self.position < self.tokens.len() {
            Some(&self.tokens[self.position])
        } else {
            None
        }
    }

    /// Moves the cursor over one token.
    fn advance(&mut self)
        requires
            old(self).position < old(self).tokens.len(),
        ensures
            final(self).tokens == old(self).tokens,
            final(self).position == old(self).position + 1,
    {
        self.position += 1;
    }

    /// Parses the tokens from the cursor on as one whole document.
    ///
    /// The result and the cursor afterwards are those of [`document_at`]:
    /// the value that starts under the cursor where it reaches to the end of
    /// the sequence, an error at the first token behind it where it does
    /// not, and else the error met inside it.
    pub fn parse_json(&mut self) -> (r: Result<JsonValue, ParseError>)
        requires
            old(self).wf(),
        ensures
            final(self).wf(),
            final(self).tokens() == old(self).tokens(),
            final(self).cursor() == document_at(old(self).tokens(), old(self).cursor()).cursor,
            agrees(r, document_at(old(self).tokens(), old(self).cursor())),
    {
        match self.parse_value() {
            Err(e) => Err(e),
            Ok(value) => {
                if self.position < self.tokens.len() {
                    Err(ParseError::UnexpectedToken(self.tokens[self.position].clone()))
                } else {
                    Ok(value)
                }
            },
        }
    }

    fn parse_value(&mut self) -> (r: Result<JsonValue, ParseError>)
        requires
            old(self).wf(),
        ensures
            final(self).wf(),
            final(self).tokens == old(self).tokens,
            old(self).position <= final(self).position,
            final(self).position == value_at(old(self).tokens(), old(self).cursor()).cursor,
            agrees(r, value_at(old(self).tokens(), old(self).cursor())),
        decreases old(self).tokens.len() - old(self).position, 1nat,
    {
        if self.position >= self.tokens.len() {
            return Err(ParseError::UnexpectedEndOfTokens);
        }
        match &self.tokens[self.position] {
            Token::LBrace => self.parse_object(),
            Token::LBracket => self.parse_array(),
            Token::String(s) => {
                let result = JsonValue::String(s.clone());
                self.advance();
                Ok(result)
            },
            Token::Number(text) => {
                if valid_number(text.as_str()) {
                    let result = JsonValue::Number(text.clone());
                    self.advance();
                    Ok(result)
                } else {
                    Err(ParseError::InvalidNumber(text.clone()))
                }
            },
            Token::True => {
                self.advance();
                Ok(JsonValue::Bool(true))
            },
            Token::False => {
                self.advance();
                Ok(JsonValue::Bool(false))
            },
            Token::Null => {
                self.advance();
                Ok(JsonValue::Null)
            },
            other => Err(ParseError::UnexpectedToken(other.clone())),
        }
    }

    fn parse_object(&mut self) -> (r: Result<JsonValue, ParseError>)
        requires
            old(self).wf(),
            old(self).position < old(self).tokens.len(),
            old(self).tokens@[old(self).position as int] is LBrace,
        ensures
            final(self).wf(),
            final(self).tokens == old(self).tokens,
            old(self).position <= final(self).position,
            final(self).position == value_at(old(self).tokens(), old(self).cursor()).cursor,
            agrees(r, value_at(old(self).tokens(), old(self).cursor())),
        decreases old(self).tokens.len() - old(self).position, 0nat,
    {
        let ghost ts = self.tokens();
        let ghost start = self.cursor();
        let ghost given = self.tokens;
        self.advance();
        let mut entries: Vec<(String, JsonValue)> = Vec::new();
        match self.current_token() {
            Some(Token::RBrace) => {
                self.advance();
                return Ok(JsonValue::Object(entries));
            },
            _ => {},
        }
        loop
            invariant
                self.wf(),
                self.tokens == given,
                ts == tokens_view(given@),
                0 <= start < self.position,
                entries_wf(entries@),
                value_at(ts, start) == members_at(
                    ts,
                    self.position as int,
                    entries_view(entries@),
                ),
                given == old(self).tokens,
                start == old(self).position,
            decreases self.tokens.len() - self.position,
        {
            let key = match self.current_token() {
                Some(Token::String(s)) => s.clone(),
                Some(other) => {
                    return Err(ParseError::UnexpectedToken(other.clone()));
                },
                None => {
                    return Err(ParseError::UnexpectedEndOfTokens);
                },
            };
            self.advance();
            match self.current_token() {
                Some(Token::Colon) => {
                    self.advance();
                },
                Some(other) => {
                    return Err(ParseError::UnexpectedToken(other.clone()));
                },
                None => {
                    return Err(ParseError::UnexpectedEndOfTokens);
                },
            }
            match self.parse_value() {
                Err(e) => {
                    return Err(e);
                },
                Ok(value) => {
                    insert_member(&mut entries, key, value);
                    match self.current_token() {
                        Some(Token::Comma) => {
                            self.advance();
                        },
                        Some(Token::RBrace) => {
                            self.advance();
                            return Ok(JsonValue::Object(entries));
                        },
                        Some(other) => {
                            return Err(ParseError::UnexpectedToken(other.clone()));
                        },
                        None => {
                            return Err(ParseError::UnexpectedEndOfTokens);
                        },
                    }
                },
            }
        }
    }

    fn parse_array(&mut self) -> (r: Result<JsonValue, ParseError>)
        requires
            old(self).wf(),
            old(self).position < old(self).tokens.len(),
            old(self).tokens@[old(self).position as int] is LBracket,
        ensures
            final(self).wf(),
            final(self).tokens == old(self).tokens,
            old(self).position <= final(self).position,
            final(self).position == value_at(old(self).tokens(), old(self).cursor()).cursor,
            agrees(r, value_at(old(self).tokens(), old(self).cursor())),
        decreases old(self).tokens.len() - old(self).position, 0nat,
    {
        let ghost ts = self.tokens();
        let ghost start = self.cursor();
        let ghost given = self.tokens;
        self.advance();
        let mut items: Vec<JsonValue> = Vec::new();
        match self.current_token() {
            Some(Token::RBracket) => {
                self.advance();
                return Ok(JsonValue::Array(items));
            },
            _ => {},
        }
        loop
            invariant
                self.wf(),
                self.tokens == given,
                ts == tokens_view(given@),
                0 <= start < self.position,
                forall|i: int| 0 <= i < items@.len() ==> value_wf(#[trigger] items@[i]),
                value_at(ts, start) == elements_at(ts, self.position as int, items_view(items@)),
                given == old(self).tokens,
                start == old(self).position,
            decreases self.tokens.len() - self.position,
        {
            match self.parse_value() {
                Err(e) => {
                    return Err(e);
                },
                Ok(value) => {
                    proof {
                        lemma_items_push(items@, value);
                    }
                    items.push(value);
                    match self.current_token() {
                        Some(Token::Comma) => {
                            self.advance();
                        },
                        Some(Token::RBracket) => {
                            self.advance();
                            return Ok(JsonValue::Array(items));
                        },
                        Some(other) => {
                            return Err(ParseError::UnexpectedToken(other.clone()));
                        },
                        None => {
                            return Err(ParseError::UnexpectedEndOfTokens);
                        },
                    }
                },
            }
        }
    }
}

} // verus!
