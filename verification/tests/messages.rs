use json_parser::{parse_json_str, Error, LexError, ParseError, Token};

#[test]
fn invalid_token_message() {
    assert_eq!(
        LexError::InvalidToken('@', 3).message(),
        "Invalid token '@' at position 3"
    );
    assert_eq!(
        LexError::InvalidToken('\u{e9}', 0).message(),
        "Invalid token '\u{e9}' at position 0"
    );
    assert_eq!(
        LexError::InvalidToken('x', 1234567890).message(),
        "Invalid token 'x' at position 1234567890"
    );
}

#[test]
fn unterminated_string_message() {
    assert_eq!(
        LexError::UnterminatedString(0).message(),
        "Unterminated string starting at position 0"
    );
    assert_eq!(
        LexError::UnterminatedString(10).message(),
        "Unterminated string starting at position 10"
    );
    assert_eq!(
        LexError::UnterminatedString(usize::MAX).message(),
        format!("Unterminated string starting at position {}", usize::MAX)
    );
}

#[test]
fn unexpected_end_message() {
    assert_eq!(
        ParseError::UnexpectedEndOfTokens.message(),
        "Unexpected end of tokens (incomplete JSON)"
    );
}

#[test]
fn unexpected_token_message() {
    assert_eq!(
        ParseError::UnexpectedToken(Token::RBrace).message(),
        "Unexpected token: RBrace"
    );
    assert_eq!(
        ParseError::UnexpectedToken(Token::String(String::from("a\"b\n"))).message(),
        "Unexpected token: String(\"a\\\"b\\n\")"
    );
    assert_eq!(
        ParseError::UnexpectedToken(Token::Number(String::from("2"))).message(),
        "Unexpected token: Number(\"2\")"
    );
}

#[test]
fn shown_token_is_its_debug_text() {
    for token in [
        Token::LBrace,
        Token::RBrace,
        Token::LBracket,
        Token::RBracket,
        Token::Colon,
        Token::Comma,
        Token::String(String::from("x \\ \" \t \u{e9} \u{7f}")),
        Token::String(String::new()),
        Token::Number(String::from("-1.5e3")),
        Token::True,
        Token::False,
        Token::Null,
    ] {
        assert_eq!(token.shown(), format!("{:?}", token));
    }
}

#[test]
fn invalid_number_message() {
    assert_eq!(
        ParseError::InvalidNumber(String::from("1-2-3")).message(),
        "Invalid number: \"1-2-3\""
    );
}

#[test]
fn message_of_either_stage() {
    assert_eq!(
        parse_json_str("[1, ?]").unwrap_err().message(),
        "Invalid token '?' at position 4"
    );
    assert_eq!(
        parse_json_str("[1 2]").unwrap_err().message(),
        "Unexpected token: Number(\"2\")"
    );
    assert_eq!(
        Error::Parse(ParseError::UnexpectedEndOfTokens).message(),
        "Unexpected end of tokens (incomplete JSON)"
    );
    assert_eq!(
        parse_json_str("--5").unwrap_err().message(),
        "Invalid number: \"--5\""
    );
}
