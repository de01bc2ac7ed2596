use json_parser::number::valid_number;
use json_parser::{parse_json_str, Error, JsonValue, LexError, ParseError, Parser, Token};

fn text(s: &str) -> String {
    String::from(s)
}

fn member<'a>(value: &'a JsonValue, key: &str) -> Option<&'a JsonValue> {
    match value {
        JsonValue::Object(entries) => entries.iter().find(|e| e.0 == key).map(|e| &e.1),
        _ => None,
    }
}

fn members(value: &JsonValue) -> usize {
    match value {
        JsonValue::Object(entries) => entries.len(),
        _ => panic!("not an object"),
    }
}

fn items(value: &JsonValue) -> &Vec<JsonValue> {
    match value {
        JsonValue::Array(items) => items,
        _ => panic!("not an array"),
    }
}

fn number(value: &JsonValue) -> f64 {
    match value {
        JsonValue::Number(t) => t.parse::<f64>().unwrap(),
        _ => panic!("not a number"),
    }
}

fn string(value: &JsonValue) -> &str {
    match value {
        JsonValue::String(t) => t.as_str(),
        _ => panic!("not a string"),
    }
}

#[test]
fn literals() {
    assert!(matches!(parse_json_str("null"), Ok(JsonValue::Null)));
    assert!(matches!(parse_json_str("true"), Ok(JsonValue::Bool(true))));
    assert!(matches!(parse_json_str("false"), Ok(JsonValue::Bool(false))));
    assert_eq!(string(&parse_json_str("\"hi\"").unwrap()), "hi");
    assert_eq!(number(&parse_json_str("30").unwrap()), 30.0);
    assert_eq!(number(&parse_json_str("-2.5e3").unwrap()), -2500.0);
}

#[test]
fn number_keeps_its_text() {
    match parse_json_str(" 1.50 ") {
        Ok(JsonValue::Number(t)) => assert_eq!(t, "1.50"),
        _ => panic!("not a number"),
    }
}

#[test]
fn empty_containers() {
    assert_eq!(members(&parse_json_str("{}").unwrap()), 0);
    assert_eq!(items(&parse_json_str("[]").unwrap()).len(), 0);
    assert_eq!(members(&parse_json_str(" { } ").unwrap()), 0);
    assert_eq!(items(&parse_json_str(" [ ] ").unwrap()).len(), 0);
}

#[test]
fn exactly_one_top_level_value() {
    assert_eq!(
        parse_json_str("1 2").err(),
        Some(Error::Parse(ParseError::UnexpectedToken(Token::Number(text("2")))))
    );
    assert_eq!(
        parse_json_str("{} {}").err(),
        Some(Error::Parse(ParseError::UnexpectedToken(Token::LBrace)))
    );
    assert_eq!(
        parse_json_str("[1][2]").err(),
        Some(Error::Parse(ParseError::UnexpectedToken(Token::LBracket)))
    );
}

#[test]
fn duplicate_keys_last_write_wins() {
    let v = parse_json_str(r#"{"a":1,"a":2}"#).unwrap();
    assert_eq!(members(&v), 1);
    assert_eq!(number(member(&v, "a").unwrap()), 2.0);
}

#[test]
fn duplicate_key_keeps_other_members() {
    let v = parse_json_str(r#"{"a":1,"b":true,"a":null}"#).unwrap();
    assert_eq!(members(&v), 2);
    assert!(matches!(member(&v, "a"), Some(JsonValue::Null)));
    assert!(matches!(member(&v, "b"), Some(JsonValue::Bool(true))));
}

#[test]
fn unterminated_string_is_a_lex_error() {
    assert_eq!(
        parse_json_str("\"abc").err(),
        Some(Error::Lex(LexError::UnterminatedString(0)))
    );
}

#[test]
fn invalid_identifier_is_a_lex_error() {
    assert_eq!(
        parse_json_str("truee").err(),
        Some(Error::Lex(LexError::InvalidToken('t', 0)))
    );
}

#[test]
fn malformed_number_fails_at_parse() {
    assert_eq!(
        parse_json_str("1-2-3").err(),
        Some(Error::Parse(ParseError::InvalidNumber(text("1-2-3"))))
    );
    assert_eq!(
        parse_json_str("[--5]").err(),
        Some(Error::Parse(ParseError::InvalidNumber(text("--5"))))
    );
    assert_eq!(
        parse_json_str("1.2.3").err(),
        Some(Error::Parse(ParseError::InvalidNumber(text("1.2.3"))))
    );
}

#[test]
fn nested_structure() {
    let v = parse_json_str(r#"{"a":[1,2,{"b":null}]}"#).unwrap();
    assert_eq!(members(&v), 1);
    let a = items(member(&v, "a").unwrap());
    assert_eq!(a.len(), 3);
    assert_eq!(number(&a[0]), 1.0);
    assert_eq!(number(&a[1]), 2.0);
    assert_eq!(members(&a[2]), 1);
    assert!(matches!(member(&a[2], "b"), Some(JsonValue::Null)));
}

#[test]
fn escape_decoding() {
    let v = parse_json_str(r#""a\nb""#).unwrap();
    assert_eq!(string(&v), "a\nb");
}

#[test]
fn sample_document() {
    let sample = r#"
    {
        "name": "Alice",
        "age": 30,
        "married": false,
        "children": null,
        "pets": ["Cat", "Dog"],
        "address": {
            "city": "Wonderland",
            "zip": "12345"
        }
    }
    "#;
    let v = parse_json_str(sample).unwrap();
    assert_eq!(members(&v), 6);
    assert_eq!(string(member(&v, "name").unwrap()), "Alice");
    assert_eq!(number(member(&v, "age").unwrap()), 30.0);
    assert!(matches!(member(&v, "married"), Some(JsonValue::Bool(false))));
    assert!(matches!(member(&v, "children"), Some(JsonValue::Null)));
    let pets = items(member(&v, "pets").unwrap());
    assert_eq!(pets.len(), 2);
    assert_eq!(string(&pets[0]), "Cat");
    assert_eq!(string(&pets[1]), "Dog");
    let address = member(&v, "address").unwrap();
    assert_eq!(string(member(address, "city").unwrap()), "Wonderland");
    assert_eq!(string(member(address, "zip").unwrap()), "12345");
}

#[test]
fn array_keeps_order() {
    let v = parse_json_str("[3, 1, 2]").unwrap();
    let a = items(&v);
    assert_eq!(a.len(), 3);
    assert_eq!(number(&a[0]), 3.0);
    assert_eq!(number(&a[1]), 1.0);
    assert_eq!(number(&a[2]), 2.0);
}

#[test]
fn whitespace_does_not_change_the_value() {
    let dense = parse_json_str(r#"{"a":[1,{"b":"x y"}],"c":true}"#).unwrap();
    let loose =
        parse_json_str("\n{ \"a\" :\t[ 1 ,\r\n{ \"b\" : \"x y\" } ] , \"c\" : true }  ").unwrap();
    for v in [&dense, &loose] {
        assert_eq!(members(v), 2);
        let a = items(member(v, "a").unwrap());
        assert_eq!(a.len(), 2);
        assert_eq!(number(&a[0]), 1.0);
        assert_eq!(string(member(&a[1], "b").unwrap()), "x y");
        assert!(matches!(member(v, "c"), Some(JsonValue::Bool(true))));
    }
}

#[test]
fn unexpected_end_of_tokens() {
    for input in ["", "  ", "[", "{", "[1", "[1,", "{\"a\"", "{\"a\":", "{\"a\":1", "{\"a\":1,"] {
        assert_eq!(
            parse_json_str(input).err(),
            Some(Error::Parse(ParseError::UnexpectedEndOfTokens)),
            "{}",
            input
        );
    }
}

#[test]
fn unexpected_token_where_a_value_is_needed() {
    assert_eq!(
        parse_json_str("}").err(),
        Some(Error::Parse(ParseError::UnexpectedToken(Token::RBrace)))
    );
    assert_eq!(
        parse_json_str("]").err(),
        Some(Error::Parse(ParseError::UnexpectedToken(Token::RBracket)))
    );
    assert_eq!(
        parse_json_str(":").err(),
        Some(Error::Parse(ParseError::UnexpectedToken(Token::Colon)))
    );
    assert_eq!(
        parse_json_str(",").err(),
        Some(Error::Parse(ParseError::UnexpectedToken(Token::Comma)))
    );
}

#[test]
fn trailing_comma_is_rejected() {
    assert_eq!(
        parse_json_str("[1,]").err(),
        Some(Error::Parse(ParseError::UnexpectedToken(Token::RBracket)))
    );
    assert_eq!(
        parse_json_str("{\"a\":1,}").err(),
        Some(Error::Parse(ParseError::UnexpectedToken(Token::RBrace)))
    );
}

#[test]
fn object_needs_string_keys_and_colons() {
    assert_eq!(
        parse_json_str("{1:2}").err(),
        Some(Error::Parse(ParseError::UnexpectedToken(Token::Number(text("1")))))
    );
    assert_eq!(
        parse_json_str("{\"a\" 1}").err(),
        Some(Error::Parse(ParseError::UnexpectedToken(Token::Number(text("1")))))
    );
    assert_eq!(
        parse_json_str("{\"a\":1 \"b\":2}").err(),
        Some(Error::Parse(ParseError::UnexpectedToken(Token::String(text("b")))))
    );
}

#[test]
fn array_needs_commas() {
    assert_eq!(
        parse_json_str("[1 2]").err(),
        Some(Error::Parse(ParseError::UnexpectedToken(Token::Number(text("2")))))
    );
    assert_eq!(
        parse_json_str("[1}").err(),
        Some(Error::Parse(ParseError::UnexpectedToken(Token::RBrace)))
    );
}

#[test]
fn parser_on_given_tokens() {
    let mut parser = Parser::new(vec![
        Token::LBracket,
        Token::True,
        Token::Comma,
        Token::String(text("x")),
        Token::RBracket,
    ]);
    let v = parser.parse_json().unwrap();
    let a = items(&v);
    assert_eq!(a.len(), 2);
    assert!(matches!(a[0], JsonValue::Bool(true)));
    assert_eq!(string(&a[1]), "x");
}

#[test]
fn parser_on_no_tokens() {
    let mut parser = Parser::new(vec![]);
    assert_eq!(parser.parse_json().err(), Some(ParseError::UnexpectedEndOfTokens));
}

#[test]
fn parser_after_the_end_finds_no_token() {
    let mut parser = Parser::new(vec![Token::Null]);
    assert!(matches!(parser.parse_json(), Ok(JsonValue::Null)));
    assert_eq!(parser.parse_json().err(), Some(ParseError::UnexpectedEndOfTokens));
}

#[test]
fn parser_stops_on_the_leftover_token() {
    let mut parser = Parser::new(vec![Token::Null, Token::True]);
    assert_eq!(
        parser.parse_json().err(),
        Some(ParseError::UnexpectedToken(Token::True))
    );
    assert!(matches!(parser.parse_json(), Ok(JsonValue::Bool(true))));
}

#[test]
fn number_grammar_accepts() {
    for t in [
        "0", "5", "-5", "+5", "30", "3.14", "5.", ".5", "-.5", "5.e3", "1e5", "1E5", "1e+5",
        "1e-5", "-2e10", "0.000", "12345678901234567890", "1e400", "inf", "-inf", "+Infinity",
        "NaN", "nan", "INF", "iNfInItY",
    ] {
        assert!(valid_number(t), "{}", t);
    }
}

#[test]
fn number_grammar_rejects() {
    for t in [
        "", "-", "+", ".", "-.", "e5", ".e5", "1e", "1e+", "1e-", "1-2-3", "--5", "1.2.3", "1e5.",
        "1e5e5", "1..2", "1 ", " 1", "1_000", "0x10", "in", "infinit", "nana", "1f", "٣",
    ] {
        assert!(!valid_number(t), "{}", t);
    }
}

#[test]
fn number_grammar_is_that_of_the_double_conversion() {
    let alphabet = ['0', '7', '.', 'e', 'E', '+', '-', 'n', 'a', 'i', 'f', 'N', ' '];
    let mut texts: Vec<String> = vec![String::new()];
    let mut from = 0;
    for _ in 0..4 {
        let upto = texts.len();
        for k in from..upto {
            for c in alphabet {
                let mut t = texts[k].clone();
                t.push(c);
                texts.push(t);
            }
        }
        from = upto;
    }
    for t in &texts {
        assert_eq!(valid_number(t), t.parse::<f64>().is_ok(), "{:?}", t);
    }
}

fn escaped(s: &str) -> String {
    let mut out = String::new();
    for c in s.chars() {
        match c {
            '"' => out.push_str("\\\""),
            '\\' => out.push_str("\\\\"),
            '\n' => out.push_str("\\n"),
            '\t' => out.push_str("\\t"),
            '\r' => out.push_str("\\r"),
            other => out.push(other),
        }
    }
    out
}

fn canonical(value: &JsonValue) -> String {
    match value {
        JsonValue::Null => text("null"),
        JsonValue::Bool(true) => text("true"),
        JsonValue::Bool(false) => text("false"),
        JsonValue::Number(t) => t.clone(),
        JsonValue::String(s) => format!("\"{}\"", escaped(s)),
        JsonValue::Array(items) => {
            let parts: Vec<String> = items.iter().map(canonical).collect();
            format!("[{}]", parts.join(","))
        }
        JsonValue::Object(entries) => {
            let parts: Vec<String> = entries
                .iter()
                .map(|e| format!("\"{}\":{}", escaped(&e.0), canonical(&e.1)))
                .collect();
            format!("{{{}}}", parts.join(","))
        }
    }
}

fn same(a: &JsonValue, b: &JsonValue) -> bool {
    match (a, b) {
        (JsonValue::Null, JsonValue::Null) => true,
        (JsonValue::Bool(x), JsonValue::Bool(y)) => x == y,
        (JsonValue::Number(x), JsonValue::Number(y)) => {
            x.parse::<f64>().unwrap() == y.parse::<f64>().unwrap()
        }
        (JsonValue::String(x), JsonValue::String(y)) => x == y,
        (JsonValue::Array(x), JsonValue::Array(y)) => {
            x.len() == y.len() && x.iter().zip(y.iter()).all(|(p, q)| same(p, q))
        }
        (JsonValue::Object(x), JsonValue::Object(y)) => {
            x.len() == y.len()
                && x.iter().all(|e| match member(b, &e.0) {
                    Some(other) => same(&e.1, other),
                    None => false,
                })
        }
        _ => false,
    }
}

#[test]
fn canonical_text_reads_back_as_the_value() {
    let value = JsonValue::Object(vec![
        (text("name"), JsonValue::String(text("Al\"i\\ce\n\t\r"))),
        (text("age"), JsonValue::Number(text("30"))),
        (text("ratio"), JsonValue::Number(text("-2.5e-3"))),
        (text("married"), JsonValue::Bool(false)),
        (text("happy"), JsonValue::Bool(true)),
        (text("children"), JsonValue::Null),
        (
            text("pets"),
            JsonValue::Array(vec![
                JsonValue::String(text("Cat")),
                JsonValue::Array(vec![]),
                JsonValue::Object(vec![]),
                JsonValue::Array(vec![JsonValue::Null, JsonValue::Number(text("0"))]),
            ]),
        ),
        (text(""), JsonValue::Object(vec![(text("k"), JsonValue::Array(vec![]))])),
    ]);
    let rendered = canonical(&value);
    assert_eq!(
        rendered,
        "{\"name\":\"Al\\\"i\\\\ce\\n\\t\\r\",\"age\":30,\"ratio\":-2.5e-3,\"married\":false,\
         \"happy\":true,\"children\":null,\"pets\":[\"Cat\",[],{},[null,0]],\"\":{\"k\":[]}}"
    );
    let back = parse_json_str(&rendered).unwrap();
    assert!(same(&value, &back));
    assert_eq!(canonical(&back), rendered);
}

#[test]
fn canonical_text_of_scalars_reads_back() {
    for value in [
        JsonValue::Null,
        JsonValue::Bool(true),
        JsonValue::Bool(false),
        JsonValue::Number(text("-0")),
        JsonValue::Number(text("1e5")),
        JsonValue::String(text("")),
        JsonValue::String(text("\\n")),
        JsonValue::Array(vec![]),
        JsonValue::Object(vec![]),
    ] {
        let back = parse_json_str(&canonical(&value)).unwrap();
        assert!(same(&value, &back));
    }
}

#[test]
fn member_order_does_not_matter() {
    let a = parse_json_str(r#"{"x":1,"y":[true]}"#).unwrap();
    let b = parse_json_str(r#"{"y":[true],"x":1.0}"#).unwrap();
    assert!(same(&a, &b));
    let c = parse_json_str(r#"{"y":[false],"x":1}"#).unwrap();
    assert!(!same(&a, &c));
}

#[test]
fn number_text_that_scans_is_not_all_number_text() {
    assert!(valid_number("inf"));
    assert_eq!(
        parse_json_str("inf").err(),
        Some(Error::Lex(LexError::InvalidToken('i', 0)))
    );
    let mut parser = Parser::new(vec![Token::Number(text("inf"))]);
    match parser.parse_json() {
        Ok(JsonValue::Number(t)) => assert_eq!(t, "inf"),
        _ => panic!("not a number"),
    }
}

#[test]
fn clone_keeps_the_value() {
    let v = parse_json_str(r#"{"a":[1,2,{"b":null}],"c":"x","d":true}"#).unwrap();
    let copy = v.clone();
    assert!(same(&v, &copy));
    assert_eq!(canonical(&copy), r#"{"a":[1,2,{"b":null}],"c":"x","d":true}"#);
}
