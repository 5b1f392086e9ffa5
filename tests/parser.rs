use json_parser::{
    parse_json, LexError, Lexer, ParseError, Parser, Token, TokenType, Value, MAX_DEPTH,
};
use std::collections::HashMap;

/// A value with numbers read as floats and objects as maps, for comparing.
#[derive(Debug, PartialEq)]
enum J {
    Null,
    Number(f64),
    String(String),
    Array(Vec<J>),
    Object(HashMap<String, J>),
}

fn model(v: &Value) -> J {
    match v {
        Value::Null => J::Null,
        Value::Number(s) => J::Number(s.parse::<f64>().unwrap()),
        Value::String(s) => J::String(s.clone()),
        Value::Array(items) => J::Array(items.iter().map(model).collect()),
        Value::Object(es) => J::Object(es.iter().map(|(k, v)| (k.clone(), model(v))).collect()),
    }
}

fn obj(pairs: Vec<(&str, J)>) -> J {
    J::Object(pairs.into_iter().map(|(k, v)| (k.to_string(), v)).collect())
}

#[test]
fn test_parse() {
    let tests: Vec<(&str, J)> = vec![
        (r#""aaa""#, J::String("aaa".to_string())),
        (r#"1e10"#, J::Number(1e10_f64)),
        (
            r#"["aaa", 1e10]"#,
            J::Array(vec![J::String("aaa".to_string()), J::Number(1e10_f64)]),
        ),
        (
            r#"{"foo": ["bar", {"baz": "ok"}]}"#,
            obj(vec![(
                "foo",
                J::Array(vec![
                    J::String("bar".to_string()),
                    obj(vec![("baz", J::String("ok".to_string()))]),
                ]),
            )]),
        ),
    ];

    for (t, e) in tests {
        let l = Lexer::new(t);
        let mut p = Parser::new(l);
        let v = p.parse();

        assert!(v.is_ok());
        assert_eq!(model(&v.unwrap()), e);
    }
}

#[test]
fn scalars_take_one_token() {
    let mut p = Parser::new(Lexer::new("null \"s\" -1.0e+9 ]"));
    assert_eq!(p.parse(), Ok(Value::Null));
    assert_eq!(p.parse(), Ok(Value::String("s".to_string())));
    assert_eq!(model(&p.parse().unwrap()), J::Number(-1.0e9));
    match p.parse() {
        Err(ParseError::UnexpectedToken(t)) => assert_eq!(t.token_type, TokenType::RBracket),
        other => panic!("{:?}", other),
    }
}

#[test]
fn booleans_have_no_value() {
    for text in ["true", "false"] {
        match parse_json(text) {
            Err(ParseError::UnexpectedToken(t)) => assert_eq!(t.literal, text),
            other => panic!("{:?}", other),
        }
    }
}

#[test]
fn array_keeps_source_order() {
    let v = parse_json("[3, \"x\", null, [], [1]]").unwrap();
    assert_eq!(
        model(&v),
        J::Array(vec![
            J::Number(3.0),
            J::String("x".to_string()),
            J::Null,
            J::Array(vec![]),
            J::Array(vec![J::Number(1.0)]),
        ])
    );
}

#[test]
fn empty_array() {
    assert_eq!(parse_json("[]"), Ok(Value::Array(vec![])));
    assert_eq!(parse_json(" [ ] "), Ok(Value::Array(vec![])));
}

#[test]
fn trailing_comma_is_refused() {
    match parse_json("[1,]") {
        Err(ParseError::UnexpectedToken(t)) => assert_eq!(t.token_type, TokenType::RBracket),
        other => panic!("{:?}", other),
    }
}

#[test]
fn single_pair_object() {
    let v = parse_json(r#"{"k": [null]}"#).unwrap();
    assert_eq!(
        v,
        Value::Object(vec![("k".to_string(), Value::Array(vec![Value::Null]))])
    );
}

#[test]
fn several_pairs_and_last_write_wins() {
    let v = parse_json(r#"{"a": 1, "b": "two", "a": 3}"#).unwrap();
    assert_eq!(
        v,
        Value::Object(vec![
            ("a".to_string(), Value::Number("3".to_string())),
            ("b".to_string(), Value::String("two".to_string())),
        ])
    );
}

#[test]
fn empty_object() {
    assert_eq!(parse_json("{}"), Ok(Value::Object(vec![])));
}

#[test]
fn malformed_objects() {
    let unexpected = |text: &str| match parse_json(text) {
        Err(ParseError::UnexpectedToken(t)) => t.token_type,
        other => panic!("{:?}", other),
    };
    assert_eq!(unexpected(r#"{"a": 1,}"#), TokenType::RBrace);
    assert_eq!(unexpected(r#"{1: 2}"#), TokenType::Number("1".to_string()));
    assert_eq!(unexpected(r#"{"a" 2}"#), TokenType::Number("2".to_string()));
    assert_eq!(unexpected(r#"{"a": 1 "b": 2}"#), TokenType::String("b".to_string()));
}

#[test]
fn unterminated_array_fails() {
    assert_eq!(parse_json("[1, 2"), Err(ParseError::NoToken));
    assert_eq!(parse_json("[1, 2,"), Err(ParseError::NoToken));
    assert_eq!(parse_json(r#"{"a": 1"#), Err(ParseError::NoToken));
}

#[test]
fn empty_text_has_no_token() {
    assert_eq!(parse_json(""), Err(ParseError::NoToken));
    assert_eq!(parse_json("  \n"), Err(ParseError::NoToken));
}

#[test]
fn unknown_keywords_fail() {
    assert_eq!(parse_json("nul"), Err(ParseError::Lex(LexError::UnknownKeyword)));
    assert_eq!(parse_json("True"), Err(ParseError::Lex(LexError::InvalidSymbol('T'))));
    assert_eq!(parse_json("[1, nul]"), Err(ParseError::Lex(LexError::UnknownKeyword)));
}

#[test]
fn lexical_errors_inside_values() {
    assert_eq!(
        parse_json("[\"abc"),
        Err(ParseError::Lex(LexError::UnterminatedString))
    );
    assert_eq!(parse_json("[1.2.3]"), Err(ParseError::Lex(LexError::MalformedNumber)));
}

#[test]
fn nesting_limit() {
    let ok = format!("{}{}", "[".repeat(MAX_DEPTH), "]".repeat(MAX_DEPTH));
    assert!(parse_json(&ok).is_ok());
    let deep = format!("{}{}", "[".repeat(MAX_DEPTH + 1), "]".repeat(MAX_DEPTH + 1));
    assert_eq!(parse_json(&deep), Err(ParseError::NestingTooDeep));
    let objects = format!("{}1{}", "{\"a\":".repeat(MAX_DEPTH + 1), "}".repeat(MAX_DEPTH + 1));
    assert_eq!(parse_json(&objects), Err(ParseError::NestingTooDeep));
}

#[test]
fn surrogate_pair_inside_a_value() {
    assert_eq!(
        parse_json(r#"["\uD83D\uDE00"]"#),
        Ok(Value::Array(vec![Value::String("\u{1F600}".to_string())]))
    );
}

#[test]
fn lenient_array_separators() {
    let v = parse_json("[1 2,,3]").unwrap();
    assert_eq!(
        model(&v),
        J::Array(vec![J::Number(1.0), J::Number(2.0), J::Number(3.0)])
    );
}

#[test]
fn unexpected_token_carries_its_literal() {
    let cases = [
        ("[1,]", Token::new(TokenType::RBracket, "]".to_string())),
        ("[:]", Token::new(TokenType::Colon, ":".to_string())),
        ("[}]", Token::new(TokenType::RBrace, "}".to_string())),
        ("[.]", Token::new(TokenType::Period, ".".to_string())),
        ("{1: 2}", Token::new(TokenType::Number("1".to_string()), "1".to_string())),
        (r#"{"a" 1}"#, Token::new(TokenType::Number("1".to_string()), "1".to_string())),
        (r#"{"a": 1]"#, Token::new(TokenType::RBracket, "]".to_string())),
    ];
    for (text, tok) in cases {
        assert_eq!(parse_json(text), Err(ParseError::UnexpectedToken(tok)));
    }
}
