use json_parser::{LexError, Lexer, Token, TokenType};

fn number_value(t: &TokenType) -> Option<f64> {
    match t {
        TokenType::Number(s) => s.parse::<f64>().ok(),
        _ => None,
    }
}

#[test]
fn test_tokenize() {
    let text = r#"[true, false, null, -1.0e+9, {"foo": "bar"}]"#;
    let mut l = Lexer::new(text);
    let expected = vec![
        Token::new(TokenType::LBracket, "[".to_string()),
        Token::new(TokenType::True, "true".to_string()),
        Token::new(TokenType::Comma, ",".to_string()),
        Token::new(TokenType::False, "false".to_string()),
        Token::new(TokenType::Comma, ",".to_string()),
        Token::new(TokenType::Null, "null".to_string()),
        Token::new(TokenType::Comma, ",".to_string()),
        Token::new(TokenType::Number("-1.0e+9".to_string()), "-1.0e+9".to_string()),
        Token::new(TokenType::Comma, ",".to_string()),
        Token::new(TokenType::LBrace, "{".to_string()),
        Token::new(TokenType::String("foo".to_string()), "foo".to_string()),
        Token::new(TokenType::Colon, ":".to_string()),
        Token::new(TokenType::String("bar".to_string()), "bar".to_string()),
        Token::new(TokenType::RBrace, "}".to_string()),
        Token::new(TokenType::RBracket, "]".to_string()),
    ];

    for e in expected {
        let tok = l.next_token().ok();

        assert!(tok.is_some());
        let tok = tok.unwrap();
        if let Some(x) = number_value(&e.token_type) {
            assert_eq!(number_value(&tok.token_type), Some(x));
            assert_eq!(x, -1.0e+9_f64);
        }
        assert_eq!(tok, e);
    }
    assert_eq!(l.next_token(), Err(LexError::EndOfInput));
}

#[test]
fn number_token_reads_as_its_float() {
    let mut l = Lexer::new("-1.0e+9");
    let tok = l.next_token().unwrap();
    assert_eq!(number_value(&tok.token_type), Some(-1.0e9_f64));
    assert_eq!(tok.literal, "-1.0e+9");
}

#[test]
fn quoted_string_token() {
    let mut l = Lexer::new("\"foo\"");
    let tok = l.next_token().unwrap();
    assert_eq!(tok.token_type, TokenType::String("foo".to_string()));
    assert_eq!(tok.literal, "foo");
}

#[test]
fn surrogate_pair_is_one_character() {
    let mut l = Lexer::new(r#""\uD83D\uDE00""#);
    let tok = l.next_token().unwrap();
    assert_eq!(tok.token_type, TokenType::String("\u{1F600}".to_string()));
    assert_eq!(tok.literal.chars().count(), 1);
}

#[test]
fn basic_plane_escape_and_plain_text() {
    let mut l = Lexer::new(r#""a\u00e9bA""#);
    let tok = l.next_token().unwrap();
    assert_eq!(tok.token_type, TokenType::String("a\u{e9}bA".to_string()));
}

#[test]
fn common_escapes_are_kept_as_written() {
    let mut l = Lexer::new(r#""\t\n\f\"\\\/ \q""#);
    let tok = l.next_token().unwrap();
    assert_eq!(tok.token_type, TokenType::String(r#"\t\n\f\"\\\/ q"#.to_string()));
}

#[test]
fn whitespace_is_skipped() {
    let mut l = Lexer::new(" \t\r\n: \n");
    assert_eq!(l.next_token().unwrap().token_type, TokenType::Colon);
    assert_eq!(l.next_token(), Err(LexError::EndOfInput));
}

#[test]
fn period_is_a_symbol() {
    let mut l = Lexer::new(".");
    assert_eq!(l.next_token().unwrap().token_type, TokenType::Period);
}

#[test]
fn empty_input_ends_at_once() {
    let mut l = Lexer::new("");
    assert_eq!(l.next_token(), Err(LexError::EndOfInput));
}

#[test]
fn unknown_word_is_refused() {
    assert_eq!(Lexer::new("nul").next_token(), Err(LexError::UnknownKeyword));
    assert_eq!(Lexer::new("nulls").next_token(), Err(LexError::UnknownKeyword));
}

#[test]
fn capitalised_keyword_is_an_invalid_symbol() {
    assert_eq!(Lexer::new("True").next_token(), Err(LexError::InvalidSymbol('T')));
    assert_eq!(Lexer::new("@").next_token(), Err(LexError::InvalidSymbol('@')));
}

#[test]
fn malformed_numbers() {
    assert_eq!(Lexer::new("1.2.3").next_token(), Err(LexError::MalformedNumber));
    assert_eq!(Lexer::new("-").next_token(), Err(LexError::MalformedNumber));
    assert_eq!(Lexer::new("1e").next_token(), Err(LexError::MalformedNumber));
    assert_eq!(Lexer::new("1-2").next_token(), Err(LexError::MalformedNumber));
}

#[test]
fn permissive_numbers_that_still_read_as_floats() {
    for (text, x) in [("1.", 1.0_f64), ("-.5", -0.5), ("0005", 5.0), ("2E-2", 0.02), ("7e+1", 70.0)] {
        let tok = Lexer::new(text).next_token().unwrap();
        assert_eq!(tok.literal, text);
        assert_eq!(number_value(&tok.token_type), Some(x));
    }
}

#[test]
fn number_stops_at_other_characters() {
    let mut l = Lexer::new("12]");
    assert_eq!(l.next_token().unwrap().token_type, TokenType::Number("12".to_string()));
    assert_eq!(l.next_token().unwrap().token_type, TokenType::RBracket);
}

#[test]
fn unterminated_strings() {
    assert_eq!(Lexer::new("\"abc").next_token(), Err(LexError::UnterminatedString));
    assert_eq!(Lexer::new("\"abc\\").next_token(), Err(LexError::UnterminatedString));
}

#[test]
fn bad_unicode_escapes() {
    assert_eq!(Lexer::new(r#""\u12G4""#).next_token(), Err(LexError::InvalidUnicodeEscape));
    assert_eq!(Lexer::new(r#""\u12"#).next_token(), Err(LexError::InvalidUnicodeEscape));
}

#[test]
fn unpaired_surrogates() {
    assert_eq!(Lexer::new(r#""\uD83D""#).next_token(), Err(LexError::InvalidUnicodeSequence));
    assert_eq!(Lexer::new(r#""\uDE00x""#).next_token(), Err(LexError::InvalidUnicodeSequence));
    assert_eq!(
        Lexer::new(r#""\uD83DA""#).next_token(),
        Err(LexError::InvalidUnicodeSequence)
    );
}

#[test]
fn lookup_keyword_table() {
    let t = Token::lookup_keyword("false").unwrap();
    assert_eq!(t.token_type, TokenType::False);
    assert_eq!(t.literal, "false");
    assert_eq!(Token::lookup_keyword("null").unwrap().token_type, TokenType::Null);
    assert_eq!(Token::lookup_keyword("true").unwrap().token_type, TokenType::True);
    assert!(Token::lookup_keyword("nil").is_none());
    assert!(Token::lookup_keyword("").is_none());
}

#[test]
fn end_of_input_after_whitespace_stays_at_end() {
    for text in ["", " ", " \t\r\n "] {
        let mut l = Lexer::new(text);
        assert_eq!(l.next_token(), Err(LexError::EndOfInput));
        assert_eq!(l.next_token(), Err(LexError::EndOfInput));
    }
}
