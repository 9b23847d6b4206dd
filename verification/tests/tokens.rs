use ccjson::{JsonError, JsonValue, Token, TokenType};

fn tokens(text: &str) -> Vec<(TokenType, String)> {
    JsonValue::parse_tokens(text)
        .unwrap()
        .iter()
        .map(|token| (token.token_type, token.data.to_string()))
        .collect()
}

fn string(data: &str) -> Result<String, JsonError> {
    let token = Token {
        token_type: TokenType::String,
        data,
    };
    token.string_value()
}

#[test]
fn texts_are_cut_into_tokens() {
    assert_eq!(
        tokens(" { \"a b\" : [ 1 , -2.5 ,true,null ] } "),
        vec![
            (TokenType::CurvedBraceOpen, "{".to_string()),
            (TokenType::String, "\"a b\"".to_string()),
            (TokenType::Colon, ":".to_string()),
            (TokenType::SquareBraceOpen, "[".to_string()),
            (TokenType::Integer, "1".to_string()),
            (TokenType::Comma, ",".to_string()),
            (TokenType::Float, "-2.5".to_string()),
            (TokenType::Comma, ",".to_string()),
            (TokenType::Bool, "true".to_string()),
            (TokenType::Comma, ",".to_string()),
            (TokenType::Null, "null".to_string()),
            (TokenType::SquareBraceClose, "]".to_string()),
            (TokenType::CurvedBraceClose, "}".to_string()),
            (TokenType::EOF, "".to_string()),
        ]
    );
}

#[test]
fn strings_keep_punctuation_and_escaped_quotes() {
    assert_eq!(
        tokens("[\"{[,:]}\\\"é\\\\\"]"),
        vec![
            (TokenType::SquareBraceOpen, "[".to_string()),
            (TokenType::String, "\"{[,:]}\\\"é\\\\\"".to_string()),
            (TokenType::SquareBraceClose, "]".to_string()),
            (TokenType::EOF, "".to_string()),
        ]
    );
}

#[test]
fn what_is_not_ended_is_dropped() {
    for text in ["", "  \n", "123", "tru", "\"abc", "\\"] {
        assert_eq!(tokens(text), vec![(TokenType::EOF, "".to_string())], "{text}");
    }
}

#[test]
fn a_colon_does_not_end_a_word() {
    match JsonValue::parse_tokens("{a: 1}") {
        Err(JsonError::WrongKeyword(keyword)) => assert_eq!(keyword, "a: 1"),
        other => panic!("{other:?}"),
    }
}

#[test]
fn an_escape_outlasts_whitespace() {
    // The quote after the blanks is escaped, so the string goes on to the end of the text.
    assert_eq!(
        tokens("[\"a\\  \"]"),
        vec![
            (TokenType::SquareBraceOpen, "[".to_string()),
            (TokenType::EOF, "".to_string()),
        ]
    );
}

#[test]
fn escapes_are_replaced() {
    assert_eq!(string("\"\"").unwrap(), "");
    assert_eq!(string("\"a\\\"b\\\\c\\/d\"").unwrap(), "a\"b\\c/d");
    assert_eq!(string("\"\\b\\f\\n\\r\\t\"").unwrap(), "\u{8}\u{c}\n\r\t");
    assert_eq!(string("\"\\u0041\\u00e9\\uCAFE\"").unwrap(), "A\u{e9}\u{cafe}");
    assert_eq!(string("\"\\u+041\"").unwrap(), "A");
    assert_eq!(string("\"é\u{1f600}\u{7f}\"").unwrap(), "é\u{1f600}\u{7f}");
    assert_eq!(string("\"a\\\"").unwrap(), "a");
}

#[test]
fn wrong_strings_are_refused() {
    assert!(matches!(string("\"a\tb\""), Err(JsonError::UnescapedChar { c: 9 })));
    assert!(matches!(string("\"\\\n\""), Err(JsonError::UnescapedChar { c: 10 })));
    assert!(matches!(string("\"\\x\""), Err(JsonError::InvalidEscapeChar { c: 'x' })));
    assert!(matches!(string("\"\\u12\""), Err(JsonError::InvalidEscapeChar { c: 'u' })));
    assert!(matches!(string("\"\\u12g4\""), Err(JsonError::ParseIntError { .. })));
    match string("\"\\ud800\"") {
        Err(JsonError::InvalidEscapeCodepoint { cp }) => assert_eq!(cp, "d800"),
        other => panic!("{other:?}"),
    }
}

#[test]
fn tokens_of_other_kinds_have_no_such_value() {
    let comma = Token {
        token_type: TokenType::Comma,
        data: ",",
    };
    assert!(matches!(comma.string_value(), Err(JsonError::WrongToken { got: TokenType::Comma })));
    assert!(matches!(comma.integer_value(), Err(JsonError::WrongToken { got: TokenType::Comma })));
    assert!(matches!(comma.float_value(), Err(JsonError::WrongToken { got: TokenType::Comma })));
    assert!(matches!(comma.bool_value(), Err(JsonError::WrongToken { got: TokenType::Comma })));
}

#[test]
fn scalar_tokens_have_values() {
    let integer = Token {
        token_type: TokenType::Integer,
        data: "-9223372036854775808",
    };
    assert_eq!(integer.integer_value().unwrap(), i64::MIN);
    let large = Token {
        token_type: TokenType::Integer,
        data: "9223372036854775808",
    };
    assert!(matches!(large.integer_value(), Err(JsonError::ParseIntError { .. })));
    let float = Token {
        token_type: TokenType::Float,
        data: "-10e10",
    };
    assert_eq!(f64::from_bits(float.float_value().unwrap().bits), -10e10);
    let foreign = Token {
        token_type: TokenType::Float,
        data: "1.\u{0663}",
    };
    assert!(matches!(foreign.float_value(), Err(JsonError::ParseFloatError { .. })));
    for (data, truth) in [("true", true), ("false", false)] {
        let token = Token {
            token_type: TokenType::Bool,
            data,
        };
        assert_eq!(token.bool_value().unwrap(), truth);
    }
}

#[test]
fn tokens_stand_in_order() {
    let text = "{ \"é\\\"\" : [1 , 1,\"1\" ], \"1\": {\"é\":true } }";
    let mut from = 0;
    for token in JsonValue::parse_tokens(text).unwrap() {
        let at = from + text[from..].find(token.data).unwrap();
        assert!(text[from..at].trim().is_empty());
        from = at + token.data.len();
    }
    assert_eq!(from, text.trim_end().len());
}

#[test]
fn a_backslash_between_tokens_is_skipped() {
    assert_eq!(
        tokens("[\\1, \\\"2]"),
        vec![
            (TokenType::SquareBraceOpen, "[".to_string()),
            (TokenType::Integer, "1".to_string()),
            (TokenType::Comma, ",".to_string()),
            (TokenType::Integer, "2".to_string()),
            (TokenType::SquareBraceClose, "]".to_string()),
            (TokenType::EOF, "".to_string()),
        ]
    );
}
