use ccjson::double::Double;
use ccjson::{JsonError, JsonObject, JsonValue, Reading, TokenType};

fn read(text: &str) -> JsonValue {
    JsonValue::build_from_string(text).unwrap()
}

fn refuse(text: &str) -> JsonError {
    JsonValue::build_from_string(text).unwrap_err()
}

fn object(members: Vec<(&str, JsonValue)>) -> JsonValue {
    let mut object = JsonObject::new();
    for (key, value) in members {
        assert!(object.insert(key.to_string(), value).is_none());
    }
    JsonValue::Object(object)
}

fn float(number: f64) -> JsonValue {
    JsonValue::Float(Double {
        bits: number.to_bits(),
    })
}

fn nested(levels: usize) -> String {
    format!("{}{}", "[".repeat(levels), "]".repeat(levels))
}

#[test]
fn arrays_keep_their_items_in_order() {
    assert_eq!(
        read("[1, \"two\", 3.0, [4], {}, true, null]"),
        JsonValue::Array(vec![
            JsonValue::Integer(1),
            JsonValue::String("two".to_string()),
            float(3.0),
            JsonValue::Array(vec![JsonValue::Integer(4)]),
            JsonValue::Object(JsonObject::new()),
            JsonValue::Boolean(true),
            JsonValue::Null,
        ])
    );
}

#[test]
fn the_order_of_members_is_free() {
    let expected = object(vec![
        ("b", JsonValue::Integer(2)),
        ("a", JsonValue::Array(vec![])),
    ]);
    assert_eq!(read("{\"a\": [], \"b\": 2}"), expected);
    assert_eq!(read("{\"b\": 2, \"a\": []}"), expected);
}

#[test]
fn whitespace_between_tokens_does_not_matter() {
    let text = "{\"a\":[1,{\"b\":null}]}";
    let spaced = " { \"a\"\t:\n[ 1 ,\r{ \"b\" : null\u{a0}} ]\u{3000}} ";
    assert_eq!(read(text), read(spaced));
}

#[test]
fn a_key_may_not_occur_twice() {
    for text in [
        "{\"k\": 1, \"k\": 2}",
        "{\"k\": \"v\", \"k\": \"v\"}",
        "{\"k\": 1, \"k\": []}",
        "{\"k\": 1, \"\\u006b\": {}}",
        "{\"k\": true, \"k\": null}",
    ] {
        match refuse(text) {
            JsonError::MultipleKeys(key) => assert_eq!(key, "k"),
            other => panic!("{other:?}"),
        }
    }
}

#[test]
fn deep_nesting_is_refused() {
    for levels in 1..20 {
        assert!(JsonValue::build_from_string(&nested(levels)).is_ok(), "{levels}");
    }
    for levels in 20..30 {
        assert!(matches!(refuse(&nested(levels)), JsonError::MaxDepthExceeded), "{levels}");
    }
    let objects = format!("{}1{}", "{\"a\":".repeat(20), "}".repeat(20));
    assert!(matches!(refuse(&objects), JsonError::MaxDepthExceeded));
    let fewer = format!("{}1{}", "{\"a\":".repeat(19), "}".repeat(19));
    assert!(JsonValue::build_from_string(&fewer).is_ok());
    // A wrong token before the depth is reached is told first.
    assert!(matches!(
        refuse(&format!("[1 {}", nested(20))),
        JsonError::WrongKeyword(_)
    ));
}

#[test]
fn blank_texts_are_empty() {
    for text in ["", " ", "\n\t\r ", "\u{2003}\u{85}"] {
        assert!(matches!(refuse(text), JsonError::EmptyFile));
    }
}

#[test]
fn only_objects_and_arrays_are_documents() {
    assert!(matches!(
        refuse("\"text\""),
        JsonError::WrongToken {
            got: TokenType::String
        }
    ));
    assert!(matches!(
        refuse("1,"),
        JsonError::WrongToken {
            got: TokenType::Integer
        }
    ));
    assert!(matches!(refuse("1"), JsonError::EmptyFile));
}

#[test]
fn nothing_may_follow_the_value() {
    assert!(matches!(
        refuse("[] []"),
        JsonError::WrongToken {
            got: TokenType::SquareBraceClose
        }
    ));
    assert!(matches!(
        refuse("[],"),
        JsonError::WrongToken {
            got: TokenType::Comma
        }
    ));
    // A word at the end of the text is not a token.
    assert_eq!(read("[] 5"), JsonValue::Array(vec![]));
}

#[test]
fn what_is_open_at_the_end_is_closed_there() {
    assert_eq!(
        read("[[]"),
        JsonValue::Array(vec![JsonValue::Array(vec![])])
    );
    assert_eq!(
        read("{\"a\":{}"),
        object(vec![("a", JsonValue::Object(JsonObject::new()))])
    );
    assert_eq!(read("{\"a\":"), JsonValue::Object(JsonObject::new()));
    assert!(JsonValue::build_from_string("[").is_err());
    assert!(JsonValue::build_from_string("[1").is_err());
    assert!(JsonValue::build_from_string("{\"a\"").is_err());
}

#[test]
fn wrong_closing_tokens_after_a_container_are_unhandled() {
    for (text, expected) in [
        ("{\"a\":[]]", TokenType::SquareBraceClose),
        ("{\"a\":{}]", TokenType::SquareBraceClose),
        ("[{}}", TokenType::CurvedBraceClose),
        ("[[]}", TokenType::CurvedBraceClose),
        ("[1, [2]}", TokenType::CurvedBraceClose),
    ] {
        match JsonValue::checked_build_from_string(text) {
            Reading::Unhandled(kind) => assert_eq!(kind, expected, "{text}"),
            other => panic!("{text}: {other:?}"),
        }
    }
}

#[test]
fn checked_reading_agrees_where_every_token_is_handled() {
    for text in ["[]", "{\"a\": [1, 2]}", "[[[]]]", "{}"] {
        match JsonValue::checked_build_from_string(text) {
            Reading::Done(value) => assert_eq!(value, read(text)),
            other => panic!("{text}: {other:?}"),
        }
    }
    for text in ["", "[1,]", "[truth]", "{\"a\" 1}", "[\"\\x\"]"] {
        match JsonValue::checked_build_from_string(text) {
            Reading::Failed(error) => assert_eq!(error.message(), refuse(text).message()),
            other => panic!("{text}: {other:?}"),
        }
    }
}

#[test]
fn integers_are_read_back() {
    for n in [0, 1, -1, 9, 10, -10, 1066, i64::MAX, i64::MIN] {
        assert_eq!(
            read(&format!("[{n}]")),
            JsonValue::Array(vec![JsonValue::Integer(n)])
        );
    }
    assert!(matches!(refuse("[9223372036854775808]"), JsonError::ParseIntError { .. }));
}

#[test]
fn strings_are_read_back() {
    for code in 0..=0x24f_u32 {
        let c = char::from_u32(code).unwrap();
        let escaped = if c == '"' || c == '\\' {
            format!("\\{c}")
        } else if code <= 0x1f {
            format!("\\u{code:04X}")
        } else {
            c.to_string()
        };
        assert_eq!(
            read(&format!("[\"a{escaped}b\"]")),
            JsonValue::Array(vec![JsonValue::String(format!("a{c}b"))]),
            "{code:x}"
        );
    }
}

#[test]
fn floats_are_read() {
    for (literal, number) in [
        ("0.5", 0.5),
        ("-98.60", -98.6),
        ("1e1", 10.0),
        ("0.1e1", 1.0),
        ("1e-1", 0.1),
        ("23456789012E66", 23456789012E66),
    ] {
        assert_eq!(
            read(&format!("[{literal}]")),
            JsonValue::Array(vec![float(number)])
        );
    }
    assert_eq!(read("{\"a\": [1.0, 0.0]}"), read("{\"a\": [1.00, -0.0]}"));
    assert_ne!(read("[1.0]"), read("[1]"));
    assert!(matches!(refuse("[1.\u{0663}]"), JsonError::ParseFloatError { .. }));
    assert!(matches!(refuse("[1\u{0663}]"), JsonError::ParseIntError { .. }));
}

#[test]
fn wrong_tokens_are_told() {
    for (text, expected) in [
        ("[1 ,]", "Wrong token: got Comma"),
        ("{1}", "Wrong token: got CurvedBraceOpen"),
        ("{\"a\",}", "Wrong token: got String"),
        ("{\"a\"::}", "Wrong token: got Colon"),
        ("[\"a\":1]", "Wrong token: got String"),
        ("[1}", "Wrong token: got Integer"),
        ("[true:1]", "Invalid keyword: \"true:1\""),
        ("{\"a\":null]", "Wrong token: got Null"),
        ("{\"a\":1.5]", "Wrong token: got Float"),
        ("{\"a\":true]", "Wrong token: got Bool"),
        ("}", "Wrong token: got CurvedBraceClose"),
        ("{} {", "Wrong token: got CurvedBraceClose"),
    ] {
        assert_eq!(refuse(text).message(), expected, "{text}");
    }
}

#[test]
fn errors_have_messages() {
    assert_eq!(refuse("").message(), "Empty file!");
    assert_eq!(refuse("[a]").message(), "Invalid keyword: \"a\"");
    assert_eq!(
        refuse("{\"k\":1,\"k\":2}").message(),
        "Cannot have multiple keys: \"k\""
    );
    assert_eq!(
        refuse("[\"\\x\"]").message(),
        "Invalid escape char: \"\\x\""
    );
    assert_eq!(
        refuse("[\"\\uDfff\"]").message(),
        "Invalid escape codepoint: 0xDfff"
    );
    assert_eq!(refuse("[\"\u{1f}\"]").message(), "Unescaped char 0x1F");
    assert_eq!(refuse("[\"\u{a}\"]").message(), "Unescaped char 0xA");
    assert_eq!(
        refuse(&nested(20)).message(),
        "Max depth of 20 nested objects/arrays exceeded"
    );
    assert_eq!(
        JsonError::ParsingError { line: 12, col: 340 }.message(),
        "Parsing error at 12:340"
    );
    assert_eq!(
        JsonError::TokenParsingError {
            cause: "cause",
            data: "data".to_string()
        }
        .message(),
        "Token parsing error: cause on: data"
    );
}

/// Numbers that look random, from a seed.
struct Dice(u64);

impl Dice {
    fn roll(&mut self, sides: u64) -> u64 {
        self.0 = self.0.wrapping_mul(6364136223846793005).wrapping_add(1442695040888963407);
        (self.0 >> 33) % sides
    }

    fn bits(&mut self) -> u64 {
        self.roll(1 << 31) << 40 ^ self.roll(1 << 31) << 20 ^ self.roll(1 << 31)
    }

    fn text(&mut self) -> String {
        let chars = ['a', ' ', '"', '\\', '/', '\n', '\u{1}', '\u{1f}', '{', ']', ',', ':', 'é', '\u{1f600}'];
        let length = self.roll(6);
        (0..length).map(|_| chars[self.roll(chars.len() as u64) as usize]).collect()
    }
}

fn quoted(text: &str) -> String {
    let mut out = String::from("\"");
    for c in text.chars() {
        if c == '"' || c == '\\' {
            out.push('\\');
            out.push(c);
        } else if (c as u32) < 0x20 {
            out.push_str(&format!("\\u{:04x}", c as u32));
        } else {
            out.push(c);
        }
    }
    out.push('"');
    out
}

/// A value with at most the given levels of objects and arrays, and how it is written.
fn draw(dice: &mut Dice, levels: u64, container: bool) -> (JsonValue, String) {
    let sort = if container { 5 + dice.roll(2) } else { dice.roll(if levels > 0 { 7 } else { 5 }) };
    match sort {
        0 => (JsonValue::Null, "null".to_string()),
        1 => {
            let truth = dice.roll(2) == 0;
            (JsonValue::Boolean(truth), truth.to_string())
        }
        2 => {
            let number = dice.bits() as i64;
            (JsonValue::Integer(number), number.to_string())
        }
        3 => {
            let number = f64::from_bits(dice.bits());
            let number = if number.is_finite() { number } else { -0.0 };
            (float(number), format!("{number:?}"))
        }
        4 => {
            let text = dice.text();
            let written = quoted(&text);
            (JsonValue::String(text), written)
        }
        5 => {
            let mut items = Vec::new();
            let mut texts = Vec::new();
            for _ in 0..dice.roll(4) {
                let (item, text) = draw(dice, levels - 1, false);
                items.push(item);
                texts.push(text);
            }
            (JsonValue::Array(items), format!("[{}]", texts.join(",")))
        }
        _ => {
            let mut members = JsonObject::new();
            let mut texts = Vec::new();
            for k in 0..dice.roll(4) {
                let key = format!("{k}{}", dice.text());
                let (value, text) = draw(dice, levels - 1, false);
                texts.push(format!("{}:{text}", quoted(&key)));
                assert!(members.insert(key, value).is_none());
            }
            (JsonValue::Object(members), format!("{{{}}}", texts.join(",")))
        }
    }
}

#[test]
fn written_values_are_read_back() {
    let mut dice = Dice(7);
    for _ in 0..200 {
        let (value, text) = draw(&mut dice, 4, true);
        assert_eq!(read(&text), value, "{text}");
    }
    let (value, text) = draw(&mut dice, 1, true);
    let deep = format!("{}{text}{}", "[".repeat(18), "]".repeat(18));
    let mut expected = value;
    for _ in 0..18 {
        expected = JsonValue::Array(vec![expected]);
    }
    assert_eq!(read(&deep), expected);
}

#[test]
fn tokens_after_the_value_are_refused() {
    let mut dice = Dice(11);
    for _ in 0..20 {
        let (_, text) = draw(&mut dice, 3, true);
        let close = if text.ends_with('}') { TokenType::CurvedBraceClose } else { TokenType::SquareBraceClose };
        for (more, expected) in [
            (",", TokenType::Comma),
            ("]", TokenType::SquareBraceClose),
            ("}", TokenType::CurvedBraceClose),
            (":", close),
            ("{}", close),
            ("[]", close),
            ("\"x\"", close),
            ("1,", close),
        ] {
            match refuse(&format!("{text}{more}")) {
                JsonError::WrongToken { got } => assert_eq!(got, expected, "{text}{more}"),
                other => panic!("{text}{more}: {other:?}"),
            }
        }
    }
}
