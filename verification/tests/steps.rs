use std::collections::HashMap;

use ccjson::{JsonError, JsonValue, Token, TokenType};

/// A value with its floating-point numbers as such, and its objects as hash maps.
#[derive(Debug, PartialEq)]
enum Value {
    String(String),
    Integer(i64),
    Float(f64),
    Object(HashMap<String, Value>),
    Array(Vec<Value>),
    Boolean(bool),
    Null,
}

fn evaluate(value: JsonValue) -> Value {
    match value {
        JsonValue::String(text) => Value::String(text),
        JsonValue::Integer(number) => Value::Integer(number),
        JsonValue::Float(number) => Value::Float(f64::from_bits(number.bits)),
        JsonValue::Object(members) => Value::Object(
            members
                .into_entries()
                .into_iter()
                .map(|(key, value)| (key, evaluate(value)))
                .collect(),
        ),
        JsonValue::Array(items) => Value::Array(items.into_iter().map(evaluate).collect()),
        JsonValue::Boolean(truth) => Value::Boolean(truth),
        JsonValue::Null => Value::Null,
    }
}

fn read(text: &str) -> Value {
    evaluate(JsonValue::build_from_string(text).unwrap())
}

fn refuse(text: &str) -> JsonError {
    let error = JsonValue::build_from_string(text).unwrap_err();
    println!("{}", error.message());
    error
}

#[test]
pub fn test_step1_invalid() {
    assert!(matches!(refuse(""), JsonError::EmptyFile));
}

#[test]
pub fn test_step1_valid() {
    assert_eq!(read("{}\n"), Value::Object(HashMap::new()));
}

#[test]
pub fn test_step2_invalid() {
    assert!(matches!(
        refuse("{\"key\": \"value\",}"),
        JsonError::WrongToken {
            got: TokenType::Comma
        }
    ));
}

#[test]
pub fn test_step2_invalid2() {
    assert!(matches!(
        refuse("{\n  \"key\": \"value\",\n  key2: \"value\"\n}"),
        JsonError::WrongKeyword(_)
    ));
}

#[test]
pub fn test_step2_valid() {
    assert_eq!(
        read("{\"key\": \"value\"}"),
        Value::Object(HashMap::from([(
            "key".to_string(),
            Value::String("value".to_string())
        )]))
    );
}

#[test]
pub fn test_step2_valid2() {
    assert_eq!(
        read("{\n  \"key\": \"value\",\n  \"key2\": \"value\"\n}"),
        Value::Object(HashMap::from([
            ("key".to_string(), Value::String("value".to_string())),
            ("key2".to_string(), Value::String("value".to_string()))
        ]))
    );
}

#[test]
pub fn test_step3_invalid() {
    let text = r#"{
  "key1": true,
  "key2": False,
  "key3": null,
  "key4": "value",
  "key5": 101
}"#;
    assert_eq!(refuse(text).message(), "Invalid keyword: \"False\"");
}

#[test]
pub fn test_step3_valid() {
    let text = r#"{
  "key1": true,
  "key2": false,
  "key3": null,
  "key4": "value",
  "key5": 101
}"#;
    assert_eq!(
        read(text),
        Value::Object(HashMap::from([
            ("key1".to_string(), Value::Boolean(true)),
            ("key2".to_string(), Value::Boolean(false)),
            ("key3".to_string(), Value::Null),
            ("key4".to_string(), Value::String("value".to_string())),
            ("key5".to_string(), Value::Integer(101)),
        ]))
    );
}

#[test]
pub fn test_float_parsing() {
    for s in vec![
        "0.0",
        "-123.123",
        "-0.123",
        "-10e10",
        "15.0123e000",
        "15.0213e+12",
        "12.3231e-0004",
    ] {
        let t = Token {
            token_type: TokenType::Float,
            data: s,
        };

        let res: f64 = f64::from_bits(t.float_value().unwrap().bits);
        assert_eq!(res, s.parse().unwrap());

        println!("Passed: {s} -> {res}");
    }
}

#[test]
pub fn test_step4_invalid() {
    let text = r#"{
  "key": "value",
  "key-n": 101,
  "key-o": {
    "inner key": "inner value"
  },
  "key-l": ['list value']
}"#;
    assert_eq!(refuse(text).message(), "Invalid keyword: \"'list value'\"");
}

#[test]
pub fn test_step4_valid() {
    let text = r#"{
  "key": "value",
  "key-n": 101,
  "key-o": {},
  "key-l": []
}"#;
    assert_eq!(
        read(text),
        Value::Object(HashMap::from([
            ("key".to_string(), Value::String("value".to_string())),
            ("key-n".to_string(), Value::Integer(101)),
            ("key-o".to_string(), Value::Object(HashMap::new())),
            ("key-l".to_string(), Value::Array(Vec::new())),
        ]))
    );
}

#[test]
pub fn test_step4_valid2() {
    let text = r#"{
  "key": "value",
  "key-n": 101,
  "key-o": {
    "inner key": "inner value"
  },
  "key-l": ["list value"]
}"#;
    assert_eq!(
        read(text),
        Value::Object(HashMap::from([
            ("key".to_string(), Value::String("value".to_string())),
            ("key-n".to_string(), Value::Integer(101)),
            (
                "key-o".to_string(),
                Value::Object(HashMap::from([((
                    "inner key".to_string(),
                    Value::String("inner value".to_string())
                ))]))
            ),
            (
                "key-l".to_string(),
                Value::Array(vec![Value::String("list value".to_string())])
            ),
        ]))
    );
}

#[test]
fn invalid_texts_are_refused() {
    for text in [
        r#""A JSON payload should be an object or array, not a string.""#,
        r#"["Unclosed array""#,
        r#"{unquoted_key: "keys must be quoted"}"#,
        r#"["extra comma",]"#,
        r#"["double extra comma",,]"#,
        r#"[   , "<-- missing value"]"#,
        r#"["Comma after the close"],"#,
        r#"["Extra close"]]"#,
        r#"{"Extra comma": true,}"#,
        r#"{"Extra value after close": true} "misplaced quoted value""#,
        r#"{"Illegal expression": 1 + 2}"#,
        r#"{"Illegal invocation": alert()}"#,
        r#"{"Numbers cannot have leading zeroes": 013}"#,
        r#"{"Numbers cannot be hex": 0x14}"#,
        r#"["Illegal backslash escape: \x15"]"#,
        r#"[\naked]"#,
        r#"["Illegal backslash escape: \017"]"#,
        r#"[[[[[[[[[[[[[[[[[[[["Too deep"]]]]]]]]]]]]]]]]]]]]"#,
        r#"{"Missing colon" null}"#,
        r#"{"Double colon":: null}"#,
        r#"{"Comma instead of colon", null}"#,
        r#"["Colon instead of comma": false]"#,
        r#"["Bad value", truth]"#,
        r#"['single quote']"#,
        "[\"\ttab\tcharacter\tin\tstring\t\"]",
        r#"["tab\   character\   in\  string\  "]"#,
        "[\"line\nbreak\"]",
        "[\"line\\\nbreak\"]",
        "[0e]",
        "[0e+]",
        "[0e+-1]",
        r#"{"Comma instead if closing brace": true,"#,
        r#"["mismatch"}"#,
    ] {
        refuse(text);
    }
}

#[test]
pub fn test_step5_pass1() {
    let text = r##"[
    "JSON Test Pattern pass1",
    {"object with 1 member":["array with 1 element"]},
    {},
    [],
    -42,
    true,
    false,
    null,
    {
        "integer": 1234567890,
        "real": -9876.543210,
        "e": 0.123456789e-12,
        "E": 1.234567890E+34,
        "":  23456789012E66,
        "zero": 0,
        "one": 1,
        "space": " ",
        "quote": "\"",
        "backslash": "\\",
        "controls": "\b\f\n\r\t",
        "slash": "/ & \/",
        "alpha": "abcdefghijklmnopqrstuvwyz",
        "ALPHA": "ABCDEFGHIJKLMNOPQRSTUVWYZ",
        "digit": "0123456789",
        "0123456789": "digit",
        "special": "`1~!@#$%^&*()_+-={':[,]}|;.</>?",
        "hex": "\u0123\u4567\u89AB\uCDEF\uabcd\uef4A",
        "true": true,
        "false": false,
        "null": null,
        "array":[  ],
        "object":{  },
        "address": "50 St. James Street",
        "url": "http://www.JSON.org/",
        "comment": "// /* <!-- --",
        "# -- --> */": " ",
        " s p a c e d " :[1,2 , 3

,

4 , 5        ,          6           ,7        ],"compact":[1,2,3,4,5,6,7],
        "jsontext": "{\"object with 1 member\":[\"array with 1 element\"]}",
        "quotes": "&#34; \u0022 %22 0x22 034 &#x22;",
        "\/\\\"\uCAFE\uBABE\uAB98\uFCDE\ubcda\uef4A\b\f\n\r\t`1~!@#$%^&*()_+-=[]{}|;:',./<>?"
: "A key can be any string"
    },
    0.5 ,98.6
,
99.44
,

1066,
1e1,
0.1e1,
1e-1,
1e00,2e+00,2e-00
,"rosebud"]"##;

    let value = Value::Array(vec![
        Value::String("JSON Test Pattern pass1".to_string()),
        Value::Object(HashMap::from([(
            "object with 1 member".to_string(),
            Value::Array(vec![Value::String("array with 1 element".to_string())]),
        )])),
        Value::Object(HashMap::new()),
        Value::Array(vec![]),
        Value::Integer(-42),
        Value::Boolean(true),
        Value::Boolean(false),
        Value::Null,
        Value::Object(HashMap::from([
            ("integer".to_string(), Value::Integer(1234567890)),
            ("real".to_string(), Value::Float(-9876.543210)),
            ("e".to_string(), Value::Float(0.123456789e-12)),
            ("E".to_string(), Value::Float(1.234567890E+34)),
            ("".to_string(), Value::Float(23456789012E66)),
            ("zero".to_string(), Value::Integer(0)),
            ("one".to_string(), Value::Integer(1)),
            ("space".to_string(), Value::String(" ".to_string())),
            ("quote".to_string(), Value::String("\"".to_string())),
            ("backslash".to_string(), Value::String("\\".to_string())),
            ("controls".to_string(), Value::String("\u{0008}\u{000C}\n\r\t".to_string())),
            ("slash".to_string(), Value::String("/ & /".to_string())),
            ("alpha".to_string(), Value::String("abcdefghijklmnopqrstuvwyz".to_string())),
            ("ALPHA".to_string(), Value::String("ABCDEFGHIJKLMNOPQRSTUVWYZ".to_string())),
            ("digit".to_string(), Value::String("0123456789".to_string())),
            ("0123456789".to_string(), Value::String("digit".to_string())),
            ("special".to_string(), Value::String("`1~!@#$%^&*()_+-={':[,]}|;.</>?".to_string())),
            (
                "hex".to_string(),
                Value::String("\u{0123}\u{4567}\u{89AB}\u{CDEF}\u{ABCD}\u{EF4A}".to_string()),
            ),
            ("true".to_string(), Value::Boolean(true)),
            ("false".to_string(), Value::Boolean(false)),
            ("null".to_string(), Value::Null),
            ("array".to_string(), Value::Array(vec![])),
            ("object".to_string(), Value::Object(HashMap::new())),
            ("address".to_string(), Value::String("50 St. James Street".to_string())),
            ("url".to_string(), Value::String("http://www.JSON.org/".to_string())),
            ("comment".to_string(), Value::String("// /* <!-- --".to_string())),
            ("# -- --> */".to_string(), Value::String(" ".to_string())),
            (
                " s p a c e d ".to_string(),
                Value::Array(vec![
                    Value::Integer(1),
                    Value::Integer(2),
                    Value::Integer(3),
                    Value::Integer(4),
                    Value::Integer(5),
                    Value::Integer(6),
                    Value::Integer(7),
                ]),
            ),
            (
                "compact".to_string(),
                Value::Array(vec![
                    Value::Integer(1),
                    Value::Integer(2),
                    Value::Integer(3),
                    Value::Integer(4),
                    Value::Integer(5),
                    Value::Integer(6),
                    Value::Integer(7),
                ]),
            ),
            (
                "jsontext".to_string(),
                Value::String("{\"object with 1 member\":[\"array with 1 element\"]}".to_string()),
            ),
            (
                "quotes".to_string(),
                Value::String("&#34; \" %22 0x22 034 &#x22;".to_string()),
            ),
            (
                "/\\\"\u{CAFE}\u{BABE}\u{AB98}\u{FCDE}\u{BCDA}\u{EF4A}\u{0008}\u{000C}\n\r\t`1~!@#$%^&*()_+-=[]{}|;:',./<>?"
                    .to_string(),
                Value::String("A key can be any string".to_string()),
            ),
        ])),
        Value::Float(0.5),
        Value::Float(98.6),
        Value::Float(99.44),
        Value::Integer(1066),
        Value::Float(1e1),
        Value::Float(0.1e1),
        Value::Float(1e-1),
        Value::Float(1e00),
        Value::Float(2e+00),
        Value::Float(2e-00),
        Value::String("rosebud".to_string()),
    ]);

    assert_eq!(read(text), value);
}

#[test]
fn test_step5_pass2() {
    let value = Value::Array(vec![Value::Array(vec![Value::Array(vec![Value::Array(vec![Value::Array(vec![
        Value::Array(vec![Value::Array(vec![Value::Array(vec![Value::Array(vec![Value::Array(vec![
            Value::Array(vec![Value::Array(vec![Value::Array(vec![Value::Array(vec![Value::Array(vec![
                Value::Array(vec![Value::Array(vec![Value::Array(vec![Value::Array(vec![Value::String(
                    "Not too deep".to_string(),
                )])])])]),
            ])])])])]),
        ])])])])]),
    ])])])])]);

    assert_eq!(
        read(r#"[[[[[[[[[[[[[[[[[[["Not too deep"]]]]]]]]]]]]]]]]]]]"#),
        value
    );
}

#[test]
fn test_step5_pass3() {
    let text = r#"{
    "JSON Test Pattern pass3": {
        "The outermost value": "must be an object or array.",
        "In this test": "It is an object."
    }
}
"#;

    let value = Value::Object(HashMap::from([(
        "JSON Test Pattern pass3".to_string(),
        Value::Object(HashMap::from([
            (
                "The outermost value".to_string(),
                Value::String("must be an object or array.".to_string()),
            ),
            (
                "In this test".to_string(),
                Value::String("It is an object.".to_string()),
            ),
        ])),
    )]));

    assert_eq!(read(text), value);
}
