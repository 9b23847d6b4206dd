use std::num::IntErrorKind;

use ccjson::double::Double;
use ccjson::number::{parse_code, parse_float, parse_integer, FloatFault, IntegerFault};
use ccjson::text::{char_width, is_whitespace, same_text, to_chars, trim_end};
use ccjson::{JsonError, JsonValue, TokenType};

fn fault_of(kind: &IntErrorKind) -> IntegerFault {
    match kind {
        IntErrorKind::Empty => IntegerFault::Empty,
        IntErrorKind::InvalidDigit => IntegerFault::InvalidDigit,
        IntErrorKind::PosOverflow => IntegerFault::PosOverflow,
        IntErrorKind::NegOverflow => IntegerFault::NegOverflow,
        _ => unreachable!(),
    }
}

#[test]
fn integers_are_parsed_as_std_does() {
    for text in [
        "",
        "0",
        "-0",
        "+0",
        "1",
        "-1",
        "+17",
        "-",
        "+",
        "--1",
        "+-1",
        "00012",
        "9223372036854775807",
        "9223372036854775808",
        "-9223372036854775808",
        "-9223372036854775809",
        "99999999999999999999999999x",
        "x99999999999999999999999999",
        "12a",
        " 1",
        "1 ",
        "1_000",
        "\u{0663}",
        "é",
    ] {
        match text.parse::<i64>() {
            Ok(value) => assert_eq!(parse_integer(text), Ok(value), "{text}"),
            Err(error) => assert_eq!(parse_integer(text), Err(fault_of(error.kind())), "{text}"),
        }
    }
    assert_eq!(parse_integer("-42"), Ok(-42));
    assert_eq!(parse_integer(""), Err(IntegerFault::Empty));
}

#[test]
fn codes_are_parsed_as_std_does() {
    for text in [
        "", "0", "+0", "-0", "-", "+", "0041", "00e9", "00E9", "+041", "-041", "ffff", "FFFF",
        "fffff", "ffffffff", "100000000", "g", "00g0", "0x10", " 041", "é",
    ] {
        match u32::from_str_radix(text, 16) {
            Ok(value) => assert_eq!(parse_code(text), Ok(value), "{text}"),
            Err(error) => assert_eq!(parse_code(text), Err(fault_of(error.kind())), "{text}"),
        }
    }
    assert_eq!(parse_code("CAFE"), Ok(0xcafe));
}

fn assert_parsed_as_std_does(text: &str) {
    match text.parse::<f64>() {
        Ok(number) => {
            assert_eq!(parse_float(text).unwrap().bits, number.to_bits(), "{text}");
        }
        Err(_) => assert!(parse_float(text).is_err(), "{text}"),
    }
}

#[test]
fn float_literals_are_those_of_std() {
    for text in [
        "", "0", "0.0", ".", "1.", ".5", "-.5", "+1.5", "-", "+", "e", "1e", "1e+", "1e+-1", "1e5",
        "1E-5", "1.5e10", "1.5e", "1..5", "1.5.5", "inf", "-inf", "+INF", "Infinity", "nan", "NaN",
        "-NAN", "infinit", "nanx", "0x10", "1_0", " 1.0", "1.0 ", "\u{0661}.5", "1e400", "-0.0",
        ".e1", "5.e1", "1e 5", "é",
    ] {
        assert_parsed_as_std_does(text);
    }
    assert_eq!(parse_float(""), Err(FloatFault::Empty));
    assert_eq!(parse_float("1.x"), Err(FloatFault::Invalid));
    assert_eq!(parse_float("-1.5").unwrap().bits, 0xbff8_0000_0000_0000);
}

#[test]
fn floats_are_rounded_as_std_does() {
    for text in [
        "0.1",
        "0.3",
        "98.6",
        "-9876.543210",
        "1e23",
        "8.5e22",
        "123456789012345678901234567890",
        // in the middle between two numbers, and next to it
        "9007199254740992",
        "9007199254740993",
        "9007199254740993.00000000000000000000000000000000000001",
        "9007199254740992.99999999999999999999999999999999999999",
        "9007199254740995",
        // the least numbers above nought
        "5e-324",
        "4.9e-324",
        "2.4703282292062328e-324",
        "2.4703282292062327e-324",
        "2.4703282292062327208299698876423773e-324",
        "2.2250738585072014e-308",
        "2.2250738585072011e-308",
        "1e-323",
        "1e-325",
        "1e-400",
        // the greatest
        "1.7976931348623157e308",
        "1.7976931348623158e308",
        "1.7976931348623159e308",
        "179769313486231580793e289",
        "-1e309",
        "1e308",
        // exponents that no machine word holds, and digits that outweigh them
        "1e99999999999999999999999999999999999999999999999999",
        "1e-99999999999999999999999999999999999999999999999999",
        "0e99999999999999999999999999999999999999999999999999",
        "-0.000e-5",
        "00000000000000000000000000000000000000000000000001.5e0000000000000000000000000000000000002",
    ] {
        assert_parsed_as_std_does(text);
    }
    let zeros = "0".repeat(400);
    assert_parsed_as_std_does(&format!("0.{zeros}123456789e401"));
    assert_parsed_as_std_does(&format!("123{zeros}e-400"));
    assert_parsed_as_std_does(&format!("1.{zeros}1"));
    let mut seed: u64 = 0x9e37_79b9_7f4a_7c15;
    for _ in 0..150 {
        seed = seed.wrapping_mul(6364136223846793005).wrapping_add(1442695040888963407);
        let exponent = (seed >> 33) as i64 % 660 - 345;
        assert_parsed_as_std_does(&format!("{}.{}e{exponent}", seed >> 40, seed % 1_000_000_007));
        // what is printed of a number is read back as that number
        let number = f64::from_bits(seed >> 1);
        if number.is_finite() {
            assert_eq!(parse_float(&format!("{number:e}")).unwrap().bits, number.to_bits());
        }
    }
}

#[test]
fn floats_are_equal_as_those_of_std() {
    for a in ["0.0", "-0.0", "1.0", "1.00", "10e-1", "0.1", "1e400", "1e500", "-inf", "nan"] {
        for b in ["0.0", "-0.0", "1.0", "-1.0", "0.10", "inf", "-1e400", "NaN", "1e-400"] {
            let x: f64 = a.parse().unwrap();
            let y: f64 = b.parse().unwrap();
            assert_eq!(parse_float(a) == parse_float(b), x == y, "{a} {b}");
        }
    }
    assert_ne!(Double { bits: u64::MAX }, Double { bits: u64::MAX });
}

#[test]
fn fault_messages_are_those_of_std() {
    for text in ["", "x", "9223372036854775808", "-9223372036854775809"] {
        let fault = parse_integer(text).unwrap_err();
        let expected = text.parse::<i64>().unwrap_err().to_string();
        assert_eq!(JsonError::ParseIntError { kind: fault }.message(), expected);
        let shown = format!("{:?}", text.parse::<i64>().unwrap_err());
        assert_eq!(format!("{:?}", JsonError::ParseIntError { kind: fault }), shown);
    }
    for text in ["", "x"] {
        let fault = parse_float(text).unwrap_err();
        let expected = text.parse::<f64>().unwrap_err().to_string();
        assert_eq!(JsonError::ParseFloatError { kind: fault }.message(), expected);
        let shown = format!("{:?}", text.parse::<f64>().unwrap_err());
        assert_eq!(format!("{:?}", JsonError::ParseFloatError { kind: fault }), shown);
    }
}

#[test]
fn words_are_classified() {
    for (word, kind) in [
        ("true", TokenType::Bool),
        ("false", TokenType::Bool),
        ("null", TokenType::Null),
        ("0", TokenType::Integer),
        ("-0", TokenType::Integer),
        ("-17", TokenType::Integer),
        ("123456789012345678901234567890", TokenType::Integer),
        ("0.5", TokenType::Float),
        ("-1.50", TokenType::Float),
        ("1.5e7", TokenType::Float),
        ("1.5E+07", TokenType::Float),
        ("1e7", TokenType::Float),
        ("0E-0", TokenType::Float),
        ("1\u{0663}", TokenType::Integer),
        ("1.\u{0663}", TokenType::Float),
    ] {
        assert_eq!(JsonValue::process_value(word).unwrap(), kind, "{word}");
    }
    for word in [
        "", "True", "nul", "nulll", "01", "-", "--1", "+1", "1.", ".5", "1.e5", "1e", "1e+",
        "1e+-1", "1.5.5", "0x10", "1 2", "1\n", "\u{0663}", "1\u{00bd}", "'a'",
    ] {
        match JsonValue::process_value(word) {
            Err(JsonError::WrongKeyword(keyword)) => assert_eq!(keyword, word),
            other => panic!("{word}: {other:?}"),
        }
    }
}

#[test]
fn whitespace_is_that_of_std() {
    for code in 0..=0x10ffff_u32 {
        if let Some(c) = char::from_u32(code) {
            assert_eq!(is_whitespace(c), c.is_whitespace(), "{code:x}");
            assert_eq!(char_width(c), c.len_utf8(), "{code:x}");
        }
    }
}

#[test]
fn texts_are_trimmed_and_compared() {
    for text in ["", " ", "a", " a ", "a b\t\n", "é\u{3000}\u{a0}", "\u{2003}", "x\u{200b}"] {
        assert_eq!(trim_end(text), text.trim_end());
        assert_eq!(to_chars(text), text.chars().collect::<Vec<char>>());
    }
    assert!(same_text("aé", "aé"));
    assert!(!same_text("aé", "ae"));
    assert!(!same_text("a", "aé"));
}
