//! What can be wrong with a JSON text, and how it is told.

use crate::number::{FloatFault, IntegerFault};
use crate::token::TokenType;
use vstd::prelude::*;
use vstd::string::StringExecFns;

verus! {

/// Objects and arrays nested this deep or deeper are an error.
pub const MAX_DEPTH: u8 = 20;

/// What is wrong with a JSON text.
#[derive(Debug)]
#[allow(inconsistent_fields)]
pub enum JsonError {
    WrongToken { got: TokenType },
    ParsingError { line: usize, col: usize },
    TokenParsingError { cause: &'static str, data: String },
    MultipleKeys(String),
    WrongKeyword(String),
    InvalidEscapeChar { c: char },
    InvalidEscapeCodepoint { cp: String },
    UnescapedChar { c: u8 },
    MaxDepthExceeded,
    EmptyFile,
    ParseIntError { kind: IntegerFault },
    ParseFloatError { kind: FloatFault },
}

/// A `JsonError` with its texts as sequences of characters.
#[allow(inconsistent_fields)]
pub enum ErrorModel {
    WrongToken { got: TokenType },
    ParsingError { line: usize, col: usize },
    TokenParsingError { cause: Seq<char>, data: Seq<char> },
    MultipleKeys(Seq<char>),
    WrongKeyword(Seq<char>),
    InvalidEscapeChar { c: char },
    InvalidEscapeCodepoint { cp: Seq<char> },
    UnescapedChar { c: u8 },
    MaxDepthExceeded,
    EmptyFile,
    ParseIntError { kind: IntegerFault },
    ParseFloatError { kind: FloatFault },
}

impl View for JsonError {
    type V = ErrorModel;

    open spec fn view(&self) -> ErrorModel {
        match *self {
            JsonError::WrongToken { got } => ErrorModel::WrongToken { got },
            JsonError::ParsingError { line, col } => ErrorModel::ParsingError { line, col },
            JsonError::TokenParsingError { cause, data } => ErrorModel::TokenParsingError {
                cause: cause@,
                data: data@,
            },
            JsonError::MultipleKeys(key) => ErrorModel::MultipleKeys(key@),
            JsonError::WrongKeyword(keyword) => ErrorModel::WrongKeyword(keyword@),
            JsonError::InvalidEscapeChar { c } => ErrorModel::InvalidEscapeChar { c },
            JsonError::InvalidEscapeCodepoint { cp } => ErrorModel::InvalidEscapeCodepoint {
                cp: cp@,
            },
            JsonError::UnescapedChar { c } => ErrorModel::UnescapedChar { c },
            JsonError::MaxDepthExceeded => ErrorModel::MaxDepthExceeded,
            JsonError::EmptyFile => ErrorModel::EmptyFile,
            JsonError::ParseIntError { kind } => ErrorModel::ParseIntError { kind },
            JsonError::ParseFloatError { kind } => ErrorModel::ParseFloatError { kind },
        }
    }
}

/// The digit, in capital letters beyond 9, that stands for `value`.
pub open spec fn digit_char(value: nat) -> char {
    if value < 10 {
        ('0' as u32 + value) as char
    } else {
        ('A' as u32 + value - 10) as char
    }
}

/// `value` written out in the given radix, without leading zeros.
pub open spec fn written(value: nat, radix: nat) -> Seq<char>
    decreases value,
{
    if value < radix || radix < 2 {
        seq![digit_char(value)]
    } else {
        proof {
            assert(value / radix < value) by (nonlinear_arith)
                requires
                    2 <= radix <= value,
            ;
        }
        written(value / radix, radix).push(digit_char(value % radix))
    }
}

/// The name of a kind of token.
pub open spec fn token_name(kind: TokenType) -> Seq<char> {
    match kind {
        TokenType::CurvedBraceOpen => "CurvedBraceOpen"@,
        TokenType::CurvedBraceClose => "CurvedBraceClose"@,
        TokenType::SquareBraceOpen => "SquareBraceOpen"@,
        TokenType::SquareBraceClose => "SquareBraceClose"@,
        TokenType::String => "String"@,
        TokenType::Colon => "Colon"@,
        TokenType::Integer => "Integer"@,
        TokenType::Float => "Float"@,
        TokenType::Bool => "Bool"@,
        TokenType::Comma => "Comma"@,
        TokenType::Null => "Null"@,
        TokenType::EOF => "EOF"@,
    }
}

/// The message that tells an error.
pub open spec fn message_text(error: ErrorModel) -> Seq<char> {
    match error {
        ErrorModel::WrongToken { got } => "Wrong token: got "@ + token_name(got),
        ErrorModel::ParsingError { line, col } => "Parsing error at "@ + written(line as nat, 10)
            + ":"@ + written(col as nat, 10),
        ErrorModel::TokenParsingError { cause, data } => "Token parsing error: "@ + cause + " on: "@
            + data,
        ErrorModel::MultipleKeys(key) => "Cannot have multiple keys: \""@ + key + "\""@,
        ErrorModel::WrongKeyword(keyword) => "Invalid keyword: \""@ + keyword + "\""@,
        ErrorModel::InvalidEscapeChar { c } => "Invalid escape char: \"\\"@ + seq![c] + "\""@,
        ErrorModel::InvalidEscapeCodepoint { cp } => "Invalid escape codepoint: 0x"@ + cp,
        ErrorModel::MaxDepthExceeded => "Max depth of "@ + written(MAX_DEPTH as nat, 10)
            + " nested objects/arrays exceeded"@,
        ErrorModel::UnescapedChar { c } => "Unescaped char 0x"@ + written(c as nat, 16),
        ErrorModel::EmptyFile => "Empty file!"@,
        ErrorModel::ParseIntError { kind } => match kind {
            IntegerFault::Empty => "cannot parse integer from empty string"@,
            IntegerFault::InvalidDigit => "invalid digit found in string"@,
            IntegerFault::PosOverflow => "number too large to fit in target type"@,
            IntegerFault::NegOverflow => "number too small to fit in target type"@,
        },
        ErrorModel::ParseFloatError { kind } => match kind {
            FloatFault::Empty => "cannot parse float from empty string"@,
            FloatFault::Invalid => "invalid float literal"@,
        },
    }
}

/// Appends `value`, written out in the given radix, to `out`.
fn append_written(out: &mut String, value: usize, radix: usize)
    requires
        2 <= radix <= 16,
    ensures
        final(out)@ == old(out)@ + written(value as nat, radix as nat),
    decreases value,
{
    assert(0 <= value % radix < radix && (radix <= value ==> value / radix < value) && (value < radix
        ==> value % radix == value)) by (nonlinear_arith)
        requires
            2 <= radix,
    ;
    let low: usize = value % radix;
    if value >= radix {
        append_written(out, value / radix, radix);
    }
    let digit: char = if low < 10 {
        (48 + low as u8) as char
    } else {
        (65 + (low as u8 - 10)) as char
    };
    out.push(digit);
}

fn name_of(kind: TokenType) -> (result: &'static str)
    ensures
        result@ == token_name(kind),
{
    match kind {
        TokenType::CurvedBraceOpen => "CurvedBraceOpen",
        TokenType::CurvedBraceClose => "CurvedBraceClose",
        TokenType::SquareBraceOpen => "SquareBraceOpen",
        TokenType::SquareBraceClose => "SquareBraceClose",
        TokenType::String => "String",
        TokenType::Colon => "Colon",
        TokenType::Integer => "Integer",
        TokenType::Float => "Float",
        TokenType::Bool => "Bool",
        TokenType::Comma => "Comma",
        TokenType::Null => "Null",
        TokenType::EOF => "EOF",
    }
}

impl JsonError {
    /// The message that tells this error.
    pub fn message(&self) -> (result: String)
        ensures
            result@ == message_text(self@),
    {
        let mut out: String = String::new();
        match self {
            JsonError::WrongToken { got } => {
                out.append("Wrong token: got ");
                out.append(name_of(*got));
            },
            JsonError::ParsingError { line, col } => {
                out.append("Parsing error at ");
                append_written(&mut out, *line, 10);
                out.append(":");
                append_written(&mut out, *col, 10);
            },
            JsonError::TokenParsingError { cause, data } => {
                out.append("Token parsing error: ");
                out.append(cause);
                out.append(" on: ");
                out.append(data.as_str());
            },
            JsonError::MultipleKeys(key) => {
                out.append("Cannot have multiple keys: \"");
                out.append(key.as_str());
                out.append("\"");
            },
            JsonError::WrongKeyword(keyword) => {
                out.append("Invalid keyword: \"");
                out.append(keyword.as_str());
                out.append("\"");
            },
            JsonError::InvalidEscapeChar { c } => {
                out.append("Invalid escape char: \"\\");
                out.push(*c);
                out.append("\"");
            },
            JsonError::InvalidEscapeCodepoint { cp } => {
                out.append("Invalid escape codepoint: 0x");
                out.append(cp.as_str());
            },
            JsonError::MaxDepthExceeded => {
                out.append("Max depth of ");
                append_written(&mut out, MAX_DEPTH as usize, 10);
                out.append(" nested objects/arrays exceeded");
            },
            JsonError::UnescapedChar { c } => {
                out.append("Unescaped char 0x");
                append_written(&mut out, *c as usize, 16);
            },
            JsonError::EmptyFile => {
                out.append("Empty file!");
            },
            JsonError::ParseIntError { kind } => {
                out.append(
                    match kind {
                        IntegerFault::Empty => "cannot parse integer from empty string",
                        IntegerFault::InvalidDigit => "invalid digit found in string",
                        IntegerFault::PosOverflow => "number too large to fit in target type",
                        IntegerFault::NegOverflow => "number too small to fit in target type",
                    },
                );
            },
            JsonError::ParseFloatError { kind } => {
                out.append(
                    match kind {
                        FloatFault::Empty => "cannot parse float from empty string",
                        FloatFault::Invalid => "invalid float literal",
                    },
                );
            },
        }
        proof {
            assert(out@ =~= message_text(self@));
        }
        out
    }
}

} // verus!
