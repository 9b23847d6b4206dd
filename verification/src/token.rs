//! The tokens of a JSON text, and the values that they stand for.

use crate::double::Double;
use crate::error::{ErrorModel, JsonError};
use crate::number::{
    decimal_integer, floating_point, hexadecimal_code, parse_code, parse_float, parse_integer,
};
use crate::text::{same_text, to_chars};
use vstd::prelude::*;

verus! {

/// `char::from_u32`: the character with the given code, or `None` where the code is a surrogate or
/// greater than any character's.
pub assume_specification[ char::from_u32 ](i: u32) -> (result: Option<char>)
    ensures
        result == (if i <= 0xd7ff || 0xe000 <= i <= 0x10ffff {
            Some(i as char)
        } else {
            None
        }),
;

/// The kinds of tokens that a JSON text is made of.
#[derive(Debug, Clone, Copy, PartialEq, Eq, PartialOrd, Structural)]
pub enum TokenType {
    CurvedBraceOpen,
    CurvedBraceClose,
    SquareBraceOpen,
    SquareBraceClose,
    String,
    Colon,
    Integer,
    Float,
    Bool,
    Comma,
    Null,
    EOF,
}

/// A token: its kind, and the part of the text that it is.
#[derive(Debug)]
pub struct Token<'a> {
    pub token_type: TokenType,
    pub data: &'a str,
}

/// A token with its text as a sequence of characters.
pub struct Lexeme {
    pub kind: TokenType,
    pub text: Seq<char>,
}

impl<'a> View for Token<'a> {
    type V = Lexeme;

    open spec fn view(&self) -> Lexeme {
        Lexeme { kind: self.token_type, text: self.data@ }
    }
}

/// Whether `c` is a control character, which a string holds only in escaped form.
pub open spec fn control(c: char) -> bool {
    c as u32 <= 0x1f
}

/// The character that a backslash and `c` stand for, for the escapes of two characters.
pub open spec fn short_escape(c: char) -> Option<char> {
    if c == '"' || c == '\\' || c == '/' {
        Some(c)
    } else if c == 'b' {
        Some('\u{8}')
    } else if c == 'f' {
        Some('\u{c}')
    } else if c == 'n' {
        Some('\n')
    } else if c == 'r' {
        Some('\r')
    } else if c == 't' {
        Some('\t')
    } else {
        None
    }
}

/// The character with the code that four hexadecimal digits give.
pub open spec fn code_escape(code: Seq<char>) -> Result<char, ErrorModel> {
    match hexadecimal_code(code) {
        Err(fault) => Err(ErrorModel::ParseIntError { kind: fault }),
        Ok(value) => if value <= 0xd7ff || 0xe000 <= value <= 0x10ffff {
            Ok(value as char)
        } else {
            Err(ErrorModel::InvalidEscapeCodepoint { cp: code })
        },
    }
}

/// The text `prefix`, followed by the rest where there is one.
pub open spec fn after(prefix: Seq<char>, rest: Result<Seq<char>, ErrorModel>) -> Result<
    Seq<char>,
    ErrorModel,
> {
    match rest {
        Ok(text) => Ok(prefix + text),
        Err(error) => Err(error),
    }
}

/// What stands between the quotes of a string, with its escapes replaced by the characters that they
/// stand for. A backslash at the end stands for nothing.
pub open spec fn unescaped(body: Seq<char>) -> Result<Seq<char>, ErrorModel>
    decreases body.len(),
{
    if body.len() == 0 {
        Ok(Seq::empty())
    } else if control(body[0]) {
        Err(ErrorModel::UnescapedChar { c: body[0] as u8 })
    } else if body[0] != '\\' {
        after(seq![body[0]], unescaped(body.skip(1)))
    } else if body.len() == 1 {
        Ok(Seq::empty())
    } else if control(body[1]) {
        Err(ErrorModel::UnescapedChar { c: body[1] as u8 })
    } else if short_escape(body[1]) is Some {
        after(seq![short_escape(body[1])->0], unescaped(body.skip(2)))
    } else if body[1] == 'u' && body.len() >= 6 {
        match code_escape(body.subrange(2, 6)) {
            Ok(c) => after(seq![c], unescaped(body.skip(6))),
            Err(error) => Err(error),
        }
    } else {
        Err(ErrorModel::InvalidEscapeChar { c: body[1] })
    }
}

/// The text has at least two characters, and the first and the last one are ASCII.
pub open spec fn enclosed(text: Seq<char>) -> bool {
    text.len() >= 2 && (text[0] as u32) < 128 && (text.last() as u32) < 128
}

/// The string that a token stands for.
pub open spec fn string_of(lexeme: Lexeme) -> Result<Seq<char>, ErrorModel> {
    if lexeme.kind == TokenType::String {
        unescaped(lexeme.text.subrange(1, lexeme.text.len() - 1))
    } else {
        Err(ErrorModel::WrongToken { got: lexeme.kind })
    }
}

/// The integer that a token stands for.
pub open spec fn integer_of(lexeme: Lexeme) -> Result<int, ErrorModel> {
    if lexeme.kind == TokenType::Integer {
        match decimal_integer(lexeme.text) {
            Ok(value) => Ok(value),
            Err(fault) => Err(ErrorModel::ParseIntError { kind: fault }),
        }
    } else {
        Err(ErrorModel::WrongToken { got: lexeme.kind })
    }
}

/// The floating-point number that a token stands for, as its bits.
pub open spec fn float_of(lexeme: Lexeme) -> Result<u64, ErrorModel> {
    if lexeme.kind == TokenType::Float {
        match floating_point(lexeme.text) {
            Ok(bits) => Ok(bits),
            Err(fault) => Err(ErrorModel::ParseFloatError { kind: fault }),
        }
    } else {
        Err(ErrorModel::WrongToken { got: lexeme.kind })
    }
}

/// The truth value that a token stands for.
pub open spec fn bool_of(lexeme: Lexeme) -> Result<bool, ErrorModel> {
    if lexeme.kind == TokenType::Bool {
        Ok(lexeme.text == "true"@)
    } else {
        Err(ErrorModel::WrongToken { got: lexeme.kind })
    }
}

/// Prefixes can be put on one after the other.
proof fn lemma_after_twice(a: Seq<char>, b: Seq<char>, rest: Result<Seq<char>, ErrorModel>)
    ensures
        after(a, after(b, rest)) == after(a + b, rest),
{
    if let Ok(text) = rest {
        assert(a + (b + text) =~= a + b + text);
    }
}

/// The character that a backslash and `c` stand for, for the escapes of two characters.
fn short_escape_char(c: char) -> (result: Option<char>)
    ensures
        result == short_escape(c),
{
    match c {
        '"' | '\\' | '/' => Some(c),
        'b' => Some('\u{8}'),
        'f' => Some('\u{c}'),
        'n' => Some('\n'),
        'r' => Some('\r'),
        't' => Some('\t'),
        _ => None,
    }
}

/// The character whose code the four characters from `i` on give in hexadecimal.
fn code_escape_char(chars: &Vec<char>, i: usize) -> (result: Result<char, JsonError>)
    requires
        i + 4 <= chars@.len(),
    ensures
        match result {
            Ok(c) => code_escape(chars@.subrange(i as int, i + 4)) == Ok::<char, ErrorModel>(c),
            Err(error) => code_escape(chars@.subrange(i as int, i + 4)) == Err::<char, ErrorModel>(
                error@,
            ),
        },
{
    let mut charcode: String = String::new();
    let len: usize = chars.len();
    for k in 0..4usize
        invariant
            i + 4 <= len == chars@.len(),
            charcode@ == chars@.subrange(i as int, i + k),
    {
        charcode.push(chars[i + k]);
        proof {
            assert(chars@.subrange(i as int, i + k + 1) =~= chars@.subrange(i as int, i + k).push(
                chars@[i + k],
            ));
        }
    }
    match parse_code(charcode.as_str()) {
        Err(fault) => Err(JsonError::ParseIntError { kind: fault }),
        Ok(code) => match char::from_u32(code) {
            Some(c) => Ok(c),
            None => Err(JsonError::InvalidEscapeCodepoint { cp: charcode }),
        },
    }
}

impl<'a> Token<'a> {
    /// The string that this token stands for: what is between its quotes, with the escapes replaced.
    pub fn string_value(&self) -> (result: Result<String, JsonError>)
        requires
            self.token_type == TokenType::String ==> enclosed(self.data@),
        ensures
            match result {
                Ok(text) => string_of(self@) == Ok::<Seq<char>, ErrorModel>(text@),
                Err(error) => string_of(self@) == Err::<Seq<char>, ErrorModel>(error@),
            },
    {
        if self.token_type != TokenType::String {
            return Err(JsonError::WrongToken { got: self.token_type });
        }
        let chars: Vec<char> = to_chars(self.data);
        let end: usize = chars.len() - 1;
        let ghost body = chars@.subrange(1, end as int);
        let mut res: String = String::new();
        let mut i: usize = 1;
        proof {
            assert(body.skip(0) =~= body);
            lemma_after_twice(res@, res@, unescaped(body));
            if let Ok(text) = unescaped(body) {
                assert(res@ + text =~= text);
            }
        }
        while i < end
            invariant
                1 <= i <= end,
                end + 1 == chars@.len() <= usize::MAX,
                body == chars@.subrange(1, end as int),
                string_of(self@) == unescaped(body),
                after(res@, unescaped(body.skip(i - 1))) == unescaped(body),
            decreases end - i,
        {
            let ghost rest = body.skip(i - 1);
            let ghost done = res@;
            let c: char = chars[i];
            assert(rest[0] == c);
            if c as u32 <= 0x1f {
                return Err(JsonError::UnescapedChar { c: c as u8 });
            }
            if c != '\\' {
                res.push(c);
                proof {
                    assert(rest.skip(1) =~= body.skip(i as int));
                    assert(res@ =~= done + seq![c]);
                    lemma_after_twice(done, seq![c], unescaped(rest.skip(1)));
                }
                i = i + 1;
            } else if i + 1 == end {
                proof {
                    assert(body.skip(i as int) =~= Seq::<char>::empty());
                }
                i = i + 1;
            } else {
                let e: char = chars[i + 1];
                assert(rest[1] == e);
                if e as u32 <= 0x1f {
                    return Err(JsonError::UnescapedChar { c: e as u8 });
                }
                match short_escape_char(e) {
                    Some(plain) => {
                        res.push(plain);
                        proof {
                            assert(rest.skip(2) =~= body.skip(i + 1));
                            assert(res@ =~= done + seq![plain]);
                            lemma_after_twice(done, seq![plain], unescaped(rest.skip(2)));
                        }
                        i = i + 2;
                    },
                    None => {
                        if e != 'u' || end - i < 6 {
                            return Err(JsonError::InvalidEscapeChar { c: e });
                        }
                        proof {
                            assert(rest.subrange(2, 6) =~= chars@.subrange(i + 2, i + 6));
                        }
                        match code_escape_char(&chars, i + 2) {
                            Err(error) => {
                                return Err(error);
                            },
                            Ok(plain) => {
                                res.push(plain);
                                proof {
                                    assert(rest.skip(6) =~= body.skip(i + 5));
                                    assert(res@ =~= done + seq![plain]);
                                    lemma_after_twice(done, seq![plain], unescaped(rest.skip(6)));
                                }
                                i = i + 6;
                            },
                        }
                    },
                }
            }
        }
        proof {
            assert(body.skip(i - 1) =~= Seq::<char>::empty());
            assert(res@ + Seq::<char>::empty() =~= res@);
        }
        Ok(res)
    }

    /// The integer that this token stands for.
    pub fn integer_value(&self) -> (result: Result<i64, JsonError>)
        ensures
            match result {
                Ok(value) => integer_of(self@) == Ok::<int, ErrorModel>(value as int),
                Err(error) => integer_of(self@) == Err::<int, ErrorModel>(error@),
            },
    {
        if self.token_type != TokenType::Integer {
            return Err(JsonError::WrongToken { got: self.token_type });
        }
        match parse_integer(self.data) {
            Ok(value) => Ok(value),
            Err(fault) => Err(JsonError::ParseIntError { kind: fault }),
        }
    }

    /// The floating-point number that this token stands for.
    pub fn float_value(&self) -> (result: Result<Double, JsonError>)
        ensures
            match result {
                Ok(number) => float_of(self@) == Ok::<u64, ErrorModel>(number@),
                Err(error) => float_of(self@) == Err::<u64, ErrorModel>(error@),
            },
    {
        if self.token_type != TokenType::Float {
            return Err(JsonError::WrongToken { got: self.token_type });
        }
        match parse_float(self.data) {
            Ok(number) => Ok(number),
            Err(fault) => Err(JsonError::ParseFloatError { kind: fault }),
        }
    }

    /// The truth value that this token stands for.
    pub fn bool_value(&self) -> (result: Result<bool, JsonError>)
        requires
            self.token_type == TokenType::Bool ==> self.data@ == "true"@ || self.data@ == "false"@,
        ensures
            match result {
                Ok(value) => bool_of(self@) == Ok::<bool, ErrorModel>(value),
                Err(error) => bool_of(self@) == Err::<bool, ErrorModel>(error@),
            },
    {
        if self.token_type != TokenType::Bool {
            return Err(JsonError::WrongToken { got: self.token_type });
        }
        Ok(same_text(self.data, "true"))
    }
}

} // verus!
