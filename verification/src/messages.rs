//! How errors are told.

use crate::error::{message_text, token_name, written, ErrorModel, JsonError};
use crate::literals::{amount, figures, law_amount_grows_by_digit};
use crate::number::{FloatFault, IntegerFault};
use crate::strings::symbol_value;
use crate::token::TokenType;
use vstd::prelude::*;

verus! {

/// A number in a message is written with the digits that it is worth, in capital letters beyond `9`, and
/// without noughts before them.
pub proof fn law_numbers_are_written_with_their_digits(n: nat, radix: nat)
    requires
        radix == 10 || radix == 16,
    ensures
        written(n, radix).len() > 0,
        figures(written(n, radix), radix),
        forall|i: int|
            0 <= i < written(n, radix).len() ==> !('a' <= #[trigger] written(n, radix)[i] <= 'z'),
        amount(written(n, radix), radix) == n,
        n > 0 ==> written(n, radix)[0] != '0',
        n == 0 ==> written(n, radix) == seq!['0'],
    decreases n,
{
    let text = written(n, radix);
    if n < radix {
        let c = text[0];
        assert(text == seq![c]);
        law_amount_grows_by_digit(Seq::empty(), radix, c);
        assert(Seq::<char>::empty().push(c) =~= text);
        assert(radix * amount(Seq::empty(), radix) == 0) by (nonlinear_arith)
            requires
                amount(Seq::empty(), radix) == 0,
        ;
        assert(symbol_value(c) == n);
    } else if radix == 10 {
        law_numbers_are_written_with_their_digits(n / 10, 10);
        lemma_one_more_digit(written(n / 10, 10), radix, text.last(), text);
    } else {
        law_numbers_are_written_with_their_digits(n / 16, 16);
        lemma_one_more_digit(written(n / 16, 16), radix, text.last(), text);
    }
}

proof fn lemma_one_more_digit(high: Seq<char>, radix: nat, c: char, text: Seq<char>)
    requires
        text == high.push(c),
        high.len() > 0,
        figures(high, radix),
        forall|i: int| 0 <= i < high.len() ==> !('a' <= #[trigger] high[i] <= 'z'),
        symbol_value(c) < radix,
        !('a' <= c <= 'z'),
    ensures
        figures(text, radix),
        forall|i: int| 0 <= i < text.len() ==> !('a' <= #[trigger] text[i] <= 'z'),
        text[0] == high[0],
        amount(text, radix) == radix * amount(high, radix) + symbol_value(c),
{
    assert forall|i: int| 0 <= i < text.len() implies symbol_value(#[trigger] text[i]) < radix && !(
    'a' <= text[i] <= 'z') by {
        if i < high.len() {
            assert(text[i] == high[i]);
            assert(symbol_value(high[i]) < radix);
        }
    }
    law_amount_grows_by_digit(high, radix, c);
}

/// Tokens of different kinds have different names.
pub proof fn law_names_tell_kinds_apart(a: TokenType, b: TokenType)
    ensures
        token_name(a) == token_name(b) <==> a == b,
{
    reveal_strlit("CurvedBraceOpen");
    reveal_strlit("CurvedBraceClose");
    reveal_strlit("SquareBraceOpen");
    reveal_strlit("SquareBraceClose");
    reveal_strlit("String");
    reveal_strlit("Colon");
    reveal_strlit("Integer");
    reveal_strlit("Float");
    reveal_strlit("Bool");
    reveal_strlit("Comma");
    reveal_strlit("Null");
    reveal_strlit("EOF");
    let x = token_name(a);
    let y = token_name(b);
    if a != b {
        assert(x.len() != y.len() || x[0] != y[0] || x[2] != y[2]);
    }
}

/// A token is told by the name that its kind has here.
pub proof fn law_kinds_are_told_by_name(kind: TokenType, name: Seq<char>)
    ensures
        message_text(ErrorModel::WrongToken { got: kind }) == "Wrong token: got "@ + name <==> name
            == (match kind {
            TokenType::CurvedBraceOpen => "CurvedBraceOpen"@,
            TokenType::CurvedBraceClose => "CurvedBraceClose"@,
            TokenType::SquareBraceOpen => "SquareBraceOpen"@,
            TokenType::SquareBraceClose => "SquareBraceClose"@,
            TokenType::String => "String"@,
            TokenType::Colon => "Colon"@,
            TokenType::Integer => "Integer"@,
            TokenType::Float => "Float"@,
            TokenType::Bool => "Bool"@,
            TokenType::Comma => "Comma"@,
            TokenType::Null => "Null"@,
            TokenType::EOF => "EOF"@,
        }),
{
    let front = "Wrong token: got "@;
    let whole = message_text(ErrorModel::WrongToken { got: kind });
    assert(whole.skip(front.len() as int) =~= token_name(kind));
    assert((front + name).skip(front.len() as int) =~= name);
}

/// Each error is seen in its model as the error that it is, with what it holds.
pub proof fn law_models_show_what_errors_hold(error: JsonError)
    ensures
        match error {
            JsonError::WrongToken { got } => error@ == (ErrorModel::WrongToken { got }),
            JsonError::ParsingError { line, col } => error@ == (ErrorModel::ParsingError {
                line,
                col,
            }),
            JsonError::TokenParsingError { cause, data } => error@
                == (ErrorModel::TokenParsingError { cause: cause@, data: data@ }),
            JsonError::MultipleKeys(key) => error@ == ErrorModel::MultipleKeys(key@),
            JsonError::WrongKeyword(word) => error@ == ErrorModel::WrongKeyword(word@),
            JsonError::InvalidEscapeChar { c } => error@ == (ErrorModel::InvalidEscapeChar { c }),
            JsonError::InvalidEscapeCodepoint { cp } => error@
                == (ErrorModel::InvalidEscapeCodepoint { cp: cp@ }),
            JsonError::UnescapedChar { c } => error@ == (ErrorModel::UnescapedChar { c }),
            JsonError::MaxDepthExceeded => error@ == ErrorModel::MaxDepthExceeded,
            JsonError::EmptyFile => error@ == ErrorModel::EmptyFile,
            JsonError::ParseIntError { kind } => error@ == (ErrorModel::ParseIntError { kind }),
            JsonError::ParseFloatError { kind } => error@ == (ErrorModel::ParseFloatError { kind }),
        },
{
}

/// Errors of which there is nothing more to tell have one message each.
pub proof fn law_messages_without_parts_are_fixed(integer: IntegerFault, float: FloatFault)
    ensures
        message_text(ErrorModel::EmptyFile) == "Empty file!"@,
        message_text(ErrorModel::MaxDepthExceeded)
            == "Max depth of 20 nested objects/arrays exceeded"@,
        message_text(ErrorModel::ParseIntError { kind: integer }) == (match integer {
            IntegerFault::Empty => "cannot parse integer from empty string"@,
            IntegerFault::InvalidDigit => "invalid digit found in string"@,
            IntegerFault::PosOverflow => "number too large to fit in target type"@,
            IntegerFault::NegOverflow => "number too small to fit in target type"@,
        }),
        message_text(ErrorModel::ParseFloatError { kind: float }) == (match float {
            FloatFault::Empty => "cannot parse float from empty string"@,
            FloatFault::Invalid => "invalid float literal"@,
        }),
{
    reveal_strlit("Max depth of ");
    reveal_strlit(" nested objects/arrays exceeded");
    reveal_strlit("Max depth of 20 nested objects/arrays exceeded");
    assert(written(2, 10) == seq!['2']);
    assert(written(20, 10) =~= seq!['2', '0']);
    assert(message_text(ErrorModel::MaxDepthExceeded)
        =~= "Max depth of 20 nested objects/arrays exceeded"@);
}

/// A message is a fixed text with what it is about in its place, as it is: the name of the kind of
/// token, the key, the word, the character, the code as it was written, or the number.
pub proof fn law_messages_hold_what_they_are_about(
    text: Seq<char>,
    cause: Seq<char>,
    c: char,
    code: u8,
    line: usize,
    col: usize,
    kind: TokenType,
)
    ensures
        message_text(ErrorModel::WrongToken { got: kind }) == "Wrong token: got "@ + token_name(
            kind,
        ),
        message_text(ErrorModel::MultipleKeys(text)) == "Cannot have multiple keys: \""@ + text
            + "\""@,
        message_text(ErrorModel::WrongKeyword(text)) == "Invalid keyword: \""@ + text + "\""@,
        message_text(ErrorModel::InvalidEscapeChar { c }) == "Invalid escape char: \"\\"@ + seq![c]
            + "\""@,
        message_text(ErrorModel::InvalidEscapeCodepoint { cp: text })
            == "Invalid escape codepoint: 0x"@ + text,
        message_text(ErrorModel::UnescapedChar { c: code }) == "Unescaped char 0x"@ + written(
            code as nat,
            16,
        ),
        message_text(ErrorModel::ParsingError { line, col }) == "Parsing error at "@ + written(
            line as nat,
            10,
        ) + ":"@ + written(col as nat, 10),
        message_text(ErrorModel::TokenParsingError { cause, data: text })
            == "Token parsing error: "@ + cause + " on: "@ + text,
{
}

} // verus!
