//! What the literals of numbers stand for, by the digits that they are written with.

use crate::double::{law_large_numbers_are_infinite, rounded, SIGN};
use crate::error::ErrorModel;
use crate::layout::{ascii, law_ascii_words_are_plain, writable};
use crate::natural::power;
use crate::number::{
    decimal_digit, decimal_digits, decimal_exponent, decimal_integer, digit_run, digit_value,
    digits, digits_value, exponent as written_exponent, exponent_at, exponent_or_nothing,
    exponent_value, floating_point, fraction_at, hexadecimal_code,
    lemma_digit_run as lemma_run_of_digits,
    lemma_numeral_fault_stays, magnitude, numeral, reads, sign, small_letter, unsigned,
    unsigned_float, whole, FloatFault, IntegerFault,
};
use crate::parser::scalar_of;
use crate::scalars::lemma_digit_run;
use crate::strings::symbol_value;
use crate::token::{Lexeme, TokenType};
use crate::value::JsonModel;
use crate::words::law_words_are_told_apart;
use vstd::prelude::*;

verus! {

/// What digits are worth together, by their places.
pub open spec fn amount(digits: Seq<char>, radix: nat) -> nat
    decreases digits.len(),
{
    if digits.len() == 0 {
        0
    } else {
        symbol_value(digits[0]) * power(radix, (digits.len() - 1) as nat) + amount(
            digits.skip(1),
            radix,
        )
    }
}

/// All of the characters are digits of the given radix.
pub open spec fn figures(digits: Seq<char>, radix: nat) -> bool {
    forall|i: int| 0 <= i < digits.len() ==> symbol_value(#[trigger] digits[i]) < radix
}

/// Nothing, or a sign.
pub open spec fn sign_or_nothing(lead: Seq<char>) -> bool {
    lead == Seq::<char>::empty() || lead == seq!['+'] || lead == seq!['-']
}

/// One more digit at the end makes the others worth ten times as much, or as the radix has it.
pub proof fn law_amount_grows_by_digit(digits: Seq<char>, radix: nat, c: char)
    ensures
        amount(digits.push(c), radix) == radix * amount(digits, radix) + symbol_value(c),
    decreases digits.len(),
{
    let more = digits.push(c);
    if digits.len() == 0 {
        assert(more.skip(1) =~= Seq::<char>::empty());
        assert(more[0] == c);
        let place = power(radix, 0);
        let none = amount(digits, radix);
        assert(symbol_value(c) * place == symbol_value(c) && radix * none == 0) by (nonlinear_arith)
            requires
                place == 1,
                none == 0,
        ;
        assert(amount(more, radix) == symbol_value(c) * place + amount(more.skip(1), radix));
        assert(amount(more.skip(1), radix) == 0);
    } else {
        let rest = digits.skip(1);
        law_amount_grows_by_digit(rest, radix, c);
        assert(more.skip(1) =~= rest.push(c));
        let first = symbol_value(digits[0]);
        let place = power(radix, (digits.len() - 1) as nat);
        let low = amount(rest, radix);
        assert(power(radix, digits.len()) == radix * place);
        assert(more[0] == digits[0]);
        assert(amount(more, radix) == first * power(radix, digits.len()) + amount(
            rest.push(c),
            radix,
        ));
        assert(first * (radix * place) + (radix * low + symbol_value(c)) == radix * (first * place
            + low) + symbol_value(c)) by (nonlinear_arith);
        assert(amount(digits, radix) == first * place + low);
    }
}

/// The digits of ten are `0` to `9`.
proof fn lemma_symbol_of_ten(c: char)
    ensures
        symbol_value(c) < 10 <==> '0' <= c <= '9',
        symbol_value(c) < 10 ==> symbol_value(c) == c as int - '0' as int,
        digit_value(c, 10) == (if symbol_value(c) < 10 {
            Some(symbol_value(c) as int)
        } else {
            None
        }),
        digit_value(c, 16) == (if symbol_value(c) < 16 {
            Some(symbol_value(c) as int)
        } else {
            None
        }),
{
}

proof fn lemma_figures_value(digits: Seq<char>)
    requires
        figures(digits, 10),
    ensures
        digits_value(digits) == amount(digits, 10),
    decreases digits.len(),
{
    if digits.len() > 0 {
        let shorter = digits.drop_last();
        assert forall|i: int| 0 <= i < shorter.len() implies symbol_value(#[trigger] shorter[i])
            < 10 by {
            assert(shorter[i] == digits[i]);
        }
        lemma_figures_value(shorter);
        law_amount_grows_by_digit(shorter, 10, digits.last());
        assert(shorter.push(digits.last()) =~= digits);
        assert(symbol_value(digits[digits.len() - 1]) < 10);
        lemma_symbol_of_ten(digits.last());
    }
}

/// What a numeral is worth with its sign.
spec fn signed(size: nat, negative: bool) -> int {
    if negative {
        -size
    } else {
        size as int
    }
}

spec fn overflow(negative: bool) -> IntegerFault {
    if negative {
        IntegerFault::NegOverflow
    } else {
        IntegerFault::PosOverflow
    }
}

proof fn lemma_numeral_amount(digits: Seq<char>, radix: nat, negative: bool, min: int, max: int)
    requires
        radix == 10 || radix == 16,
        figures(digits, radix),
        min <= 0 <= max,
    ensures
        numeral(digits, radix as int, negative, min, max) == (if min <= signed(
            amount(digits, radix),
            negative,
        ) <= max {
            Ok::<int, IntegerFault>(signed(amount(digits, radix), negative))
        } else {
            Err::<int, IntegerFault>(overflow(negative))
        }),
    decreases digits.len(),
{
    if digits.len() > 0 {
        let shorter = digits.drop_last();
        let c = digits.last();
        assert forall|i: int| 0 <= i < shorter.len() implies symbol_value(#[trigger] shorter[i])
            < radix by {
            assert(shorter[i] == digits[i]);
        }
        lemma_numeral_amount(shorter, radix, negative, min, max);
        law_amount_grows_by_digit(shorter, radix, c);
        assert(shorter.push(c) =~= digits);
        assert(symbol_value(digits[digits.len() - 1]) < radix);
        lemma_symbol_of_ten(c);
        let high = amount(shorter, radix);
        if radix == 10 {
            assert(signed(high, negative) * 10 == signed(10 * high, negative));
        } else {
            assert(signed(high, negative) * 16 == signed(16 * high, negative));
        }
    }
}

/// The result for an integer that is worth `size` with its sign.
pub open spec fn integer_or_overflow(size: nat, negative: bool) -> Result<int, IntegerFault> {
    if negative {
        if size <= 0x8000_0000_0000_0000 {
            Ok(-size)
        } else {
            Err(IntegerFault::NegOverflow)
        }
    } else {
        if size <= 0x7fff_ffff_ffff_ffff {
            Ok(size as int)
        } else {
            Err(IntegerFault::PosOverflow)
        }
    }
}

/// The same as a value of a token.
pub open spec fn integer_value(result: Result<int, IntegerFault>) -> Result<JsonModel, ErrorModel> {
    match result {
        Ok(number) => Ok(JsonModel::Integer(number)),
        Err(kind) => Err(ErrorModel::ParseIntError { kind }),
    }
}

/// An integer is worth what its digits are by their places, with its sign, if 64 bits hold that.
pub proof fn law_integers_are_worth_their_digits(lead: Seq<char>, digits: Seq<char>)
    requires
        sign_or_nothing(lead),
        digits.len() > 0,
        figures(digits, 10),
    ensures
        decimal_integer(lead + digits) == integer_or_overflow(
            amount(digits, 10),
            lead == seq!['-'],
        ),
        scalar_of(Lexeme { kind: TokenType::Integer, text: lead + digits }) == integer_value(
            integer_or_overflow(amount(digits, 10), lead == seq!['-']),
        ),
{
    let text = lead + digits;
    let negative = lead == seq!['-'];
    lemma_numeral_amount(digits, 10, negative, i64::MIN as int, i64::MAX as int);
    lemma_numeral_amount(digits, 10, false, i64::MIN as int, i64::MAX as int);
    assert(symbol_value(digits[0]) < 10);
    if lead.len() == 0 {
        assert(text =~= digits);
        assert(lead != seq!['-']);
    } else {
        assert(text.skip(1) =~= digits);
        assert(text[0] == lead[0]);
        assert(seq!['+'][0] != seq!['-'][0]);
    }
}

/// A character that is no digit makes an integer wrong, unless the digits before it are already too
/// many.
pub proof fn law_integers_have_only_digits(
    lead: Seq<char>,
    digits: Seq<char>,
    c: char,
    rest: Seq<char>,
)
    requires
        sign_or_nothing(lead),
        figures(digits, 10),
        symbol_value(c) >= 10,
        lead.len() + digits.len() == 0 ==> (c != '+' && c != '-') || rest.len() == 0,
    ensures
        decimal_integer(lead + digits + seq![c] + rest) == (match integer_or_overflow(
            amount(digits, 10),
            lead == seq!['-'],
        ) {
            Ok(_) => Err::<int, IntegerFault>(IntegerFault::InvalidDigit),
            Err(fault) => Err::<int, IntegerFault>(fault),
        }),
{
    let text = lead + digits + seq![c] + rest;
    let body = digits + seq![c] + rest;
    let negative = lead == seq!['-'];
    let (min, max) = (i64::MIN as int, i64::MAX as int);
    lemma_numeral_amount(digits, 10, negative, min, max);
    let n = digits.len() as int;
    let upto = body.take(n + 1);
    assert(upto =~= digits.push(c));
    assert(upto.drop_last() =~= digits);
    assert(upto.last() == c);
    lemma_symbol_of_ten(c);
    assert(numeral(upto, 10, negative, min, max) is Err);
    lemma_numeral_fault_stays(body, n + 1, 10, negative, min, max);
    if lead.len() == 0 {
        assert(text =~= body);
        assert(lead != seq!['-']);
        if n > 0 {
            assert(symbol_value(digits[0]) < 10);
            assert(text[0] == digits[0]);
        } else {
            assert(amount(digits, 10) == 0);
            assert(text[0] == c);
        }
    } else {
        assert(text.skip(1) =~= body);
        assert(text[0] == lead[0]);
        assert(seq!['+'][0] != seq!['-'][0]);
    }
}

/// No text at all, and a sign alone, are no integers.
pub proof fn law_integers_have_digits()
    ensures
        decimal_integer(Seq::empty()) == Err::<int, IntegerFault>(IntegerFault::Empty),
        decimal_integer(seq!['+']) == Err::<int, IntegerFault>(IntegerFault::InvalidDigit),
        decimal_integer(seq!['-']) == Err::<int, IntegerFault>(IntegerFault::InvalidDigit),
{
}

/// A code is worth what its hexadecimal digits are by their places, if 32 bits hold that; a plus sign
/// before them does not matter.
pub proof fn law_codes_are_worth_their_digits(lead: Seq<char>, digits: Seq<char>)
    requires
        lead == Seq::<char>::empty() || lead == seq!['+'],
        digits.len() > 0,
        figures(digits, 16),
    ensures
        hexadecimal_code(lead + digits) == (if amount(digits, 16) <= 0xffff_ffff {
            Ok::<int, IntegerFault>(amount(digits, 16) as int)
        } else {
            Err::<int, IntegerFault>(IntegerFault::PosOverflow)
        }),
{
    let text = lead + digits;
    lemma_numeral_amount(digits, 16, false, 0, u32::MAX as int);
    assert(symbol_value(digits[0]) < 16);
    if lead.len() == 0 {
        assert(text =~= digits);
    } else {
        assert(text.skip(1) =~= digits);
    }
}

/// A character that is no hexadecimal digit makes a code wrong, unless the digits before it are already
/// too many.
pub proof fn law_codes_have_only_digits(
    lead: Seq<char>,
    digits: Seq<char>,
    c: char,
    rest: Seq<char>,
)
    requires
        lead == Seq::<char>::empty() || lead == seq!['+'],
        figures(digits, 16),
        symbol_value(c) >= 16,
        lead.len() + digits.len() == 0 ==> c != '+' || rest.len() == 0,
    ensures
        hexadecimal_code(lead + digits + seq![c] + rest) == Err::<int, IntegerFault>(
            if amount(digits, 16) <= 0xffff_ffff {
                IntegerFault::InvalidDigit
            } else {
                IntegerFault::PosOverflow
            },
        ),
        hexadecimal_code(Seq::empty()) == Err::<int, IntegerFault>(IntegerFault::Empty),
{
    let text = lead + digits + seq![c] + rest;
    let body = digits + seq![c] + rest;
    let max = u32::MAX as int;
    lemma_numeral_amount(digits, 16, false, 0, max);
    let n = digits.len() as int;
    let upto = body.take(n + 1);
    assert(upto =~= digits.push(c));
    assert(upto.drop_last() =~= digits);
    assert(upto.last() == c);
    lemma_symbol_of_ten(c);
    assert(numeral(upto, 16, false, 0, max) is Err);
    lemma_numeral_fault_stays(body, n + 1, 16, false, 0, max);
    if lead.len() == 0 {
        assert(text =~= body);
        if n > 0 {
            assert(symbol_value(digits[0]) < 16);
            assert(text[0] == digits[0]);
        } else {
            assert(amount(digits, 16) == 0);
            assert(text[0] == c);
        }
    } else {
        assert(text.skip(1) =~= body);
        assert(text[0] == lead[0]);
    }
}

/// The power of ten after a number: a letter, a sign or none, and digits.
pub struct Exponent {
    pub mark: char,
    pub lead: Seq<char>,
    pub digits: Seq<char>,
}

/// A floating-point number as it is written: a sign or none, digits, a dot and digits or neither, and a
/// power of ten or none.
pub struct Decimal {
    pub lead: Seq<char>,
    pub before: Seq<char>,
    pub after: Option<Seq<char>>,
    pub exponent: Option<Exponent>,
}

/// The digits after the dot.
pub open spec fn fraction_digits(decimal: Decimal) -> Seq<char> {
    match decimal.after {
        Some(digits) => digits,
        None => Seq::empty(),
    }
}

/// The power of ten that a number is written with.
pub open spec fn power_of_ten(decimal: Decimal) -> int {
    match decimal.exponent {
        Some(exponent) => if exponent.lead == seq!['-'] {
            -amount(exponent.digits, 10)
        } else {
            amount(exponent.digits, 10) as int
        },
        None => 0,
    }
}

/// Whether the parts are what they are meant to be: there is a digit before or after the dot, and one in
/// the power of ten.
pub open spec fn sound_decimal(decimal: Decimal) -> bool {
    &&& sign_or_nothing(decimal.lead)
    &&& figures(decimal.before, 10)
    &&& figures(fraction_digits(decimal), 10)
    &&& decimal.before.len() + fraction_digits(decimal).len() > 0
    &&& decimal.exponent matches Some(exponent) ==> {
        &&& exponent.mark == 'e' || exponent.mark == 'E'
        &&& sign_or_nothing(exponent.lead)
        &&& exponent.digits.len() > 0
        &&& figures(exponent.digits, 10)
    }
}

/// The power of ten as it is written.
pub open spec fn exponent_text(exponent: Option<Exponent>) -> Seq<char> {
    match exponent {
        Some(it) => seq![it.mark] + it.lead + it.digits,
        None => Seq::empty(),
    }
}

/// The dot and the digits after it as they are written.
pub open spec fn fraction_text(after: Option<Seq<char>>) -> Seq<char> {
    match after {
        Some(digits) => seq!['.'] + digits,
        None => Seq::empty(),
    }
}

/// The number as it is written.
pub open spec fn decimal_text(decimal: Decimal) -> Seq<char> {
    decimal.lead + decimal.before + fraction_text(decimal.after) + exponent_text(decimal.exponent)
}

/// The bits of the floating-point number that is nearest to the number that all of the digits make,
/// multiplied by the power of ten that is written and divided by ten for each digit after the dot.
pub open spec fn decimal_bits(decimal: Decimal) -> u64 {
    let code = rounded(
        amount(decimal.before + fraction_digits(decimal), 10),
        power_of_ten(decimal) - fraction_digits(decimal).len(),
    );
    (code + (if decimal.lead == seq!['-'] { SIGN as nat } else { 0 })) as u64
}

proof fn lemma_exponent_text(exponent: Option<Exponent>)
    requires
        exponent matches Some(it) ==> {
            &&& it.mark == 'e' || it.mark == 'E'
            &&& sign_or_nothing(it.lead)
            &&& it.digits.len() > 0
            &&& figures(it.digits, 10)
        },
    ensures
        exponent_or_nothing(exponent_text(exponent)),
        exponent_value(exponent_text(exponent)) == (match exponent {
            Some(it) => if it.lead == seq!['-'] {
                -amount(it.digits, 10)
            } else {
                amount(it.digits, 10) as int
            },
            None => 0,
        }),
{
    if let Some(it) = exponent {
        let text = exponent_text(exponent);
        assert(symbol_value(it.digits[0]) < 10);
        lemma_figures_value(it.digits);
        assert(text.skip(1) =~= it.lead + it.digits);
        if it.lead.len() == 0 {
            assert(it.lead + it.digits =~= it.digits);
            assert(it.lead != seq!['-']);
            assert(text[1] == it.digits[0]);
        } else {
            assert(text[1] == it.lead[0]);
            assert((it.lead + it.digits).skip(1) =~= it.digits);
            assert(seq!['+'][0] != seq!['-'][0]);
        }
        assert(unsigned(text.skip(1)) == it.digits);
        assert(it.digits.take(it.digits.len() as int) =~= it.digits);
        lemma_figures_run(it.digits, it.digits);
    }
}

proof fn lemma_figures_run(digits: Seq<char>, text: Seq<char>)
    requires
        figures(digits, 10),
        digits.len() <= text.len(),
        text.take(digits.len() as int) == digits,
        digits.len() < text.len() ==> !('0' <= text[digits.len() as int] <= '9'),
    ensures
        digit_run(text) == digits.len(),
{
    assert forall|i: int| 0 <= i < digits.len() implies '0' <= #[trigger] text[i] <= '9' by {
        assert(text.take(digits.len() as int)[i] == digits[i]);
        assert(symbol_value(digits[i]) < 10);
        lemma_symbol_of_ten(digits[i]);
    }
    lemma_digit_run(text, digits.len() as int);
}

proof fn lemma_no_word(body: Seq<char>)
    requires
        body.len() > 0,
        '0' <= body[0] <= '9' || body[0] == '.',
    ensures
        !reads(body, "inf"@),
        !reads(body, "infinity"@),
        !reads(body, "nan"@),
{
    reveal_strlit("inf");
    reveal_strlit("infinity");
    reveal_strlit("nan");
    let small = body.map_values(|c: char| small_letter(c));
    assert(small[0] == body[0]);
}

proof fn lemma_decimal_body(decimal: Decimal, body: Seq<char>)
    requires
        sound_decimal(decimal),
        body == decimal.before + fraction_text(decimal.after) + exponent_text(decimal.exponent),
    ensures
        body.len() > 0,
        '0' <= body[0] <= '9' || body[0] == '.',
        unsigned_float(body),
        decimal_digits(body) == decimal.before + fraction_digits(decimal),
        decimal_exponent(body) == power_of_ten(decimal) - fraction_digits(decimal).len(),
{
    let a = decimal.before;
    let b = fraction_digits(decimal);
    let tail = exponent_text(decimal.exponent);
    let n = a.len() as int;
    lemma_exponent_text(decimal.exponent);
    if tail.len() > 0 {
        assert(tail[0] == 'e' || tail[0] == 'E');
    }
    assert(body.take(n) =~= a);
    lemma_figures_run(a, body);
    if decimal.after is Some {
        let rest = body.skip(n + 1);
        assert(rest =~= b + tail);
        assert(rest.take(b.len() as int) =~= b);
        lemma_figures_run(b, rest);
        assert(body.skip(n + 1 + b.len()) =~= tail);
        assert(body.subrange(n + 1, n + 1 + b.len()) =~= b);
    } else {
        assert(body.skip(n) =~= tail);
        assert(a + b =~= a);
    }
    if n > 0 {
        assert(symbol_value(a[0]) < 10);
        lemma_symbol_of_ten(a[0]);
        assert(body[0] == a[0]);
    }
}

/// A number with digits before or after a dot, or without one, with a power of ten or without one, is
/// read as the floating-point number that is nearest to what it is worth.
pub proof fn law_decimals_are_read_as_nearest(decimal: Decimal)
    requires
        sound_decimal(decimal),
    ensures
        floating_point(decimal_text(decimal)) == Ok::<u64, FloatFault>(decimal_bits(decimal)),
        scalar_of(Lexeme { kind: TokenType::Float, text: decimal_text(decimal) }) == Ok::<
            JsonModel,
            ErrorModel,
        >(JsonModel::Float(decimal_bits(decimal))),
{
    let a = decimal.before;
    let b = fraction_digits(decimal);
    let body = a + fraction_text(decimal.after) + exponent_text(decimal.exponent);
    let text = decimal_text(decimal);
    lemma_decimal_body(decimal, body);
    lemma_figures_concat(a, b);
    lemma_figures_value(a + b);
    lemma_no_word(body);
    assert(unsigned(text) == body) by {
        if decimal.lead.len() == 0 {
            assert(text =~= body);
        } else {
            assert(text[0] == decimal.lead[0]);
            assert(text.skip(1) =~= body);
        }
    }
    assert(text[0] == '-' <==> decimal.lead == seq!['-']) by {
        if decimal.lead.len() == 0 {
            assert(text =~= body);
            assert(decimal.lead != seq!['-']);
        } else {
            assert(text[0] == decimal.lead[0]);
            assert(seq!['+'][0] != seq!['-'][0]);
        }
    }
    law_large_numbers_are_infinite(amount(a + b, 10), decimal_exponent(body));
}

/// Digits as a number begins with them: one, or more of which the first is not nought.
pub open spec fn plain_digits(digits: Seq<char>) -> bool {
    figures(digits, 10) && digits.len() > 0 && (digits.len() == 1 || digits[0] != '0')
}

proof fn lemma_plain_digits(digits: Seq<char>)
    requires
        plain_digits(digits),
    ensures
        whole(digits),
        '0' <= digits[0] <= '9',
{
    lemma_figures_are_digits(digits);
    assert(symbol_value(digits[0]) < 10);
    lemma_symbol_of_ten(digits[0]);
}

proof fn lemma_figures_are_digits(chars: Seq<char>)
    requires
        figures(chars, 10),
    ensures
        chars.len() > 0 ==> digits(chars),
        ascii(chars),
{
    assert forall|i: int| 0 <= i < chars.len() implies decimal_digit(#[trigger] chars[i]) && (
    chars[i] as u32) < 128 by {
        assert(symbol_value(chars[i]) < 10);
        lemma_symbol_of_ten(chars[i]);
    }
}

proof fn lemma_ascii_concat(a: Seq<char>, b: Seq<char>)
    requires
        ascii(a),
        ascii(b),
    ensures
        ascii(a + b),
{
    assert forall|i: int| 0 <= i < (a + b).len() implies (#[trigger] (a + b)[i] as u32) < 128 by {
        if i < a.len() {
            assert((a[i] as u32) < 128);
        } else {
            assert((b[i - a.len()] as u32) < 128);
        }
    }
}

/// A whole number whose digits do not begin with nought can stand in a text.
pub proof fn law_plain_integers_can_be_written(lead: Seq<char>, digits: Seq<char>)
    requires
        lead == Seq::<char>::empty() || lead == seq!['-'],
        plain_digits(digits),
    ensures
        writable(Lexeme { kind: TokenType::Integer, text: lead + digits }),
{
    let word = lead + digits;
    lemma_plain_digits(digits);
    lemma_figures_are_digits(digits);
    lemma_ascii_concat(lead, digits);
    if lead.len() == 0 {
        assert(word =~= digits);
    } else {
        assert(word.skip(1) =~= digits);
    }
    assert(magnitude(word) == digits);
    law_words_are_told_apart(word);
    law_ascii_words_are_plain(word);
}

/// A number whose digits do not begin with nought, with digits after a dot or a power of ten, can
/// stand in a text.
pub proof fn law_plain_decimals_can_be_written(decimal: Decimal)
    requires
        sound_decimal(decimal),
        decimal.lead == Seq::<char>::empty() || decimal.lead == seq!['-'],
        plain_digits(decimal.before),
        decimal.after matches Some(digits) ==> digits.len() > 0,
        decimal.after is Some || decimal.exponent is Some,
    ensures
        writable(Lexeme { kind: TokenType::Float, text: decimal_text(decimal) }),
{
    let a = decimal.before;
    let b = fraction_digits(decimal);
    let f = fraction_text(decimal.after);
    let tail = exponent_text(decimal.exponent);
    let word = decimal_text(decimal);
    let body = a + f + tail;
    let n = a.len() as int;
    lemma_plain_digits(a);
    lemma_figures_are_digits(a);
    lemma_figures_are_digits(b);
    lemma_exponent_shape(decimal.exponent);
    lemma_ascii_concat(decimal.lead, a);
    assert(ascii(f)) by {
        if decimal.after is Some {
            lemma_ascii_concat(seq!['.'], b);
        }
    }
    lemma_ascii_concat(decimal.lead + a, f);
    lemma_ascii_concat(decimal.lead + a + f, tail);
    if decimal.lead.len() == 0 {
        assert(word =~= body);
        assert(body[0] == a[0]);
    } else {
        assert(word.skip(1) =~= body);
        assert(word[0] == '-');
    }
    assert(magnitude(word) == body);
    assert(body.take(n) =~= a);
    if decimal.after is Some {
        let end = n + 1 + b.len();
        assert(body.subrange(n + 1, end) =~= b);
        assert(body.skip(end) =~= tail);
        assert(fraction_at(body, n, end));
    } else {
        assert(body.skip(n) =~= tail);
        assert(exponent_at(body, n));
    }
    law_words_are_told_apart(word);
    law_ascii_words_are_plain(word);
}

proof fn lemma_exponent_shape(exponent: Option<Exponent>)
    requires
        exponent matches Some(it) ==> {
            &&& it.mark == 'e' || it.mark == 'E'
            &&& sign_or_nothing(it.lead)
            &&& it.digits.len() > 0
            &&& figures(it.digits, 10)
        },
    ensures
        exponent is Some ==> written_exponent(exponent_text(exponent)),
        exponent is None ==> exponent_text(exponent).len() == 0,
        ascii(exponent_text(exponent)),
{
    if let Some(it) = exponent {
        let text = exponent_text(exponent);
        lemma_figures_are_digits(it.digits);
        lemma_ascii_concat(seq![it.mark], it.lead);
        lemma_ascii_concat(seq![it.mark] + it.lead, it.digits);
        assert(symbol_value(it.digits[0]) < 10);
        lemma_symbol_of_ten(it.digits[0]);
        if it.lead.len() == 0 {
            assert(text.skip(1) =~= it.digits);
            assert(text[1] == it.digits[0]);
        } else {
            assert(text.skip(2) =~= it.digits);
            assert(text[1] == it.lead[0]);
        }
    }
}

/// A number without a power of ten is read as the same number as its digits without the dot, with the
/// power of ten that takes the digits after the dot back behind it.
pub proof fn law_dot_moves_with_power_of_ten(
    lead: Seq<char>,
    before: Seq<char>,
    after: Seq<char>,
    places: Seq<char>,
)
    requires
        sign_or_nothing(lead),
        figures(before, 10),
        figures(after, 10),
        figures(places, 10),
        before.len() + after.len() > 0,
        places.len() > 0,
        amount(places, 10) == after.len(),
    ensures
        floating_point(lead + before + seq!['.'] + after) == floating_point(
            lead + before + after + seq!['e', '-'] + places,
        ),
{
    let exponent = Exponent { mark: 'e', lead: seq!['-'], digits: places };
    let with_dot = Decimal { lead, before, after: Some(after), exponent: None };
    let without = Decimal { lead, before: before + after, after: None, exponent: Some(exponent) };
    lemma_figures_concat(before, after);
    law_decimals_are_read_as_nearest(with_dot);
    law_decimals_are_read_as_nearest(without);
    assert(decimal_text(with_dot) == lead + before + seq!['.'] + after) by {
        assert(lead + before + (seq!['.'] + after) + Seq::<char>::empty() =~= lead + before + seq![
            '.',
        ] + after);
    }
    assert(decimal_text(without) == lead + before + after + seq!['e', '-'] + places) by {
        assert(lead + (before + after) + Seq::<char>::empty() + (seq!['e'] + seq!['-'] + places)
            =~= lead + before + after + seq!['e', '-'] + places);
    }
    assert(decimal_bits(with_dot) == decimal_bits(without)) by {
        assert(before + after + Seq::<char>::empty() =~= before + after);
    }
}

proof fn lemma_figures_concat(a: Seq<char>, b: Seq<char>)
    requires
        figures(a, 10),
        figures(b, 10),
    ensures
        figures(a + b, 10),
{
    assert forall|i: int| 0 <= i < (a + b).len() implies symbol_value(#[trigger] (a + b)[i])
        < 10 by {
        if i < a.len() {
            assert(symbol_value(a[i]) < 10);
        } else {
            assert(symbol_value(b[i - a.len()]) < 10);
        }
    }
}

/// Whether `c` is the given small letter of ASCII or its capital one.
pub open spec fn letter(c: char, small: char) -> bool {
    c == small || c as nat + 32 == small as nat
}

/// The word for infinity, short or long, in small or capital letters.
pub open spec fn infinity_word(word: Seq<char>) -> bool {
    &&& word.len() == 3 || word.len() == 8
    &&& letter(word[0], 'i') && letter(word[1], 'n') && letter(word[2], 'f')
    &&& word.len() == 8 ==> {
        &&& letter(word[3], 'i') && letter(word[4], 'n') && letter(word[5], 'i')
        &&& letter(word[6], 't') && letter(word[7], 'y')
    }
}

/// The word for what is no number, in small or capital letters.
pub open spec fn nan_word(word: Seq<char>) -> bool {
    word.len() == 3 && letter(word[0], 'n') && letter(word[1], 'a') && letter(word[2], 'n')
}

proof fn lemma_letter(c: char, small: char)
    requires
        'a' <= small <= 'z',
    ensures
        letter(c, small) <==> small_letter(c) == small,
{
}

proof fn lemma_word(word: Seq<char>, letters: Seq<char>)
    requires
        forall|i: int| 0 <= i < letters.len() ==> 'a' <= #[trigger] letters[i] <= 'z',
    ensures
        reads(word, letters) <==> word.len() == letters.len() && forall|i: int|
            0 <= i < word.len() ==> letter(#[trigger] word[i], letters[i]),
{
    let small = word.map_values(|c: char| small_letter(c));
    assert forall|i: int| 0 <= i < word.len() && i < letters.len() implies (letter(
        #[trigger] word[i],
        letters[i],
    ) <==> small[i] == letters[i]) by {
        lemma_letter(word[i], letters[i]);
    }
    if reads(word, letters) {
        assert(small == letters);
        assert forall|i: int| 0 <= i < word.len() implies letter(#[trigger] word[i], letters[i]) by {
            assert(small[i] == letters[i]);
        }
    }
    if word.len() == letters.len() && forall|i: int|
        0 <= i < word.len() ==> letter(#[trigger] word[i], letters[i]) {
        assert forall|i: int| 0 <= i < small.len() implies small[i] == letters[i] by {
            assert(letter(word[i], letters[i]));
        }
        assert(small =~= letters);
    }
}

proof fn lemma_words(word: Seq<char>)
    ensures
        infinity_word(word) <==> reads(word, "inf"@) || reads(word, "infinity"@),
        nan_word(word) <==> reads(word, "nan"@),
{
    reveal_strlit("inf");
    reveal_strlit("infinity");
    reveal_strlit("nan");
    lemma_word(word, "inf"@);
    lemma_word(word, "infinity"@);
    lemma_word(word, "nan"@);
}

/// The words for infinity and for what is no number stand for these, with the sign before them.
pub proof fn law_words_stand_for_no_finite_number(lead: Seq<char>, word: Seq<char>)
    requires
        sign_or_nothing(lead),
        infinity_word(word) || nan_word(word),
    ensures
        floating_point(lead + word) == Ok::<u64, FloatFault>(
            ((if infinity_word(word) { 0x7ff0_0000_0000_0000nat } else { 0x7ff8_0000_0000_0000nat })
                + (if lead == seq!['-'] { 0x8000_0000_0000_0000nat } else { 0 })) as u64,
        ),
{
    let text = lead + word;
    lemma_words(word);
    if lead.len() == 0 {
        assert(text =~= word);
        assert(lead != seq!['-']);
    } else {
        assert(text[0] == lead[0]);
        assert(text.skip(1) =~= word);
        assert(seq!['+'][0] != seq!['-'][0]);
    }
    assert(unsigned(text) == word);
}

/// The sign at the beginning of a text, if there is one.
proof fn lead_of(text: Seq<char>) -> (lead: Seq<char>)
    ensures
        sign_or_nothing(lead),
        text == lead + unsigned(text),
{
    if text.len() > 0 && sign(text[0]) {
        let lead = seq![text[0]];
        assert(text =~= lead + text.skip(1));
        if text[0] == '+' {
            assert(lead =~= seq!['+']);
        } else {
            assert(lead =~= seq!['-']);
        }
        lead
    } else {
        assert(text =~= Seq::<char>::empty() + text);
        Seq::empty()
    }
}

proof fn lemma_run_figures(text: Seq<char>)
    ensures
        0 <= digit_run(text) <= text.len(),
        figures(text.take(digit_run(text)), 10),
{
    lemma_run_of_digits(text);
    let run = text.take(digit_run(text));
    assert forall|i: int| 0 <= i < run.len() implies symbol_value(#[trigger] run[i]) < 10 by {
        assert(run[i] == text[i]);
    }
}

/// The power of ten that a text is, if it is one.
proof fn exponent_of(tail: Seq<char>) -> (exponent: Option<Exponent>)
    ensures
        tail == exponent_text(exponent),
        exponent is Some <==> tail.len() > 0,
        exponent_or_nothing(tail) ==> (exponent matches Some(it) ==> {
            &&& it.mark == 'e' || it.mark == 'E'
            &&& sign_or_nothing(it.lead)
            &&& it.digits.len() > 0
            &&& figures(it.digits, 10)
        }),
{
    if tail.len() > 0 {
        let lead = lead_of(tail.skip(1));
        let digits = unsigned(tail.skip(1));
        lemma_run_figures(digits);
        assert(digits.take(digits.len() as int) =~= digits);
        let exponent = Exponent { mark: tail[0], lead, digits };
        assert(tail =~= seq![tail[0]] + lead + digits) by {
            assert(tail =~= seq![tail[0]] + tail.skip(1));
            assert(seq![tail[0]] + (lead + digits) =~= seq![tail[0]] + lead + digits);
        }
        Some(exponent)
    } else {
        assert(tail =~= Seq::empty());
        None
    }
}

proof fn decimal_of(body: Seq<char>, lead: Seq<char>) -> (decimal: Decimal)
    requires
        unsigned_float(body),
        sign_or_nothing(lead),
    ensures
        sound_decimal(decimal),
        decimal_text(decimal) == lead + body,
{
    let n = digit_run(body);
    lemma_run_figures(body);
    let before = body.take(n);
    if n < body.len() && body[n] == '.' {
        let rest = body.skip(n + 1);
        let m = digit_run(rest);
        lemma_run_figures(rest);
        let tail = body.skip(n + 1 + m);
        let exponent = exponent_of(tail);
        let decimal = Decimal { lead, before, after: Some(rest.take(m)), exponent };
        assert(fraction_digits(decimal) == rest.take(m));
        assert(lead + before + (seq!['.'] + rest.take(m)) + tail =~= lead + body);
        decimal
    } else {
        let tail = body.skip(n);
        let exponent = exponent_of(tail);
        let decimal = Decimal { lead, before, after: None, exponent };
        assert(fraction_digits(decimal) == Seq::<char>::empty());
        assert(lead + before + Seq::<char>::empty() + tail =~= lead + body);
        decimal
    }
}

/// Nothing but numbers as they can be written, and the words for infinity and for what is no number, is
/// taken for a floating-point number.
pub proof fn law_only_decimals_and_words_are_floats(text: Seq<char>)
    ensures
        floating_point(text) is Ok ==> (exists|decimal: Decimal|
            sound_decimal(decimal) && text == #[trigger] decimal_text(decimal)) || (exists|
            lead: Seq<char>,
            word: Seq<char>,
        |
            sign_or_nothing(lead) && (infinity_word(word) || nan_word(word)) && text == #[trigger] (
            lead + word)),
        floating_point(text) matches Err(fault) ==> (fault == FloatFault::Empty <==> text.len()
            == 0),
{
    let lead = lead_of(text);
    let body = unsigned(text);
    lemma_words(body);
    if floating_point(text) is Ok {
        if infinity_word(body) || nan_word(body) {
            assert(text == lead + body);
        } else {
            let decimal = decimal_of(body, lead);
            assert(text == decimal_text(decimal));
        }
    }
}

} // verus!
