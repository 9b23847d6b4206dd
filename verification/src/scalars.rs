//! What holds of the numbers and strings that are read.

use crate::error::{digit_char, written, ErrorModel};
use crate::layout::{ascii, law_ascii_words_are_plain, quotable, quotable_escaped, writable};
use crate::lexer::classified;
use crate::number::{
    decimal_digit, decimal_integer, digit_run, digit_value, digits, exponent, exponent_at,
    exponent_or_nothing, exponent_shape, float_bits, float_literal, fraction_at, fraction_shape,
    hexadecimal_code, integer_shape, magnitude, numeral, unsigned, unsigned_float, whole,
    IntegerFault,
};
use crate::parser::scalar_of;
use crate::token::{after, code_escape, control, unescaped, Lexeme, TokenType};
use crate::value::JsonModel;
use vstd::prelude::*;

verus! {

/// `n` in decimal digits, with a minus sign where it is negative.
pub open spec fn integer_literal(n: int) -> Seq<char> {
    if n < 0 {
        seq!['-'] + written((-n) as nat, 10)
    } else {
        written(n as nat, 10)
    }
}

pub proof fn lemma_written_digits(n: nat)
    ensures
        digits(written(n, 10)),
        ascii(written(n, 10)),
        n > 0 ==> written(n, 10)[0] != '0',
        n < 10 ==> written(n, 10).len() == 1,
        n == 0 ==> written(n, 10)[0] == '0',
    decreases n,
{
    if n >= 10 {
        lemma_written_digits(n / 10);
        let high = written(n / 10, 10);
        let text = high.push(digit_char(n % 10));
        assert(written(n, 10) == text);
        assert forall|i: int| 0 <= i < text.len() implies decimal_digit(#[trigger] text[i]) && (
        text[i] as u32) < 128 by {
            if i < high.len() {
                assert(text[i] == high[i]);
                assert(decimal_digit(high[i]));
                assert((high[i] as u32) < 128);
            }
        }
        assert(text[0] == high[0]);
    }
}

proof fn lemma_numeral_written(n: nat, negative: bool)
    requires
        negative ==> -n >= i64::MIN,
        !negative ==> n <= i64::MAX,
    ensures
        numeral(written(n, 10), 10, negative, i64::MIN as int, i64::MAX as int) == Ok::<
            int,
            IntegerFault,
        >(if negative {
            -n
        } else {
            n as int
        }),
    decreases n,
{
    let low = digit_char(n % 10);
    assert(digit_value(low, 10) == Some((n % 10) as int));
    if n >= 10 {
        lemma_numeral_written(n / 10, negative);
        assert(written(n, 10).drop_last() =~= written(n / 10, 10));
        assert(written(n, 10).last() == low);
    } else {
        assert(written(n, 10).drop_last() =~= Seq::<char>::empty());
        assert(written(n, 10).last() == low);
        assert(numeral(Seq::<char>::empty(), 10, negative, i64::MIN as int, i64::MAX as int) == Ok::<
            int,
            IntegerFault,
        >(0));
    }
}

/// The token that is `n` in decimal.
pub open spec fn integer_token(n: int) -> Lexeme {
    Lexeme { kind: TokenType::Integer, text: integer_literal(n) }
}

/// Every integer of 64 bits can be written in decimal, and is read back from there as itself.
pub proof fn law_integers_are_read_back(n: int)
    requires
        i64::MIN <= n <= i64::MAX,
    ensures
        writable(integer_token(n)),
        scalar_of(integer_token(n)) == Ok::<JsonModel, ErrorModel>(JsonModel::Integer(n)),
{
    let word = integer_literal(n);
    let m = if n < 0 {
        (-n) as nat
    } else {
        n as nat
    };
    let text = written(m, 10);
    lemma_written_digits(m);
    lemma_numeral_written(m, n < 0);
    assert(decimal_digit(text[0]));
    assert((text[0] as u32) < 128);
    if n < 0 {
        assert(word.skip(1) =~= text);
    }
    assert(magnitude(word) == text);
    reveal_strlit("true");
    reveal_strlit("false");
    reveal_strlit("null");
    assert(word[0] != 't' && word[0] != 'f' && word[0] != 'n');
    if m < 10 {
        assert(text.len() == 1);
    }
    assert(classified(word) == Ok::<TokenType, ErrorModel>(TokenType::Integer));
    assert forall|i: int| 0 <= i < word.len() implies (#[trigger] word[i] as u32) < 128 by {
        if n >= 0 {
            assert((text[i] as u32) < 128);
        } else if i > 0 {
            assert((text[i - 1] as u32) < 128);
        }
    }
    law_ascii_words_are_plain(word);
}

proof fn lemma_digits_numeral(text: Seq<char>, negative: bool, min: int, max: int)
    requires
        ascii(text),
        forall|i: int| 0 <= i < text.len() ==> decimal_digit(#[trigger] text[i]),
    ensures
        numeral(text, 10, negative, min, max) matches Err(fault) ==> fault == (if negative {
            IntegerFault::NegOverflow
        } else {
            IntegerFault::PosOverflow
        }),
    decreases text.len(),
{
    if text.len() > 0 {
        let shorter = text.drop_last();
        assert forall|i: int| 0 <= i < shorter.len() implies decimal_digit(#[trigger] shorter[i]) && (
        shorter[i] as u32) < 128 by {
            assert(decimal_digit(text[i]) && (text[i] as u32) < 128);
        }
        lemma_digits_numeral(shorter, negative, min, max);
        let last = text[text.len() - 1];
        assert(decimal_digit(last) && (last as u32) < 128);
        assert(digit_value(last, 10) is Some);
    }
}

/// A whole number in ASCII digits is an integer, unless it is too large or too small for 64 bits.
pub proof fn law_ascii_integers_are_read(word: Seq<char>)
    requires
        ascii(word),
        integer_shape(word),
    ensures
        decimal_integer(word) matches Err(fault) ==> fault == (if word[0] == '-' {
            IntegerFault::NegOverflow
        } else {
            IntegerFault::PosOverflow
        }),
{
    let text = magnitude(word);
    let negative = word.len() > 0 && word[0] == '-';
    assert forall|i: int| 0 <= i < text.len() implies decimal_digit(#[trigger] text[i]) && (
    text[i] as u32) < 128 by {
        assert((word[if negative { i + 1 } else { i }] as u32) < 128);
    }
    lemma_digits_numeral(text, negative, i64::MIN as int, i64::MAX as int);
    assert((text[0] as u32) < 128 && decimal_digit(text[0]));
}

pub proof fn lemma_digit_run(text: Seq<char>, n: int)
    requires
        0 <= n <= text.len(),
        forall|i: int| 0 <= i < n ==> '0' <= #[trigger] text[i] <= '9',
        n < text.len() ==> !('0' <= text[n] <= '9'),
    ensures
        digit_run(text) == n,
    decreases n,
{
    if n > 0 {
        assert('0' <= text[0] <= '9');
        assert forall|i: int| 0 <= i < n - 1 implies '0' <= #[trigger] text.skip(1)[i] <= '9' by {
            assert('0' <= text[i + 1] <= '9');
        }
        lemma_digit_run(text.skip(1), n - 1);
    }
}

proof fn lemma_part_digits(text: Seq<char>, from: int, to: int)
    requires
        ascii(text),
        0 <= from <= to <= text.len(),
        digits(text.subrange(from, to)),
    ensures
        forall|i: int| from <= i < to ==> '0' <= #[trigger] text[i] <= '9',
{
    assert forall|i: int| from <= i < to implies '0' <= #[trigger] text[i] <= '9' by {
        assert((text[i] as u32) < 128);
        assert(decimal_digit(text.subrange(from, to)[i - from]));
    }
}

proof fn lemma_exponent_literal(text: Seq<char>)
    requires
        ascii(text),
        exponent(text),
    ensures
        exponent_or_nothing(text),
{
    let n = if text.len() > 1 && (text[1] == '-' || text[1] == '+') {
        2int
    } else {
        1int
    };
    let power = text.skip(n);
    lemma_part_digits(text, n, text.len() as int);
    assert forall|i: int| 0 <= i < power.len() implies '0' <= #[trigger] power[i] <= '9' by {
        assert('0' <= text[i + n] <= '9');
    }
    lemma_digit_run(power, power.len() as int);
    assert(unsigned(text.skip(1)) =~= power) by {
        if n == 2 {
            assert(text.skip(1).skip(1) =~= power);
        } else {
            assert(power[0] == text[1]);
            assert('0' <= text[1] <= '9');
        }
    }
}

proof fn lemma_whole_digits(text: Seq<char>, n: int)
    requires
        ascii(text),
        0 <= n <= text.len(),
        whole(text.take(n)),
    ensures
        n > 0,
        forall|i: int| 0 <= i < n ==> '0' <= #[trigger] text[i] <= '9',
{
    if digits(text.take(n)) {
        lemma_part_digits(text, 0, n);
    } else {
        assert(text.take(n)[0] == text[0]);
    }
}

proof fn lemma_ascii_skip(text: Seq<char>, n: int)
    requires
        ascii(text),
        0 <= n <= text.len(),
    ensures
        ascii(text.skip(n)),
{
    assert forall|i: int| 0 <= i < text.skip(n).len() implies (#[trigger] text.skip(n)[i] as u32)
        < 128 by {
        assert((text[i + n] as u32) < 128);
    }
}

/// A number in ASCII digits with a fraction or an exponent stands for a floating-point number.
pub proof fn law_ascii_floats_are_read(word: Seq<char>)
    requires
        ascii(word),
        fraction_shape(word) || exponent_shape(word),
    ensures
        float_literal(word),
        scalar_of(Lexeme { kind: TokenType::Float, text: word }) == Ok::<JsonModel, ErrorModel>(
            JsonModel::Float(float_bits(word)),
        ),
{
    let text = magnitude(word);
    if word.len() > 0 {
        lemma_ascii_skip(word, 1);
    }
    if fraction_shape(word) {
        let (dot, end) = choose|dot: int, end: int| fraction_at(text, dot, end);
        lemma_whole_digits(text, dot);
        lemma_digit_run(text, dot);
        lemma_part_digits(text, dot + 1, end);
        let rest = text.skip(dot + 1);
        lemma_ascii_skip(text, end);
        assert(rest.skip(end - dot - 1) =~= text.skip(end));
        assert forall|i: int| 0 <= i < end - dot - 1 implies '0' <= #[trigger] rest[i] <= '9' by {
            assert('0' <= text[i + dot + 1] <= '9');
        }
        if end < text.len() {
            assert(text.skip(end)[0] == text[end]);
            assert(rest[end - dot - 1] == text[end]);
            lemma_exponent_literal(text.skip(end));
        }
        lemma_digit_run(rest, end - dot - 1);
        assert('0' <= text[0] <= '9');
        assert(unsigned_float(text));
    } else {
        let at = choose|at: int| exponent_at(text, at);
        lemma_whole_digits(text, at);
        lemma_ascii_skip(text, at);
        assert(text.skip(at)[0] == text[at]);
        lemma_digit_run(text, at);
        lemma_exponent_literal(text.skip(at));
        assert('0' <= text[0] <= '9');
        assert(unsigned_float(text));
    }
    assert(unsigned(word) == text);
}

/// `c` as it can be written in a string: quotes and backslashes after a backslash, control characters
/// by their codes, and all others as they are.
pub open spec fn escaped_char(c: char) -> Seq<char> {
    if c == '"' || c == '\\' {
        seq!['\\', c]
    } else if control(c) {
        seq!['\\', 'u', '0', '0', digit_char((c as nat) / 16), digit_char((c as nat) % 16)]
    } else {
        seq![c]
    }
}

/// `text` as it can be written in a string.
pub open spec fn escaped(text: Seq<char>) -> Seq<char>
    decreases text.len(),
{
    if text.len() == 0 {
        Seq::empty()
    } else {
        escaped_char(text[0]) + escaped(text.skip(1))
    }
}

proof fn lemma_code_of_control(c: char)
    requires
        control(c),
    ensures
        code_escape(
            seq!['0', '0', digit_char((c as nat) / 16), digit_char((c as nat) % 16)],
        ) == Ok::<char, ErrorModel>(c),
{
    let high = (c as nat) / 16;
    let low = (c as nat) % 16;
    let d3 = digit_char(high);
    let d4 = digit_char(low);
    let code = seq!['0', '0', d3, d4];
    let c3 = seq!['0', '0', d3];
    let c2 = seq!['0', '0'];
    let c1 = seq!['0'];
    assert(digit_value('0', 16) == Some(0int));
    assert(digit_value(d3, 16) == Some(high as int));
    assert(digit_value(d4, 16) == Some(low as int));
    assert(code.drop_last() =~= c3);
    assert(c3.drop_last() =~= c2);
    assert(c2.drop_last() =~= c1);
    assert(c1.drop_last() =~= Seq::<char>::empty());
    let max = u32::MAX as int;
    assert(numeral(Seq::<char>::empty(), 16, false, 0, max) == Ok::<int, IntegerFault>(0));
    assert(numeral(c1, 16, false, 0, max) == Ok::<int, IntegerFault>(0));
    assert(numeral(c2, 16, false, 0, max) == Ok::<int, IntegerFault>(0));
    assert(numeral(c3, 16, false, 0, max) == Ok::<int, IntegerFault>(high as int));
    assert(numeral(code, 16, false, 0, max) == Ok::<int, IntegerFault>((16 * high + low) as int));
    assert(hexadecimal_code(code) == Ok::<int, IntegerFault>(c as int));
}

proof fn lemma_escaped_text(text: Seq<char>)
    ensures
        quotable(escaped(text)),
        unescaped(escaped(text)) == Ok::<Seq<char>, ErrorModel>(text),
    decreases text.len(),
{
    if text.len() > 0 {
        let c = text[0];
        let rest = escaped(text.skip(1));
        let all = escaped(text);
        lemma_escaped_text(text.skip(1));
        assert(seq![c] + text.skip(1) =~= text);
        if c == '"' || c == '\\' {
            assert(all.skip(2) =~= rest);
            assert(all.skip(1).skip(1) =~= rest);
            assert(all.skip(1)[0] == c);
            assert(quotable_escaped(all.skip(1)));
        } else if control(c) {
            lemma_code_of_control(c);
            let d3 = digit_char((c as nat) / 16);
            let d4 = digit_char((c as nat) % 16);
            assert(all.subrange(2, 6) =~= seq!['0', '0', d3, d4]);
            assert(all.skip(6) =~= rest);
            assert(all.skip(2).skip(1) =~= all.skip(3));
            assert(all.skip(3).skip(1) =~= all.skip(4));
            assert(all.skip(4).skip(1) =~= all.skip(5));
            assert(all.skip(5).skip(1) =~= rest);
            assert(all.skip(2)[0] == '0' && all.skip(3)[0] == '0');
            assert(all.skip(4)[0] == d3 && all.skip(5)[0] == d4);
            assert(quotable(all.skip(5)));
            assert(quotable(all.skip(4)));
            assert(quotable(all.skip(3)));
            assert(quotable(all.skip(2)));
            assert(all.skip(1).skip(1) =~= all.skip(2));
            assert(all.skip(1)[0] == 'u');
            assert(quotable_escaped(all.skip(1)));
        } else {
            assert(all.skip(1) =~= rest);
        }
        assert(unescaped(all) == after(seq![c], unescaped(rest)));
    } else {
        assert(text =~= Seq::empty());
    }
}

/// The token that is `text` in quotes.
pub open spec fn string_token(text: Seq<char>) -> Lexeme {
    Lexeme { kind: TokenType::String, text: seq!['"'] + escaped(text) + seq!['"'] }
}

/// Every text can be written as a string, and is read back from there as itself.
pub proof fn law_strings_are_read_back(text: Seq<char>)
    ensures
        writable(string_token(text)),
        scalar_of(string_token(text)) == Ok::<JsonModel, ErrorModel>(JsonModel::String(text)),
{
    let quoted = string_token(text).text;
    assert(quoted.subrange(1, quoted.len() - 1) =~= escaped(text));
    lemma_escaped_text(text);
}

} // verus!
