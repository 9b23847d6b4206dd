//! Numbers as text: the shapes of JSON numbers, integer numerals and floating-point literals.

use crate::double::{
    lemma_far_exponents, round, rounded, Double, INFINITE, NOT_A_NUMBER, SIGN,
};
use crate::natural::{power, Natural};
use crate::text::to_chars;
use vstd::prelude::*;

verus! {

/// The pattern of a whole number.
pub const INTEGER_REGEX: &'static str = r"^-?([1-9]\d*|0)$";

/// The pattern of a number with a fraction, with or without an exponent.
pub const FLOATING_POINT_REGEX: &'static str = r"^-?([1-9]\d*|0)\.\d+([eE][\-+]?\d+)?$";

/// The pattern of a number with an exponent and no fraction.
pub const FLOATING_POINT_REGEX_2: &'static str = r"^-?([1-9]\d*|0)[eE][\-+]?\d+$";

/// The pattern of one decimal digit of any script.
pub const DIGIT_REGEX: &'static str = r"\d";

/// Whether the pattern matches somewhere in the text, or `None` where the pattern is not a regular
/// expression that the `regex` crate compiles.
pub uninterp spec fn regex_matches(pattern: Seq<char>, text: Seq<char>) -> Option<bool>;

/// A decimal digit as `\d` has it: `0` to `9`, and beyond ASCII what the `regex` crate takes for one.
pub open spec fn decimal_digit(c: char) -> bool {
    if (c as u32) < 128 {
        '0' <= c <= '9'
    } else {
        regex_matches(DIGIT_REGEX@, seq![c]) == Some(true)
    }
}

/// One or more decimal digits.
pub open spec fn digits(text: Seq<char>) -> bool {
    text.len() > 0 && forall|i: int| 0 <= i < text.len() ==> decimal_digit(#[trigger] text[i])
}

/// `text` without the minus sign that it may start with.
pub open spec fn magnitude(text: Seq<char>) -> Seq<char> {
    if text.len() > 0 && text[0] == '-' {
        text.skip(1)
    } else {
        text
    }
}

/// A whole number without a sign: `0`, or digits of which the first is one of `1` to `9`.
pub open spec fn whole(text: Seq<char>) -> bool {
    ||| text.len() == 1 && text[0] == '0'
    ||| digits(text) && '1' <= text[0] <= '9'
}

/// An exponent: `e` or `E`, a sign that may be missing, and digits.
pub open spec fn exponent(text: Seq<char>) -> bool {
    &&& text.len() > 0
    &&& text[0] == 'e' || text[0] == 'E'
    &&& if text.len() > 1 && (text[1] == '-' || text[1] == '+') {
        digits(text.skip(2))
    } else {
        digits(text.skip(1))
    }
}

/// What `INTEGER_REGEX` matches.
pub open spec fn integer_shape(text: Seq<char>) -> bool {
    whole(magnitude(text))
}

/// `text` is a whole number up to `dot`, a dot, digits up to `end`, and an exponent or nothing.
pub open spec fn fraction_at(text: Seq<char>, dot: int, end: int) -> bool {
    &&& 0 <= dot < end <= text.len()
    &&& whole(text.take(dot))
    &&& text[dot] == '.'
    &&& digits(text.subrange(dot + 1, end))
    &&& end == text.len() || exponent(text.skip(end))
}

/// What `FLOATING_POINT_REGEX` matches.
pub open spec fn fraction_shape(text: Seq<char>) -> bool {
    exists|dot: int, end: int| fraction_at(magnitude(text), dot, end)
}

/// `text` is a whole number up to `at`, and an exponent from there on.
pub open spec fn exponent_at(text: Seq<char>, at: int) -> bool {
    0 <= at < text.len() && whole(text.take(at)) && exponent(text.skip(at))
}

/// What `FLOATING_POINT_REGEX_2` matches.
pub open spec fn exponent_shape(text: Seq<char>) -> bool {
    exists|at: int| exponent_at(magnitude(text), at)
}

/// `Regex::new`, and `Regex::is_match` on what it compiled: whether the pattern matches somewhere in
/// the text, or `None` where the pattern does not compile. Of the three patterns of numbers, which
/// are anchored at both ends, it is stated which texts they match as a whole.
#[verifier::external_body]
pub(crate) fn regex_is_match(pattern: &str, text: &str) -> (result: Option<bool>)
    ensures
        result == regex_matches(pattern@, text@),
        pattern@ == INTEGER_REGEX@ ==> result == Some(integer_shape(text@)),
        pattern@ == FLOATING_POINT_REGEX@ ==> result == Some(fraction_shape(text@)),
        pattern@ == FLOATING_POINT_REGEX_2@ ==> result == Some(exponent_shape(text@)),
{
    match regex::Regex::new(pattern) {
        Ok(compiled) => Some(compiled.is_match(text)),
        Err(_) => None,
    }
}

/// Why a text is not an integer.
#[derive(Debug, Clone, Copy, PartialEq, Eq, Structural)]
pub enum IntegerFault {
    Empty,
    InvalidDigit,
    PosOverflow,
    NegOverflow,
}

/// Why a text is not a floating-point literal.
#[derive(Debug, Clone, Copy, PartialEq, Eq, Structural)]
pub enum FloatFault {
    Empty,
    Invalid,
}

/// The value of `c` as a digit of the given radix, which is at most 16.
pub open spec fn digit_value(c: char, radix: int) -> Option<int> {
    let value = if '0' <= c <= '9' {
        c as int - '0' as int
    } else if 'a' <= c <= 'f' {
        c as int - 'a' as int + 10
    } else if 'A' <= c <= 'F' {
        c as int - 'A' as int + 10
    } else {
        radix
    };
    if value < radix {
        Some(value)
    } else {
        None
    }
}

/// Whether `c` is a plus or minus sign.
pub open spec fn sign(c: char) -> bool {
    c == '+' || c == '-'
}

/// The integer from `min` to `max` that the digits stand for, or what is wrong at the first digit
/// that is none or that takes the value out of the range.
pub open spec fn numeral(text: Seq<char>, radix: int, negative: bool, min: int, max: int) -> Result<
    int,
    IntegerFault,
>
    decreases text.len(),
{
    if text.len() == 0 {
        Ok(0)
    } else {
        match numeral(text.drop_last(), radix, negative, min, max) {
            Err(fault) => Err(fault),
            Ok(high) => match digit_value(text.last(), radix) {
                None => Err(IntegerFault::InvalidDigit),
                Some(low) => {
                    let value = if negative {
                        high * radix - low
                    } else {
                        high * radix + low
                    };
                    if min <= value <= max {
                        Ok(value)
                    } else if negative {
                        Err(IntegerFault::NegOverflow)
                    } else {
                        Err(IntegerFault::PosOverflow)
                    }
                },
            },
        }
    }
}

/// The integer from `min` to `max` that `text` stands for: a sign that may be missing and at least
/// one digit. A minus sign stands only where `min` is negative.
pub open spec fn signed_numeral(text: Seq<char>, radix: int, min: int, max: int) -> Result<
    int,
    IntegerFault,
> {
    if text.len() == 0 {
        Err(IntegerFault::Empty)
    } else if text.len() == 1 && sign(text[0]) {
        Err(IntegerFault::InvalidDigit)
    } else if text[0] == '+' {
        numeral(text.skip(1), radix, false, min, max)
    } else if text[0] == '-' && min < 0 {
        numeral(text.skip(1), radix, true, min, max)
    } else {
        numeral(text, radix, false, min, max)
    }
}

/// The integer that `text` stands for in decimal.
pub open spec fn decimal_integer(text: Seq<char>) -> Result<int, IntegerFault> {
    signed_numeral(text, 10, i64::MIN as int, i64::MAX as int)
}

/// The code that `text` stands for in hexadecimal.
pub open spec fn hexadecimal_code(text: Seq<char>) -> Result<int, IntegerFault> {
    signed_numeral(text, 16, 0, u32::MAX as int)
}

fn read_digit(c: char, radix: u32) -> (result: Option<u32>)
    requires
        radix <= 16,
    ensures
        match result {
            Some(d) => digit_value(c, radix as int) == Some(d as int) && d < radix,
            None => digit_value(c, radix as int) is None,
        },
{
    let code: u32 = c as u32;
    let value: u32 = if '0' <= c && c <= '9' {
        code - 48
    } else if 'a' <= c && c <= 'f' {
        code - 97 + 10
    } else if 'A' <= c && c <= 'F' {
        code - 65 + 10
    } else {
        radix
    };
    if value < radix {
        Some(value)
    } else {
        None
    }
}

/// Once the digits up to some place are at fault, so are all of them, in the same way.
pub proof fn lemma_numeral_fault_stays(
    text: Seq<char>,
    n: int,
    radix: int,
    negative: bool,
    min: int,
    max: int,
)
    requires
        0 <= n <= text.len(),
        numeral(text.take(n), radix, negative, min, max) is Err,
    ensures
        numeral(text, radix, negative, min, max) == numeral(text.take(n), radix, negative, min, max),
    decreases text.len(),
{
    if n < text.len() {
        assert(text.drop_last().take(n) =~= text.take(n));
        lemma_numeral_fault_stays(text.drop_last(), n, radix, negative, min, max);
    } else {
        assert(text.take(n) =~= text);
    }
}

fn read_numeral(
    chars: &Vec<char>,
    from: usize,
    radix: u32,
    negative: bool,
    min: i64,
    max: i64,
) -> (result: Result<i64, IntegerFault>)
    requires
        from <= chars@.len(),
        1 <= radix <= 16,
        min <= 0 <= max,
    ensures
        match result {
            Ok(value) => numeral(
                chars@.skip(from as int),
                radix as int,
                negative,
                min as int,
                max as int,
            ) == Ok::<int, IntegerFault>(value as int),
            Err(fault) => numeral(
                chars@.skip(from as int),
                radix as int,
                negative,
                min as int,
                max as int,
            ) == Err::<int, IntegerFault>(fault),
        },
{
    let ghost text = chars@.skip(from as int);
    let mut value: i64 = 0;
    let mut i: usize = from;
    while i < chars.len()
        invariant
            from <= i <= chars@.len(),
            1 <= radix <= 16,
            min <= 0 <= max,
            text == chars@.skip(from as int),
            numeral(text.take(i - from), radix as int, negative, min as int, max as int) == Ok::<
                int,
                IntegerFault,
            >(value as int),
            min <= value <= max,
        decreases chars@.len() - i,
    {
        let ghost next = text.take(i - from + 1);
        proof {
            assert(next.drop_last() =~= text.take(i - from));
            assert(next.last() == chars@[i as int]);
        }
        let low: u32 = match read_digit(chars[i], radix) {
            Some(d) => d,
            None => {
                proof {
                    lemma_numeral_fault_stays(
                        text,
                        i - from + 1,
                        radix as int,
                        negative,
                        min as int,
                        max as int,
                    );
                }
                return Err(IntegerFault::InvalidDigit);
            },
        };
        assert(-0x8000_0000_0000_0000 * 16 <= value * radix <= 0x7fff_ffff_ffff_ffff * 16)
            by (nonlinear_arith)
            requires
                1 <= radix <= 16,
                -0x8000_0000_0000_0000 <= value <= 0x7fff_ffff_ffff_ffff,
        ;
        let wide: i128 = if negative {
            value as i128 * radix as i128 - low as i128
        } else {
            value as i128 * radix as i128 + low as i128
        };
        if wide < min as i128 || wide > max as i128 {
            proof {
                lemma_numeral_fault_stays(
                    text,
                    i - from + 1,
                    radix as int,
                    negative,
                    min as int,
                    max as int,
                );
            }
            return if negative {
                Err(IntegerFault::NegOverflow)
            } else {
                Err(IntegerFault::PosOverflow)
            };
        }
        value = wide as i64;
        i = i + 1;
    }
    proof {
        assert(text.take(i - from) =~= text);
    }
    Ok(value)
}

fn read_signed_numeral(text: &str, radix: u32, min: i64, max: i64) -> (result: Result<
    i64,
    IntegerFault,
>)
    requires
        1 <= radix <= 16,
        min <= 0 <= max,
    ensures
        match result {
            Ok(value) => signed_numeral(text@, radix as int, min as int, max as int) == Ok::<
                int,
                IntegerFault,
            >(value as int) && min <= value <= max,
            Err(fault) => signed_numeral(text@, radix as int, min as int, max as int) == Err::<
                int,
                IntegerFault,
            >(fault),
        },
{
    let chars: Vec<char> = to_chars(text);
    if chars.len() == 0 {
        return Err(IntegerFault::Empty);
    }
    if chars.len() == 1 && (chars[0] == '+' || chars[0] == '-') {
        return Err(IntegerFault::InvalidDigit);
    }
    if chars[0] == '+' {
        read_numeral(&chars, 1, radix, false, min, max)
    } else if chars[0] == '-' && min < 0 {
        read_numeral(&chars, 1, radix, true, min, max)
    } else {
        proof {
            assert(chars@.skip(0) =~= chars@);
        }
        read_numeral(&chars, 0, radix, false, min, max)
    }
}

/// The integer that `text` stands for in decimal.
pub fn parse_integer(text: &str) -> (result: Result<i64, IntegerFault>)
    ensures
        match result {
            Ok(value) => decimal_integer(text@) == Ok::<int, IntegerFault>(value as int),
            Err(fault) => decimal_integer(text@) == Err::<int, IntegerFault>(fault),
        },
{
    read_signed_numeral(text, 10, i64::MIN, i64::MAX)
}

/// The code that `text` stands for in hexadecimal.
pub fn parse_code(text: &str) -> (result: Result<u32, IntegerFault>)
    ensures
        match result {
            Ok(code) => hexadecimal_code(text@) == Ok::<int, IntegerFault>(code as int),
            Err(fault) => hexadecimal_code(text@) == Err::<int, IntegerFault>(fault),
        },
{
    match read_signed_numeral(text, 16, 0, 0xffff_ffff) {
        Ok(code) => Ok(code as u32),
        Err(fault) => Err(fault),
    }
}

/// The number of digits `0` to `9` that `text` starts with.
pub open spec fn digit_run(text: Seq<char>) -> int
    decreases text.len(),
{
    if text.len() > 0 && '0' <= text[0] <= '9' {
        1 + digit_run(text.skip(1))
    } else {
        0
    }
}

/// `text` without the sign that it may start with.
pub open spec fn unsigned(text: Seq<char>) -> Seq<char> {
    if text.len() > 0 && sign(text[0]) {
        text.skip(1)
    } else {
        text
    }
}

/// `c`, and the small letter where it is a capital one of ASCII.
pub open spec fn small_letter(c: char) -> char {
    if 'A' <= c <= 'Z' {
        (c as u32 + 32) as char
    } else {
        c
    }
}

/// `text` is `word`, in capital or small letters.
pub open spec fn reads(text: Seq<char>, word: Seq<char>) -> bool {
    text.map_values(|c: char| small_letter(c)) == word
}

/// Nothing, or an exponent: `e` or `E`, a sign that may be missing, and digits `0` to `9`.
pub open spec fn exponent_or_nothing(text: Seq<char>) -> bool {
    text.len() == 0 || {
        let power = unsigned(text.skip(1));
        &&& text[0] == 'e' || text[0] == 'E'
        &&& power.len() > 0
        &&& digit_run(power) == power.len()
    }
}

/// A number without a sign: digits, a dot or none, digits, and an exponent or none; the digits may
/// be missing on one side of the dot.
pub open spec fn unsigned_float(text: Seq<char>) -> bool {
    let before = digit_run(text);
    if before < text.len() && text[before] == '.' {
        let after = digit_run(text.skip(before + 1));
        before + after > 0 && exponent_or_nothing(text.skip(before + 1 + after))
    } else {
        before > 0 && exponent_or_nothing(text.skip(before))
    }
}

/// The texts that stand for a floating-point number.
pub open spec fn float_literal(text: Seq<char>) -> bool {
    let body = unsigned(text);
    ||| reads(body, "inf"@)
    ||| reads(body, "infinity"@)
    ||| reads(body, "nan"@)
    ||| unsigned_float(body)
}

/// The number that digits `0` to `9` stand for.
pub open spec fn digits_value(text: Seq<char>) -> nat
    decreases text.len(),
{
    if text.len() == 0 {
        0
    } else {
        10 * digits_value(text.drop_last()) + (text.last() as nat - '0' as nat) as nat
    }
}

/// The power of ten that an exponent stands for.
pub open spec fn exponent_value(text: Seq<char>) -> int {
    if text.len() == 0 {
        0
    } else {
        let size = digits_value(unsigned(text.skip(1)));
        if text.len() > 1 && text[1] == '-' {
            -size
        } else {
            size as int
        }
    }
}

/// The digits of a number without a sign, those before the dot and those after it.
pub open spec fn decimal_digits(text: Seq<char>) -> Seq<char> {
    let before = digit_run(text);
    if before < text.len() && text[before] == '.' {
        let after = digit_run(text.skip(before + 1));
        text.take(before) + text.subrange(before + 1, before + 1 + after)
    } else {
        text.take(before)
    }
}

/// The power of ten that the digits of a number without a sign are multiplied by.
pub open spec fn decimal_exponent(text: Seq<char>) -> int {
    let before = digit_run(text);
    if before < text.len() && text[before] == '.' {
        let after = digit_run(text.skip(before + 1));
        exponent_value(text.skip(before + 1 + after)) - after
    } else {
        exponent_value(text.skip(before))
    }
}

/// The code of the floating-point number that a text without a sign stands for.
pub open spec fn float_code(body: Seq<char>) -> nat {
    if reads(body, "inf"@) || reads(body, "infinity"@) {
        INFINITE as nat
    } else if reads(body, "nan"@) {
        NOT_A_NUMBER as nat
    } else {
        rounded(digits_value(decimal_digits(body)), decimal_exponent(body))
    }
}

/// The bits of the floating-point number that `text` stands for.
pub open spec fn float_bits(text: Seq<char>) -> u64 {
    if text[0] == '-' {
        (float_code(unsigned(text)) + SIGN) as u64
    } else {
        float_code(unsigned(text)) as u64
    }
}

/// The bits of the floating-point number that `text` stands for, where it stands for one.
pub open spec fn floating_point(text: Seq<char>) -> Result<u64, FloatFault> {
    if text.len() == 0 {
        Err(FloatFault::Empty)
    } else if float_literal(text) {
        Ok(float_bits(text))
    } else {
        Err(FloatFault::Invalid)
    }
}

/// The first place from `i` on at which `chars` has no digit.
fn skip_digits(chars: &Vec<char>, i: usize) -> (result: usize)
    requires
        i <= chars@.len(),
    ensures
        result == i + digit_run(chars@.skip(i as int)),
        i <= result <= chars@.len(),
{
    let mut k: usize = i;
    while k < chars.len() && '0' <= chars[k] && chars[k] <= '9'
        invariant
            i <= k <= chars@.len(),
            digit_run(chars@.skip(i as int)) == k - i + digit_run(chars@.skip(k as int)),
        decreases chars@.len() - k,
    {
        proof {
            assert(chars@.skip(k as int).skip(1) =~= chars@.skip(k + 1));
        }
        k = k + 1;
    }
    k
}

/// The place after the sign that may stand at `i`.
fn skip_sign(chars: &Vec<char>, i: usize) -> (result: usize)
    requires
        i <= chars@.len(),
    ensures
        i <= result <= chars@.len(),
        chars@.skip(result as int) == unsigned(chars@.skip(i as int)),
{
    if i < chars.len() && (chars[i] == '+' || chars[i] == '-') {
        proof {
            assert(chars@.skip(i as int).skip(1) =~= chars@.skip(i + 1));
        }
        i + 1
    } else {
        i
    }
}

fn is_word(chars: &Vec<char>, i: usize, word: &str) -> (result: bool)
    requires
        i <= chars@.len(),
    ensures
        result == reads(chars@.skip(i as int), word@),
{
    let letters: Vec<char> = to_chars(word);
    let ghost body = chars@.skip(i as int).map_values(|c: char| small_letter(c));
    if chars.len() - i != letters.len() {
        assert(body.len() != word@.len());
        return false;
    }
    let mut k: usize = 0;
    while k < letters.len()
        invariant
            k <= letters@.len(),
            i + letters@.len() == chars@.len() <= usize::MAX,
            letters@ == word@,
            body == chars@.skip(i as int).map_values(|c: char| small_letter(c)),
            forall|m: int| 0 <= m < k ==> body[m] == word@[m],
        decreases letters@.len() - k,
    {
        let c: char = chars[i + k];
        let small: char = if 'A' <= c && c <= 'Z' {
            (c as u8 + 32) as char
        } else {
            c
        };
        assert(body[k as int] == small);
        if small != letters[k] {
            return false;
        }
        k = k + 1;
    }
    assert(body =~= word@);
    true
}

pub proof fn lemma_digit_run(text: Seq<char>)
    ensures
        0 <= digit_run(text) <= text.len(),
        forall|i: int| 0 <= i < digit_run(text) ==> '0' <= #[trigger] text[i] <= '9',
    decreases text.len(),
{
    if text.len() > 0 && '0' <= text[0] <= '9' {
        lemma_digit_run(text.skip(1));
        assert forall|i: int| 0 <= i < digit_run(text) implies '0' <= #[trigger] text[i]
            <= '9' by {
            if i > 0 {
                assert(text.skip(1)[i - 1] == text[i]);
            }
        }
    }
}

/// Exponents from here on are all alike.
const FAR: i128 = 0x1_0000_0000_0000_0000_0000;

/// `value` stands for `exact`: they are the same, or both are far from nought on the same side.
spec fn stands_for(value: i128, exact: int) -> bool {
    &&& -0x10_0000_0000_0000_0000_0000 <= value <= 0x10_0000_0000_0000_0000_0000
    &&& value == exact || (value >= FAR && exact >= FAR) || (value <= -FAR && exact <= -FAR)
}

/// The number that the digits from `i` on stand for, or one that is as good.
fn read_size(chars: &Vec<char>, i: usize) -> (result: i128)
    requires
        i <= chars@.len(),
        forall|k: int| i <= k < chars@.len() ==> '0' <= #[trigger] chars@[k] <= '9',
    ensures
        result >= 0,
        stands_for(result, digits_value(chars@.skip(i as int)) as int),
{
    let ghost text = chars@.skip(i as int);
    let mut value: i128 = 0;
    let mut k: usize = i;
    while k < chars.len()
        invariant
            i <= k <= chars@.len(),
            text == chars@.skip(i as int),
            forall|j: int| i <= j < chars@.len() ==> '0' <= #[trigger] chars@[j] <= '9',
            value >= 0,
            stands_for(value, digits_value(text.take(k - i)) as int),
        decreases chars@.len() - k,
    {
        proof {
            assert(text.take(k - i + 1).drop_last() =~= text.take(k - i));
            assert(text.take(k - i + 1).last() == chars@[k as int]);
        }
        if value < FAR {
            value = value * 10 + (chars[k] as u32 - 48) as i128;
        }
        k = k + 1;
    }
    proof {
        assert(text.take(k - i) =~= text);
    }
    value
}

/// The power of ten that the exponent at `i` stands for, or one that is as good; `None` where there is
/// neither an exponent nor the end.
fn read_exponent(chars: &Vec<char>, i: usize) -> (result: Option<i128>)
    requires
        i <= chars@.len(),
    ensures
        match result {
            Some(value) => exponent_or_nothing(chars@.skip(i as int)) && stands_for(
                value,
                exponent_value(chars@.skip(i as int)),
            ),
            None => !exponent_or_nothing(chars@.skip(i as int)),
        },
{
    if i == chars.len() {
        return Some(0);
    }
    if chars[i] != 'e' && chars[i] != 'E' {
        return None;
    }
    proof {
        assert(chars@.skip(i as int).skip(1) =~= chars@.skip(i + 1));
    }
    let power: usize = skip_sign(chars, i + 1);
    let end: usize = skip_digits(chars, power);
    if power == chars.len() || end < chars.len() {
        return None;
    }
    proof {
        let text = chars@.skip(power as int);
        lemma_digit_run(text);
        assert forall|k: int| power <= k < chars@.len() implies '0' <= #[trigger] chars@[k]
            <= '9' by {
            assert(text[k - power] == chars@[k]);
        }
    }
    let size: i128 = read_size(chars, power);
    if chars[i + 1] == '-' {
        Some(-size)
    } else {
        Some(size)
    }
}

/// The number that the digits stand for, and how many of them there are from the first on that is not
/// nought.
fn read_digits(digits: &Vec<char>) -> (result: (Natural, usize))
    requires
        forall|k: int| 0 <= k < digits@.len() ==> '0' <= #[trigger] digits@[k] <= '9',
    ensures
        result.0@ == digits_value(digits@),
        result.1 == 0 ==> result.0@ == 0,
        result.1 > 0 ==> power(10, (result.1 - 1) as nat) <= result.0@ < power(10, result.1 as nat),
{
    let mut number: Natural = Natural::zero();
    let mut width: usize = 0;
    let mut k: usize = 0;
    while k < digits.len()
        invariant
            k <= digits@.len(),
            width <= k,
            forall|j: int| 0 <= j < digits@.len() ==> '0' <= #[trigger] digits@[j] <= '9',
            number@ == digits_value(digits@.take(k as int)),
            width == 0 ==> number@ == 0,
            width > 0 ==> power(10, (width - 1) as nat) <= number@ < power(10, width as nat),
        decreases digits@.len() - k,
    {
        let digit: u64 = (digits[k] as u32 - 48) as u64;
        proof {
            assert(digits@.take(k + 1).drop_last() =~= digits@.take(k as int));
            assert(digits@.take(k + 1).last() == digits@[k as int]);
            assert(power(10, 0) == 1);
            assert(power(10, 1) == 10 * power(10, 0));
            assert(power(10, (width + 1) as nat) == 10 * power(10, width as nat));
            if width > 0 {
                assert(power(10, width as nat) == 10 * power(10, (width - 1) as nat));
            }
        }
        number = number.scaled(10, digit);
        if width > 0 || digit > 0 {
            width = width + 1;
        }
        k = k + 1;
    }
    proof {
        assert(digits@.take(k as int) =~= digits@);
    }
    (number, width)
}

fn push_range(out: &mut Vec<char>, chars: &Vec<char>, from: usize, to: usize)
    requires
        from <= to <= chars@.len(),
    ensures
        final(out)@ == old(out)@ + chars@.subrange(from as int, to as int),
{
    let ghost before = out@;
    let mut k: usize = from;
    proof {
        assert(before + chars@.subrange(from as int, from as int) =~= before);
    }
    while k < to
        invariant
            from <= k <= to <= chars@.len(),
            out@ == before + chars@.subrange(from as int, k as int),
        decreases to - k,
    {
        out.push(chars[k]);
        proof {
            assert(before + chars@.subrange(from as int, k + 1) =~= (before + chars@.subrange(
                from as int,
                k as int,
            )).push(chars@[k as int]));
        }
        k = k + 1;
    }
}

/// The code of the number without a sign from `i` on, where there is one.
fn read_unsigned_float(chars: &Vec<char>, i: usize) -> (result: Option<u64>)
    requires
        i <= chars@.len(),
    ensures
        match result {
            Some(code) => {
                let body = chars@.skip(i as int);
                &&& unsigned_float(body)
                &&& code == rounded(digits_value(decimal_digits(body)), decimal_exponent(body))
                &&& code <= INFINITE
            },
            None => !unsigned_float(chars@.skip(i as int)),
        },
{
    let ghost body = chars@.skip(i as int);
    let dot: usize = skip_digits(chars, i);
    let mut digits: Vec<char> = Vec::new();
    push_range(&mut digits, chars, i, dot);
    let mut end: usize = dot;
    let mut after: usize = 0;
    proof {
        lemma_digit_run(body);
        assert(digits@ =~= body.take(dot - i));
    }
    if dot < chars.len() && chars[dot] == '.' {
        end = skip_digits(chars, dot + 1);
        after = end - dot - 1;
        push_range(&mut digits, chars, dot + 1, end);
        proof {
            assert(body.skip(dot - i + 1) =~= chars@.skip(dot + 1));
            lemma_digit_run(body.skip(dot - i + 1));
            assert(chars@.subrange(dot + 1, end as int) =~= body.subrange(dot - i + 1, end - i));
        }
    }
    proof {
        assert(body.skip(end - i) =~= chars@.skip(end as int));
        assert(digits@ =~= decimal_digits(body));
        assert forall|k: int| 0 <= k < digits@.len() implies '0' <= #[trigger] digits@[k] <= '9' by {
            if k < dot - i {
                assert(digits@[k] == body[k]);
            } else {
                assert(digits@[k] == body.skip(dot - i + 1)[k - (dot - i)]);
            }
        }
    }
    if digits.len() == 0 {
        return None;
    }
    match read_exponent(chars, end) {
        None => None,
        Some(power) => {
            let (number, width): (Natural, usize) = read_digits(&digits);
            let code: u64 = round(&number, width, power - after as i128);
            proof {
                let exact = exponent_value(chars@.skip(end as int));
                if power != exact {
                    lemma_far_exponents(number@, width as nat, power - after, exact - after);
                }
            }
            Some(code)
        },
    }
}

/// The floating-point number that `text` stands for, or why it stands for none.
pub fn parse_float(text: &str) -> (result: Result<Double, FloatFault>)
    ensures
        match result {
            Ok(number) => floating_point(text@) == Ok::<u64, FloatFault>(number@),
            Err(fault) => floating_point(text@) == Err::<u64, FloatFault>(fault),
        },
{
    let chars: Vec<char> = to_chars(text);
    if chars.len() == 0 {
        return Err(FloatFault::Empty);
    }
    proof {
        assert(chars@.skip(0) =~= chars@);
    }
    let body: usize = skip_sign(&chars, 0);
    let code: u64 = if is_word(&chars, body, "inf") || is_word(&chars, body, "infinity") {
        INFINITE
    } else if is_word(&chars, body, "nan") {
        NOT_A_NUMBER
    } else {
        match read_unsigned_float(&chars, body) {
            Some(code) => code,
            None => {
                return Err(FloatFault::Invalid);
            },
        }
    };
    let bits: u64 = if chars[0] == '-' {
        code + SIGN
    } else {
        code
    };
    Ok(Double { bits })
}

} // verus!
