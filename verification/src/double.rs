//! Floating-point numbers of 64 bits, as codes, and how decimal numbers are rounded to them.
//!
//! The floating-point numbers from nought up to infinity are numbered in their order by the codes
//! from nought to `INFINITE`; the bits of a number are its code, with the sign in the highest bit.

use crate::natural::{
    lemma_power_grows, lemma_power_positive, lemma_power_sum, lemma_powers_of_two,
    lemma_ten_and_two, power, Natural,
};
use vstd::prelude::*;

verus! {

/// How many codes there are to each exponent.
pub const BINADE: u64 = 0x10_0000_0000_0000;

/// The code of infinity.
pub const INFINITE: u64 = 0x7ff0_0000_0000_0000;

/// The code that stands for no number.
pub const NOT_A_NUMBER: u64 = 0x7ff8_0000_0000_0000;

/// The bit that is set where the sign is a minus.
pub const SIGN: u64 = 0x8000_0000_0000_0000;

/// The floating-point number with the given code, as a multiple of the smallest one above nought,
/// which is one half to the power of 1074.
pub open spec fn units(code: nat) -> nat {
    if code < BINADE {
        code
    } else {
        (BINADE as nat + code % BINADE as nat) * power(2, (code / BINADE as nat - 1) as nat)
    }
}

/// `n`, where it is positive.
pub open spec fn positive_part(n: int) -> nat {
    if n > 0 {
        n as nat
    } else {
        0
    }
}

/// Whether `digits`, multiplied by ten to the power of `exponent`, lies below the middle between the
/// floating-point number with the given code and the next one, or in the middle where the code is
/// even.
pub open spec fn rounds_down(digits: nat, exponent: int, code: nat) -> bool {
    let number = digits * power(10, positive_part(exponent)) * power(2, 1075);
    let middle = (units(code) + units(code + 1)) * power(10, positive_part(-exponent));
    number < middle || (number == middle && code % 2 == 0)
}

/// Whether the floating-point number with the given code is the nearest one to `digits`, multiplied by
/// ten to the power of `exponent`; of two that are as near, the one with the even code is.
pub open spec fn nearest(digits: nat, exponent: int, code: nat) -> bool {
    &&& code <= INFINITE
    &&& code < INFINITE ==> rounds_down(digits, exponent, code)
    &&& code > 0 ==> !rounds_down(digits, exponent, (code - 1) as nat)
}

/// The code of the floating-point number that is the nearest one to `digits`, multiplied by ten to the
/// power of `exponent`.
pub open spec fn rounded(digits: nat, exponent: int) -> nat {
    choose|code: nat| nearest(digits, exponent, code)
}

/// Whether the bits stand for no number.
pub open spec fn not_a_number(bits: u64) -> bool {
    bits % SIGN > INFINITE
}

/// Whether the bits stand for nought, with either sign.
pub open spec fn nought(bits: u64) -> bool {
    bits % SIGN == 0
}

/// Whether the bits stand for the same number: no number is the same as what is none, and the two
/// noughts are the same.
pub open spec fn same_number(a: u64, b: u64) -> bool {
    !not_a_number(a) && !not_a_number(b) && (a == b || nought(a) && nought(b))
}

/// A floating-point number, as its bits.
#[derive(Debug, Clone, Copy)]
pub struct Double {
    pub bits: u64,
}

impl View for Double {
    type V = u64;

    open spec fn view(&self) -> u64 {
        self.bits
    }
}

impl PartialEq for Double {
    fn eq(&self, other: &Self) -> (result: bool) {
        let a: u64 = self.bits % SIGN;
        let b: u64 = other.bits % SIGN;
        a <= INFINITE && b <= INFINITE && (self.bits == other.bits || (a == 0 && b == 0))
    }
}

impl vstd::std_specs::cmp::PartialEqSpecImpl for Double {
    open spec fn obeys_eq_spec() -> bool {
        true
    }

    open spec fn eq_spec(&self, other: &Self) -> bool {
        same_number(self@, other@)
    }
}

/// The odd number that the middle after the given code is a multiple of by a power of two.
spec fn middle_factor(code: nat) -> nat {
    if code < BINADE {
        2 * code + 1
    } else {
        2 * (BINADE as nat + code % BINADE as nat) + 1
    }
}

spec fn middle_power(code: nat) -> nat {
    if code < BINADE {
        0
    } else {
        (code / BINADE as nat - 1) as nat
    }
}

proof fn lemma_middle(code: nat)
    ensures
        units(code) < units(code + 1),
        units(code) + units(code + 1) == middle_factor(code) * power(2, middle_power(code)),
{
    let h = BINADE as nat;
    if code + 1 < h {
        assert(power(2, 0) == 1);
        assert(middle_factor(code) * 1 == middle_factor(code));
    } else if code + 1 == h {
        assert(power(2, 0) == 1);
        assert(units(h) == h) by {
            assert(h % h == 0 && h / h == 1) by (nonlinear_arith)
                requires
                    h > 0,
            ;
            assert((h + 0) * 1 == h);
        }
        assert(middle_factor(code) * 1 == middle_factor(code));
    } else {
        let e = code / h;
        let r = code % h;
        let p = power(2, (e - 1) as nat);
        lemma_power_positive(2, (e - 1) as nat);
        let m = h + r;
        assert(units(code) == m * p);
        assert(units(code + 1) == (m + 1) * p) by {
            if r + 1 < h {
                assert((code + 1) / h == e && (code + 1) % h == r + 1);
            } else {
                assert((code + 1) / h == e + 1 && (code + 1) % h == 0);
                assert(power(2, e) == 2 * p);
                assert(h * (2 * p) == (m + 1) * p) by (nonlinear_arith)
                    requires
                        m + 1 == 2 * h,
                ;
            }
        }
        assert(m * p < (m + 1) * p && m * p + (m + 1) * p == (2 * m + 1) * p) by (nonlinear_arith)
            requires
                p > 0,
        ;
    }
}

/// Floating-point numbers grow with their codes.
pub proof fn lemma_units_grow(a: nat, b: nat)
    requires
        a < b,
    ensures
        units(a) < units(b),
    decreases b - a,
{
    lemma_middle(a);
    if a + 1 < b {
        lemma_units_grow(a + 1, b);
    }
}

proof fn lemma_rounds_down_next(digits: nat, exponent: int, code: nat)
    requires
        rounds_down(digits, exponent, code),
    ensures
        rounds_down(digits, exponent, code + 1),
{
    lemma_middle(code);
    lemma_middle(code + 1);
    let scale = power(10, positive_part(-exponent));
    lemma_power_positive(10, positive_part(-exponent));
    let a = units(code) + units(code + 1);
    let b = units(code + 1) + units(code + 2);
    assert(code + 1 + 1 == code + 2);
    assert(a * scale < b * scale) by (nonlinear_arith)
        requires
            a < b,
            scale > 0,
    ;
}

proof fn lemma_rounds_down_later(digits: nat, exponent: int, code: nat, later: nat)
    requires
        rounds_down(digits, exponent, code),
        code <= later,
    ensures
        rounds_down(digits, exponent, later),
    decreases later - code,
{
    if code < later {
        lemma_rounds_down_next(digits, exponent, code);
        lemma_rounds_down_later(digits, exponent, code + 1, later);
    }
}

/// No two floating-point numbers are the nearest to the same decimal number.
pub proof fn law_nearest_is_one(digits: nat, exponent: int, a: nat, b: nat)
    requires
        nearest(digits, exponent, a),
        nearest(digits, exponent, b),
    ensures
        a == b,
{
    if a < b {
        lemma_rounds_down_later(digits, exponent, a, (b - 1) as nat);
    } else if b < a {
        lemma_rounds_down_later(digits, exponent, b, (a - 1) as nat);
    }
}

proof fn lemma_nearest_from(digits: nat, exponent: int, code: nat) -> (found: nat)
    requires
        code <= INFINITE,
        code > 0 ==> !rounds_down(digits, exponent, (code - 1) as nat),
    ensures
        nearest(digits, exponent, found),
    decreases INFINITE - code,
{
    if code == INFINITE || rounds_down(digits, exponent, code) {
        code
    } else {
        lemma_nearest_from(digits, exponent, code + 1)
    }
}

/// Every decimal number has a floating-point number that is the nearest to it.
pub proof fn law_rounded_is_nearest(digits: nat, exponent: int)
    ensures
        nearest(digits, exponent, rounded(digits, exponent)),
{
    let found = lemma_nearest_from(digits, exponent, 0);
    lemma_rounded(digits, exponent, found);
}

/// A decimal number that is a floating-point number is rounded to that one.
pub proof fn law_exact_numbers_are_kept(digits: nat, exponent: int, code: nat)
    requires
        code < INFINITE,
        digits * power(10, positive_part(exponent)) * power(2, 1075) == 2 * units(code) * power(
            10,
            positive_part(-exponent),
        ),
    ensures
        rounded(digits, exponent) == code,
{
    let scale = power(10, positive_part(-exponent));
    lemma_power_positive(10, positive_part(-exponent));
    lemma_middle(code);
    let here = units(code);
    let above = units(code + 1);
    assert(2 * here * scale < (here + above) * scale) by (nonlinear_arith)
        requires
            here < above,
            scale > 0,
    ;
    if code > 0 {
        lemma_middle((code - 1) as nat);
        let below = units((code - 1) as nat);
        assert((below + here) * scale < 2 * here * scale) by (nonlinear_arith)
            requires
                below < here,
                scale > 0,
        ;
    }
    lemma_rounded(digits, exponent, code);
}

/// The floating-point numbers begin with nought, and each is greater than the one before by a step that
/// is one at first and is doubled with each binade but the first two.
pub proof fn law_numbers_are_spaced_by_binades(code: nat)
    ensures
        units(0) == 0,
        units(code + 1) - units(code) == (if code < 2 * BINADE {
            1
        } else {
            2 * power(2, (code / BINADE as nat - 2) as nat)
        }),
{
    let h = BINADE as nat;
    lemma_middle(code);
    if code < h {
        if code + 1 == h {
            assert(h % h == 0 && h / h == 1);
            assert(power(2, 0) == 1);
            assert((h + 0) * 1 == h);
        }
    } else {
        let e = code / h;
        let m = h + code % h;
        let p = power(2, (e - 1) as nat);
        assert(units(code) == m * p);
        assert(units(code) + units(code + 1) == (2 * m + 1) * p);
        assert((2 * m + 1) * p - 2 * (m * p) == p) by (nonlinear_arith);
        if code < 2 * h {
            assert(e == 1);
            assert(power(2, 0) == 1);
        } else {
            assert(e >= 2);
            assert(p == 2 * power(2, (e - 2) as nat));
        }
    }
}

/// How far two numbers are apart.
pub open spec fn distance(a: int, b: int) -> int {
    if a < b {
        b - a
    } else {
        a - b
    }
}

proof fn lemma_nearer(x: int, below: int, here: int, above: int, k: int)
    requires
        below <= here <= above,
        2 * x <= here + above,
        2 * x >= below + here,
        k <= below || k == here || k >= above,
    ensures
        distance(x, here) <= distance(x, k),
        distance(x, here) == distance(x, k) && k > here && below < here < above ==> 2 * x == here
            + above,
        distance(x, here) == distance(x, k) && k < here && below < here < above ==> 2 * x == below
            + here,
{
}

/// Of all floating-point numbers, the one that a decimal number is rounded to is at the least distance
/// from it; of two at the least distance it is the one with the even code. Both numbers are taken as
/// multiples of the smallest floating-point number above nought, by the power of ten that makes them
/// whole.
pub proof fn law_rounded_is_at_least_distance(digits: nat, exponent: int, code: nat)
    requires
        rounded(digits, exponent) < INFINITE,
        code < INFINITE,
    ensures
        ({
            let number = digits * power(10, positive_part(exponent)) * power(2, 1074);
            let scale = power(10, positive_part(-exponent));
            let found = rounded(digits, exponent);
            &&& distance(number as int, (units(found) * scale) as int) <= distance(
                number as int,
                (units(code) * scale) as int,
            )
            &&& distance(number as int, (units(found) * scale) as int) == distance(
                number as int,
                (units(code) * scale) as int,
            ) && code != found ==> found % 2 == 0
        }),
{
    let up = power(10, positive_part(exponent));
    let number = digits * up * power(2, 1074);
    let scale = power(10, positive_part(-exponent));
    let found = rounded(digits, exponent);
    lemma_power_positive(10, positive_part(-exponent));
    law_rounded_is_nearest(digits, exponent);
    let two = power(2, 1074);
    assert(power(2, 1075) == 2 * two);
    assert(digits * up * (2 * two) == 2 * number) by (nonlinear_arith)
        requires
            number == digits * up * two,
    ;
    let here = units(found);
    let above = units(found + 1);
    let there = units(code);
    lemma_middle(found);
    let below = if found > 0 {
        units((found - 1) as nat)
    } else {
        0
    };
    if found > 0 {
        lemma_middle((found - 1) as nat);
    }
    assert((here + above) * scale == here * scale + above * scale) by (nonlinear_arith);
    assert((below + here) * scale == below * scale + here * scale) by (nonlinear_arith);
    assert(here * scale < above * scale) by (nonlinear_arith)
        requires
            here < above,
            scale > 0,
    ;
    assert(0 * scale == 0) by (nonlinear_arith);
    if found > 0 {
        assert(below * scale < here * scale) by (nonlinear_arith)
            requires
                below < here,
                scale > 0,
        ;
    }
    if code < found {
        if code + 1 < found {
            lemma_units_grow(code, (found - 1) as nat);
        }
        assert(there * scale <= below * scale) by (nonlinear_arith)
            requires
                there <= below,
        ;
    } else if code > found {
        if found + 1 < code {
            lemma_units_grow(found + 1, code);
        }
        assert(there * scale >= above * scale) by (nonlinear_arith)
            requires
                there >= above,
        ;
    }
    if found == 0 {
        assert(here == 0);
        assert(0 <= number);
    } else {
        lemma_nearer(
            number as int,
            (below * scale) as int,
            (here * scale) as int,
            (above * scale) as int,
            (there * scale) as int,
        );
    }
}

/// A decimal number is rounded to infinity if it is at least as far up as the middle between the
/// greatest floating-point number and what would come next, and not otherwise.
pub proof fn law_large_numbers_are_infinite(digits: nat, exponent: int)
    ensures
        rounded(digits, exponent) <= INFINITE,
        rounded(digits, exponent) == INFINITE <==> 2 * (digits * power(10, positive_part(exponent))
            * power(2, 1074)) >= (units((INFINITE - 1) as nat) + units(INFINITE as nat)) * power(
            10,
            positive_part(-exponent),
        ),
{
    law_rounded_is_nearest(digits, exponent);
    let up = power(10, positive_part(exponent));
    let two = power(2, 1074);
    assert(power(2, 1075) == 2 * two);
    assert(digits * up * (2 * two) == 2 * (digits * up * two)) by (nonlinear_arith);
    let last = (INFINITE - 1) as nat;
    let found = rounded(digits, exponent);
    if found < INFINITE {
        lemma_rounds_down_later(digits, exponent, found, last);
    }
    assert(last % 2 == 1);
}

/// Rounding keeps the order of numbers with the same exponent.
pub proof fn law_rounding_keeps_order(a: nat, b: nat, exponent: int)
    requires
        a <= b,
    ensures
        rounded(a, exponent) <= rounded(b, exponent),
{
    law_rounded_is_nearest(a, exponent);
    law_rounded_is_nearest(b, exponent);
    let x = rounded(a, exponent);
    let y = rounded(b, exponent);
    if y < x {
        let up = power(10, positive_part(exponent));
        let two = power(2, 1075);
        assert(a * up * two <= b * up * two) by (nonlinear_arith)
            requires
                a <= b,
        ;
        assert(rounds_down(a, exponent, y));
        lemma_rounds_down_later(a, exponent, y, (x - 1) as nat);
    }
}

/// What was found to be the nearest is what a decimal number is rounded to.
proof fn lemma_rounded(digits: nat, exponent: int, code: nat)
    requires
        nearest(digits, exponent, code),
    ensures
        rounded(digits, exponent) == code,
{
    law_nearest_is_one(digits, exponent, rounded(digits, exponent), code);
}

/// Nought is rounded to nought.
proof fn lemma_nought_rounded(exponent: int)
    ensures
        rounded(0, exponent) == 0,
{
    let scale = power(10, positive_part(-exponent));
    lemma_power_positive(10, positive_part(-exponent));
    let up = power(10, positive_part(exponent));
    let two = power(2, 1075);
    assert(0 * up * two == 0) by (nonlinear_arith);
    lemma_middle(0);
    let middle = units(0) + units(1);
    assert(middle * scale > 0) by (nonlinear_arith)
        requires
            middle > 0,
            scale > 0,
    ;
    lemma_rounded(0, exponent, 0);
}

/// A number of `width` digits that is multiplied by a large power of ten is rounded to infinity.
proof fn lemma_large_rounded(digits: nat, exponent: int, width: nat)
    requires
        width > 0,
        digits >= power(10, (width - 1) as nat),
        exponent + width - 1 >= 342,
    ensures
        rounded(digits, exponent) == INFINITE,
{
    let up = positive_part(exponent);
    let down = positive_part(-exponent);
    let code = (INFINITE - 1) as nat;
    let high = power(10, up);
    let scale = power(10, down);
    let two = power(2, 1075);
    let lead = power(10, (width - 1) as nat);
    let extra = (exponent + width - 1 - 342) as nat;
    // digits * 10^up >= 10^342 * 10^down
    lemma_power_sum(10, (width - 1) as nat, up);
    lemma_power_sum(10, 342 + extra, down);
    assert((width - 1) as nat + up == 342 + extra + down);
    lemma_power_grows(10, 342, 342 + extra);
    lemma_ten_and_two(342);
    let big = power(10, 342 + extra);
    lemma_power_sum(2, 1026, 1075);
    let least = power(2, 1026);
    assert(digits * high >= big * scale) by (nonlinear_arith)
        requires
            digits >= lead,
            lead * high == big * scale,
    ;
    assert(digits * high * two >= least * two * scale) by (nonlinear_arith)
        requires
            digits * high >= big * scale,
            big >= least,
    ;
    // the middle is less than 2^54 * 2^2045
    lemma_middle(code);
    let factor = middle_factor(code);
    assert(code / BINADE as nat == 2046);
    assert(middle_power(code) == 2045);
    lemma_power_sum(2, 54, 2045);
    lemma_power_sum(2, 2099, 2);
    lemma_powers_of_two();
    let half = power(2, 2045);
    let whole = power(2, 2099);
    lemma_power_grows(2, 2099, 2101);
    assert(factor * half <= whole) by (nonlinear_arith)
        requires
            factor <= power(2, 54),
            whole == power(2, 54) * half,
    ;
    let middle = units(code) + units(code + 1);
    let bound = power(2, 2101);
    assert(least * two == bound);
    assert(middle <= bound);
    assert(bound * scale >= middle * scale) by (nonlinear_arith)
        requires
            middle <= bound,
    ;
    assert(code % 2 == 1);
    lemma_rounded(digits, exponent, INFINITE as nat);
}

/// A number of `width` digits that is divided by a large power of ten is rounded to nought.
proof fn lemma_small_rounded(digits: nat, exponent: int, width: nat)
    requires
        digits < power(10, width),
        exponent + width <= -360,
    ensures
        rounded(digits, exponent) == 0,
{
    let down = positive_part(-exponent);
    let scale = power(10, down);
    let two = power(2, 1075);
    let all = power(10, width);
    let rest = (-exponent - width) as nat;
    assert(positive_part(exponent) == 0);
    assert(power(10, 0) == 1);
    lemma_power_sum(10, width, rest);
    lemma_power_grows(10, 360, rest);
    lemma_ten_and_two(360);
    lemma_power_grows(2, 1075, 1080);
    let ten = power(10, rest);
    lemma_power_positive(2, 1075);
    assert(digits * 1 * two < all * ten) by (nonlinear_arith)
        requires
            digits < all,
            two <= ten,
            two > 0,
    ;
    lemma_middle(0);
    assert(units(0) + units(1) == 1) by {
        assert(units(0) == 0 && units(1) == 1);
    }
    assert(1 * scale == scale) by (nonlinear_arith);
    lemma_rounded(digits, exponent, 0);
}

/// Where the exponent is far enough from nought, it does not matter how far.
pub proof fn lemma_far_exponents(digits: nat, width: nat, a: int, b: int)
    requires
        width == 0 ==> digits == 0,
        width > 0 ==> power(10, (width - 1) as nat) <= digits < power(10, width),
        (a >= 342 && b >= 342) || (a + width <= -360 && b + width <= -360),
    ensures
        rounded(digits, a) == rounded(digits, b),
{
    if width == 0 {
        lemma_nought_rounded(a);
        lemma_nought_rounded(b);
    } else if a >= 342 {
        lemma_large_rounded(digits, a, width);
        lemma_large_rounded(digits, b, width);
    } else {
        lemma_small_rounded(digits, a, width);
        lemma_small_rounded(digits, b, width);
    }
}

/// The code of the floating-point number nearest to `digits`, multiplied by ten to the power of `up`
/// and divided by ten to the power of `down`, of which one is nought.
fn round_by_search(digits: &Natural, up: u128, down: u128) -> (result: u64)
    requires
        up == 0 || down == 0,
    ensures
        result == rounded(digits@, up - down),
        result <= INFINITE,
{
    let ghost exponent = up - down;
    let number: Natural = digits.scaled_by_power(10, up).doubled(1075);
    let scale: Natural = Natural::zero().scaled(0, 1).scaled_by_power(10, down);
    proof {
        assert(1 * power(10, down as nat) == power(10, down as nat)) by (nonlinear_arith);
        assert(positive_part(exponent) == up && positive_part(-exponent) == down);
    }
    let mut low: u64 = 0;
    let mut high: u64 = INFINITE;
    while low < high
        invariant
            low <= high <= INFINITE,
            number@ == digits@ * power(10, positive_part(exponent)) * power(2, 1075),
            scale@ == power(10, positive_part(-exponent)),
            low > 0 ==> !rounds_down(digits@, exponent, (low - 1) as nat),
            high < INFINITE ==> rounds_down(digits@, exponent, high as nat),
        decreases high - low,
    {
        let code: u64 = low + (high - low) / 2;
        let (factor, twos): (u64, usize) = if code < BINADE {
            (2 * code + 1, 0)
        } else {
            (2 * (BINADE + code % BINADE) + 1, (code / BINADE - 1) as usize)
        };
        let middle: Natural = scale.scaled(factor, 0).doubled(twos);
        proof {
            lemma_middle(code as nat);
            let s = scale@;
            let f = factor as nat;
            let p = power(2, twos as nat);
            assert(s * f * p == f * p * s) by (nonlinear_arith);
        }
        if number.less(&middle) || (code % 2 == 0 && !middle.less(&number)) {
            high = code;
        } else {
            low = code + 1;
        }
    }
    proof {
        lemma_rounded(digits@, exponent, low as nat);
    }
    low
}

/// The code of the floating-point number nearest to `digits`, a number of `width` digits that does not
/// begin with nought, multiplied by ten to the power of `exponent`.
pub fn round(digits: &Natural, width: usize, exponent: i128) -> (result: u64)
    requires
        width == 0 ==> digits@ == 0,
        width > 0 ==> power(10, (width - 1) as nat) <= digits@ < power(10, width as nat),
        -0x1_0000_0000_0000_0000_0000_0000 <= exponent <= 0x1_0000_0000_0000_0000_0000_0000,
    ensures
        result == rounded(digits@, exponent as int),
        result <= INFINITE,
{
    if width == 0 {
        proof {
            lemma_nought_rounded(exponent as int);
        }
        return 0;
    }
    if exponent + width as i128 - 1 >= 342 {
        proof {
            lemma_large_rounded(digits@, exponent as int, width as nat);
        }
        return INFINITE;
    }
    if exponent + width as i128 <= -360 {
        proof {
            lemma_small_rounded(digits@, exponent as int, width as nat);
        }
        return 0;
    }
    if exponent >= 0 {
        round_by_search(digits, exponent as u128, 0)
    } else {
        round_by_search(digits, 0, (-exponent) as u128)
    }
}

} // verus!
