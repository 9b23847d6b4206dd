//! Natural numbers of any size.

use vstd::prelude::*;

verus! {

/// `base` multiplied by itself, `n` times in all.
pub open spec fn power(base: nat, n: nat) -> nat
    decreases n,
{
    if n == 0 {
        1
    } else {
        base * power(base, (n - 1) as nat)
    }
}

pub proof fn lemma_power_positive(base: nat, n: nat)
    requires
        base > 0,
    ensures
        power(base, n) > 0,
    decreases n,
{
    if n > 0 {
        lemma_power_positive(base, (n - 1) as nat);
        let rest = power(base, (n - 1) as nat);
        assert(base * rest > 0) by (nonlinear_arith)
            requires
                base > 0,
                rest > 0,
        ;
    }
}

pub proof fn lemma_power_sum(base: nat, m: nat, n: nat)
    ensures
        power(base, m + n) == power(base, m) * power(base, n),
    decreases m,
{
    if m > 0 {
        lemma_power_sum(base, (m - 1) as nat, n);
        let a = power(base, (m - 1) as nat);
        let b = power(base, n);
        assert((m + n - 1) as nat == (m - 1) as nat + n);
        assert(base * (a * b) == base * a * b) by (nonlinear_arith);
    } else {
        assert(power(base, 0) * power(base, n) == power(base, n)) by (nonlinear_arith)
            requires
                power(base, 0) == 1,
        ;
    }
}

pub proof fn lemma_power_grows(base: nat, m: nat, n: nat)
    requires
        base > 0,
        m <= n,
    ensures
        power(base, m) <= power(base, n),
{
    let rest = (n - m) as nat;
    lemma_power_sum(base, m, rest);
    lemma_power_positive(base, rest);
    let a = power(base, m);
    let b = power(base, rest);
    assert(a <= a * b) by (nonlinear_arith)
        requires
            b >= 1,
    ;
}

/// Ten is more than the third power of two.
pub proof fn lemma_ten_and_two(n: nat)
    ensures
        power(2, 3 * n) <= power(10, n),
    decreases n,
{
    if n > 0 {
        lemma_ten_and_two((n - 1) as nat);
        lemma_power_sum(2, 3, (3 * (n - 1)) as nat);
        assert(power(2, 3) == 8) by {
            reveal_with_fuel(power, 4);
        }
        assert(3 * n == 3 + (3 * (n - 1)) as nat);
    }
}

pub proof fn lemma_powers_of_two()
    ensures
        power(2, 32) == LIMB,
        power(2, 54) == 0x40_0000_0000_0000,
{
    let a = power(2, 8);
    assert(a == 256) by {
        reveal_with_fuel(power, 9);
    }
    lemma_power_sum(2, 8, 8);
    let b = power(2, 16);
    assert(b == 0x1_0000) by (nonlinear_arith)
        requires
            b == a * a,
            a == 256,
    ;
    lemma_power_sum(2, 16, 16);
    let c = power(2, 32);
    assert(c == 0x1_0000_0000) by (nonlinear_arith)
        requires
            c == b * b,
            b == 0x1_0000,
    ;
    let d = power(2, 6);
    assert(d == 64) by {
        reveal_with_fuel(power, 7);
    }
    lemma_power_sum(2, 16, 6);
    let e = power(2, 22);
    assert(e == 0x40_0000) by (nonlinear_arith)
        requires
            e == b * d,
            b == 0x1_0000,
            d == 64,
    ;
    lemma_power_sum(2, 32, 22);
    let f = power(2, 54);
    assert(f == 0x40_0000_0000_0000) by (nonlinear_arith)
        requires
            f == c * e,
            c == 0x1_0000_0000,
            e == 0x40_0000,
    ;
}

/// How many values a limb has.
pub const LIMB: u64 = 0x1_0000_0000;

/// A natural number, as its digits in base `LIMB`, the lowest first.
pub struct Natural {
    limbs: Vec<u32>,
}

/// The number that the lowest `n` of the given digits make.
pub closed spec fn low_part(limbs: Seq<u32>, n: nat) -> nat
    decreases n,
{
    if n == 0 {
        0
    } else {
        low_part(limbs, (n - 1) as nat) + digit_at(limbs, n - 1) * power(LIMB as nat, (n - 1) as nat)
    }
}

/// The digit at `i`, which is nought beyond the highest one.
spec fn digit_at(limbs: Seq<u32>, i: int) -> nat {
    if 0 <= i < limbs.len() {
        limbs[i] as nat
    } else {
        0
    }
}

impl View for Natural {
    type V = nat;

    closed spec fn view(&self) -> nat {
        low_part(self.limbs@, self.limbs@.len())
    }
}

proof fn lemma_low_part_prefix(a: Seq<u32>, b: Seq<u32>, n: nat)
    requires
        n <= a.len(),
        n <= b.len(),
        a.take(n as int) == b.take(n as int),
    ensures
        low_part(a, n) == low_part(b, n),
    decreases n,
{
    if n > 0 {
        assert(a.take(n - 1) =~= a.take(n as int).take(n - 1));
        assert(b.take(n - 1) =~= b.take(n as int).take(n - 1));
        lemma_low_part_prefix(a, b, (n - 1) as nat);
        assert(a[n - 1] == a.take(n as int)[n - 1]);
        assert(b[n - 1] == b.take(n as int)[n - 1]);
    }
}

proof fn lemma_low_part_push(limbs: Seq<u32>, limb: u32)
    ensures
        low_part(limbs.push(limb), limbs.len() + 1) == low_part(limbs, limbs.len()) + limb * power(
            LIMB as nat,
            limbs.len(),
        ),
{
    let more = limbs.push(limb);
    assert(more.take(limbs.len() as int) =~= limbs.take(limbs.len() as int));
    lemma_low_part_prefix(more, limbs, limbs.len());
    assert(digit_at(more, limbs.len() as int) == limb);
}

proof fn lemma_low_part_padded(limbs: Seq<u32>, n: nat)
    requires
        limbs.len() <= n,
    ensures
        low_part(limbs, n) == low_part(limbs, limbs.len()),
    decreases n,
{
    if limbs.len() < n {
        lemma_low_part_padded(limbs, (n - 1) as nat);
        let weight = power(LIMB as nat, (n - 1) as nat);
        assert(0 * weight == 0) by (nonlinear_arith);
    }
}

proof fn lemma_low_part_bound(limbs: Seq<u32>, n: nat)
    ensures
        low_part(limbs, n) < power(LIMB as nat, n),
    decreases n,
{
    if n > 0 {
        lemma_low_part_bound(limbs, (n - 1) as nat);
        let weight = power(LIMB as nat, (n - 1) as nat);
        let digit = digit_at(limbs, n - 1);
        let low = low_part(limbs, (n - 1) as nat);
        assert(low + digit * weight < LIMB * weight) by (nonlinear_arith)
            requires
                low < weight,
                digit + 1 <= LIMB,
        ;
    }
}

/// One step of a multiplication.
proof fn lemma_scale_step(
    done: nat,
    carry: nat,
    weight: nat,
    low: nat,
    factor: nat,
    addend: nat,
    limb: nat,
    digit: nat,
    next: nat,
)
    requires
        done + carry * weight == low * factor + addend,
        digit + next * LIMB == limb * factor + carry,
    ensures
        (done + digit * weight) + next * (LIMB * weight) == (low + limb * weight) * factor + addend,
{
    assert(next * (LIMB * weight) == (next * LIMB) * weight) by (nonlinear_arith);
    assert(digit * weight + (next * LIMB) * weight == (digit + next * LIMB) * weight)
        by (nonlinear_arith);
    assert((limb * factor + carry) * weight == limb * weight * factor + carry * weight)
        by (nonlinear_arith);
    assert((low + limb * weight) * factor == low * factor + limb * weight * factor)
        by (nonlinear_arith);
}

impl Natural {
    /// Nought.
    pub fn zero() -> (result: Self)
        ensures
            result@ == 0,
    {
        Natural { limbs: Vec::new() }
    }

    /// This number multiplied by `factor`, with `addend` added.
    pub fn scaled(&self, factor: u64, addend: u64) -> (result: Self)
        ensures
            result@ == self@ * factor + addend,
    {
        let mut limbs: Vec<u32> = Vec::new();
        let mut carry: u64 = addend;
        let mut i: usize = 0;
        proof {
            assert(low_part(self.limbs@, 0) * factor == 0) by (nonlinear_arith)
                requires
                    low_part(self.limbs@, 0) == 0,
            ;
            assert(carry * power(LIMB as nat, 0) == carry) by (nonlinear_arith)
                requires
                    power(LIMB as nat, 0) == 1,
            ;
        }
        while i < self.limbs.len()
            invariant
                i <= self.limbs@.len(),
                limbs@.len() == i,
                low_part(limbs@, i as nat) + carry * power(LIMB as nat, i as nat) == low_part(
                    self.limbs@,
                    i as nat,
                ) * factor + addend,
            decreases self.limbs@.len() - i,
        {
            let limb: u32 = self.limbs[i];
            assert(0 <= limb * factor <= 0xffff_ffff * 0xffff_ffff_ffff_ffff) by (nonlinear_arith)
                requires
                    0 <= limb <= 0xffff_ffff,
                    0 <= factor <= 0xffff_ffff_ffff_ffff,
            ;
            let wide: u128 = limb as u128 * factor as u128 + carry as u128;
            let digit: u32 = (wide % 0x1_0000_0000) as u32;
            let next: u64 = (wide / 0x1_0000_0000) as u64;
            proof {
                lemma_low_part_push(limbs@, digit);
                lemma_scale_step(
                    low_part(limbs@, i as nat),
                    carry as nat,
                    power(LIMB as nat, i as nat),
                    low_part(self.limbs@, i as nat),
                    factor as nat,
                    addend as nat,
                    limb as nat,
                    digit as nat,
                    next as nat,
                );
                assert(digit_at(self.limbs@, i as int) == limb);
            }
            limbs.push(digit);
            carry = next;
            i = i + 1;
        }
        let ghost product = self@ * factor + addend;
        while carry > 0
            invariant
                low_part(limbs@, limbs@.len()) + carry * power(LIMB as nat, limbs@.len()) == product,
            decreases carry,
        {
            let digit: u32 = (carry % 0x1_0000_0000) as u32;
            let next: u64 = carry / 0x1_0000_0000;
            proof {
                let weight = power(LIMB as nat, limbs@.len());
                lemma_low_part_push(limbs@, digit);
                assert(carry * weight == digit * weight + next * (LIMB * weight)) by (nonlinear_arith)
                    requires
                        carry == digit + next * LIMB,
                ;
            }
            limbs.push(digit);
            carry = next;
        }
        Natural { limbs }
    }

    /// This number multiplied by the given power of `base`.
    pub fn scaled_by_power(&self, base: u64, n: u128) -> (result: Self)
        ensures
            result@ == self@ * power(base as nat, n as nat),
    {
        let mut result: Natural = self.scaled(1, 0);
        let mut i: u128 = 0;
        proof {
            assert(self@ * power(base as nat, 0) == self@) by (nonlinear_arith)
                requires
                    power(base as nat, 0) == 1,
            ;
        }
        while i < n
            invariant
                i <= n,
                result@ == self@ * power(base as nat, i as nat),
            decreases n - i,
        {
            proof {
                let number = self@;
                let factor = power(base as nat, i as nat);
                assert(number * factor * base == number * (base * factor)) by (nonlinear_arith);
            }
            result = result.scaled(base, 0);
            i = i + 1;
        }
        result
    }

    /// This number multiplied by two, `n` times in all.
    pub fn doubled(&self, n: usize) -> (result: Self)
        ensures
            result@ == self@ * power(2, n as nat),
    {
        let mut result: Natural = self.scaled(1, 0);
        let mut i: usize = 0;
        proof {
            assert(self@ * power(2, 0) == self@) by (nonlinear_arith)
                requires
                    power(2, 0) == 1,
            ;
        }
        while i < n
            invariant
                i <= n,
                result@ == self@ * power(2, i as nat),
            decreases n - i,
        {
            let ghost number = self@;
            let ghost factor = power(2, i as nat);
            if n - i >= 32 {
                proof {
                    lemma_powers_of_two();
                    lemma_power_sum(2, i as nat, 32);
                    assert(number * factor * LIMB == number * (factor * LIMB)) by (nonlinear_arith);
                }
                result = result.scaled(0x1_0000_0000, 0);
                i = i + 32;
            } else {
                proof {
                    assert(number * factor * 2 == number * (2 * factor)) by (nonlinear_arith);
                }
                result = result.scaled(2, 0);
                i = i + 1;
            }
        }
        result
    }

    fn limb(&self, i: usize) -> (result: u32)
        ensures
            result == digit_at(self.limbs@, i as int),
    {
        if i < self.limbs.len() {
            self.limbs[i]
        } else {
            0
        }
    }

    /// Whether this number is less than `other`.
    pub fn less(&self, other: &Natural) -> (result: bool)
        ensures
            result == (self@ < other@),
    {
        let mut i: usize = if self.limbs.len() < other.limbs.len() {
            other.limbs.len()
        } else {
            self.limbs.len()
        };
        proof {
            lemma_low_part_padded(self.limbs@, i as nat);
            lemma_low_part_padded(other.limbs@, i as nat);
        }
        while i > 0
            invariant
                (self@ < other@) == (low_part(self.limbs@, i as nat) < low_part(
                    other.limbs@,
                    i as nat,
                )),
            decreases i,
        {
            i = i - 1;
            let a: u32 = self.limb(i);
            let b: u32 = other.limb(i);
            proof {
                let weight = power(LIMB as nat, i as nat);
                let low_a = low_part(self.limbs@, i as nat);
                let low_b = low_part(other.limbs@, i as nat);
                lemma_low_part_bound(self.limbs@, i as nat);
                lemma_low_part_bound(other.limbs@, i as nat);
                if a < b {
                    assert(low_a + a * weight < low_b + b * weight) by (nonlinear_arith)
                        requires
                            a + 1 <= b,
                            low_a < weight,
                            0 <= low_b,
                    ;
                } else if b < a {
                    assert(low_b + b * weight < low_a + a * weight) by (nonlinear_arith)
                        requires
                            b + 1 <= a,
                            low_b < weight,
                            0 <= low_a,
                    ;
                }
            }
            if a != b {
                return a < b;
            }
        }
        false
    }
}

} // verus!
