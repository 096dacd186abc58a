//! Exact fractions of machine integers, for results that a float would round.

use vstd::prelude::*;

verus! {

/// The non-negative fraction `num / den`, kept as it was computed: it is not
/// reduced to lowest terms, so `==` on two fractions compares how they are
/// written, not what they are worth. To rank fractions by their worth, use
/// [`Fraction::less_than`] and [`Fraction::same_value`].
#[derive(Clone, Copy, Debug, PartialEq, Eq, Structural)]
pub struct Fraction {
    /// The numerator.
    pub num: u128,
    /// The denominator; every fraction the library hands out has `den > 0`.
    pub den: u128,
}

/// Two to the power 64: one half of a `u128`.
const HALF: u128 = 0x1_0000_0000_0000_0000;

/// Two to the power 128, as the contracts need it.
spec fn two_pow_128() -> int {
    0x1_0000_0000_0000_0000_0000_0000_0000_0000int
}

/// The product of two numbers below `HALF` fits a `u128`.
proof fn lemma_half_product(x: u128, y: u128)
    requires
        x < HALF,
        y < HALF,
    ensures
        x * y <= (HALF - 1) * (HALF - 1),
        (HALF - 1) * (HALF - 1) < two_pow_128(),
{
    assert(x * y <= (HALF - 1) * (HALF - 1)) by (nonlinear_arith)
        requires
            x <= HALF - 1,
            y <= HALF - 1,
    ;
}

/// The product of `a` and `b` in full: `hi * 2^128 + lo`.
fn wide_mul(a: u128, b: u128) -> (product: (u128, u128))
    ensures
        product.0 * two_pow_128() + product.1 == a * b,
{
    let a1 = a / HALF;
    let a0 = a % HALF;
    let b1 = b / HALF;
    let b0 = b % HALF;
    proof {
        lemma_half_product(a0, b0);
        lemma_half_product(a0, b1);
        lemma_half_product(a1, b0);
        lemma_half_product(a1, b1);
    }
    let p00 = a0 * b0;
    let p01 = a0 * b1;
    let p10 = a1 * b0;
    let p11 = a1 * b1;
    let mid = p00 / HALF + p01 % HALF + p10 % HALF;
    let lo = (mid % HALF) * HALF + p00 % HALF;
    proof {
        let top = p11 + p01 / HALF + p10 / HALF + mid / HALF;
        assert(a * b == p11 * (HALF * HALF) + (p01 + p10) * HALF + p00) by (nonlinear_arith)
            requires
                a == a1 * HALF + a0,
                b == b1 * HALF + b0,
                p00 == a0 * b0,
                p01 == a0 * b1,
                p10 == a1 * b0,
                p11 == a1 * b1,
        ;
        let k: int = 0x1_0000_0000_0000_0000int;
        let kk: int = 0x1_0000_0000_0000_0000_0000_0000_0000_0000int;
        assert(HALF == k && HALF * HALF == kk && two_pow_128() == kk);
        assert(top * kk + lo == p11 * kk + (p01 + p10) * k + p00);
        assert(a * b <= (two_pow_128() - 1) * (two_pow_128() - 1)) by (nonlinear_arith)
            requires
                a <= two_pow_128() - 1,
                b <= two_pow_128() - 1,
        ;
        assert(top < two_pow_128());
    }
    let hi = p11 + p01 / HALF + p10 / HALF + mid / HALF;
    (hi, lo)
}

impl Fraction {
    /// Whether this fraction is worth less than `other`, both denominators
    /// being positive: the comparison is made by cross-multiplication.
    pub open spec fn is_less_than(self, other: Fraction) -> bool {
        self.num * other.den < other.num * self.den
    }

    /// Whether this fraction is worth as much as `other`.
    pub open spec fn is_same_value(self, other: Fraction) -> bool {
        self.num * other.den == other.num * self.den
    }

    /// Tells whether this fraction is worth less than `other`, exactly.
    pub fn less_than(&self, other: &Fraction) -> (less: bool)
        ensures
            less == self.is_less_than(*other),
    {
        let left = wide_mul(self.num, other.den);
        let right = wide_mul(other.num, self.den);
        left.0 < right.0 || (left.0 == right.0 && left.1 < right.1)
    }

    /// Tells whether this fraction is worth as much as `other`, exactly.
    pub fn same_value(&self, other: &Fraction) -> (same: bool)
        ensures
            same == self.is_same_value(*other),
    {
        let left = wide_mul(self.num, other.den);
        let right = wide_mul(other.num, self.den);
        left.0 == right.0 && left.1 == right.1
    }
}

} // verus!
