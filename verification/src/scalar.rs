//! Real numbers by their IEEE-754 binary64 bit pattern, with the standard's
//! comparisons.

use vstd::arithmetic::power2::{lemma2_to64, lemma2_to64_rest, lemma_pow2_strictly_increases, pow2};
use vstd::bits::{lemma_u64_pow2_no_overflow, lemma_u64_shl_is_mul, lemma_u64_shr_is_div};
use vstd::prelude::*;

verus! {

/// The weight of the lowest exponent bit of a binary64 pattern: 2^52.
pub const HIDDEN_BIT: u64 = 0x10_0000_0000_0000;

/// The sign bit of a binary64 pattern.
pub const SIGN_BIT: u64 = 0x8000_0000_0000_0000;

/// The pattern of positive infinity; every larger magnitude is a NaN.
pub const INFINITY_BITS: u64 = 0x7FF0_0000_0000_0000;

/// The pattern of `1.0`.
pub const ONE_BITS: u64 = 0x3FF0_0000_0000_0000;

/// A binary64 number, held as its bit pattern.
///
/// Its order is that of IEEE-754: [`Scalar::rank`] maps every number to an
/// integer that grows with it, both zeros to 0, and a NaN compares false with
/// everything.
#[derive(Clone, Copy, Debug)]
pub struct Scalar {
    pub bits: u64,
}

impl Scalar {
    /// Whether the sign bit is set.
    pub open spec fn negative(self) -> bool {
        self.bits >= SIGN_BIT
    }

    /// The pattern without its sign bit.
    pub open spec fn magnitude(self) -> int {
        if self.negative() {
            self.bits - SIGN_BIT
        } else {
            self.bits as int
        }
    }

    /// Whether the pattern is a NaN.
    pub open spec fn nan(self) -> bool {
        self.magnitude() > INFINITY_BITS
    }

    /// The place of the number in the order of the reals: the magnitude, with
    /// the sign in front.
    pub open spec fn rank(self) -> int {
        if self.negative() {
            -self.magnitude()
        } else {
            self.magnitude()
        }
    }

    /// IEEE `<`.
    pub open spec fn spec_lt(self, other: Scalar) -> bool {
        !self.nan() && !other.nan() && self.rank() < other.rank()
    }

    /// IEEE `<=`.
    pub open spec fn spec_le(self, other: Scalar) -> bool {
        !self.nan() && !other.nan() && self.rank() <= other.rank()
    }

    /// The smaller of two numbers; a NaN gives way to the other operand, and of
    /// two equal numbers the first is kept.
    pub open spec fn spec_min(self, other: Scalar) -> Scalar {
        if self.nan() {
            other
        } else if other.nan() {
            self
        } else if other.rank() < self.rank() {
            other
        } else {
            self
        }
    }

    /// The larger of two numbers; a NaN gives way to the other operand, and of
    /// two equal numbers the first is kept.
    pub open spec fn spec_max(self, other: Scalar) -> Scalar {
        if self.nan() {
            other
        } else if other.nan() {
            self
        } else if self.rank() < other.rank() {
            other
        } else {
            self
        }
    }

    /// The number with its sign flipped.
    pub open spec fn spec_neg(self) -> Scalar {
        if self.negative() {
            Scalar { bits: (self.bits - SIGN_BIT) as u64 }
        } else {
            Scalar { bits: (self.bits + SIGN_BIT) as u64 }
        }
    }

    /// The number without its sign.
    pub open spec fn spec_abs(self) -> Scalar {
        Scalar { bits: self.magnitude() as u64 }
    }

    /// The exponent field of the pattern.
    pub open spec fn exponent(self) -> int {
        self.magnitude() / (HIDDEN_BIT as int)
    }

    /// The fraction field of the pattern.
    pub open spec fn fraction(self) -> int {
        self.magnitude() % (HIDDEN_BIT as int)
    }

    /// The digits of the number: the fraction, with the hidden bit in front
    /// unless the number is subnormal.
    pub open spec fn significand(self) -> int {
        if self.exponent() == 0 {
            self.fraction()
        } else {
            HIDDEN_BIT + self.fraction()
        }
    }

    /// The power of two by which the significand is scaled: the size of the
    /// number is `significand() * 2^power()`.
    pub open spec fn power(self) -> int {
        if self.exponent() == 0 {
            -1074
        } else {
            self.exponent() - 1075
        }
    }

    /// The whole part of the size of the number times `2^shift`.
    pub open spec fn whole_part(self, shift: nat) -> int {
        let p = self.power() + shift;
        if p >= 0 {
            self.significand() * pow2(p as nat)
        } else {
            self.significand() / (pow2((-p) as nat) as int)
        }
    }

    /// The number times `2^shift`, cut down to a whole number between 0 and
    /// `limit`: 0 for a NaN and for a negative number, `limit` for what is
    /// larger.
    pub open spec fn spec_truncate(self, shift: nat, limit: u64) -> u64 {
        if self.nan() || self.negative() {
            0
        } else if self.whole_part(shift) >= limit {
            limit
        } else {
            self.whole_part(shift) as u64
        }
    }

    pub fn from_bits(bits: u64) -> (r: Scalar)
        ensures
            r.bits == bits,
    {
        Scalar { bits }
    }

    pub fn to_bits(self) -> (r: u64)
        ensures
            r == self.bits,
    {
        self.bits
    }

    /// Positive zero.
    pub fn zero() -> (r: Scalar)
        ensures
            r.bits == 0,
            r.rank() == 0,
            !r.nan(),
    {
        Scalar { bits: 0 }
    }

    /// The number one.
    pub fn one() -> (r: Scalar)
        ensures
            r.bits == ONE_BITS,
            !r.nan(),
    {
        Scalar { bits: ONE_BITS }
    }

    /// Positive infinity, above every other number.
    pub fn infinity() -> (r: Scalar)
        ensures
            r.bits == INFINITY_BITS,
            !r.nan(),
            forall|s: Scalar| !s.nan() ==> s.spec_le(r),
    {
        Scalar { bits: INFINITY_BITS }
    }

    pub fn is_nan(self) -> (r: bool)
        ensures
            r == self.nan(),
    {
        if self.bits >= SIGN_BIT {
            self.bits - SIGN_BIT > INFINITY_BITS
        } else {
            self.bits > INFINITY_BITS
        }
    }

    /// IEEE `<`: false as soon as one side is a NaN; the two zeros are equal.
    pub fn lt(self, other: Scalar) -> (r: bool)
        ensures
            r == self.spec_lt(other),
    {
        if self.is_nan() || other.is_nan() {
            false
        } else if self.bits >= SIGN_BIT {
            if other.bits >= SIGN_BIT {
                self.bits > other.bits
            } else {
                self.bits > SIGN_BIT || other.bits > 0
            }
        } else {
            other.bits < SIGN_BIT && self.bits < other.bits
        }
    }

    /// IEEE `<=`.
    pub fn le(self, other: Scalar) -> (r: bool)
        ensures
            r == self.spec_le(other),
    {
        if self.is_nan() || other.is_nan() {
            false
        } else {
            !other.lt(self)
        }
    }

    /// IEEE `>`.
    pub fn gt(self, other: Scalar) -> (r: bool)
        ensures
            r == other.spec_lt(self),
    {
        other.lt(self)
    }

    /// IEEE `>=`.
    pub fn ge(self, other: Scalar) -> (r: bool)
        ensures
            r == other.spec_le(self),
    {
        other.le(self)
    }

    pub fn min(self, other: Scalar) -> (r: Scalar)
        ensures
            r == self.spec_min(other),
    {
        if self.is_nan() {
            other
        } else if other.is_nan() {
            self
        } else if other.lt(self) {
            other
        } else {
            self
        }
    }

    pub fn max(self, other: Scalar) -> (r: Scalar)
        ensures
            r == self.spec_max(other),
    {
        if self.is_nan() {
            other
        } else if other.is_nan() {
            self
        } else if self.lt(other) {
            other
        } else {
            self
        }
    }

    /// Flips the sign bit, as IEEE negation does.
    pub fn neg(self) -> (r: Scalar)
        ensures
            r == self.spec_neg(),
            r.nan() == self.nan(),
            r.rank() == -self.rank(),
    {
        if self.bits >= SIGN_BIT {
            Scalar { bits: self.bits - SIGN_BIT }
        } else {
            Scalar { bits: self.bits + SIGN_BIT }
        }
    }

    /// The number times `2^shift` as a whole number, as a saturating cast
    /// gives it: the fraction is dropped, a NaN and a negative number give 0,
    /// and nothing goes above `limit`.
    pub fn truncate(self, shift: u32, limit: u64) -> (r: u64)
        ensures
            r == self.spec_truncate(shift as nat, limit),
            r <= limit,
    {
        if self.is_nan() || self.bits >= SIGN_BIT {
            return 0;
        }
        let field: u64 = self.bits / HIDDEN_BIT;
        let fraction: u64 = self.bits % HIDDEN_BIT;
        let digits: u64 = if field == 0 {
            fraction
        } else {
            HIDDEN_BIT + fraction
        };
        let raised: u64 = (if field == 0 {
            1
        } else {
            field
        }) + shift as u64;
        proof {
            lemma2_to64();
            lemma2_to64_rest();
            assert(field == self.exponent());
            assert(fraction == self.fraction());
            assert(digits == self.significand());
            assert(raised - 1075 == self.power() + shift);
        }
        if raised >= 1075 {
            let up: u64 = raised - 1075;
            if digits == 0 {
                assert(self.whole_part(shift as nat) == 0) by (nonlinear_arith)
                    requires
                        self.whole_part(shift as nat) == 0 * pow2(up as nat),
                ;
                0
            } else if up >= 64 {
                proof {
                    if up > 64 {
                        lemma_pow2_strictly_increases(64, up as nat);
                    }
                    assert(digits * pow2(up as nat) >= pow2(up as nat)) by (nonlinear_arith)
                        requires
                            digits >= 1,
                    ;
                    assert(self.whole_part(shift as nat) >= limit);
                }
                limit
            } else {
                let weight: u64 = 1u64 << up;
                proof {
                    lemma_u64_pow2_no_overflow(up as nat);
                    lemma_u64_shl_is_mul(1, up);
                    assert(digits * weight < 0x1_0000_0000_0000_0000 * 0x1_0000_0000_0000_0000)
                        by (nonlinear_arith)
                        requires
                            digits < 0x1_0000_0000_0000_0000,
                            weight < 0x1_0000_0000_0000_0000,
                    ;
                }
                let whole: u128 = (digits as u128) * (weight as u128);
                assert(whole == self.whole_part(shift as nat));
                if whole >= limit as u128 {
                    limit
                } else {
                    whole as u64
                }
            }
        } else {
            let down: u64 = 1075 - raised;
            if down >= 64 {
                proof {
                    if down > 64 {
                        lemma_pow2_strictly_increases(64, down as nat);
                    }
                    assert(digits as int / (pow2(down as nat) as int) == 0) by (nonlinear_arith)
                        requires
                            0 <= digits < pow2(down as nat),
                    ;
                    assert(self.whole_part(shift as nat) == 0);
                }
                0
            } else {
                let whole: u64 = digits >> down;
                proof {
                    lemma_u64_shr_is_div(digits, down);
                    assert(whole == self.whole_part(shift as nat));
                }
                if whole >= limit {
                    limit
                } else {
                    whole
                }
            }
        }
    }

    /// Clears the sign bit.
    pub fn abs(self) -> (r: Scalar)
        ensures
            r == self.spec_abs(),
            r.nan() == self.nan(),
            !r.negative(),
            r.rank() == self.magnitude(),
    {
        if self.bits >= SIGN_BIT {
            Scalar { bits: self.bits - SIGN_BIT }
        } else {
            self
        }
    }
}

} // verus!
