//! Signs, classes and comparisons.

use crate::binary32::model::grid;
use crate::binary32::model::lemma_grid_order;
use crate::binary32::model::Binary32;
use crate::binary32::model::INFINITY_BITS;
use crate::binary32::model::NAN_BITS;
use crate::binary32::model::SIGN_BIT;
use vstd::prelude::*;

verus! {

pub open spec fn num_spec(bits: u32) -> Binary32 {
    Binary32 { bits }
}

/// The number with this pattern, for constants.
#[verifier::when_used_as_spec(num_spec)]
pub fn num(bits: u32) -> (r: Binary32)
    ensures
        r == num_spec(bits),
{
    Binary32 { bits }
}

impl Binary32 {
    /// The NaN that the arithmetic returns.
    pub open spec fn nan_spec() -> Binary32 {
        Binary32 { bits: NAN_BITS }
    }

    pub open spec fn from_bits_spec(bits: u32) -> Binary32 {
        Binary32 { bits }
    }

    /// The number with this pattern.
    #[verifier::when_used_as_spec(from_bits_spec)]
    pub fn from_bits(bits: u32) -> (r: Binary32)
        ensures
            r == Binary32::from_bits_spec(bits),
    {
        Binary32 { bits }
    }

    pub fn to_bits(self) -> (r: u32)
        ensures
            r == self.bits,
    {
        self.bits
    }

    /// The pattern without its sign bit.
    pub fn magnitude_bits(self) -> (r: u32)
        ensures
            r == self.magnitude(),
            r < SIGN_BIT,
    {
        if self.bits >= SIGN_BIT {
            self.bits - SIGN_BIT
        } else {
            self.bits
        }
    }

    /// Is the sign bit set?
    pub fn is_negative(self) -> (r: bool)
        ensures
            r == self.negative(),
    {
        self.bits >= SIGN_BIT
    }

    pub fn is_nan(self) -> (r: bool)
        ensures
            r == self.nan(),
    {
        self.magnitude_bits() > INFINITY_BITS
    }

    pub fn is_infinite(self) -> (r: bool)
        ensures
            r == self.infinite(),
    {
        self.magnitude_bits() == INFINITY_BITS
    }

    /// Neither infinite nor NaN.
    pub fn is_finite(self) -> (r: bool)
        ensures
            r == self.finite(),
    {
        self.magnitude_bits() < INFINITY_BITS
    }

    /// The number of sign `negative` whose pattern without sign is `p`.
    pub fn with_sign(negative: bool, p: u32) -> (r: Binary32)
        requires
            p < SIGN_BIT,
        ensures
            r == Binary32::signed(negative, p as nat),
            r.magnitude() == p,
            r.negative() == negative,
    {
        if negative {
            Binary32 { bits: p + SIGN_BIT }
        } else {
            Binary32 { bits: p }
        }
    }

    pub open spec fn negated_spec(self) -> Binary32 {
        Binary32::signed(!self.negative(), self.magnitude())
    }

    /// The number with its sign turned.
    #[verifier::when_used_as_spec(negated_spec)]
    pub fn negated(self) -> (r: Binary32)
        ensures
            r == self.negated_spec(),
            r.magnitude() == self.magnitude(),
            r.negative() == !self.negative(),
            r.units() == -self.units(),
    {
        Binary32::with_sign(!self.is_negative(), self.magnitude_bits())
    }

    pub open spec fn abs_spec(self) -> Binary32 {
        Binary32::signed(false, self.magnitude())
    }

    /// The number without its sign.
    #[verifier::when_used_as_spec(abs_spec)]
    pub fn abs(self) -> (r: Binary32)
        ensures
            r == self.abs_spec(),
            r.magnitude() == self.magnitude(),
            !r.negative(),
    {
        Binary32::with_sign(false, self.magnitude_bits())
    }

    pub open spec fn signum_spec(self) -> Binary32 {
        if self.nan() {
            Binary32::nan_spec()
        } else if self.negative() {
            Binary32 { bits: 0xbf80_0000 }
        } else {
            Binary32 { bits: 0x3f80_0000 }
        }
    }

    /// One with the sign of the number; a NaN for a NaN.
    #[verifier::when_used_as_spec(signum_spec)]
    pub fn signum(self) -> (r: Binary32)
        ensures
            r == self.signum_spec(),
    {
        if self.is_nan() {
            Binary32 { bits: NAN_BITS }
        } else if self.is_negative() {
            Binary32 { bits: 0xbf80_0000 }
        } else {
            Binary32 { bits: 0x3f80_0000 }
        }
    }

    /// Where the number stands in the order of the numbers.
    fn order_key(self) -> (r: i64)
        ensures
            r == self.order_key_spec(),
    {
        let p: i64 = self.magnitude_bits() as i64;
        if self.bits >= SIGN_BIT {
            -p
        } else {
            p
        }
    }

    spec fn order_key_spec(self) -> int {
        if self.negative() {
            -(self.magnitude() as int)
        } else {
            self.magnitude() as int
        }
    }

    proof fn lemma_order_key(self, other: Binary32)
        ensures
            self.order_key_spec() < other.order_key_spec() <==> self.units() < other.units(),
            self.order_key_spec() == other.order_key_spec() <==> self.units() == other.units(),
    {
        let p = self.magnitude();
        let q = other.magnitude();
        lemma_grid_order(p, q);
        lemma_grid_order(0, p);
        lemma_grid_order(0, q);
        assert(grid(0) == 0);
    }

    pub open spec fn lt_spec(self, other: Binary32) -> bool {
        !self.nan() && !other.nan() && self.units() < other.units()
    }

    /// Is the number smaller than `other`? Nothing holds of a NaN.
    #[verifier::when_used_as_spec(lt_spec)]
    pub fn lt(self, other: Binary32) -> (r: bool)
        ensures
            r == self.lt_spec(other),
    {
        proof {
            self.lemma_order_key(other);
        }
        !self.is_nan() && !other.is_nan() && self.order_key() < other.order_key()
    }

    pub open spec fn le_spec(self, other: Binary32) -> bool {
        !self.nan() && !other.nan() && self.units() <= other.units()
    }

    /// Is the number at most `other`? Nothing holds of a NaN.
    #[verifier::when_used_as_spec(le_spec)]
    pub fn le(self, other: Binary32) -> (r: bool)
        ensures
            r == self.le_spec(other),
    {
        proof {
            self.lemma_order_key(other);
        }
        !self.is_nan() && !other.is_nan() && self.order_key() <= other.order_key()
    }

    pub open spec fn eq_num_spec(self, other: Binary32) -> bool {
        !self.nan() && !other.nan() && self.units() == other.units()
    }

    /// Do both stand for the same number? The two zeros do, and no NaN does.
    #[verifier::when_used_as_spec(eq_num_spec)]
    pub fn eq_num(self, other: Binary32) -> (r: bool)
        ensures
            r == self.eq_num_spec(other),
    {
        proof {
            self.lemma_order_key(other);
        }
        !self.is_nan() && !other.is_nan() && self.order_key() == other.order_key()
    }

    /// Where the pattern stands in the total order: negative patterns from the
    /// largest down, then positive ones from zero up.
    pub open spec fn total_rank(self) -> int {
        if self.negative() {
            -1 - self.magnitude() as int
        } else {
            self.magnitude() as int
        }
    }

    /// Does the pattern come before `other` in the total order?
    pub fn total_lt(self, other: Binary32) -> (r: bool)
        ensures
            r == (self.total_rank() < other.total_rank()),
    {
        let a: i64 = self.magnitude_bits() as i64;
        let b: i64 = other.magnitude_bits() as i64;
        let ra: i64 = if self.is_negative() {
            -1 - a
        } else {
            a
        };
        let rb: i64 = if other.is_negative() {
            -1 - b
        } else {
            b
        };
        ra < rb
    }

    pub open spec fn max_spec(self, other: Binary32) -> Binary32 {
        if self.nan() || self.lt(other) {
            other
        } else {
            self
        }
    }

    /// The larger of two numbers; the other one where one of them is a NaN, and
    /// the first of two equal ones.
    #[verifier::when_used_as_spec(max_spec)]
    pub fn max(self, other: Binary32) -> (r: Binary32)
        ensures
            r == self.max_spec(other),
    {
        if self.is_nan() || self.lt(other) {
            other
        } else {
            self
        }
    }

    pub open spec fn min_spec(self, other: Binary32) -> Binary32 {
        if self.nan() || other.lt(self) {
            other
        } else {
            self
        }
    }

    /// The smaller of two numbers; the other one where one of them is a NaN, and
    /// the first of two equal ones.
    #[verifier::when_used_as_spec(min_spec)]
    pub fn min(self, other: Binary32) -> (r: Binary32)
        ensures
            r == self.min_spec(other),
    {
        if self.is_nan() || other.lt(self) {
            other
        } else {
            self
        }
    }

    pub open spec fn clamp_spec(self, low: Binary32, high: Binary32) -> Binary32 {
        if self.lt(low) {
            low
        } else if high.lt(self) {
            high
        } else {
            self
        }
    }

    /// The number moved into the band from `low` to `high`; a NaN stays.
    #[verifier::when_used_as_spec(clamp_spec)]
    pub fn clamp(self, low: Binary32, high: Binary32) -> (r: Binary32)
        requires
            low.le(high),
        ensures
            r == self.clamp_spec(low, high),
            !self.nan() ==> low.le(r) && r.le(high),
    {
        if self.lt(low) {
            low
        } else if high.lt(self) {
            high
        } else {
            self
        }
    }
}

} // verus!
