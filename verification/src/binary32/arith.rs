//! Sums, products, quotients, roots and remainders.

use crate::binary32::model::gap;
use crate::binary32::model::grid;
use crate::binary32::model::lemma_gap;
use crate::binary32::model::lemma_grid_order;
use crate::binary32::model::lemma_mantissa_shift;
use crate::binary32::model::lemma_rounded;
use crate::binary32::model::lemma_rounded_exact;
use crate::binary32::model::lemma_rounded_root;
use crate::binary32::model::mantissa;
use crate::binary32::model::nearest;
use crate::binary32::model::nearest_root;
use crate::binary32::model::rounded;
use crate::binary32::model::rounded_root;
use crate::binary32::model::shift;
use crate::binary32::model::Binary32;
use crate::binary32::model::BINADE;
use crate::binary32::model::INFINITY_BITS;
use crate::binary32::model::NAN_BITS;
use crate::binary32::rounding::lemma_rounds_fraction;
use crate::binary32::rounding::power_of_two;
use crate::binary32::rounding::round_at;
use crate::binary32::rounding::rounds_to;
use crate::binary32::rounding::BIAS;
use crate::binary32::rounding::MAX_BITS;
use vstd::arithmetic::power2::lemma2_to64;
use vstd::arithmetic::power2::lemma2_to64_rest;
use vstd::arithmetic::power2::lemma_pow2_adds;
use vstd::arithmetic::power2::lemma_pow2_pos;
use vstd::arithmetic::power2::lemma_pow2_strictly_increases;
use vstd::arithmetic::power2::lemma_pow2_unfold;
use vstd::arithmetic::power2::pow2;
use vstd::prelude::*;

verus! {

/// The size of an integer.
pub open spec fn size_of(x: int) -> nat {
    if x < 0 {
        (-x) as nat
    } else {
        x as nat
    }
}

/// The mantissa and the shift of a finite pattern.
pub fn split(p: u32) -> (r: (u32, u32))
    requires
        p < INFINITY_BITS,
    ensures
        r.0 == mantissa(p as nat),
        r.1 == shift(p as nat),
        r.0 < 2 * BINADE,
        r.1 <= 253,
{
    proof {
        lemma_mantissa_shift(p as nat);
    }
    if p < BINADE {
        (p, 0)
    } else {
        (BINADE + p % BINADE, p / BINADE - 1)
    }
}

/// A number is as far from its neighbour as its shift says.
proof fn lemma_gap_shift(p: nat)
    ensures
        gap(p) == pow2(shift(p)),
        p > 0 && shift(p) > 0 ==> gap((p - 1) as nat) >= pow2((shift(p) - 1) as nat),
{
    lemma2_to64();
    let b = BINADE as nat;
    if p < b {
        assert(p / b == 0);
    } else {
        assert(p / b >= 1);
        if shift(p) > 0 {
            let q = (p - 1) as nat;
            assert(q / b == p / b || q / b == p / b - 1);
            if q / b == p / b {
                lemma_pow2_strictly_increases((shift(p) - 1) as nat, shift(p));
            }
        }
    }
}

/// A term far below the other does not change it.
proof fn lemma_far(ph: nat, pl: nat)
    requires
        ph < INFINITY_BITS,
        pl <= ph,
        shift(ph) >= shift(pl) + 26,
    ensures
        grid(pl) < grid(ph),
        nearest(grid(ph) + grid(pl), 1, ph),
        nearest((grid(ph) - grid(pl)) as nat, 1, ph),
{
    lemma_mantissa_shift(ph);
    lemma_mantissa_shift(pl);
    lemma_gap_shift(ph);
    lemma_gap(ph);
    lemma2_to64();
    let sh = shift(ph);
    let sl = shift(pl);
    let v = grid(pl);
    let ml = mantissa(pl);
    lemma_pow2_adds(24, sl);
    lemma_pow2_adds(1, sl + 24);
    lemma_pow2_pos(sl);
    let w = pow2(sl);
    assert(v < 0x100_0000 * w) by (nonlinear_arith)
        requires
            v == ml * w,
            ml < 0x100_0000,
            w > 0,
    ;
    assert(2 * v < pow2(sl + 25));
    if sl + 25 < sh - 1 {
        lemma_pow2_strictly_increases(sl + 25, (sh - 1) as nat);
    }
    lemma_pow2_strictly_increases((sh - 1) as nat, sh);
    lemma_gap((ph - 1) as nat);
    lemma_grid_order(pl, ph);
}

impl Binary32 {
    /// The sum of two finite numbers.
    pub open spec fn finite_sum(self, other: Binary32) -> Binary32 {
        let sum = self.units() + other.units();
        if sum == 0 {
            Binary32::signed(self.negative() && other.negative(), 0)
        } else {
            Binary32::signed(sum < 0, rounded(size_of(sum), 1))
        }
    }

    pub open spec fn plus_spec(self, other: Binary32) -> Binary32 {
        if self.nan() || other.nan() {
            Binary32::nan_spec()
        } else if self.infinite() {
            if other.infinite() && self.negative() != other.negative() {
                Binary32::nan_spec()
            } else {
                self
            }
        } else if other.infinite() {
            other
        } else {
            self.finite_sum(other)
        }
    }

    /// The sum, rounded to the nearest number.
    #[verifier::when_used_as_spec(plus_spec)]
    pub fn plus(self, other: Binary32) -> (r: Binary32)
        ensures
            r == self.plus_spec(other),
    {
        if self.is_nan() || other.is_nan() {
            return Binary32 { bits: NAN_BITS };
        }
        if self.is_infinite() {
            if other.is_infinite() && self.is_negative() != other.is_negative() {
                return Binary32 { bits: NAN_BITS };
            }
            return self;
        }
        if other.is_infinite() {
            return other;
        }
        if self.magnitude_bits() >= other.magnitude_bits() {
            Self::sum_ordered(self, other)
        } else {
            Self::sum_ordered(other, self)
        }
    }

    fn sum_ordered(high: Binary32, low: Binary32) -> (r: Binary32)
        requires
            high.finite(),
            low.finite(),
            low.magnitude() <= high.magnitude(),
        ensures
            r == high.finite_sum(low),
    {
        let ph: u32 = high.magnitude_bits();
        let pl: u32 = low.magnitude_bits();
        let (mh, sh) = split(ph);
        let (ml, sl) = split(pl);
        let alike: bool = high.is_negative() == low.is_negative();
        let ghost sum = high.units() + low.units();
        proof {
            lemma_mantissa_shift(ph as nat);
            lemma_mantissa_shift(pl as nat);
            lemma_grid_order(pl as nat, ph as nat);
            lemma_grid_order(0, pl as nat);
            lemma_grid_order(0, ph as nat);
            assert(grid(0) == 0);
            assert(sl <= sh) by {
                if sl > sh {
                    assert(ph < sh * BINADE + 2 * BINADE);
                    assert(pl >= sl * BINADE + BINADE);
                    assert(false);
                }
            }
        }
        if sh - sl >= 26 {
            proof {
                lemma_far(ph as nat, pl as nat);
                if alike {
                    assert(size_of(sum) == grid(ph as nat) + grid(pl as nat));
                    lemma_rounded(grid(ph as nat) + grid(pl as nat), 1, ph as nat);
                } else {
                    assert(size_of(sum) == grid(ph as nat) - grid(pl as nat));
                    lemma_rounded((grid(ph as nat) - grid(pl as nat)) as nat, 1, ph as nat);
                }
            }
            return high;
        }
        let d: u32 = sh - sl;
        let unit: u128 = power_of_two(d);
        let ghost w = pow2(sl as nat);
        proof {
            lemma2_to64();
            lemma2_to64_rest();
            lemma_pow2_adds(d as nat, sl as nat);
            lemma_pow2_pos(sl as nat);
            if d < 25 {
                lemma_pow2_strictly_increases(d as nat, 25);
            }
            assert(mh * unit <= 0x100_0000 * 0x200_0000) by (nonlinear_arith)
                requires
                    mh <= 0x100_0000,
                    unit <= 0x200_0000,
            ;
            assert(mh * unit * w == grid(ph as nat)) by (nonlinear_arith)
                requires
                    unit * w == pow2(sh as nat),
                    grid(ph as nat) == mh * pow2(sh as nat),
            ;
            assert(ml <= mh * unit) by (nonlinear_arith)
                requires
                    ml * w <= mh * unit * w,
                    w > 0,
            ;
            lemma_pow2_strictly_increases(64, MAX_BITS as nat);
        }
        let big: u128 = mh as u128 * unit;
        let q: u128 = if alike {
            big + ml as u128
        } else {
            big - ml as u128
        };
        if q == 0 {
            proof {
                if alike {
                    assert(ml == 0 && mh * unit == 0);
                    assert(mh * unit * w == 0) by (nonlinear_arith)
                        requires
                            mh * unit == 0,
                    ;
                    assert(ml * w == 0) by (nonlinear_arith)
                        requires
                            ml == 0,
                    ;
                } else {
                    assert(mh * unit == ml);
                }
                assert(sum == 0);
            }
            return Binary32::with_sign(high.is_negative() && low.is_negative(), 0);
        }
        let e: u32 = sl + BIAS;
        let p: u32 = round_at(q, false, e);
        proof {
            lemma_pow2_adds(sl as nat, BIAS as nat);
            let scale = pow2(BIAS as nat);
            let num = size_of(sum);
            if alike {
                assert((big + ml) * w == big * w + ml * w) by (nonlinear_arith);
            } else {
                assert((big - ml) * w == big * w - ml * w) by (nonlinear_arith);
            }
            assert(q * w > 0) by (nonlinear_arith)
                requires
                    q > 0,
                    w > 0,
            ;
            assert(num == q * w);
            assert(q * pow2(e as nat) * 1 == num * scale) by (nonlinear_arith)
                requires
                    num == q * w,
                    pow2(e as nat) == w * scale,
            ;
            lemma_rounds_fraction(q as nat, false, e as nat, p as nat, num, 1);
            assert(sum != 0 && (sum < 0) == high.negative());
        }
        Binary32::with_sign(high.is_negative(), p)
    }

    pub open spec fn minus_spec(self, other: Binary32) -> Binary32 {
        self.plus(other.negated())
    }

    /// The difference, rounded to the nearest number.
    #[verifier::when_used_as_spec(minus_spec)]
    pub fn minus(self, other: Binary32) -> (r: Binary32)
        ensures
            r == self.minus_spec(other),
    {
        self.plus(other.negated())
    }

    pub open spec fn times_spec(self, other: Binary32) -> Binary32 {
        let sign = self.negative() != other.negative();
        if self.nan() || other.nan() || (self.infinite() && other.zero()) || (self.zero()
            && other.infinite()) {
            Binary32::nan_spec()
        } else if self.infinite() || other.infinite() {
            Binary32::signed(sign, INFINITY_BITS as nat)
        } else {
            Binary32::signed(sign, rounded(self.size() * other.size(), pow2(149)))
        }
    }

    /// The product, rounded to the nearest number.
    #[verifier::when_used_as_spec(times_spec)]
    pub fn times(self, other: Binary32) -> (r: Binary32)
        ensures
            r == self.times_spec(other),
    {
        let sign: bool = self.is_negative() != other.is_negative();
        let pa: u32 = self.magnitude_bits();
        let pb: u32 = other.magnitude_bits();
        if self.is_nan() || other.is_nan() || (self.is_infinite() && pb == 0) || (pa == 0
            && other.is_infinite()) {
            return Binary32 { bits: NAN_BITS };
        }
        if self.is_infinite() || other.is_infinite() {
            return Binary32::with_sign(sign, INFINITY_BITS);
        }
        let (ma, sa) = split(pa);
        let (mb, sb) = split(pb);
        proof {
            assert(ma * mb < 0x100_0000 * 0x100_0000) by (nonlinear_arith)
                requires
                    ma < 0x100_0000,
                    mb < 0x100_0000,
            ;
            lemma2_to64();
            lemma2_to64_rest();
            lemma_pow2_strictly_increases(64, MAX_BITS as nat);
        }
        let q: u128 = ma as u128 * mb as u128;
        let e: u32 = sa + sb + 151;
        let p: u32 = round_at(q, false, e);
        proof {
            lemma_mantissa_shift(pa as nat);
            lemma_mantissa_shift(pb as nat);
            lemma_pow2_adds(sa as nat, sb as nat);
            lemma_pow2_adds((sa + sb) as nat, 151);
            lemma_pow2_adds(e as nat, 149);
            lemma_pow2_adds((sa + sb) as nat, BIAS as nat);
            lemma_pow2_pos(149);
            let wa = pow2(sa as nat);
            let wb = pow2(sb as nat);
            let num = self.size() * other.size();
            assert(q * pow2(e as nat) * pow2(149) == num * pow2(BIAS as nat)) by (nonlinear_arith)
                requires
                    q == ma * mb,
                    num == (ma * wa) * (mb * wb),
                    pow2(e as nat) * pow2(149) == (wa * wb) * pow2(BIAS as nat),
            {
                assert(q * pow2(e as nat) * pow2(149) == q * (pow2(e as nat) * pow2(149)));
                assert((ma * wa) * (mb * wb) == (ma * mb) * (wa * wb));
            }
            lemma_rounds_fraction(q as nat, false, e as nat, p as nat, num, pow2(149));
        }
        Binary32::with_sign(sign, p)
    }

    pub open spec fn over_spec(self, other: Binary32) -> Binary32 {
        let sign = self.negative() != other.negative();
        if self.nan() || other.nan() || (self.infinite() && other.infinite()) || (self.zero()
            && other.zero()) {
            Binary32::nan_spec()
        } else if self.infinite() || other.zero() {
            Binary32::signed(sign, INFINITY_BITS as nat)
        } else if other.infinite() {
            Binary32::signed(sign, 0)
        } else {
            Binary32::signed(sign, rounded(self.size() * pow2(149), other.size()))
        }
    }

    /// The quotient, rounded to the nearest number.
    #[verifier::when_used_as_spec(over_spec)]
    pub fn over(self, other: Binary32) -> (r: Binary32)
        ensures
            r == self.over_spec(other),
    {
        let sign: bool = self.is_negative() != other.is_negative();
        let pa: u32 = self.magnitude_bits();
        let pb: u32 = other.magnitude_bits();
        if self.is_nan() || other.is_nan() || (self.is_infinite() && other.is_infinite()) || (pa
            == 0 && pb == 0) {
            return Binary32 { bits: NAN_BITS };
        }
        if self.is_infinite() || pb == 0 {
            return Binary32::with_sign(sign, INFINITY_BITS);
        }
        if other.is_infinite() {
            return Binary32::with_sign(sign, 0);
        }
        let (ma, sa) = split(pa);
        let (mb, sb) = split(pb);
        proof {
            lemma_mantissa_shift(pa as nat);
            lemma_mantissa_shift(pb as nat);
            lemma_grid_order(0, pb as nat);
            assert(grid(0) == 0);
            assert(mb > 0) by (nonlinear_arith)
                requires
                    mb * pow2(sb as nat) > 0,
            ;
        }
        let top: u128 = ma as u128 * 0x2_0000_0000_0000;
        let q: u128 = top / mb as u128;
        let rest: u128 = top % mb as u128;
        if ma == 0 {
            proof {
                lemma_mantissa_shift(pa as nat);
                assert(self.size() == 0) by (nonlinear_arith)
                    requires
                        self.size() == ma * pow2(sa as nat),
                        ma == 0,
                ;
                assert(0 * pow2(149) == 0) by (nonlinear_arith);
                assert(nearest(0, other.size(), 0)) by {
                    lemma_gap(0);
                    assert((grid(0) + grid(1)) * other.size() >= 0) by (nonlinear_arith);
                }
                lemma_rounded(0, other.size(), 0);
            }
            return Binary32::with_sign(sign, 0);
        }
        let e: u32 = sa + 400 - sb;
        proof {
            vstd::arithmetic::div_mod::lemma_fundamental_div_mod(top as int, mb as int);
            assert(q >= 0x200_0000) by (nonlinear_arith)
                requires
                    top == mb * q + rest,
                    rest < mb,
                    top >= 0x2_0000_0000_0000,
                    mb < 0x100_0000,
            ;
            assert(q <= top) by (nonlinear_arith)
                requires
                    top == mb * q + rest,
                    mb >= 1,
                    rest >= 0,
                    q >= 0,
            ;
            lemma2_to64();
            lemma2_to64_rest();
            lemma_pow2_adds(64, 56);
        }
        let p: u32 = round_at(q, rest != 0, e);
        proof {
            lemma_pow2_adds(sa as nat, 449);
            lemma_pow2_adds(sb as nat, e as nat);
            lemma_pow2_adds(49, (sa + 400) as nat);
            lemma_pow2_adds(149, BIAS as nat);
            lemma_pow2_pos((sa + 400) as nat);
            let wa = pow2(sa as nat);
            let wb = pow2(sb as nat);
            let we = pow2(e as nat);
            let w4 = pow2((sa + 400) as nat);
            let num = self.size() * pow2(149);
            let den = other.size();
            let scale = pow2(BIAS as nat);
            assert(wb * we == w4);
            assert(wa * (pow2(149) * scale) == 0x2_0000_0000_0000 * w4);
            assert(num * scale == top * w4) by (nonlinear_arith)
                requires
                    num == (ma * wa) * pow2(149),
                    wa * (pow2(149) * scale) == 0x2_0000_0000_0000 * w4,
                    top == ma * 0x2_0000_0000_0000,
            {
                assert((ma * wa) * pow2(149) * scale == ma * (wa * (pow2(149) * scale)));
            }
            assert(q * we * den == (q * mb) * w4) by (nonlinear_arith)
                requires
                    den == mb * wb,
                    wb * we == w4,
            ;
            assert((q + 1) * we * den == (q * mb + mb) * w4) by (nonlinear_arith)
                requires
                    den == mb * wb,
                    wb * we == w4,
            ;
            assert(q * mb == mb * q) by (nonlinear_arith);
            if rest != 0 {
                assert((q * mb) * w4 < top * w4 && top * w4 < (q * mb + mb) * w4) by (nonlinear_arith)
                    requires
                        q * mb < top,
                        top < q * mb + mb,
                        w4 > 0,
                ;
            }
            lemma_rounds_fraction(q as nat, rest != 0, e as nat, p as nat, num, den);
        }
        Binary32::with_sign(sign, p)
    }

    pub open spec fn root_spec(self) -> Binary32 {
        if self.zero() {
            self
        } else if self.nan() || self.negative() {
            Binary32::nan_spec()
        } else if self.infinite() {
            self
        } else {
            Binary32::signed(false, rounded_root(self.size() * pow2(149)))
        }
    }

    /// The square root, rounded to the nearest number.
    #[verifier::when_used_as_spec(root_spec)]
    pub fn root(self) -> (r: Binary32)
        ensures
            r == self.root_spec(),
    {
        let pa: u32 = self.magnitude_bits();
        if pa == 0 {
            return self;
        }
        if self.is_nan() || self.is_negative() {
            return Binary32 { bits: NAN_BITS };
        }
        if self.is_infinite() {
            return self;
        }
        let (m, s) = split(pa);
        // An even exponent is left outside the root.
        let odd: bool = (s + 97) % 2 == 1;
        let n: u128 = if odd {
            m as u128 * 0x20_0000_0000_0000
        } else {
            m as u128 * 0x10_0000_0000_0000
        };
        let h: u32 = if odd {
            (s + 96) / 2
        } else {
            (s + 97) / 2
        };
        proof {
            lemma_mantissa_shift(pa as nat);
            lemma_grid_order(0, pa as nat);
            assert(grid(0) == 0);
            assert(m > 0) by (nonlinear_arith)
                requires
                    m * pow2(s as nat) > 0,
            ;
        }
        let q: u128 = integer_root(n);
        let rest: bool = q * q != n;
        proof {
            assert(q >= 0x200_0000) by (nonlinear_arith)
                requires
                    n < (q + 1) * (q + 1),
                    n >= 0x10_0000_0000_0000,
            ;
            lemma2_to64();
            lemma2_to64_rest();
            lemma_pow2_strictly_increases(64, MAX_BITS as nat);
        }
        let e: u32 = BIAS + h;
        let p: u32 = round_at(q, rest, e);
        proof {
            let square = self.size() * pow2(149);
            let w = pow2(h as nat);
            lemma_pow2_adds(h as nat, h as nat);
            lemma_pow2_adds(s as nat, 149);
            lemma_pow2_adds(52, (h + h) as nat);
            lemma_pow2_adds(53, (h + h) as nat);
            let width = if odd {
                pow2(53)
            } else {
                pow2(52)
            };
            assert(width * (w * w) == pow2(s as nat) * pow2(149));
            assert(square == n * (w * w)) by (nonlinear_arith)
                requires
                    square == (m * pow2(s as nat)) * pow2(149),
                    width * (w * w) == pow2(s as nat) * pow2(149),
                    n == m * width,
            {
                assert((m * pow2(s as nat)) * pow2(149) == m * (pow2(s as nat) * pow2(149)));
                assert(m * (width * (w * w)) == (m * width) * (w * w));
            }
            lemma_pow2_adds(BIAS as nat, h as nat);
            lemma_pow2_pos(BIAS as nat);
            lemma_pow2_pos(h as nat);
            lemma_root_rounds(q as nat, rest, h as nat, n as nat, square, p as nat);
        }
        Binary32::with_sign(false, p)
    }

    pub open spec fn rem_spec(self, other: Binary32) -> Binary32 {
        if self.nan() || other.nan() || self.infinite() || other.zero() {
            Binary32::nan_spec()
        } else if other.infinite() {
            self
        } else {
            Binary32::signed(self.negative(), rounded(self.size() % other.size(), 1))
        }
    }

    /// What is left of the number after taking `other` from it as often as it
    /// goes, with the number's sign. The result is exact.
    #[verifier::when_used_as_spec(rem_spec)]
    pub fn rem(self, other: Binary32) -> (r: Binary32)
        ensures
            r == self.rem_spec(other),
    {
        let pa: u32 = self.magnitude_bits();
        let pb: u32 = other.magnitude_bits();
        if self.is_nan() || other.is_nan() || self.is_infinite() || pb == 0 {
            return Binary32 { bits: NAN_BITS };
        }
        if other.is_infinite() {
            return self;
        }
        proof {
            lemma_mantissa_shift(pa as nat);
            lemma_mantissa_shift(pb as nat);
            lemma_grid_order(pa as nat, pb as nat);
            lemma_grid_order(0, pb as nat);
            assert(grid(0) == 0);
        }
        if pa < pb {
            proof {
                vstd::arithmetic::div_mod::lemma_small_mod(self.size(), other.size());
                lemma_rounded_exact(pa as nat);
            }
            return self;
        }
        let (ma, sa) = split(pa);
        let (mb, sb) = split(pb);
        proof {
            assert(sb <= sa) by {
                if sb > sa {
                    assert(pa < sa * BINADE + 2 * BINADE);
                    assert(pb >= sb * BINADE + BINADE);
                    assert(false);
                }
            }
            assert(mb > 0) by (nonlinear_arith)
                requires
                    mb * pow2(sb as nat) > 0,
            ;
            lemma2_to64();
            assert(ma * pow2(0) == ma) by (nonlinear_arith)
                requires
                    pow2(0) == 1,
            ;
        }
        let mut r: u32 = ma % mb;
        let mut i: u32 = 0;
        let d: u32 = sa - sb;
        while i < d
            invariant
                i <= d,
                0 < mb < 2 * BINADE,
                r < mb,
                r as int == (ma * pow2(i as nat)) as int % mb as int,
            decreases d - i,
        {
            proof {
                lemma_pow2_unfold((i + 1) as nat);
                let x = ma * pow2(i as nat);
                assert(ma * pow2((i + 1) as nat) == 2 * x) by (nonlinear_arith)
                    requires
                        x == ma * pow2(i as nat),
                        pow2((i + 1) as nat) == 2 * pow2(i as nat),
                ;
                vstd::arithmetic::div_mod::lemma_mul_mod_noop_right(2, x as int, mb as int);
            }
            r = (2 * r) % mb;
            i = i + 1;
        }
        proof {
            lemma2_to64_rest();
            lemma_pow2_strictly_increases(64, MAX_BITS as nat);
        }
        let e: u32 = sb + BIAS;
        let p: u32 = round_at(r as u128, false, e);
        proof {
            let w = pow2(sb as nat);
            let x = ma as nat * pow2(d as nat);
            lemma_pow2_pos(sb as nat);
            lemma_pow2_adds(d as nat, sb as nat);
            lemma_pow2_adds(sb as nat, BIAS as nat);
            assert(self.size() == x * w) by (nonlinear_arith)
                requires
                    self.size() == ma * pow2(sa as nat),
                    pow2(d as nat) * w == pow2(sa as nat),
                    x == ma * pow2(d as nat),
            ;
            lemma_mod_scaled(x, mb as nat, w);
            let num = self.size() % other.size();
            assert(num == r * w);
            assert(r * pow2(e as nat) * 1 == num * pow2(BIAS as nat)) by (nonlinear_arith)
                requires
                    num == r * w,
                    pow2(e as nat) == w * pow2(BIAS as nat),
            ;
            lemma_rounds_fraction(r as nat, false, e as nat, p as nat, num, 1);
        }
        Binary32::with_sign(self.is_negative(), p)
    }

    pub open spec fn rem_euclid_spec(self, other: Binary32) -> Binary32 {
        let r = self.rem(other);
        if r.lt(Binary32::zero_spec()) {
            r.plus(other.abs())
        } else {
            r
        }
    }

    /// The remainder, brought up by one `other` where it is below zero.
    #[verifier::when_used_as_spec(rem_euclid_spec)]
    pub fn rem_euclid(self, other: Binary32) -> (r: Binary32)
        ensures
            r == self.rem_euclid_spec(other),
    {
        let r: Binary32 = self.rem(other);
        if r.lt(Binary32 { bits: 0 }) {
            r.plus(other.abs())
        } else {
            r
        }
    }
}

/// A common factor comes out of a remainder.
proof fn lemma_mod_scaled(x: nat, m: nat, w: nat)
    requires
        m > 0,
        w > 0,
    ensures
        m * w > 0,
        (x * w) % (m * w) == (x % m) * w,
{
    let q = x / m;
    let r = x % m;
    vstd::arithmetic::div_mod::lemma_fundamental_div_mod(x as int, m as int);
    assert(m * w > 0) by (nonlinear_arith)
        requires
            m > 0,
            w > 0,
    ;
    assert(x * w == q * (m * w) + r * w) by (nonlinear_arith)
        requires
            x == m * q + r,
    ;
    assert(r * w < m * w) by (nonlinear_arith)
        requires
            r < m,
            w > 0,
    ;
    assert(r * w >= 0) by (nonlinear_arith);
    vstd::arithmetic::div_mod::lemma_fundamental_div_mod_converse(
        (x * w) as int,
        (m * w) as int,
        q as int,
        (r * w) as int,
    );
}

/// The rounding of a root that was cut to an integer.
proof fn lemma_root_rounds(q: nat, rest: bool, h: nat, n: nat, square: nat, p: nat)
    requires
        rounds_to(q, rest, BIAS as nat + h, p),
        q * q <= n < (q + 1) * (q + 1),
        rest <==> q * q != n,
        square == n * (pow2(h) * pow2(h)),
    ensures
        nearest_root(square, p),
        rounded_root(square) == p,
{
    let scale = pow2(BIAS as nat);
    let w = pow2(h);
    let we = pow2(BIAS as nat + h);
    lemma_pow2_adds(BIAS as nat, h);
    lemma_pow2_pos(BIAS as nat);
    lemma_pow2_pos(h);
    if p > 0 {
        let b = grid((p - 1) as nat) + grid(p);
        assert(b <= 2 * (q * w)) by (nonlinear_arith)
            requires
                b * scale <= 2 * (q * we),
                we == scale * w,
                scale > 0,
        ;
        assert(b * b <= 4 * ((q * q) * (w * w))) by (nonlinear_arith)
            requires
                b <= 2 * (q * w),
        ;
        assert((q * q) * (w * w) <= n * (w * w)) by (nonlinear_arith)
            requires
                q * q <= n,
        ;
        if rest {
            assert((q * q) * (w * w) < n * (w * w)) by (nonlinear_arith)
                requires
                    q * q < n,
                    w > 0,
            ;
        } else if p % 2 != 0 {
            assert(b < 2 * (q * w)) by (nonlinear_arith)
                requires
                    b * scale < 2 * (q * we),
                    we == scale * w,
                    scale > 0,
            ;
            assert(b * b < 4 * ((q * q) * (w * w))) by (nonlinear_arith)
                requires
                    b < 2 * (q * w),
            ;
        }
    }
    if p < INFINITY_BITS {
        let b = grid(p) + grid(p + 1);
        if rest {
            assert(2 * ((q + 1) * w) <= b) by (nonlinear_arith)
                requires
                    2 * ((q + 1) * we) <= b * scale,
                    we == scale * w,
                    scale > 0,
            ;
            assert(4 * (((q + 1) * (q + 1)) * (w * w)) <= b * b) by (nonlinear_arith)
                requires
                    2 * ((q + 1) * w) <= b,
            ;
            assert(n * (w * w) < ((q + 1) * (q + 1)) * (w * w)) by (nonlinear_arith)
                requires
                    n < (q + 1) * (q + 1),
                    w > 0,
            ;
        } else {
            assert(2 * (q * w) <= b) by (nonlinear_arith)
                requires
                    2 * (q * we) <= b * scale,
                    we == scale * w,
                    scale > 0,
            ;
            assert(4 * ((q * q) * (w * w)) <= b * b) by (nonlinear_arith)
                requires
                    2 * (q * w) <= b,
            ;
            if p % 2 != 0 {
                assert(2 * (q * w) < b) by (nonlinear_arith)
                    requires
                        2 * (q * we) < b * scale,
                        we == scale * w,
                        scale > 0,
                ;
                assert(4 * ((q * q) * (w * w)) < b * b) by (nonlinear_arith)
                    requires
                        2 * (q * w) < b,
                ;
            }
        }
    }
    assert(nearest_root(square, p));
    lemma_rounded_root(square, p);
}

/// The integer part of a square root.
fn integer_root(n: u128) -> (r: u128)
    requires
        n < 0x20_0000_0000_0000_0000_0000,
    ensures
        r * r <= n < (r + 1) * (r + 1),
        r < 0x1000_0000_0000,
{
    let mut r: u128 = 0;
    let mut above: u128 = 0x1000_0000_0000;
    while above - r > 1
        invariant
            r * r <= n < above * above,
            r < above <= 0x1000_0000_0000,
        decreases above - r,
    {
        let t: u128 = r + (above - r) / 2;
        proof {
            assert(t * t <= 0x1000_0000_0000 * 0x1000_0000_0000) by (nonlinear_arith)
                requires
                    t <= 0x1000_0000_0000,
            ;
        }
        if t * t <= n {
            r = t;
        } else {
            above = t;
        }
    }
    r
}

} // verus!
