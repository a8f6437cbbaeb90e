//! Between integers and numbers.

use crate::binary32::arith::size_of;
use crate::binary32::arith::split;
use crate::binary32::model::grid;
use crate::binary32::model::lemma_grid_assembled;
use crate::binary32::model::lemma_grid_order;
use crate::binary32::model::lemma_mantissa_shift;
use crate::binary32::model::lemma_rounded_exact;
use crate::binary32::model::lemma_rounded_nearest;
use crate::binary32::model::rounded;
use crate::binary32::model::Binary32;
use crate::binary32::model::BINADE;
use crate::binary32::model::INFINITY_BITS;
use crate::binary32::rounding::lemma_rounds_fraction;
use crate::binary32::rounding::power_of_two;
use crate::binary32::rounding::round_at;
use crate::binary32::rounding::BIAS;
use crate::binary32::rounding::MAX_BITS;
use vstd::arithmetic::power2::lemma2_to64;
use vstd::arithmetic::power2::lemma2_to64_rest;
use vstd::arithmetic::power2::lemma_pow2_adds;
use vstd::arithmetic::power2::lemma_pow2_pos;
use vstd::arithmetic::power2::lemma_pow2_strictly_increases;
use vstd::arithmetic::power2::lemma_pow2_unfold;
use vstd::arithmetic::power2::pow2;
use vstd::prelude::*;

verus! {

/// One, in units of `2^-149`.
pub open spec fn one_unit() -> nat {
    pow2(149)
}

/// `x` moved into the range from `low` to `high`.
pub open spec fn into_range(x: int, low: int, high: int) -> int {
    if x < low {
        low
    } else if x > high {
        high
    } else {
        x
    }
}

/// Every integer of 24 bits at a shift of the format is one of its numbers.
pub proof fn lemma_on_grid(m: nat, s: nat) -> (p: nat)
    requires
        0 < m < 2 * BINADE,
        s <= 253,
    ensures
        p < INFINITY_BITS,
        grid(p) == m * pow2(s),
    decreases s,
{
    if s == 0 || m >= BINADE {
        lemma_grid_assembled(m, s);
        s * BINADE as nat + m
    } else {
        lemma_pow2_unfold(s);
        let p = lemma_on_grid(2 * m, (s - 1) as nat);
        let w = pow2((s - 1) as nat);
        assert(2 * m * w == m * (2 * w)) by (nonlinear_arith);
        p
    }
}

impl Binary32 {
    pub open spec fn from_u32_spec(n: u32) -> Binary32 {
        Binary32::signed(false, rounded(n as nat * one_unit(), 1))
    }

    /// The number nearest to `n`. Integers of 24 bits are met exactly.
    #[verifier::when_used_as_spec(from_u32_spec)]
    pub fn from_u32(n: u32) -> (r: Binary32)
        ensures
            r == Binary32::from_u32_spec(n),
            n < 0x100_0000 ==> r.finite() && !r.negative() && r.units() == n * one_unit(),
    {
        proof {
            lemma2_to64();
            lemma2_to64_rest();
            lemma_pow2_strictly_increases(64, MAX_BITS as nat);
        }
        let p: u32 = round_at(n as u128, false, 149 + BIAS);
        proof {
            lemma_pow2_adds(149, BIAS as nat);
            let num = n as nat * one_unit();
            assert(n * pow2(149 + BIAS as nat) * 1 == num * pow2(BIAS as nat)) by (nonlinear_arith)
                requires
                    num == n * pow2(149),
                    pow2(149 + BIAS as nat) == pow2(149) * pow2(BIAS as nat),
            ;
            lemma_rounds_fraction(n as nat, false, 149 + BIAS as nat, p as nat, num, 1);
            if 0 < n < 0x100_0000 {
                let g = lemma_on_grid(n as nat, 149);
                lemma_rounded_exact(g);
            } else if n == 0 {
                assert(0 * one_unit() == 0) by (nonlinear_arith);
                assert(grid(0) == 0);
                lemma_rounded_exact(0);
            }
        }
        Binary32::with_sign(false, p)
    }

    pub open spec fn from_i32_spec(n: i32) -> Binary32 {
        Binary32::signed(n < 0, rounded(size_of(n as int) * one_unit(), 1))
    }

    /// The number nearest to `n`.
    #[verifier::when_used_as_spec(from_i32_spec)]
    pub fn from_i32(n: i32) -> (r: Binary32)
        ensures
            r == Binary32::from_i32_spec(n),
    {
        if n < 0 {
            let size: u32 = (-(n as i64)) as u32;
            proof {
                lemma_rounded_nearest(size as nat * one_unit(), 1);
            }
            let r: Binary32 = Self::from_u32(size);
            Binary32::with_sign(true, r.magnitude_bits())
        } else {
            Self::from_u32(n as u32)
        }
    }

    /// The integer part of a finite size, at most `2^31`, and whether anything
    /// was cut off.
    fn whole(p: u32) -> (r: (u32, bool))
        requires
            p < INFINITY_BITS,
        ensures
            r.0 <= 0x8000_0000,
            r.0 < 0x8000_0000 ==> r.0 == grid(p as nat) / one_unit() && r.1 == (grid(p as nat)
                % one_unit() != 0),
            r.0 == 0x8000_0000 ==> grid(p as nat) / one_unit() >= 0x8000_0000,
    {
        let (m, s) = split(p);
        let ghost one = one_unit();
        proof {
            lemma_mantissa_shift(p as nat);
            lemma_pow2_pos(149);
            lemma2_to64();
            lemma2_to64_rest();
        }
        if s >= 149 {
            let k: u32 = s - 149;
            proof {
                lemma_pow2_adds(k as nat, 149);
                let w = pow2(k as nat);
                assert(grid(p as nat) == (m * w) * one) by (nonlinear_arith)
                    requires
                        grid(p as nat) == m * pow2(s as nat),
                        pow2(s as nat) == w * one,
                ;
                vstd::arithmetic::div_mod::lemma_div_by_multiple((m * w) as int, one as int);
                vstd::arithmetic::div_mod::lemma_mod_multiples_basic((m * w) as int, one as int);
                if k >= 8 {
                    if k > 8 {
                        lemma_pow2_strictly_increases(8, k as nat);
                    }
                    assert(m * w >= 0x8000_0000) by (nonlinear_arith)
                        requires
                            m >= 0x80_0000,
                            w >= 0x100,
                    ;
                } else {
                    if k < 7 {
                        lemma_pow2_strictly_increases(k as nat, 7);
                    }
                    assert(m * w < 0x8000_0000) by (nonlinear_arith)
                        requires
                            m < 0x100_0000,
                            w <= 0x80,
                            w >= 0,
                    ;
                }
            }
            if k >= 8 {
                return (0x8000_0000, false);
            }
            let unit: u128 = power_of_two(k);
            return ((m as u128 * unit) as u32, false);
        }
        let k: u32 = 149 - s;
        proof {
            lemma_pow2_adds(s as nat, k as nat);
            lemma_pow2_pos(s as nat);
            lemma_pow2_pos(k as nat);
            lemma_scaled_division(m as nat, pow2(k as nat), pow2(s as nat));
            if k > 24 {
                lemma_pow2_strictly_increases(24, k as nat);
            }
            if k >= 24 {
                vstd::arithmetic::div_mod::lemma_small_mod(m as nat, pow2(k as nat));
                vstd::arithmetic::div_mod::lemma_basic_div(m as int, pow2(k as nat) as int);
            } else {
                lemma_pow2_strictly_increases(k as nat, 24);
            }
        }
        if k >= 24 {
            return (0, m != 0);
        }
        let unit: u128 = power_of_two(k);
        let d: u32 = unit as u32;
        (m / d, m % d != 0)
    }

    /// The number rounded down, moved into the range of 32 bits; zero for a NaN.
    pub open spec fn floor_int(self) -> int {
        if self.nan() {
            0
        } else {
            into_range(self.units() / one_unit() as int, i32::MIN as int, i32::MAX as int)
        }
    }

    pub open spec fn floor_to_i32_spec(self) -> i32 {
        self.floor_int() as i32
    }

    /// The largest integer that is not above the number, moved into range; zero
    /// for a NaN.
    #[verifier::when_used_as_spec(floor_to_i32_spec)]
    pub fn floor_to_i32(self) -> (r: i32)
        ensures
            r == self.floor_to_i32_spec(),
            r == self.floor_int(),
    {
        if self.is_nan() {
            return 0;
        }
        let p: u32 = self.magnitude_bits();
        let ghost one = one_unit() as int;
        proof {
            lemma_pow2_pos(149);
        }
        if self.is_infinite() {
            proof {
                lemma_infinite_whole();
                lemma_negative_division(self.size() as int, one);
            }
            return if self.is_negative() {
                i32::MIN
            } else {
                i32::MAX
            };
        }
        let (v, rest) = Self::whole(p);
        proof {
            lemma_negative_division(grid(p as nat) as int, one);
        }
        if self.is_negative() {
            if v >= 0x8000_0000 {
                i32::MIN
            } else if rest {
                (-1 - v as i64) as i32
            } else {
                (-(v as i64)) as i32
            }
        } else {
            if v >= 0x8000_0000 {
                i32::MAX
            } else {
                v as i32
            }
        }
    }

    /// The number rounded up, moved into the range of 32 bits; zero for a NaN.
    pub open spec fn ceil_int(self) -> int {
        if self.nan() {
            0
        } else {
            into_range(-((-self.units()) / one_unit() as int), i32::MIN as int, i32::MAX as int)
        }
    }

    pub open spec fn ceil_to_i32_spec(self) -> i32 {
        self.ceil_int() as i32
    }

    /// The smallest integer that is not below the number, moved into range; zero
    /// for a NaN.
    #[verifier::when_used_as_spec(ceil_to_i32_spec)]
    pub fn ceil_to_i32(self) -> (r: i32)
        ensures
            r == self.ceil_to_i32_spec(),
            r == self.ceil_int(),
    {
        let turned: Binary32 = self.negated();
        proof {
            assert(turned.nan() == self.nan());
        }
        let below: i32 = turned.floor_to_i32();
        if below == i32::MIN {
            i32::MAX
        } else if below == i32::MAX {
            // The number may lie one below what the turned range can hold.
            if self.is_infinite() {
                proof {
                    lemma_infinite_whole();
                    lemma_negative_division(self.size() as int, one_unit() as int);
                }
                i32::MIN
            } else {
                let (v, _) = Self::whole(self.magnitude_bits());
                proof {
                    lemma_pow2_pos(149);
                    lemma_negative_division(self.size() as int, one_unit() as int);
                    vstd::arithmetic::div_mod::lemma_div_pos_is_pos(
                        self.size() as int,
                        one_unit() as int,
                    );
                }
                if v >= 0x8000_0000 {
                    i32::MIN
                } else {
                    -i32::MAX
                }
            }
        } else {
            -below
        }
    }

    pub open spec fn to_u16_spec(self) -> int {
        if self.nan() || self.units() < 0 {
            0
        } else {
            into_range(self.units() / one_unit() as int, 0, u16::MAX as int)
        }
    }

    /// The integer part of the number, moved into range; zero for a NaN.
    pub fn to_u16(self) -> (r: u16)
        ensures
            r == self.to_u16_spec(),
    {
        proof {
            lemma_pow2_pos(149);
            lemma_grid_order(0, self.magnitude());
            assert(grid(0) == 0);
            assert(0int / one_unit() as int == 0) by {
                vstd::arithmetic::div_mod::lemma_div_basics(one_unit() as int);
            }
        }
        if self.is_nan() || self.is_negative() {
            return 0;
        }
        let v: i32 = self.floor_to_i32();
        proof {
            vstd::arithmetic::div_mod::lemma_div_pos_is_pos(self.units(), one_unit() as int);
        }
        if v > 0xffff {
            0xffff
        } else {
            v as u16
        }
    }

    /// An integer of 16 bits comes back unchanged.
    pub proof fn lemma_u16_returns(n: u16)
        ensures
            Binary32::from_u32_spec(n as u32).finite(),
            !Binary32::from_u32_spec(n as u32).negative(),
            Binary32::from_u32_spec(n as u32).to_u16_spec() == n,
    {
        lemma_pow2_pos(149);
        let num = n as nat * one_unit();
        if n > 0 {
            let g = lemma_on_grid(n as nat, 149);
            lemma_rounded_exact(g);
            assert(rounded(num, 1) == g);
        } else {
            assert(0 * one_unit() == 0) by (nonlinear_arith);
            assert(grid(0) == 0);
            lemma_rounded_exact(0);
            assert(rounded(num, 1) == 0);
        }
        let r = Binary32::from_u32_spec(n as u32);
        assert(r.units() == num);
        vstd::arithmetic::div_mod::lemma_div_by_multiple(n as int, one_unit() as int);
        assert(num >= 0);
    }
}

/// Infinity lies beyond every integer of 32 bits.
proof fn lemma_infinite_whole()
    ensures
        grid(INFINITY_BITS as nat) / one_unit() >= 0x1_0000_0000,
        grid(INFINITY_BITS as nat) % one_unit() == 0,
        one_unit() > 0,
{
    let one = one_unit() as int;
    lemma_pow2_pos(149);
    lemma_grid_assembled(BINADE as nat, 254);
    assert(254 * BINADE + BINADE == INFINITY_BITS);
    lemma_pow2_adds(105, 149);
    lemma_pow2_strictly_increases(32, 105);
    lemma2_to64();
    let w = pow2(105) as int;
    let b = BINADE as int;
    let x = b * w;
    let g = grid(INFINITY_BITS as nat) as int;
    assert(g == x * one) by (nonlinear_arith)
        requires
            g == b * pow2(254),
            pow2(254) == w * one,
            x == b * w,
    ;
    assert(x >= 0x1_0000_0000) by (nonlinear_arith)
        requires
            x == b * w,
            w >= 0x1_0000_0000,
            b == 0x80_0000,
    ;
    vstd::arithmetic::div_mod::lemma_div_by_multiple(x, one);
    vstd::arithmetic::div_mod::lemma_mod_multiples_basic(x, one);
}

/// Dividing by a power through one of its factors.
proof fn lemma_scaled_division(m: nat, d: nat, w: nat)
    requires
        d > 0,
        w > 0,
    ensures
        d * w > 0,
        (m * w) / (w * d) == m / d,
        ((m * w) % (w * d) != 0) == (m % d != 0),
{
    let q = m / d;
    let r = m % d;
    vstd::arithmetic::div_mod::lemma_fundamental_div_mod(m as int, d as int);
    assert(d * w > 0) by (nonlinear_arith)
        requires
            d > 0,
            w > 0,
    ;
    assert(w * d == d * w) by (nonlinear_arith);
    assert(m * w == q * (w * d) + r * w) by (nonlinear_arith)
        requires
            m == d * q + r,
    ;
    assert(0 <= r * w && r * w < w * d) by (nonlinear_arith)
        requires
            0 <= r,
            r < d,
            w > 0,
    ;
    assert((r * w != 0) == (r != 0)) by (nonlinear_arith)
        requires
            w > 0,
    ;
    vstd::arithmetic::div_mod::lemma_fundamental_div_mod_converse(
        (m * w) as int,
        (w * d) as int,
        q as int,
        (r * w) as int,
    );
}

/// Division of a number below zero, by that of its size.
proof fn lemma_negative_division(x: int, d: int)
    requires
        x >= 0,
        d > 0,
    ensures
        (-x) / d == if x % d == 0 {
            -(x / d)
        } else {
            -(x / d) - 1
        },
        x / d >= 0,
{
    let q = x / d;
    let r = x % d;
    vstd::arithmetic::div_mod::lemma_fundamental_div_mod(x, d);
    vstd::arithmetic::div_mod::lemma_div_pos_is_pos(x, d);
    if r == 0 {
        assert(-x == (-q) * d + 0) by (nonlinear_arith)
            requires
                x == d * q + r,
                r == 0,
        ;
        vstd::arithmetic::div_mod::lemma_fundamental_div_mod_converse(-x, d, -q, 0);
    } else {
        assert(-x == (-q - 1) * d + (d - r)) by (nonlinear_arith)
            requires
                x == d * q + r,
        ;
        vstd::arithmetic::div_mod::lemma_fundamental_div_mod_converse(-x, d, -q - 1, d - r);
    }
}

} // verus!
