//! Whole numbers, and what stays near them.

use crate::binary32::arith::size_of;
use crate::binary32::bounds::lemma_one;
use crate::binary32::bounds::lemma_sign_of_units;
use crate::binary32::bounds::lemma_signed;
use crate::binary32::bounds::lemma_sum_between;
use crate::binary32::convert::lemma_on_grid;
use crate::binary32::convert::one_unit;
use crate::binary32::model::gap;
use crate::binary32::model::grid;
use crate::binary32::model::lemma_gap;
use crate::binary32::model::lemma_grid_assembled;
use crate::binary32::model::lemma_grid_order;
use crate::binary32::model::lemma_mantissa_shift;
use crate::binary32::model::lemma_rounded;
use crate::binary32::model::lemma_rounded_exact;
use crate::binary32::model::mantissa;
use crate::binary32::model::nearest;
use crate::binary32::model::shift;
use crate::binary32::model::Binary32;
use crate::binary32::model::BINADE;
use crate::binary32::order::num;
use crate::binary32::shares::lemma_rounded_meets;
use vstd::arithmetic::power2::lemma2_to64;
use vstd::arithmetic::power2::lemma_pow2_adds;
use vstd::arithmetic::power2::lemma_pow2_pos;
use vstd::arithmetic::power2::lemma_pow2_strictly_increases;
use vstd::arithmetic::power2::pow2;
use vstd::prelude::*;

verus! {

/// Every integer of 24 bits, at a shift of the format, is the size of a number
/// with either sign.
pub proof fn lemma_number(m: int, s: nat) -> (x: Binary32)
    requires
        -0x100_0000 < m < 0x100_0000,
        m != 0,
        s <= 253,
    ensures
        x.finite(),
        x.units() == m * pow2(s),
        x.negative() == (m < 0),
{
    let p = lemma_on_grid(size_of(m), s);
    lemma_signed(m < 0, p);
    assert((-m) * pow2(s) == -(m * pow2(s))) by (nonlinear_arith);
    Binary32::signed(m < 0, p)
}

/// A sum that is a number is met exactly.
pub proof fn lemma_sum_meets(a: Binary32, b: Binary32, m: int, s: nat)
    requires
        a.finite(),
        b.finite(),
        -0x100_0000 < m < 0x100_0000,
        m != 0,
        s <= 253,
        a.units() + b.units() == m * pow2(s),
    ensures
        a.plus(b).finite(),
        a.plus(b).units() == m * pow2(s),
{
    let x = lemma_number(m, s);
    lemma_sum_between(a, b, x, x);
}

/// A product that is a number is met exactly.
pub proof fn lemma_product_meets(a: Binary32, b: Binary32, m: nat, s: nat)
    requires
        a.finite(),
        b.finite(),
        !b.negative(),
        m < 0x100_0000,
        s <= 253,
        a.size() * b.size() == (m * pow2(s)) * one_unit(),
    ensures
        a.times(b).finite(),
        a.times(b).negative() == a.negative(),
        a.times(b).size() == m * pow2(s),
{
    lemma_one();
    let p = if m == 0 {
        assert(0 * pow2(s) == 0) by (nonlinear_arith);
        assert(grid(0) == 0);
        0
    } else {
        lemma_on_grid(m, s)
    };
    lemma_rounded_meets(a.size() * b.size(), pow2(149), p);
    lemma_signed(a.negative(), p);
}

/// Small integers are numbers.
pub proof fn lemma_from_i32(n: i32)
    requires
        -0x100_0000 < n < 0x100_0000,
    ensures
        Binary32::from_i32(n).finite(),
        Binary32::from_i32(n).units() == n * one_unit(),
        Binary32::from_i32(n).size() == size_of(n as int) * one_unit(),
        Binary32::from_i32(n).negative() == (n < 0),
{
    lemma_one();
    let m = size_of(n as int);
    if m == 0 {
        assert(0 * one_unit() == 0) by (nonlinear_arith);
        assert(grid(0) == 0);
        lemma_rounded_exact(0);
        lemma_signed(false, 0);
    } else {
        let p = lemma_on_grid(m, 149);
        lemma_rounded_exact(p);
        lemma_signed(n < 0, p);
        let u = one_unit() as int;
        assert((-(n as int)) * u == -(n * u)) by (nonlinear_arith);
    }
}

/// What is at most half a unit away from a place stays so. Far out, where no
/// half is a number, it falls on the place.
pub proof fn lemma_stays_near(place: Binary32, v: int, j: Binary32)
    requires
        place.finite(),
        place.units() == v * one_unit(),
        v % 2 == 0,
        v != 0,
        v != 0x80_0000,
        v != -0x80_0000,
        j.finite(),
        2 * j.size() <= one_unit(),
    ensures
        place.plus(j).finite(),
        2 * size_of(place.plus(j).units() - v * one_unit()) <= one_unit(),
{
    lemma_one();
    lemma_sign_of_units(j);
    let u = one_unit() as int;
    if -0x80_0000 < v < 0x80_0000 {
        vstd::arithmetic::power2::lemma_pow2_unfold(149);
        let h = pow2(148) as int;
        let low = lemma_number(2 * v - 1, 148);
        let high = lemma_number(2 * v + 1, 148);
        assert((2 * v - 1) * h == v * u - h && (2 * v + 1) * h == v * u + h) by (nonlinear_arith)
            requires
                u == 2 * h,
        ;
        lemma_sum_between(place, j, low, high);
    } else {
        lemma_falls_on(place, v, j);
    }
}

/// Far out, less than a step is lost.
proof fn lemma_falls_on(place: Binary32, v: int, j: Binary32)
    requires
        place.finite(),
        place.units() == v * one_unit(),
        v % 2 == 0,
        v < -0x80_0000 || v > 0x80_0000,
        j.finite(),
        2 * j.size() <= one_unit(),
    ensures
        place.plus(j).finite(),
        place.plus(j).units() == place.units(),
{
    lemma_one();
    lemma_sign_of_units(j);
    lemma_sign_of_units(place);
    let u = one_unit();
    let a = size_of(v);
    assert(place.size() == a * u) by {
        assert((-v) * u == -(v * u)) by (nonlinear_arith);
        assert(v > 0 ==> v * u > 0) by (nonlinear_arith)
            requires
                u > 0,
        ;
        assert(v < 0 ==> v * u < 0) by (nonlinear_arith)
            requires
                u > 0,
        ;
    }
    let p = place.magnitude();
    let big = grid(p);
    assert(big > u) by (nonlinear_arith)
        requires
            big == a * u,
            a > 1,
            u > 0,
    ;
    lemma_steps_are_wide(p, a);
    lemma_gap(p);
    assert(grid(0) == 0);
    lemma_grid_order(0, p);
    lemma_gap((p - 1) as nat);
    let s = place.units() + j.units();
    let t = size_of(s);
    assert(nearest(t, 1, p));
    lemma_rounded(t, 1, p);
    lemma_signed(s < 0, p);
}

/// Beyond `2^23` the steps are whole, and those around an odd pattern are two at
/// least.
proof fn lemma_steps_are_wide(p: nat, a: nat)
    requires
        grid(p) == a * one_unit(),
        a > 0x80_0000,
        a % 2 == 0,
    ensures
        p > 0,
        gap(p) >= one_unit(),
        gap((p - 1) as nat) >= one_unit(),
        p % 2 == 1 ==> gap(p) >= 2 * one_unit() && gap((p - 1) as nat) >= 2 * one_unit(),
{
    lemma_one();
    lemma2_to64();
    lemma_mantissa_shift(p);
    let m = mantissa(p);
    let s = shift(p);
    let b = BINADE as nat;
    let u = one_unit();
    if s < 149 {
        if s < 148 {
            lemma_pow2_strictly_increases(s, 148);
        }
        lemma_pow2_adds(1, 148);
        let h = pow2(148);
        let w = pow2(s);
        lemma_pow2_pos(148);
        assert(m * w <= m * h) by (nonlinear_arith)
            requires
                w <= h,
        ;
        assert(m * h < 0x80_0000 * u) by (nonlinear_arith)
            requires
                m < 0x100_0000,
                h > 0,
                u == 2 * h,
        ;
        assert(a * u > 0x80_0000 * u) by (nonlinear_arith)
            requires
                a > 0x80_0000,
                u > 0,
        ;
    }
    assert(s >= 149);
    if s > 149 {
        lemma_pow2_strictly_increases(149, s);
        lemma_pow2_adds(1, 149);
        if s > 150 {
            lemma_pow2_strictly_increases(150, s);
        }
    }
    let f = (m - b) as nat;
    vstd::arithmetic::div_mod::lemma_fundamental_div_mod_converse(
        p as int,
        b as int,
        (s + 1) as int,
        f as int,
    );
    assert(gap(p) == pow2(s));
    if s == 149 {
        assert(m == a) by (nonlinear_arith)
            requires
                m * u == a * u,
                u > 0,
        ;
    }
    if m > b {
        vstd::arithmetic::div_mod::lemma_fundamental_div_mod_converse(
            p - 1,
            b as int,
            (s + 1) as int,
            f - 1,
        );
        assert(gap((p - 1) as nat) == pow2(s));
    } else {
        vstd::arithmetic::div_mod::lemma_fundamental_div_mod_converse(
            p - 1,
            b as int,
            s as int,
            b - 1,
        );
        assert(gap((p - 1) as nat) == pow2((s - 1) as nat));
        if s > 150 {
            lemma_pow2_strictly_increases(149, (s - 1) as nat);
        }
    }
    assert(p == s * b + m);
    assert(p % 2 == m % 2) by {
        assert((s * b) % 2 == 0) by (nonlinear_arith)
            requires
                b == 0x80_0000,
        ;
    }
}

/// The exact thirty-second part of a number that is no smaller than one.
pub proof fn lemma_thirty_second(x: Binary32)
    requires
        x.finite(),
        x.size() >= one_unit(),
    ensures
        x.over(num(0x4200_0000)).finite(),
        32 * x.over(num(0x4200_0000)).units() == x.units(),
{
    lemma_one();
    lemma2_to64();
    let d = num(0x4200_0000);
    lemma_grid_assembled(BINADE as nat, 131);
    lemma_pow2_adds(23, 131);
    lemma_pow2_adds(5, 149);
    assert(131 * BINADE + BINADE == 0x4200_0000);
    assert(d.size() == 32 * one_unit());
    let p = x.magnitude();
    lemma_mantissa_shift(p);
    let (m, s) = (mantissa(p), shift(p));
    if s < 5 {
        lemma_pow2_strictly_increases(s, 5);
        lemma_pow2_strictly_increases(64, 149);
        assert(m * pow2(s) < 0x100_0000 * 32) by (nonlinear_arith)
            requires
                m < 0x100_0000,
                pow2(s) < 32,
        ;
    }
    let r = (s - 5) as nat;
    lemma_pow2_adds(5, r);
    lemma_pow2_pos(r);
    assert(m > 0) by {
        if m == 0 {
            assert(0 * pow2(s) == 0) by (nonlinear_arith);
        }
    }
    let q = lemma_on_grid(m, r);
    let u = one_unit();
    assert(m * pow2(s) == 32 * (m * pow2(r))) by (nonlinear_arith)
        requires
            pow2(s) == 32 * pow2(r),
    ;
    assert(x.size() * u == grid(q) * (32 * u)) by (nonlinear_arith)
        requires
            x.size() == 32 * grid(q),
    ;
    lemma_rounded_meets(x.size() * pow2(149), 32 * u, q);
    lemma_signed(x.negative(), q);
    lemma_sign_of_units(x);
}

} // verus!
