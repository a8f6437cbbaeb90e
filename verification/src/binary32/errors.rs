//! How far rounding moves a result. The error of one rounding is at most the
//! `2^24`-th part of what is rounded, or half of the smallest unit.

use crate::binary32::arith::size_of;
use crate::binary32::bounds::lemma_sign_of_units;
use crate::binary32::bounds::lemma_signed;
use crate::binary32::convert::lemma_on_grid;
use crate::binary32::model::gap;
use crate::binary32::model::grid;
use crate::binary32::model::lemma_gap;
use crate::binary32::model::lemma_grid_assembled;
use crate::binary32::model::lemma_grid_order;
use crate::binary32::model::lemma_rounded_exact;
use crate::binary32::model::lemma_rounded_nearest;
use crate::binary32::model::lemma_rounded_root_nearest;
use crate::binary32::model::rounded;
use crate::binary32::model::rounded_root;
use crate::binary32::model::Binary32;
use crate::binary32::model::BINADE;
use crate::binary32::model::INFINITY_BITS;
use vstd::arithmetic::power2::lemma2_to64;
use vstd::arithmetic::power2::lemma_pow2_adds;
use vstd::arithmetic::power2::lemma_pow2_pos;
use vstd::arithmetic::power2::lemma_pow2_strictly_increases;
use vstd::arithmetic::power2::pow2;
use vstd::prelude::*;

verus! {

/// A step of the format is at most the `2^23`-th part of the number before it,
/// unless that is subnormal.
proof fn lemma_gap_is_small(p: nat)
    ensures
        BINADE * gap(p) <= grid(p) || (gap(p) == 1 && p < BINADE),
{
    let b = BINADE as nat;
    let e = p / b;
    let f = p % b;
    if e > 0 {
        let w = pow2((e - 1) as nat);
        assert(b * w <= (b + f) * w) by (nonlinear_arith);
    } else {
        assert(p < b);
    }
}

/// The error of one rounding.
pub proof fn lemma_rounding_error(n: nat, den: nat)
    requires
        den > 0,
        rounded(n, den) < INFINITY_BITS,
    ensures
        0x100_0000 * size_of(grid(rounded(n, den)) * den - n) <= n + 0x80_0000 * den,
{
    let p = rounded(n, den);
    lemma_rounded_nearest(n, den);
    lemma_gap(p);
    lemma_gap_is_small(p);
    let g = grid(p);
    let x = g * den;
    if x <= n {
        let s = gap(p);
        assert((g + (g + s)) * den == 2 * x + s * den) by (nonlinear_arith)
            requires
                x == g * den,
        ;
        assert(0x80_0000 * (s * den) <= x + 0x80_0000 * den) by (nonlinear_arith)
            requires
                0x80_0000 * s <= g || s == 1,
                x == g * den,
        ;
    } else {
        assert(p > 0) by {
            assert(grid(0) == 0);
            if p == 0 {
                assert(x == 0) by (nonlinear_arith)
                    requires
                        x == g * den,
                        g == 0,
                ;
            }
        }
        let q = (p - 1) as nat;
        lemma_gap(q);
        lemma_gap_is_small(q);
        let h = grid(q);
        let s = gap(q);
        assert((h + g) * den == 2 * x - s * den) by (nonlinear_arith)
            requires
                x == g * den,
                g == h + s,
        ;
        assert(0x80_0000 * (s * den) <= h * den + 0x80_0000 * den) by (nonlinear_arith)
            requires
                0x80_0000 * s <= h || s == 1,
        ;
        assert(2 * (h * den) <= (h + g) * den) by (nonlinear_arith)
            requires
                h <= g,
        ;
    }
}

/// The error of a sum. What has at most 24 bits is met exactly.
pub proof fn lemma_sum_error(a: Binary32, b: Binary32)
    requires
        a.finite(),
        b.finite(),
        a.plus(b).finite(),
    ensures
        0x100_0000 * size_of(a.plus(b).units() - (a.units() + b.units())) <= size_of(
            a.units() + b.units(),
        ),
{
    let s = a.units() + b.units();
    let n = size_of(s);
    assert(grid(0) == 0);
    if s == 0 {
        lemma_signed(a.negative() && b.negative(), 0);
    } else {
        let p = rounded(n, 1);
        lemma_rounded_nearest(n, 1);
        lemma_signed(s < 0, p);
        if n < 0x100_0000 {
            lemma2_to64();
            assert(n * pow2(0) == n) by (nonlinear_arith)
                requires
                    pow2(0) == 1,
            ;
            let q = lemma_on_grid(n, 0);
            lemma_rounded_exact(q);
        } else {
            lemma_sum_error_large(n);
        }
    }
}

/// The error of rounding an integer that is not small.
proof fn lemma_sum_error_large(n: nat)
    requires
        n >= 0x100_0000,
        rounded(n, 1) < INFINITY_BITS,
    ensures
        0x100_0000 * size_of(grid(rounded(n, 1)) - n) <= n,
{
    let p = rounded(n, 1);
    lemma_rounded_nearest(n, 1);
    lemma_gap(p);
    lemma_gap_is_small(p);
    assert(grid(BINADE as nat) == BINADE) by {
        lemma2_to64();
        assert((BINADE as nat + 0) * pow2(0) == BINADE) by (nonlinear_arith)
            requires
                pow2(0) == 1,
        ;
    }
    lemma_grid_order(p, BINADE as nat);
    lemma_grid_order((p + 1) as nat, BINADE as nat);
    if grid(p) > n {
        let q = (p - 1) as nat;
        lemma_gap(q);
        lemma_gap_is_small(q);
        lemma_grid_order(q, BINADE as nat);
    }
}

/// The error of a product.
pub proof fn lemma_product_error(a: Binary32, b: Binary32)
    requires
        a.finite(),
        b.finite(),
        a.times(b).finite(),
    ensures
        0x100_0000 * size_of(a.times(b).units() * pow2(149) - a.units() * b.units()) <= size_of(
            a.units() * b.units(),
        ) + 0x80_0000 * pow2(149),
        size_of(a.units() * b.units()) == a.size() * b.size(),
{
    let n = a.size() * b.size();
    let den = pow2(149);
    lemma_pow2_pos(149);
    let p = rounded(n, den);
    let negative = a.negative() != b.negative();
    lemma_rounded_nearest(n, den);
    lemma_signed(negative, p);
    lemma_rounding_error(n, den);
    let g = grid(p);
    let (x, y) = (a.size() as int, b.size() as int);
    assert((-x) * y == -(x * y) && x * (-y) == -(x * y) && (-x) * (-y) == x * y)
        by (nonlinear_arith);
    assert((-(g as int)) * den == -(g * den)) by (nonlinear_arith);
    assert(n >= 0);
}

/// The error of a quotient.
pub proof fn lemma_quotient_error(a: Binary32, b: Binary32)
    requires
        a.finite(),
        b.finite(),
        a.units() >= 0,
        b.units() > 0,
        a.over(b).finite(),
    ensures
        a.over(b).units() >= 0,
        0x100_0000 * size_of(a.over(b).units() * b.units() - a.units() * pow2(149)) <= a.units()
            * pow2(149) + 0x80_0000 * b.units(),
{
    let n = a.size() * pow2(149);
    let den = b.size();
    lemma_pow2_pos(149);
    lemma_sign_of_units(a);
    lemma_sign_of_units(b);
    lemma_grid_order(0, b.magnitude());
    assert(grid(0) == 0);
    let p = rounded(n, den);
    lemma_rounded_nearest(n, den);
    let negative = a.negative() != b.negative();
    lemma_signed(negative, p);
    lemma_rounding_error(n, den);
    if a.units() == 0 {
        assert(n == 0) by (nonlinear_arith)
            requires
                n == a.size() * pow2(149),
                a.size() == 0,
        ;
        crate::binary32::bounds::lemma_rounded_at_most(0, den, 0);
        assert(0 * b.units() == 0 && a.units() * pow2(149) == 0) by (nonlinear_arith)
            requires
                a.units() == 0,
        ;
    } else {
        assert(!negative);
        assert(a.over(b) == Binary32::signed(false, p));
    }
}

/// The error of a root from below: it is at most the `2^24`-th part too small.
pub proof fn lemma_root_error(s: Binary32)
    requires
        s.finite(),
        s.units() > 0,
        s.root().finite(),
        s.root().magnitude() >= BINADE,
    ensures
        0x100_0000 * (0x100_0000 * (s.size() * pow2(149))) <= 0x100_0001 * (0x100_0001 * (
        s.root().size() * s.root().size())),
{
    lemma_sign_of_units(s);
    let square = s.size() * pow2(149);
    lemma_rounded_root_nearest(square);
    let p = rounded_root(square);
    lemma_signed(false, p);
    lemma_gap(p);
    lemma_gap_is_small(p);
    let l = grid(p);
    let m = l + grid((p + 1) as nat);
    assert(0x80_0000 * m <= 0x100_0001 * l);
    assert(0x80_0000 * (0x80_0000 * (m * m)) <= 0x100_0001 * (0x100_0001 * (l * l)))
        by (nonlinear_arith)
        requires
            0x80_0000 * m <= 0x100_0001 * l,
            m >= 0,
            l >= 0,
    ;
    assert(4 * square <= m * m);
}

/// A root is at most `2^65`.
pub proof fn lemma_root_bound(s: Binary32)
    requires
        s.finite(),
        s.units() > 0,
    ensures
        s.root().finite(),
        s.root().size() <= 0x2_0000_0000_0000_0000 * pow2(149),
{
    lemma_sign_of_units(s);
    let square = s.size() * pow2(149);
    lemma_rounded_root_nearest(square);
    let p = rounded_root(square);
    lemma_signed(false, p);
    lemma_grid_order(s.magnitude(), INFINITY_BITS as nat);
    lemma_grid_assembled(BINADE as nat, 254);
    assert(254 * BINADE + BINADE == INFINITY_BITS);
    lemma2_to64();
    lemma_pow2_adds(23, 254);
    lemma_pow2_adds(128, 149);
    lemma_pow2_adds(64, 64);
    let u = pow2(149);
    let k = 0x1_0000_0000_0000_0000nat;
    lemma_pow2_pos(149);
    assert(pow2(128) == k * k);
    let h = k * u;
    assert(square <= h * h) by (nonlinear_arith)
        requires
            square == s.size() * u,
            s.size() <= (k * k) * u,
            h == k * u,
    ;
    if p > 0 {
        let m = grid((p - 1) as nat) + grid(p);
        assert(m * m <= 4 * square);
        assert(m <= 2 * h) by (nonlinear_arith)
            requires
                m * m <= 4 * (h * h),
                m >= 0,
                h >= 0,
        ;
    } else {
        assert(grid(0) == 0);
    }
    assert(p < INFINITY_BITS) by {
        lemma_pow2_adds(65, 149);
        lemma_pow2_strictly_increases(214, 277);
        lemma_pow2_adds(1, 64);
        assert(2 * h == pow2(214)) by (nonlinear_arith)
            requires
                h == k * u,
                pow2(214) == pow2(65) * u,
                pow2(65) == 2 * k,
        ;
    }
}

/// A root, squared, is off by two roundings at most, either way.
pub proof fn lemma_root_close(s: Binary32)
    requires
        s.finite(),
        s.units() > 0,
    ensures
        s.root().finite(),
        s.root().units() > 0,
        0x100_0000 * (0x100_0000 * (s.size() * pow2(149))) <= 0x100_0001 * (0x100_0001 * (
        s.root().size() * s.root().size())),
        0xff_ffff * (0xff_ffff * (s.root().size() * s.root().size())) <= 0x100_0000 * (0x100_0000
            * (s.size() * pow2(149))),
{
    lemma_sign_of_units(s);
    lemma_root_bound(s);
    let square = s.size() * pow2(149);
    lemma_rounded_root_nearest(square);
    let p = rounded_root(square);
    lemma_signed(false, p);
    lemma2_to64();
    lemma_pow2_adds(64, 85);
    lemma_pow2_pos(85);
    let w = pow2(85);
    assert(square >= 0x1_0000_0000_0000_0000) by (nonlinear_arith)
        requires
            square == s.size() * (0x1_0000_0000_0000_0000 * w),
            w >= 1,
            s.size() >= 1,
    ;
    if p <= BINADE {
        lemma_grid_order(p, BINADE as nat);
        lemma_grid_order(p + 1, (BINADE + 1) as nat);
        lemma_gap(BINADE as nat);
        lemma_grid_assembled(BINADE as nat, 0);
        lemma_gap_is_small(BINADE as nat);
        let m = grid(p) + grid(p + 1);
        assert(m <= 0x200_0000);
        assert(m * m <= 0x200_0000 * 0x200_0000) by (nonlinear_arith)
            requires
                0 <= m <= 0x200_0000,
        ;
    }
    lemma_root_error(s);
    let q = (p - 1) as nat;
    lemma_gap(q);
    lemma_gap_is_small(q);
    let r = grid(p);
    let m = grid(q) + r;
    assert(0x80_0000 * m >= 0xff_ffff * r);
    assert(0x80_0000 * (0x80_0000 * (m * m)) >= 0xff_ffff * (0xff_ffff * (r * r)))
        by (nonlinear_arith)
        requires
            0x80_0000 * m >= 0xff_ffff * r,
            m >= 0,
            r >= 0,
    ;
    assert(m * m <= 4 * square);
    lemma_sign_of_units(s.root());
}

} // verus!
