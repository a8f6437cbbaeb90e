//! What shortening leaves of a vector: at most the length it was shortened to, up
//! to rounding.

use crate::binary32::arith::size_of;
use crate::binary32::bounds::lemma_one;
use crate::binary32::bounds::lemma_product_shrinks;
use crate::binary32::bounds::lemma_rounded_at_most;
use crate::binary32::bounds::lemma_sign_of_units;
use crate::binary32::bounds::lemma_signed;
use crate::binary32::bounds::lemma_sum_not_negative;
use crate::binary32::convert::one_unit;
use crate::binary32::errors::lemma_product_error;
use crate::binary32::errors::lemma_quotient_error;
use crate::binary32::errors::lemma_root_bound;
use crate::binary32::errors::lemma_root_error;
use crate::binary32::errors::lemma_sum_error;
use crate::binary32::model::gap;
use crate::binary32::model::grid;
use crate::binary32::model::lemma_gap;
use crate::binary32::model::lemma_grid_order;
use crate::binary32::model::lemma_rounded_nearest;
use crate::binary32::model::lemma_rounded_root_nearest;
use crate::binary32::model::rounded;
use crate::binary32::model::rounded_root;
use crate::binary32::num;
use crate::binary32::Binary32;
use crate::interface::action::lemma_shortening_factor;
use crate::interface::vector::Vec2Lite;
use crate::interface::vector::ONE;
use vstd::arithmetic::power2::lemma2_to64;
use vstd::arithmetic::power2::lemma_pow2_adds;
use vstd::arithmetic::power2::lemma_pow2_pos;
use vstd::arithmetic::power2::lemma_pow2_strictly_increases;
use vstd::arithmetic::power2::pow2;
use vstd::prelude::*;

verus! {

/// The square of the vector's length, in square units and without rounding.
pub open spec fn norm(v: Vec2Lite) -> nat {
    v.x.size() * v.x.size() + v.y.size() * v.y.size()
}

/// The vector is no longer than one, up to rounding: the square of its length
/// exceeds one by at most the `2^18`-th part.
pub open spec fn unit_bound(v: Vec2Lite) -> bool {
    0x4_0000 * norm(v) <= 0x4_0001 * (one_unit() * one_unit())
}

/// The rounded square of a length, against the exact one.
proof fn lemma_norm(v: Vec2Lite)
    requires
        v.finite(),
        v.length_squared().finite(),
    ensures
        0xff_ffff * (0xff_ffff * norm(v)) <= 0x100_0000 * (0x100_0000 * (v.length_squared().size()
            * one_unit())) + 0x100_0000 * (0x100_0000 * one_unit()),
        v.length_squared().units() >= 0,
{
    lemma_one();
    let u = one_unit() as int;
    let (a, b) = (v.x.times(v.x), v.y.times(v.y));
    let s = a.plus(b);
    lemma_sum_terms(a, b);
    lemma_product_error(v.x, v.x);
    lemma_product_error(v.y, v.y);
    lemma_sum_error(a, b);
    lemma_sign_of_units(a);
    lemma_sign_of_units(b);
    lemma_sign_of_units(s);
    lemma_square_not_negative(v.x);
    lemma_square_not_negative(v.y);
    let (p, q) = (a.units() * u, b.units() * u);
    let (x, y) = (v.x.units() * v.x.units(), v.y.units() * v.y.units());
    assert(x >= 0 && y >= 0) by (nonlinear_arith)
        requires
            x == v.x.units() * v.x.units(),
            y == v.y.units() * v.y.units(),
    ;
    assert(norm(v) == x + y);
    assert(0xff_ffff * (x + y) <= 0x100_0000 * (p + q) + 0x100_0000 * u);
    let (m, t) = (a.units() + b.units(), s.units());
    assert(0xff_ffff * m <= 0x100_0000 * t);
    assert(p + q == m * u) by (nonlinear_arith)
        requires
            p == a.units() * u,
            q == b.units() * u,
            m == a.units() + b.units(),
    ;
    assert(0xff_ffff * (m * u) <= 0x100_0000 * (t * u)) by (nonlinear_arith)
        requires
            0xff_ffff * m <= 0x100_0000 * t,
            u >= 0,
    ;
}

/// A sum that is finite has finite terms.
proof fn lemma_sum_terms(a: Binary32, b: Binary32)
    requires
        a.plus(b).finite(),
    ensures
        a.finite(),
        b.finite(),
{
}

/// A square is not negative.
proof fn lemma_square_not_negative(x: Binary32)
    requires
        x.finite(),
    ensures
        !x.times(x).nan(),
        x.times(x).units() >= 0,
{
    lemma_pow2_pos(149);
    let n = x.size() * x.size();
    lemma_rounded_nearest(n, pow2(149));
    lemma_signed(false, rounded(n, pow2(149)));
}

/// A vector whose rounded length is at most one is no longer than one, up to
/// rounding.
proof fn lemma_short(v: Vec2Lite)
    requires
        v.finite(),
        !num(ONE).lt(v.length()),
    ensures
        unit_bound(v),
{
    lemma_one();
    lemma2_to64();
    lemma_pow2_strictly_increases(64, 149);
    let s = v.length_squared();
    lemma_square_not_negative(v.x);
    lemma_square_not_negative(v.y);
    lemma_length_squared(v);
    let l = v.length();
    let u = one_unit() as int;
    lemma_sign_of_units(l);
    lemma_sign_of_units(s);
    assert(s.finite()) by {
        if s.infinite() {
            assert(l == s);
            lemma_grid_order(ONE as nat, s.magnitude());
        }
    }
    lemma_norm(v);
    let z = norm(v) as int;
    let w = (s.size() * one_unit()) as int;
    lemma_grid_order(l.magnitude(), ONE as nat);
    lemma_root_at_most_one(s);
    assert(0x100_0000 * (0x100_0000 * w) <= 0x100_0001 * (0x100_0001 * (u * u)));
    assert(0x100_0000 * (0x100_0000 * u) <= u * u) by (nonlinear_arith)
        requires
            u >= 0x1_0000_0000_0000_0000,
    ;
}

/// The root of a square that is at most one.
proof fn lemma_root_at_most_one(s: Binary32)
    requires
        s.finite(),
        s.units() >= 0,
        s.root().units() <= one_unit(),
    ensures
        0x100_0000 * (0x100_0000 * (s.size() * one_unit())) <= 0x100_0001 * (0x100_0001 * (
        one_unit() * one_unit())),
{
    lemma_one();
    lemma_sign_of_units(s);
    let u = one_unit();
    let x = s.root();
    if s.size() == 0 {
        assert(0 * u == 0 && u * u >= 0) by (nonlinear_arith);
    } else {
        lemma_rounded_root_nearest(s.size() * pow2(149));
        let p = rounded_root(s.size() * pow2(149));
        lemma_signed(false, p);
        lemma_grid_order(p, ONE as nat);
        lemma_grid_order((p + 1) as nat, (ONE + 1) as nat);
        lemma_gap(ONE as nat);
        assert(gap(ONE as nat) == pow2(126)) by {
            assert(ONE as nat / 0x80_0000 == 127);
        }
        lemma2_to64();
        lemma_pow2_adds(23, 126);
        let g = pow2(126);
        let m = grid(p) + grid((p + 1) as nat);
        assert(m <= 2 * u + g);
        let h = 0x100_0001 * g;
        assert(m <= h) by {
            assert(u == 0x80_0000 * g);
        }
        assert(m * m <= h * h) by (nonlinear_arith)
            requires
                m <= h,
        ;
        let w = s.size() * u;
        assert(4 * w <= m * m);
        assert(h * h == 0x100_0001 * (0x100_0001 * (g * g))) by (nonlinear_arith)
            requires
                h == 0x100_0001 * g,
        ;
        assert(u * u == 0x80_0000 * (0x80_0000 * (g * g))) by (nonlinear_arith)
            requires
                u == 0x80_0000 * g,
        ;
    }
}

/// The rounded square of a length is not negative.
proof fn lemma_length_squared(v: Vec2Lite)
    requires
        v.finite(),
    ensures
        !v.length_squared().nan(),
        v.length_squared().units() >= 0,
        !v.length().nan(),
        v.length().units() >= 0,
{
    lemma_square_not_negative(v.x);
    lemma_square_not_negative(v.y);
    let (a, b) = (v.x.times(v.x), v.y.times(v.y));
    lemma_sign_of_units(a);
    lemma_sign_of_units(b);
    assert(grid(0) == 0);
    if a.finite() && b.finite() {
        lemma_sum_not_negative(a, b);
    }
    let s = v.length_squared();
    lemma_sign_of_units(s);
    if s.finite() && !s.zero() {
        lemma_rounded_root_nearest(s.size() * pow2(149));
        lemma_signed(false, rounded_root(s.size() * pow2(149)));
    }
}

/// A shortened coordinate, against the one that it was.
proof fn lemma_shortened(x: Binary32, l: Binary32)
    requires
        x.finite(),
        l.finite(),
        num(ONE).lt(l),
        l.size() <= 0x2_0000_0000_0000_0000 * one_unit(),
    ensures
        ({
            let y = x.times(num(ONE).over(l));
            &&& y.finite()
            &&& 0x100_0000 * (0x100_0000 * (y.size() * l.size())) <= 0x100_0002 * (0x100_0002 * (
            x.size() * one_unit())) + 0x100_0000 * (0x100_0000 * l.size())
        }),
{
    lemma_one();
    lemma2_to64();
    lemma_pow2_adds(64, 85);
    lemma_pow2_strictly_increases(64, 85);
    lemma_pow2_strictly_increases(64, 149);
    let k = num(ONE).over(l);
    let y = x.times(k);
    let u = one_unit() as int;
    lemma_sign_of_units(l);
    lemma_shortening_factor(l);
    lemma_product_shrinks(x, k);
    lemma_quotient_error(num(ONE), l);
    lemma_product_error(x, k);
    lemma_sign_of_units(k);
    lemma_sign_of_units(x);
    lemma_sign_of_units(y);
    let (a, b, c, d) = (x.size() as int, y.size() as int, k.size() as int, l.size() as int);
    assert(num(ONE).units() == u);
    assert(0x80_0000 * d <= u * u) by (nonlinear_arith)
        requires
            d <= 0x2_0000_0000_0000_0000 * u,
            u >= 0x100_0000_0000_0000_0000_0000_0000,
    ;
    assert(0x100_0000 * (c * d) <= 0x100_0002 * (u * u));
    assert(size_of(y.units() * pow2(149)) == b * u) by {
        assert((-b) * u == -(b * u) && b * u >= 0) by (nonlinear_arith)
            requires
                b >= 0,
                u > 0,
        ;
    }
    assert(0x100_0000 * (b * u) <= 0x100_0001 * (a * c) + 0x80_0000 * u);
    assert(0x100_0000 * ((b * u) * d) <= 0x100_0001 * ((a * c) * d) + 0x80_0000 * (u * d))
        by (nonlinear_arith)
        requires
            0x100_0000 * (b * u) <= 0x100_0001 * (a * c) + 0x80_0000 * u,
            d >= 0,
    ;
    assert((a * c) * d == a * (c * d)) by (nonlinear_arith);
    assert(0x100_0000 * (a * (c * d)) <= 0x100_0002 * (a * (u * u))) by (nonlinear_arith)
        requires
            0x100_0000 * (c * d) <= 0x100_0002 * (u * u),
            a >= 0,
    ;
    assert(a * (u * u) == (a * u) * u) by (nonlinear_arith);
    assert((b * u) * d == (b * d) * u) by (nonlinear_arith);
    assert(a * u >= 0 && b * d >= 0) by (nonlinear_arith)
        requires
            a >= 0,
            b >= 0,
            d >= 0,
            u > 0,
    ;
    let left = 0x100_0000 * (0x100_0000 * (b * d));
    let right = 0x100_0002 * (0x100_0002 * (a * u)) + 0x100_0000 * (0x100_0000 * d);
    let (bd, au) = (b * d, a * u);
    assert(au * u >= 0) by (nonlinear_arith)
        requires
            au >= 0,
            u > 0,
    ;
    assert(u * d >= 0) by (nonlinear_arith)
        requires
            d >= 0,
            u > 0,
    ;
    assert(0x100_0000 * (0x100_0000 * (bd * u)) <= 0x100_0002 * (0x100_0002 * (au * u))
        + 0x100_0000 * (0x100_0000 * (u * d)));
    assert(left <= right) by (nonlinear_arith)
        requires
            0x100_0000 * (0x100_0000 * (bd * u)) <= 0x100_0002 * (0x100_0002 * (au * u))
                + 0x100_0000 * (0x100_0000 * (u * d)),
            left == 0x100_0000 * (0x100_0000 * bd),
            right == 0x100_0002 * (0x100_0002 * au) + 0x100_0000 * (0x100_0000 * d),
            u > 0,
    ;
}

/// The two coordinates together.
proof fn lemma_shortened_norm(a: int, b: int, x: int, y: int, d: int, u: int)
    requires
        a >= 0,
        b >= 0,
        x >= 0,
        y >= 0,
        u >= 0x100_0000_0000_0000_0000_0000_0000,
        d >= u,
        0x100_0000 * (0x100_0000 * (a * d)) <= 0x100_0002 * (0x100_0002 * (x * u)) + 0x100_0000 * (
        0x100_0000 * d),
        0x100_0000 * (0x100_0000 * (b * d)) <= 0x100_0002 * (0x100_0002 * (y * u)) + 0x100_0000 * (
        0x100_0000 * d),
        0x7_ffff * (x * x + y * y) <= 0x8_0000 * (d * d),
    ensures
        0x4_0000 * (a * a + b * b) <= 0x4_0001 * (u * u),
{
    let e = 0x100_0000 * 0x100_0000int;
    let f = 0x100_0002 * 0x100_0002int;
    let p = if a > 0 {
        a - 1
    } else {
        0
    };
    let q = if b > 0 {
        b - 1
    } else {
        0
    };
    lemma_shortened_one(a, p, x, d, u);
    lemma_shortened_one(b, q, y, d, u);
    let (pp, qq, xx, yy) = (p * p, q * q, x * x, y * y);
    let (dd, uu) = (d * d, u * u);
    assert(0xf_ffff * (pp * dd) <= 0x10_0000 * (xx * uu));
    assert(0xf_ffff * (qq * dd) <= 0x10_0000 * (yy * uu));
    assert(0xf_ffff * ((pp + qq) * dd) <= 0x10_0000 * ((xx + yy) * uu)) by (nonlinear_arith)
        requires
            0xf_ffff * (pp * dd) <= 0x10_0000 * (xx * uu),
            0xf_ffff * (qq * dd) <= 0x10_0000 * (yy * uu),
    ;
    assert(uu > 0 && dd > 0) by (nonlinear_arith)
        requires
            uu == u * u,
            dd == d * d,
            u > 0,
            d > 0,
    ;
    assert(0x7_ffff * ((xx + yy) * uu) <= 0x8_0000 * (dd * uu)) by (nonlinear_arith)
        requires
            0x7_ffff * (xx + yy) <= 0x8_0000 * dd,
            uu > 0,
    ;
    let z = pp + qq;
    assert(0x7_ffff * (0xf_ffff * (z * dd)) <= 0x10_0000 * (0x8_0000 * (dd * uu)));
    assert(0x7_ffff * (0xf_ffff * z) <= 0x10_0000 * (0x8_0000 * uu)) by (nonlinear_arith)
        requires
            0x7_ffff * (0xf_ffff * (z * dd)) <= 0x10_0000 * (0x8_0000 * (dd * uu)),
            dd > 0,
    ;
    assert(p <= 2 * u) by (nonlinear_arith)
        requires
            p * p <= 2 * (u * u),
            p >= 0,
            u > 0,
    ;
    assert(q <= 2 * u) by (nonlinear_arith)
        requires
            q * q <= 2 * (u * u),
            q >= 0,
            u > 0,
    ;
    assert(a * a <= pp + 2 * p + 1) by (nonlinear_arith)
        requires
            a <= p + 1,
            a >= 0,
            pp == p * p,
    ;
    assert(b * b <= qq + 2 * q + 1) by (nonlinear_arith)
        requires
            b <= q + 1,
            b >= 0,
            qq == q * q,
    ;
    assert(0x100_0000 * (0x100_0000 * u) <= uu) by (nonlinear_arith)
        requires
            u >= 0x100_0000_0000_0000_0000_0000_0000,
            uu == u * u,
    ;
}

/// One coordinate, squared.
proof fn lemma_shortened_one(a: int, p: int, x: int, d: int, u: int)
    requires
        a >= 0,
        p == if a > 0 {
            a - 1
        } else {
            0
        },
        x >= 0,
        u > 0,
        d >= u,
        0x100_0000 * (0x100_0000 * (a * d)) <= 0x100_0002 * (0x100_0002 * (x * u)) + 0x100_0000 * (
        0x100_0000 * d),
    ensures
        0xf_ffff * ((p * p) * (d * d)) <= 0x10_0000 * ((x * x) * (u * u)),
{
    let (m, n) = (p * d, x * u);
    assert(m >= 0 && n >= 0) by (nonlinear_arith)
        requires
            m == p * d,
            n == x * u,
            p >= 0,
            d > 0,
            x >= 0,
            u > 0,
    ;
    if a > 0 {
        assert(a * d == p * d + d) by (nonlinear_arith)
            requires
                a == p + 1,
        ;
    } else {
        assert(p * d == 0) by (nonlinear_arith)
            requires
                p == 0,
        ;
    }
    assert(0x100_0000 * (0x100_0000 * m) <= 0x100_0002 * (0x100_0002 * n));
    assert(0x1f_ffff * m <= 0x20_0000 * n);
    assert(0x1f_ffff * (0x1f_ffff * (m * m)) <= 0x20_0000 * (0x20_0000 * (n * n)))
        by (nonlinear_arith)
        requires
            0x1f_ffff * m <= 0x20_0000 * n,
            m >= 0,
            n >= 0,
    ;
    assert(m * m >= 0 && n * n >= 0) by (nonlinear_arith);
    assert(0xf_ffff * (m * m) <= 0x10_0000 * (n * n));
    assert(m * m == (p * p) * (d * d)) by (nonlinear_arith)
        requires
            m == p * d,
    ;
    assert(n * n == (x * x) * (u * u)) by (nonlinear_arith)
        requires
            n == x * u,
    ;
}

/// A vector shortened to one is no longer than one, up to rounding, however long
/// it was.
pub proof fn lemma_shortened_to_one(v: Vec2Lite)
    requires
        v.finite(),
    ensures
        unit_bound(v.clamp_length_max(num(ONE))),
{
    lemma_one();
    lemma2_to64();
    lemma_pow2_strictly_increases(64, 149);
    lemma_length_squared(v);
    let s = v.length_squared();
    let l = v.length();
    lemma_sign_of_units(s);
    lemma_sign_of_units(l);
    assert(grid(0) == 0);
    lemma_grid_order(0, ONE as nat);
    if !num(ONE).lt(l) {
        lemma_short(v);
    } else if l.infinite() {
        lemma_shortening_factor(l);
        lemma_signed(false, 0);
        let k = num(ONE).over(l);
        lemma_nothing_left(v.x, k);
        lemma_nothing_left(v.y, k);
        assert(0 * 0 == 0nat);
        let u = one_unit();
        assert(u * u >= 0) by (nonlinear_arith);
    } else {
        assert(s.finite() && s.units() > 0) by {
            if s.infinite() {
                assert(l == s);
            }
        }
        lemma_root_bound(s);
        lemma_grid_order(ONE as nat, l.magnitude());
        lemma_root_error(s);
        lemma_norm(v);
        lemma_shortened(v.x, l);
        lemma_shortened(v.y, l);
        let (d, u) = (l.size() as int, one_unit() as int);
        let z = norm(v) as int;
        let w = (s.size() * one_unit()) as int;
        assert(0x100_0000 * (0x100_0000 * u) <= d * d) by (nonlinear_arith)
            requires
                u >= 0x1_0000_0000_0000_0000,
                d >= u,
        ;
        assert(0x7_ffff * z <= 0x8_0000 * (d * d));
        lemma_pow2_adds(64, 85);
        lemma_pow2_strictly_increases(64, 85);
        let k = num(ONE).over(l);
        lemma_shortened_norm(
            v.x.times(k).size() as int,
            v.y.times(k).size() as int,
            v.x.size() as int,
            v.y.size() as int,
            d,
            u,
        );
    }
}

/// The null vector is short.
pub proof fn lemma_null_is_short()
    ensures
        unit_bound(Vec2Lite::zero()),
{
    assert(grid(0) == 0);
    let z = num(0).size();
    assert(z * z == 0) by (nonlinear_arith)
        requires
            z == 0,
    ;
    let u = one_unit();
    assert(u * u >= 0) by (nonlinear_arith);
}

/// Nothing is left of a number times zero.
proof fn lemma_nothing_left(x: Binary32, k: Binary32)
    requires
        x.finite(),
        k.zero(),
    ensures
        x.times(k).size() == 0,
{
    assert(grid(0) == 0);
    lemma_pow2_pos(149);
    assert(x.size() * 0 == 0) by (nonlinear_arith);
    lemma_rounded_at_most(0, pow2(149), 0);
    lemma_signed(x.negative() != k.negative(), 0);
}

} // verus!
