//! Numbers as what they stand for, and how far each operation is from exact.

use crate::binary32::arith::size_of;
use crate::binary32::bounds::lemma_one;
use crate::binary32::bounds::lemma_rounded_at_most;
use crate::binary32::bounds::lemma_sign_of_units;
use crate::binary32::convert::one_unit;
use crate::binary32::errors::lemma_product_error;
use crate::binary32::errors::lemma_quotient_error;
use crate::binary32::errors::lemma_root_close;
use crate::binary32::errors::lemma_sum_error;
use crate::binary32::bounds::lemma_signed;
use crate::binary32::bounds::lemma_sum_between;
use crate::binary32::model::grid;
use crate::binary32::model::lemma_grid_assembled;
use crate::binary32::model::lemma_rounded_nearest;
use crate::binary32::model::rounded;
use crate::binary32::model::Binary32;
use crate::binary32::model::BINADE;
use crate::binary32::model::INFINITY_BITS;
use crate::binary32::order::num;
use crate::binary32::shares::lemma_rounded_meets;
use vstd::arithmetic::power2::lemma2_to64;
use vstd::arithmetic::power2::lemma_pow2_adds;
use vstd::arithmetic::power2::lemma_pow2_pos;
use vstd::arithmetic::power2::pow2;
use vstd::prelude::*;

verus! {

/// The number that a finite pattern stands for.
pub open spec fn value(x: Binary32) -> real {
    x.units() as real / one_unit() as real
}

/// A whole number over another.
pub open spec fn ratio(n: int, d: int) -> real {
    n as real / d as real
}

/// A number without its sign.
pub open spec fn mag(r: real) -> real {
    if r < 0 as real {
        -r
    } else {
        r
    }
}

/// The largest relative error of one rounding.
pub open spec fn eps() -> real {
    1 as real / 0x100_0000 as real
}

/// Half of the smallest number: the largest error that no relative one covers.
pub open spec fn tiny() -> real {
    1 as real / (2 * one_unit()) as real
}

/// The number is finite and stands for `r`, up to `k` roundings of it and `t`.
pub open spec fn near(x: Binary32, r: real, k: int, t: real) -> bool {
    x.finite() && mag(value(x) - r) <= k as real * (eps() * mag(r)) + t
}

/// A quotient of reals undone.
proof fn lemma_quotient_of(a: real, u: real)
    requires
        u > 0 as real,
    ensures
        (a / u) * u == a,
{
    assert((a / u) * u == a) by (nonlinear_arith)
        requires
            u > 0 as real,
    ;
}

/// The value of a number times one unit is the number of its units.
pub proof fn lemma_value_units(x: Binary32)
    ensures
        value(x) * one_unit() as real == x.units() as real,
        one_unit() as real > 0 as real,
{
    lemma_one();
    lemma_quotient_of(x.units() as real, one_unit() as real);
}

/// Values and units are ordered alike.
pub proof fn lemma_value_order(a: Binary32, b: Binary32)
    ensures
        value(a) <= value(b) <==> a.units() <= b.units(),
        value(a) < value(b) <==> a.units() < b.units(),
{
    lemma_value_units(a);
    lemma_value_units(b);
    let (x, y, u) = (value(a), value(b), one_unit() as real);
    assert(x <= y <==> x * u <= y * u) by (nonlinear_arith)
        requires
            u > 0 as real,
    ;
}

/// What stands for zero, for more and for less.
pub proof fn lemma_value_sign(a: Binary32)
    ensures
        value(a) == 0 as real <==> a.units() == 0,
        value(a) < 0 as real <==> a.units() < 0,
        value(a) > 0 as real <==> a.units() > 0,
{
    lemma_value_units(a);
    let (x, u) = (value(a), one_unit() as real);
    assert((x < 0 as real <==> x * u < 0 as real) && (x > 0 as real <==> x * u > 0 as real))
        by (nonlinear_arith)
        requires
            u > 0 as real,
    ;
}

/// Zero stands for zero.
pub proof fn lemma_value_zero()
    ensures
        value(num(0)) == 0 as real,
        num(0).finite(),
{
    assert(crate::binary32::model::grid(0) == 0);
    lemma_value_sign(num(0));
}

/// A number with its sign turned.
pub proof fn lemma_value_negated(a: Binary32)
    ensures
        value(a.negated()) == -value(a),
        a.negated().finite() == a.finite(),
        a.negated().nan() == a.nan(),
{
    lemma_value_units(a);
    lemma_value_units(a.negated());
    assert(a.negated().units() == -a.units());
    let (x, y, u) = (value(a), value(a.negated()), one_unit() as real);
    assert(y == -x) by (nonlinear_arith)
        requires
            y * u == -(x * u),
            u > 0 as real,
    ;
}

/// A number without its sign.
pub proof fn lemma_value_abs(a: Binary32)
    ensures
        value(a.abs()) == mag(value(a)),
        a.abs().finite() == a.finite(),
{
    lemma_value_sign(a);
    lemma_sign_of_units(a);
    crate::binary32::bounds::lemma_signed_self(a);
    if a.negative() {
        lemma_value_negated(a);
        assert(a.abs() == a.negated());
    } else {
        assert(a.abs() == a);
    }
    assert(crate::binary32::model::grid(0) == 0);
    crate::binary32::model::lemma_grid_order(0, a.magnitude());
}

/// The pattern with mantissa `m` at shift `s` stands for `m` over a power of two.
pub proof fn lemma_constant(bits: u32, m: nat, s: nat)
    requires
        bits == s * BINADE + m,
        BINADE <= m < 2 * BINADE,
        s <= 149,
    ensures
        num(bits).finite(),
        value(num(bits)) == ratio(m as int, pow2((149 - s) as nat) as int),
{
    lemma_one();
    lemma_grid_assembled(m, s);
    lemma_pow2_pos(s);
    let d = (149 - s) as nat;
    lemma_pow2_pos(d);
    lemma_pow2_adds(s, d);
    let x = num(bits);
    assert(s * (BINADE as nat) + m == bits);
    assert(x.units() == m * pow2(s));
    let (a, b, c) = (m as real, pow2(s) as real, pow2(d) as real);
    let w = pow2(s);
    let v = pow2(d);
    assert(one_unit() as real == b * c) by {
        assert((w * v) as real == w as real * v as real) by (nonlinear_arith);
    }
    assert(x.units() as real == a * b) by {
        assert((m * w) as real == m as real * w as real) by (nonlinear_arith);
    }
    assert((a * b) / (b * c) == a / c) by (nonlinear_arith)
        requires
            b > 0 as real,
            c > 0 as real,
    ;
}

/// The pattern with mantissa `m` at shift `s` is the nearest to `n` over `d`.
pub proof fn lemma_decimal(bits: u32, m: nat, s: nat, n: int, d: int)
    requires
        bits == s * BINADE + m,
        BINADE <= m < 2 * BINADE,
        s <= 149,
        n > 0,
        d > 0,
        0x100_0000 * (m * d - n * pow2((149 - s) as nat)) <= n * pow2((149 - s) as nat),
        0x100_0000 * (n * pow2((149 - s) as nat) - m * d) <= n * pow2((149 - s) as nat),
    ensures
        near(num(bits), ratio(n, d), 1, 0 as real),
        num(bits).units() > 0,
        m * d == n * pow2((149 - s) as nat) ==> value(num(bits)) == ratio(n, d),
        ratio(n, d) > 0 as real,
{
    lemma_constant(bits, m, s);
    lemma_value_sign(num(bits));
    let p = pow2((149 - s) as nat) as int;
    lemma_pow2_pos((149 - s) as nat);
    let (a, b, x, y) = (m as real, p as real, n as real, d as real);
    assert((m * d) as real == a * y) by (nonlinear_arith)
        requires
            a == m as real,
            y == d as real,
    ;
    assert((n * p) as real == x * b) by (nonlinear_arith)
        requires
            x == n as real,
            b == p as real,
    ;
    assert(a / b > 0 as real && x / y > 0 as real) by (nonlinear_arith)
        requires
            a > 0 as real,
            b > 0 as real,
            x > 0 as real,
            y > 0 as real,
    ;
    let g = a * y - x * b;
    assert((a / b - x / y) * (b * y) == g) by (nonlinear_arith)
        requires
            g == a * y - x * b,
            b > 0 as real,
            y > 0 as real,
    ;
    let z = a / b - x / y;
    let h = b * y;
    assert(h > 0 as real) by (nonlinear_arith)
        requires
            h == b * y,
            b > 0 as real,
            y > 0 as real,
    ;
    assert(x * b == (x / y) * h) by (nonlinear_arith)
        requires
            h == b * y,
            y > 0 as real,
    ;
    let r = x / y;
    let e = eps();
    assert(z <= e * r && -z <= e * r && (g == 0 as real ==> z == 0 as real)) by (nonlinear_arith)
        requires
            z * h == g,
            0x100_0000 as real * g <= r * h,
            0x100_0000 as real * (-g) <= r * h,
            e == 1 as real / 0x100_0000 as real,
            h > 0 as real,
    ;
    assert(1 as real * (e * mag(r)) + 0 as real == e * r) by (nonlinear_arith)
        requires
            mag(r) == r,
    ;
}

/// Half of the smallest number is more than nothing.
pub proof fn lemma_tiny()
    ensures
        tiny() > 0 as real,
        tiny() <= eps() / 0x100_0000 as real,
{
    lemma_one();
    lemma2_to64();
    lemma_pow2_adds(64, 85);
    lemma_pow2_pos(85);
    let w = pow2(85);
    assert(0x1_0000_0000_0000_0000 * w >= 0x1_0000_0000_0000_0000) by (nonlinear_arith)
        requires
            w >= 1,
    ;
    let u = (2 * one_unit()) as real;
    assert(1 as real / u > 0 as real && 1 as real / u <= (1 as real / 0x100_0000 as real)
        / 0x100_0000 as real) by (nonlinear_arith)
        requires
            u >= 0x1_0000_0000_0000_0000 as real,
    ;
}

/// A sum is off by one rounding at most.
pub proof fn lemma_value_sum(a: Binary32, b: Binary32)
    requires
        a.finite(),
        b.finite(),
        a.plus(b).finite(),
    ensures
        mag(value(a.plus(b)) - (value(a) + value(b))) <= eps() * mag(value(a) + value(b)),
{
    lemma_sum_error(a, b);
    let s = a.plus(b);
    lemma_value_units(a);
    lemma_value_units(b);
    lemma_value_units(s);
    let u = one_unit() as real;
    let (x, y, z) = (value(a), value(b), value(s));
    let d = z - (x + y);
    let e = x + y;
    assert(d * u == (s.units() - (a.units() + b.units())) as real) by (nonlinear_arith)
        requires
            d == z - (x + y),
            x * u == a.units() as real,
            y * u == b.units() as real,
            z * u == s.units() as real,
    ;
    assert(e * u == (a.units() + b.units()) as real) by (nonlinear_arith)
        requires
            e == x + y,
            x * u == a.units() as real,
            y * u == b.units() as real,
    ;
    lemma_mag_scaled(d, u);
    lemma_mag_scaled(e, u);
    let (md, me) = (mag(d), mag(e));
    assert(0x100_0000 as real * (md * u) <= me * u);
    assert(md <= (1 as real / 0x100_0000 as real) * me) by (nonlinear_arith)
        requires
            0x100_0000 as real * (md * u) <= me * u,
            u > 0 as real,
    ;
}

/// A difference is off by one rounding at most.
pub proof fn lemma_value_minus(a: Binary32, b: Binary32)
    requires
        a.finite(),
        b.finite(),
        a.minus(b).finite(),
    ensures
        mag(value(a.minus(b)) - (value(a) - value(b))) <= eps() * mag(value(a) - value(b)),
{
    lemma_value_negated(b);
    lemma_value_sum(a, b.negated());
}

/// A size grows with a positive factor.
proof fn lemma_mag_scaled(d: real, u: real)
    requires
        u > 0 as real,
    ensures
        mag(d) * u == mag(d * u),
{
    assert((d < 0 as real <==> d * u < 0 as real) && (-d) * u == -(d * u)) by (nonlinear_arith)
        requires
            u > 0 as real,
    ;
}

/// The size of a product.
pub proof fn lemma_mag_product(a: real, b: real)
    ensures
        mag(a * b) == mag(a) * mag(b),
        mag(a) >= 0 as real,
        mag(b) >= 0 as real,
        mag(a) * mag(b) >= 0 as real,
{
    assert((-a) * b == -(a * b) && a * (-b) == -(a * b) && (-a) * (-b) == a * b)
        by (nonlinear_arith);
    assert(a >= 0 as real && b >= 0 as real ==> a * b >= 0 as real) by (nonlinear_arith);
    assert(a < 0 as real && b >= 0 as real ==> a * b <= 0 as real) by (nonlinear_arith);
    assert(a >= 0 as real && b < 0 as real ==> a * b <= 0 as real) by (nonlinear_arith);
    assert(a < 0 as real && b < 0 as real ==> a * b >= 0 as real) by (nonlinear_arith);
}

/// A product is off by one rounding at most, and half of the smallest number.
pub proof fn lemma_value_product(a: Binary32, b: Binary32)
    requires
        a.finite(),
        b.finite(),
        a.times(b).finite(),
    ensures
        mag(value(a.times(b)) - value(a) * value(b)) <= eps() * mag(value(a) * value(b)) + tiny(),
{
    lemma_product_error(a, b);
    let p = a.times(b);
    lemma_value_units(a);
    lemma_value_units(b);
    lemma_value_units(p);
    let n = one_unit();
    let u = n as real;
    let (x, y, z) = (value(a), value(b), value(p));
    let (i, j, k) = (a.units(), b.units(), p.units());
    let d = z - x * y;
    let e = x * y;
    let uu = u * u;
    assert(uu > 0 as real) by (nonlinear_arith)
        requires
            u > 0 as real,
            uu == u * u,
    ;
    assert((k * n - i * j) as real == k as real * u - i as real * j as real) by (nonlinear_arith)
        requires
            u == n as real,
    ;
    assert((i * j) as real == i as real * j as real) by (nonlinear_arith);
    assert(d * uu == k as real * u - i as real * j as real) by (nonlinear_arith)
        requires
            d == z - x * y,
            uu == u * u,
            x * u == i as real,
            y * u == j as real,
            z * u == k as real,
    ;
    assert(e * uu == i as real * j as real) by (nonlinear_arith)
        requires
            e == x * y,
            uu == u * u,
            x * u == i as real,
            y * u == j as real,
    ;
    lemma_mag_scaled(d, uu);
    lemma_mag_scaled(e, uu);
    let (md, me) = (mag(d), mag(e));
    assert(0x100_0000 as real * (md * uu) <= me * uu + 0x80_0000 as real * u);
    assert(md <= (1 as real / 0x100_0000 as real) * me + 1 as real / (2 as real * u))
        by (nonlinear_arith)
        requires
            0x100_0000 as real * (md * uu) <= me * uu + 0x80_0000 as real * u,
            uu == u * u,
            u > 0 as real,
    ;
    assert((2 * n) as real == 2 as real * u);
}

/// A quotient of numbers that are not negative, against what it undoes.
pub proof fn lemma_value_quotient(a: Binary32, b: Binary32)
    requires
        a.finite(),
        b.finite(),
        a.units() >= 0,
        b.units() > 0,
        a.over(b).finite(),
    ensures
        value(a.over(b)) >= 0 as real,
        mag(value(a.over(b)) * value(b) - value(a)) <= eps() * value(a) + tiny() * value(b),
{
    lemma_quotient_error(a, b);
    let q = a.over(b);
    lemma_value_sign(q);
    lemma_value_units(a);
    lemma_value_units(b);
    lemma_value_units(q);
    let n = one_unit();
    let u = n as real;
    let (x, y, z) = (value(a), value(b), value(q));
    let (i, j, k) = (a.units(), b.units(), q.units());
    let d = z * y - x;
    let uu = u * u;
    assert(uu > 0 as real) by (nonlinear_arith)
        requires
            u > 0 as real,
            uu == u * u,
    ;
    assert((k * j - i * n) as real == k as real * j as real - i as real * u) by (nonlinear_arith)
        requires
            u == n as real,
    ;
    assert((i * n) as real == i as real * u) by (nonlinear_arith)
        requires
            u == n as real,
    ;
    assert(d * uu == k as real * j as real - i as real * u) by (nonlinear_arith)
        requires
            d == z * y - x,
            uu == u * u,
            x * u == i as real,
            y * u == j as real,
            z * u == k as real,
    ;
    lemma_mag_scaled(d, uu);
    let md = mag(d);
    assert(0x100_0000 as real * (md * uu) <= i as real * u + 0x80_0000 as real * j as real);
    let t = 1 as real / (2 as real * u);
    assert(t * (2 as real * u) == 1 as real) by (nonlinear_arith)
        requires
            t == 1 as real / (2 as real * u),
            u > 0 as real,
    ;
    assert(md <= (1 as real / 0x100_0000 as real) * x + t * y) by (nonlinear_arith)
        requires
            0x100_0000 as real * (md * uu) <= i as real * u + 0x80_0000 as real * j as real,
            uu == u * u,
            x * u == i as real,
            y * u == j as real,
            t * (2 as real * u) == 1 as real,
            u > 0 as real,
    ;
    assert((2 * n) as real == 2 as real * u);
}

/// A root, squared, is off by four roundings at most.
pub proof fn lemma_value_root(s: Binary32)
    requires
        s.finite(),
        s.units() >= 0,
    ensures
        s.root().finite(),
        value(s.root()) >= 0 as real,
        mag(value(s.root()) * value(s.root()) - value(s)) <= 4 as real * (eps() * value(s)),
{
    let r = s.root();
    lemma_sign_of_units(s);
    lemma_value_sign(s);
    lemma_value_sign(r);
    if s.units() == 0 {
        assert(0 as real * 0 as real == 0 as real) by (nonlinear_arith);
        assert(eps() * 0 as real == 0 as real) by (nonlinear_arith);
        assert(value(r) == 0 as real);
    } else {
        lemma_root_close(s);
        lemma_one();
        lemma_sign_of_units(r);
        lemma_value_units(s);
        lemma_value_units(r);
        let n = one_unit();
        let u = n as real;
        let (i, k) = (s.size(), r.size());
        let (x, z) = (value(s), value(r));
        let uu = u * u;
        let a = k * k;
        let b = i * n;
        assert(a as real == (z * z) * uu) by (nonlinear_arith)
            requires
                a == k * k,
                k as real == z * u,
                uu == u * u,
        {
            assert((k * k) as real == k as real * k as real);
        }
        assert(b as real == x * uu) by (nonlinear_arith)
            requires
                b == i * n,
                i as real == x * u,
                n as real == u,
                uu == u * u,
        {
            assert((i * n) as real == i as real * n as real);
        }
        assert(uu > 0 as real) by (nonlinear_arith)
            requires
                u > 0 as real,
                uu == u * u,
        ;
        let zz = z * z;
        assert(mag(zz - x) <= 4 as real * ((1 as real / 0x100_0000 as real) * x)) by {
            let e = 0x100_0000 as real;
            assert(e * (e * x) <= 0x100_0001 as real * (0x100_0001 as real * zz)
                && 0xff_ffff as real * (0xff_ffff as real * zz) <= e * (e * x))
                by (nonlinear_arith)
                requires
                    e * (e * (x * uu)) <= 0x100_0001 as real * (0x100_0001 as real * (zz * uu)),
                    0xff_ffff as real * (0xff_ffff as real * (zz * uu)) <= e * (e * (x * uu)),
                    uu > 0 as real,
            ;
        }
    }
}

/// What a number stands for is near it.
pub proof fn lemma_near_self(a: Binary32)
    requires
        a.finite(),
    ensures
        near(a, value(a), 0, 0 as real),
{
    let x = mag(value(a));
    assert(0 as real * (eps() * x) == 0 as real) by (nonlinear_arith);
}

/// The product of two numbers that are near what they should be.
pub proof fn lemma_near_product(
    a: Binary32,
    b: Binary32,
    x: real,
    y: real,
    ka: int,
    kb: int,
    s: real,
    t: real,
)
    requires
        near(a, x, ka, s),
        near(b, y, kb, t),
        0 <= ka <= 1000,
        0 <= kb <= 1000,
        s >= 0 as real,
        t >= 0 as real,
        a.times(b).finite(),
    ensures
        near(
            a.times(b),
            x * y,
            ka + kb + 2,
            2 as real * (s * mag(y) + t * mag(x) + s * t) + tiny(),
        ),
{
    lemma_value_product(a, b);
    let (v, w) = (value(a), value(b));
    let (dv, dw) = (v - x, w - y);
    let e = eps();
    let (mx, my) = (mag(x), mag(y));
    let (pa, pb) = (ka as real, kb as real);
    lemma_mag_product(x, y);
    lemma_mag_product(v, w);
    lemma_mag_product(x, dw);
    lemma_mag_product(y, dv);
    lemma_mag_product(dv, dw);
    assert(v * w - x * y == x * dw + y * dv + dv * dw) by (nonlinear_arith)
        requires
            dv == v - x,
            dw == w - y,
    ;
    let (md, mw) = (mag(dv), mag(dw));
    let off = mx * mw + my * md + md * mw;
    assert(mag(v * w - x * y) <= off);
    let n = mx * my;
    let k = (ka + kb + 2) as real;
    assert(k == pa + pb + 2 as real);
    assert(md <= pa * (e * mx) + s && mw <= pb * (e * my) + t);
    lemma_off(e, pa, pb, mx, my, md, mw, s, t);
    let slack = s * my + t * mx + s * t;
    assert(mag(v * w) <= n + off);
    assert(e * mag(v * w) <= e * (n + off)) by (nonlinear_arith)
        requires
            mag(v * w) <= n + off,
            e > 0 as real,
    ;
}

/// The terms of an error of a product.
proof fn lemma_off(
    e: real,
    pa: real,
    pb: real,
    mx: real,
    my: real,
    md: real,
    mw: real,
    s: real,
    t: real,
)
    requires
        e == 1 as real / 0x100_0000 as real,
        0 as real <= pa <= 1000 as real,
        0 as real <= pb <= 1000 as real,
        mx >= 0 as real,
        my >= 0 as real,
        s >= 0 as real,
        t >= 0 as real,
        0 as real <= md <= pa * (e * mx) + s,
        0 as real <= mw <= pb * (e * my) + t,
    ensures
        ({
            let off = mx * mw + my * md + md * mw;
            off + e * (mx * my + off) <= (pa + pb + 2 as real) * (e * (mx * my)) + 2 as real * (s
                * my + t * mx + s * t)
        }),
{
    let (ca, cb) = (pa * (e * mx), pb * (e * my));
    let n = mx * my;
    assert(mx * mw <= pb * (e * n) + mx * t) by (nonlinear_arith)
        requires
            mw <= pb * (e * my) + t,
            mx >= 0 as real,
            n == mx * my,
    ;
    assert(my * md <= pa * (e * n) + my * s) by (nonlinear_arith)
        requires
            md <= pa * (e * mx) + s,
            my >= 0 as real,
            n == mx * my,
    ;
    assert(md * mw <= (ca + s) * (cb + t)) by (nonlinear_arith)
        requires
            0 as real <= md <= ca + s,
            0 as real <= mw <= cb + t,
    ;
    let q = 1 as real / 0x4000 as real;
    assert(pa * e <= q && pb * e <= q) by (nonlinear_arith)
        requires
            e == 1 as real / 0x100_0000 as real,
            q == 1 as real / 0x4000 as real,
            pa <= 1000 as real,
            pb <= 1000 as real,
    ;
    assert(ca <= q * mx && cb <= q * my) by (nonlinear_arith)
        requires
            ca == pa * (e * mx),
            cb == pb * (e * my),
            pa * e <= q,
            pb * e <= q,
            mx >= 0 as real,
            my >= 0 as real,
    ;
    assert(ca >= 0 as real && cb >= 0 as real) by (nonlinear_arith)
        requires
            ca == pa * (e * mx),
            cb == pb * (e * my),
            pa >= 0 as real,
            pb >= 0 as real,
            e > 0 as real,
            mx >= 0 as real,
            my >= 0 as real,
    ;
    assert(ca * t <= q * (mx * t)) by (nonlinear_arith)
        requires
            ca <= q * mx,
            t >= 0 as real,
    ;
    assert(s * cb <= q * (s * my)) by (nonlinear_arith)
        requires
            cb <= q * my,
            s >= 0 as real,
    ;
    // 1000 * 1000 / 2^24 is less than 1 / 16.
    assert(ca * cb <= (1 as real / 16 as real) * (e * n)) by (nonlinear_arith)
        requires
            ca == pa * (e * mx),
            cb <= q * my,
            ca >= 0 as real,
            n == mx * my,
            pa <= 1000 as real,
            q == 1 as real / 0x4000 as real,
            e > 0 as real,
            mx >= 0 as real,
            my >= 0 as real,
            pa >= 0 as real,
    {
        let f = e * (mx * my);
        assert(f >= 0 as real);
        assert(ca * (q * my) == (pa * q) * f);
        assert(ca * cb <= ca * (q * my));
        assert(pa * q <= 1 as real / 16 as real);
        assert((pa * q) * f <= (1 as real / 16 as real) * f);
    }
    assert((ca + s) * (cb + t) == ca * cb + ca * t + s * cb + s * t) by (nonlinear_arith);
    let off = mx * mw + my * md + md * mw;
    let en = e * n;
    let (mt, ms, st) = (mx * t, my * s, s * t);
    assert(mt >= 0 as real && ms >= 0 as real && st >= 0 as real && en >= 0 as real)
        by (nonlinear_arith)
        requires
            mt == mx * t,
            ms == my * s,
            st == s * t,
            en == e * n,
            n == mx * my,
            e > 0 as real,
            mx >= 0 as real,
            my >= 0 as real,
            s >= 0 as real,
            t >= 0 as real,
    ;
    assert(mx * t == t * mx && my * s == s * my) by (nonlinear_arith);
    let p = pa + pb + 1 as real / 16 as real;
    assert((pa + pb) * en == pa * en + pb * en) by (nonlinear_arith);
    assert(p * en == (pa + pb) * en + (1 as real / 16 as real) * en) by (nonlinear_arith)
        requires
            p == pa + pb + 1 as real / 16 as real,
    ;
    let rest = (1 as real + q) * (mt + ms) + st;
    assert(q * mt + q * ms == q * (mt + ms)) by (nonlinear_arith);
    assert((1 as real + q) * (mt + ms) == (mt + ms) + q * (mt + ms)) by (nonlinear_arith);
    assert(off <= p * en + rest);
    assert(e * off <= e * (p * en) + e * rest) by (nonlinear_arith)
        requires
            off <= p * en + rest,
            e > 0 as real,
    ;
    assert(e * (p * en) <= (1 as real / 4 as real) * en) by (nonlinear_arith)
        requires
            p <= 2001 as real,
            p >= 0 as real,
            e == 1 as real / 0x100_0000 as real,
            en >= 0 as real,
    {
        assert(e * p <= 1 as real / 4 as real);
        assert(e * (p * en) == (e * p) * en);
    }
    assert(e * rest <= (1 as real / 4 as real) * (mt + ms + st)) by (nonlinear_arith)
        requires
            rest == (1 as real + q) * (mt + ms) + st,
            q == 1 as real / 0x4000 as real,
            e == 1 as real / 0x100_0000 as real,
            mt >= 0 as real,
            ms >= 0 as real,
            st >= 0 as real,
    ;
    assert(q * (mt + ms) <= (1 as real / 4 as real) * (mt + ms)) by (nonlinear_arith)
        requires
            q == 1 as real / 0x4000 as real,
            mt >= 0 as real,
            ms >= 0 as real,
    ;
    assert(e * (n + off) == en + e * off) by (nonlinear_arith)
        requires
            en == e * n,
    ;
    assert((pa + pb + 2 as real) * en == (pa + pb) * en + 2 as real * en) by (nonlinear_arith);
}

/// The sum of two numbers that are not negative and near what they should be.
pub proof fn lemma_near_sum(
    a: Binary32,
    b: Binary32,
    x: real,
    y: real,
    k: int,
    s: real,
    t: real,
)
    requires
        near(a, x, k, s),
        near(b, y, k, t),
        x >= 0 as real,
        y >= 0 as real,
        0 <= k <= 1000,
        s >= 0 as real,
        t >= 0 as real,
        a.plus(b).finite(),
    ensures
        near(a.plus(b), x + y, k + 2, 2 as real * (s + t)),
{
    lemma_value_sum(a, b);
    let e = eps();
    let (v, w) = (value(a), value(b));
    let n = x + y;
    let p = k as real;
    let off = p * (e * n) + (s + t);
    assert(p * (e * x) + p * (e * y) == p * (e * n)) by (nonlinear_arith)
        requires
            n == x + y,
    ;
    assert(mag(v + w - n) <= off);
    assert(mag(v + w) <= n + off);
    assert(e * mag(v + w) <= e * (n + off)) by (nonlinear_arith)
        requires
            mag(v + w) <= n + off,
            e > 0 as real,
    ;
    let en = e * n;
    assert(en >= 0 as real) by (nonlinear_arith)
        requires
            en == e * n,
            e > 0 as real,
            n >= 0 as real,
    ;
    assert(e * (n + off) == en + e * (p * en) + e * (s + t)) by (nonlinear_arith)
        requires
            off == p * en + (s + t),
            en == e * n,
    ;
    assert(e * (p * en) <= en) by (nonlinear_arith)
        requires
            0 as real <= p <= 1000 as real,
            e == 1 as real / 0x100_0000 as real,
            en >= 0 as real,
    {
        assert(e * p <= 1 as real);
        assert(e * (p * en) == (e * p) * en);
    }
    assert(e * (s + t) <= s + t) by (nonlinear_arith)
        requires
            e == 1 as real / 0x100_0000 as real,
            s + t >= 0 as real,
    ;
    assert((k + 2) as real == p + 2 as real);
    assert((p + 2 as real) * en == p * en + 2 as real * en) by (nonlinear_arith);
}

/// The sum of two numbers that are near what they should be, whatever the signs:
/// `c` and `d` bound how far they are.
pub proof fn lemma_sum_off(a: Binary32, b: Binary32, x: real, y: real, c: real, d: real)
    requires
        a.finite(),
        b.finite(),
        mag(value(a) - x) <= c,
        mag(value(b) - y) <= d,
        a.plus(b).finite(),
    ensures
        mag(value(a.plus(b)) - (x + y)) <= 2 as real * (c + d) + eps() * mag(x + y),
{
    lemma_value_sum(a, b);
    let e = eps();
    let m = mag(value(a) + value(b));
    let n = mag(x + y);
    assert(m <= n + (c + d));
    assert(e * m <= e * n + (c + d)) by (nonlinear_arith)
        requires
            m <= n + (c + d),
            e == 1 as real / 0x100_0000 as real,
            c + d >= 0 as real,
    ;
}

/// A quotient of numbers that are not negative, against the exact one.
pub proof fn lemma_near_quotient(a: Binary32, b: Binary32)
    requires
        a.finite(),
        b.finite(),
        a.units() >= 0,
        b.units() > 0,
        a.over(b).finite(),
    ensures
        near(a.over(b), value(a) / value(b), 1, tiny()),
        value(a) / value(b) >= 0 as real,
        value(a.over(b)) >= 0 as real,
{
    lemma_value_quotient(a, b);
    lemma_value_sign(a);
    lemma_value_sign(b);
    let (x, y, q) = (value(a), value(b), value(a.over(b)));
    let r = x / y;
    lemma_quotient_of(x, y);
    let (e, t) = (eps(), tiny());
    assert(r >= 0 as real) by (nonlinear_arith)
        requires
            r * y == x,
            x >= 0 as real,
            y > 0 as real,
    ;
    assert(q - r <= e * r + t && r - q <= e * r + t) by (nonlinear_arith)
        requires
            r * y == x,
            y > 0 as real,
            q * y - x <= e * x + t * y,
            x - q * y <= e * x + t * y,
    {
        assert((q - r) * y == q * y - x);
        assert((e * r + t) * y == e * x + t * y);
    }
    assert(1 as real * (e * mag(r)) == e * r) by (nonlinear_arith)
        requires
            mag(r) == r,
    ;
}

/// A finite sum has finite parts.
pub proof fn lemma_sum_parts(a: Binary32, b: Binary32)
    requires
        a.plus(b).finite(),
    ensures
        a.finite(),
        b.finite(),
{
}

/// The sign of a product, whatever its size.
pub proof fn lemma_product_sign(a: Binary32, b: Binary32)
    requires
        !a.times(b).nan(),
    ensures
        a.units() >= 0 && b.units() >= 0 ==> a.times(b).units() >= 0,
        a.units() <= 0 && b.units() >= 0 ==> a.times(b).units() <= 0,
        a.units() >= 0 && b.units() <= 0 ==> a.times(b).units() <= 0,
        a.units() <= 0 && b.units() <= 0 ==> a.times(b).units() >= 0,
{
    lemma_sign_of_units(a);
    lemma_sign_of_units(b);
    lemma_pow2_pos(149);
    let sign = a.negative() != b.negative();
    if a.infinite() || b.infinite() {
        lemma_signed(sign, INFINITY_BITS as nat);
    } else {
        let n = a.size() * b.size();
        lemma_rounded_nearest(n, pow2(149));
        lemma_signed(sign, rounded(n, pow2(149)));
        if a.zero() || b.zero() {
            assert(n == 0) by (nonlinear_arith)
                requires
                    a.size() == 0 || b.size() == 0,
                    n == a.size() * b.size(),
            ;
            assert(grid(0) == 0);
            assert(0 == grid(0) * pow2(149)) by (nonlinear_arith)
                requires
                    grid(0) == 0,
            ;
            lemma_rounded_meets(0, pow2(149), 0);
        }
    }
}

/// A number of everyday size: at most two to the thirtieth power.
pub open spec fn modest(x: Binary32) -> bool {
    x.finite() && mag(value(x)) <= 0x4000_0000 as real
}

/// A result of this size is finite: two to the hundred and twentieth power.
pub open spec fn large() -> real {
    value(num(LARGE_BITS))
}

/// The pattern of two to the hundred and twentieth power.
pub const LARGE_BITS: u32 = 0x7b80_0000;

/// How large that is.
pub proof fn lemma_large()
    ensures
        large() == 0x1000_0000_0000_0000 as real * 0x1000_0000_0000_0000 as real,
        num(LARGE_BITS).finite(),
        num(LARGE_BITS).units() == grid(LARGE_BITS as nat),
        grid(LARGE_BITS as nat) == pow2(269),
{
    lemma_one();
    lemma2_to64();
    let m: nat = 0x80_0000;
    lemma_grid_assembled(m, 246);
    assert(246 * (BINADE as nat) + m == LARGE_BITS);
    assert(m == pow2(23));
    lemma_pow2_adds(23, 246);
    assert(grid(LARGE_BITS as nat) == pow2(269));
    lemma_pow2_adds(149, 120);
    lemma_pow2_adds(60, 60);
    lemma_pow2_adds(30, 30);
    let (a, b) = (pow2(149), pow2(120));
    lemma_pow2_pos(149);
    assert((a * b) as real == a as real * b as real) by (nonlinear_arith);
    let (x, y) = (a as real, b as real);
    assert((x * y) / x == y) by (nonlinear_arith)
        requires
            x > 0 as real,
    ;
    let c = pow2(60);
    assert((c * c) as real == c as real * c as real) by (nonlinear_arith);
    assert(c == 0x1000_0000_0000_0000);
    assert(num(LARGE_BITS).units() as real == x * y);
    assert(large() == (x * y) / x);
    assert(y == c as real * c as real);
}

/// The units of a value that is not large.
proof fn lemma_below_large(n: nat)
    requires
        n as real <= large() * one_unit() as real,
    ensures
        n <= grid(LARGE_BITS as nat),
{
    lemma_large();
    lemma_value_units(num(LARGE_BITS));
}

/// A product that is not large is finite.
pub proof fn lemma_times_fits(a: Binary32, b: Binary32)
    requires
        a.finite(),
        b.finite(),
        mag(value(a) * value(b)) <= large(),
    ensures
        a.times(b).finite(),
{
    lemma_one();
    lemma_value_units(a);
    lemma_value_units(b);
    lemma_sign_of_units(a);
    lemma_sign_of_units(b);
    lemma_mag_product(value(a), value(b));
    let u = one_unit() as real;
    lemma_mag_scaled(value(a), u);
    lemma_mag_scaled(value(b), u);
    let (i, j) = (a.size(), b.size());
    let n = i * j;
    let (x, y, l) = (mag(value(a)), mag(value(b)), large());
    assert(i as real == x * u && j as real == y * u);
    assert((i * j) as real == i as real * j as real) by (nonlinear_arith);
    assert(i as real * j as real <= (l * u) * u) by (nonlinear_arith)
        requires
            i as real == x * u,
            j as real == y * u,
            x * y <= l,
            u > 0 as real,
    {
        assert((x * u) * (y * u) == ((x * y) * u) * u);
        assert((x * y) * u <= l * u);
    }
    lemma_large();
    lemma_value_units(num(LARGE_BITS));
    let g = grid(LARGE_BITS as nat);
    let w = one_unit();
    assert((g * w) as real == g as real * w as real) by (nonlinear_arith);
    assert(n <= g * w);
    lemma_rounded_at_most(n, pow2(149), LARGE_BITS as nat);
    lemma_signed(a.negative() != b.negative(), rounded(n, pow2(149)));
}

/// A sum that is not large is finite.
pub proof fn lemma_plus_fits(a: Binary32, b: Binary32)
    requires
        a.finite(),
        b.finite(),
        mag(value(a) + value(b)) <= large(),
    ensures
        a.plus(b).finite(),
{
    lemma_value_units(a);
    lemma_value_units(b);
    let u = one_unit() as real;
    let n = size_of(a.units() + b.units());
    lemma_mag_scaled(value(a) + value(b), u);
    let (x, y, z, l) = (value(a), value(b), mag(value(a) + value(b)), large());
    assert((x + y) * u == x * u + y * u) by (nonlinear_arith);
    assert(z * u <= l * u) by (nonlinear_arith)
        requires
            z <= l,
            u > 0 as real,
    ;
    lemma_below_large(n);
    lemma_rounded_at_most(n, 1, LARGE_BITS as nat);
    lemma_signed(a.units() + b.units() < 0, rounded(n, 1));
    lemma_signed(a.negative() && b.negative(), 0);
}

/// A sum that is at most a number is rounded to at most that number.
pub proof fn lemma_sum_at_most(a: Binary32, b: Binary32, t: Binary32)
    requires
        a.finite(),
        b.finite(),
        t.finite(),
        mag(value(a) + value(b)) <= large(),
        value(a) + value(b) <= value(t),
    ensures
        a.plus(b).finite(),
        a.plus(b).units() <= t.units(),
        value(a.plus(b)) <= value(t),
{
    lemma_large();
    let low = num(LARGE_BITS).negated();
    lemma_value_negated(num(LARGE_BITS));
    lemma_value_units(a);
    lemma_value_units(b);
    lemma_value_units(t);
    lemma_value_units(low);
    let u = one_unit() as real;
    let (x, y, z, l) = (value(a), value(b), value(t), value(low));
    assert(l * u <= x * u + y * u && x * u + y * u <= z * u) by (nonlinear_arith)
        requires
            l <= x + y,
            x + y <= z,
            u > 0 as real,
    ;
    lemma_sum_between(a, b, low, t);
    lemma_value_order(a.plus(b), t);
}

/// Numbers of everyday size have finite sums and products.
pub proof fn lemma_modest_fits(a: Binary32, b: Binary32)
    requires
        modest(a),
        modest(b),
    ensures
        a.plus(b).finite(),
        a.minus(b).finite(),
        a.times(b).finite(),
        mag(value(a) * value(b)) <= 0x4000_0000 as real * 0x4000_0000 as real,
{
    lemma_large();
    let (x, y, m) = (mag(value(a)), mag(value(b)), 0x4000_0000 as real);
    lemma_mag_product(value(a), value(b));
    assert(x * y <= m * m) by (nonlinear_arith)
        requires
            0 as real <= x <= m,
            0 as real <= y <= m,
    ;
    lemma_times_fits(a, b);
    lemma_plus_fits(a, b);
    lemma_value_negated(b);
    lemma_plus_fits(a, b.negated());
}

/// What is near a number that is at most `h` is at most twice that.
pub proof fn lemma_near_bounds(a: Binary32, x: real, k: int, t: real, h: real)
    requires
        near(a, x, k, t),
        mag(x) <= h,
        h >= 1 as real,
        0 <= k <= 1000,
        t <= 1 as real / 2 as real,
    ensures
        mag(value(a)) <= 2 as real * h,
{
    let (e, p, m) = (eps(), k as real, mag(x));
    assert(p * (e * m) <= h / 2 as real) by (nonlinear_arith)
        requires
            0 as real <= p <= 1000 as real,
            e == 1 as real / 0x100_0000 as real,
            0 as real <= m <= h,
    {
        assert(p * e <= 1 as real / 2 as real);
        assert(p * (e * m) == (p * e) * m);
        assert((p * e) * m <= (1 as real / 2 as real) * m);
    }
}

/// The size of a product of numbers of bounded size.
pub proof fn lemma_product_within(a: real, b: real, h: real, k: real)
    requires
        mag(a) <= h,
        mag(b) <= k,
    ensures
        mag(a * b) <= h * k,
{
    lemma_mag_product(a, b);
    let (x, y) = (mag(a), mag(b));
    assert(x * y <= h * k) by (nonlinear_arith)
        requires
            0 as real <= x <= h,
            0 as real <= y <= k,
    ;
}

/// A looser bound.
pub proof fn lemma_near_widens(a: Binary32, x: real, k: int, t: real, l: int, s: real)
    requires
        near(a, x, k, t),
        k <= l,
        t <= s,
    ensures
        near(a, x, l, s),
{
    let m = eps() * mag(x);
    assert(m >= 0 as real) by (nonlinear_arith)
        requires
            m == eps() * mag(x),
            eps() > 0 as real,
            mag(x) >= 0 as real,
    ;
    assert(k as real * m <= l as real * m) by (nonlinear_arith)
        requires
            k <= l,
            m >= 0 as real,
    ;
}

} // verus!
