//! Vectors and turns, as numbers.

use crate::binary32::bounds::lemma_sum_between;
use crate::binary32::bounds::lemma_sum_not_negative;
use crate::binary32::model::Binary32;
use crate::binary32::order::num;
use crate::binary32::value::eps;
use crate::binary32::value::lemma_decimal;
use crate::binary32::value::lemma_large;
use crate::binary32::value::lemma_mag_product;
use crate::binary32::value::lemma_modest_fits;
use crate::binary32::value::lemma_near_bounds;
use crate::binary32::value::lemma_near_product;
use crate::binary32::value::lemma_near_self;
use crate::binary32::value::lemma_near_sum;
use crate::binary32::value::lemma_plus_fits;
use crate::binary32::value::lemma_product_sign;
use crate::binary32::value::lemma_product_within;
use crate::binary32::value::lemma_sum_off;
use crate::binary32::value::lemma_times_fits;
use crate::binary32::value::lemma_tiny;
use crate::binary32::value::lemma_value_minus;
use crate::binary32::value::lemma_value_negated;
use crate::binary32::value::lemma_value_order;
use crate::binary32::value::lemma_value_product;
use crate::binary32::value::lemma_value_root;
use crate::binary32::value::lemma_value_sign;
use crate::binary32::value::lemma_value_zero;
use crate::binary32::value::mag;
use crate::binary32::value::modest;
use crate::binary32::value::near;
use crate::binary32::value::tiny;
use crate::binary32::value::value;
use crate::interface::vector::Rotation;
use crate::interface::vector::Vec2Lite;
use crate::interface::vector::TWO;
use vstd::arithmetic::power2::lemma2_to64;
use vstd::prelude::*;

verus! {

/// A vector of everyday size.
pub open spec fn modest_vector(v: Vec2Lite) -> bool {
    modest(v.x) && modest(v.y)
}

/// The square of a length, as Pythagoras has it.
pub open spec fn square(x: real, y: real) -> real {
    x * x + y * y
}

/// The number is the length of a vector of these parts, up to rounding.
pub open spec fn is_length(l: Binary32, x: real, y: real) -> bool {
    &&& l.finite()
    &&& value(l) >= 0 as real
    &&& mag(value(l) * value(l) - square(x, y)) <= 9 as real * (eps() * square(x, y)) + 5 as real
        * tiny()
}

/// The square of a length is the sum of the squares of the parts, up to rounding.
pub proof fn lemma_length_squared_value(v: Vec2Lite)
    requires
        modest_vector(v),
    ensures
        near(v.length_squared(), square(value(v.x), value(v.y)), 4, 4 as real * tiny()),
        v.length_squared().units() >= 0,
        square(value(v.x), value(v.y)) >= 0 as real,
{
    lemma_tiny();
    lemma_large();
    let (a, b) = (v.x.times(v.x), v.y.times(v.y));
    lemma_square_value(v.x);
    lemma_square_value(v.y);
    let (x, y, t) = (value(v.x) * value(v.x), value(v.y) * value(v.y), tiny());
    lemma_value_sign(a);
    lemma_value_sign(b);
    lemma_plus_fits(a, b);
    lemma_near_sum(a, b, x, y, 2, t, t);
    assert(2 as real * (t + t) == 4 as real * t);
    lemma_sum_not_negative(a, b);
}

/// The square of a number.
proof fn lemma_square_value(x: Binary32)
    requires
        modest(x),
    ensures
        near(x.times(x), value(x) * value(x), 2, tiny()),
        x.times(x).units() >= 0,
        value(x) * value(x) >= 0 as real,
        mag(value(x.times(x))) <= 0x2000_0000_0000_0000 as real,
{
    lemma_tiny();
    lemma_modest_fits(x, x);
    lemma_near_self(x);
    let (a, o) = (value(x), 0 as real);
    lemma_near_product(x, x, a, a, 0, 0, o, o);
    assert(2 as real * (o * mag(a) + o * mag(a) + o * o) + tiny() == tiny()) by (nonlinear_arith)
        requires
            o == 0 as real,
    ;
    lemma_product_sign(x, x);
    assert(a * a >= 0 as real) by (nonlinear_arith);
    lemma_near_bounds(x.times(x), a * a, 2, tiny(), 0x1000_0000_0000_0000 as real);
}

/// A length is the root of the sum of the squares, up to rounding.
pub proof fn lemma_length_value(v: Vec2Lite)
    requires
        modest_vector(v),
    ensures
        is_length(v.length(), value(v.x), value(v.y)),
{
    lemma_length_squared_value(v);
    lemma_tiny();
    let q = v.length_squared();
    let n = square(value(v.x), value(v.y));
    lemma_value_sign(q);
    lemma_value_root(q);
    let (e, t) = (eps(), tiny());
    let l = value(v.length());
    let s = value(q);
    let en = e * n;
    assert(4 as real * (e * mag(n)) == 4 as real * en);
    assert(e * s <= en + e * (4 as real * en + 4 as real * t)) by (nonlinear_arith)
        requires
            s <= n + 4 as real * en + 4 as real * t,
            en == e * n,
            e > 0 as real,
    ;
    assert(e * (4 as real * en + 4 as real * t) <= (en + t) / 4 as real) by (nonlinear_arith)
        requires
            e == 1 as real / 0x100_0000 as real,
            en >= 0 as real,
            t >= 0 as real,
    ;
}

/// The distance of two points of everyday size.
pub proof fn lemma_difference_value(a: Binary32, b: Binary32)
    requires
        modest(a),
        modest(b),
    ensures
        a.minus(b).finite(),
        mag(value(a.minus(b)) - (value(a) - value(b))) <= eps() * mag(value(a) - value(b)),
        mag(value(a.minus(b))) <= 0x1_0000_0000 as real,
{
    lemma_modest_fits(a, b);
    lemma_value_minus(a, b);
    let m = mag(value(a) - value(b));
    assert(eps() * m <= m) by (nonlinear_arith)
        requires
            eps() == 1 as real / 0x100_0000 as real,
            m >= 0 as real,
    ;
}

/// Nothing times a number is nothing.
proof fn lemma_times_nothing(a: Binary32, b: Binary32)
    requires
        a.finite(),
        b.finite(),
        value(a) == 0 as real || value(b) == 0 as real,
    ensures
        a.times(b).finite(),
        value(a.times(b)) == 0 as real,
{
    let (x, y) = (value(a), value(b));
    assert(x * y == 0 as real) by (nonlinear_arith)
        requires
            x == 0 as real || y == 0 as real,
    ;
    lemma_large();
    lemma_times_fits(a, b);
    lemma_value_sign(a);
    lemma_value_sign(b);
    lemma_product_sign(a, b);
    lemma_value_sign(a.times(b));
}

/// A number and nothing is the number.
proof fn lemma_plus_nothing(a: Binary32, b: Binary32)
    requires
        a.finite(),
        b.finite(),
        value(b) == 0 as real,
    ensures
        a.plus(b).finite(),
        b.plus(a).finite(),
        value(a.plus(b)) == value(a),
        value(b.plus(a)) == value(a),
{
    lemma_value_sign(b);
    lemma_sum_between(a, b, a, a);
    lemma_sum_between(b, a, a, a);
    lemma_value_order(a.plus(b), a);
    lemma_value_order(a, a.plus(b));
    lemma_value_order(b.plus(a), a);
    lemma_value_order(a, b.plus(a));
}

/// A turn in the plane: about the axis that points out of it.
pub open spec fn planar(r: Rotation) -> bool {
    &&& r.x.finite() && value(r.x) == 0 as real
    &&& r.y.finite() && value(r.y) == 0 as real
    &&& r.z.finite() && mag(value(r.z)) <= 1 as real
    &&& r.w.finite() && mag(value(r.w)) <= 1 as real
}

/// The cosine of the turn.
pub open spec fn turn_cos(r: Rotation) -> real {
    value(r.w) * value(r.w) - value(r.z) * value(r.z)
}

/// The sine of the turn.
pub open spec fn turn_sin(r: Rotation) -> real {
    2 as real * (value(r.w) * value(r.z))
}

/// How far rounding can put a turned vector off.
pub open spec fn turn_error(x: real, y: real) -> real {
    64 as real * ((eps() + tiny()) * (mag(x) + mag(y))) + 64 as real * tiny()
}

/// The vector is the one of parts `x` and `y` as it is seen from a frame that was
/// turned, up to rounding.
pub open spec fn turned_back(v: Vec2Lite, x: real, y: real, r: Rotation) -> bool {
    &&& v.finite()
    &&& mag(value(v.x) - (turn_cos(r) * x + turn_sin(r) * y)) <= turn_error(x, y)
    &&& mag(value(v.y) - (turn_cos(r) * y - turn_sin(r) * x)) <= turn_error(x, y)
}

/// The vector is the one of parts `x` and `y`, turned, up to rounding.
pub open spec fn turned(v: Vec2Lite, x: real, y: real, r: Rotation) -> bool {
    &&& v.finite()
    &&& mag(value(v.x) - (turn_cos(r) * x - turn_sin(r) * y)) <= turn_error(x, y)
    &&& mag(value(v.y) - (turn_cos(r) * y + turn_sin(r) * x)) <= turn_error(x, y)
}

/// The parts that a turn works with.
proof fn lemma_turn_parts(r: Rotation)
    requires
        planar(r),
    ensures
        ({
            let axis2 = r.x.times(r.x).plus(r.y.times(r.y)).plus(r.z.times(r.z));
            let keep = r.w.times(r.w).minus(axis2);
            let turn = r.w.times(num(TWO));
            &&& keep.finite()
            &&& mag(value(keep) - turn_cos(r)) <= 5 as real * eps() + 4 as real * tiny()
            &&& turn.finite()
            &&& mag(value(turn) - 2 as real * value(r.w)) <= 2 as real * eps() + tiny()
            &&& mag(turn_cos(r)) <= 1 as real
        }),
{
    lemma_tiny();
    lemma_large();
    let (e, t) = (eps(), tiny());
    lemma_times_nothing(r.x, r.x);
    lemma_times_nothing(r.y, r.y);
    lemma_plus_nothing(r.x.times(r.x), r.y.times(r.y));
    let zz = r.z.times(r.z);
    let ww = r.w.times(r.w);
    let (z, w) = (value(r.z), value(r.w));
    lemma_product_within(z, z, 1 as real, 1 as real);
    lemma_product_within(w, w, 1 as real, 1 as real);
    lemma_times_fits(r.z, r.z);
    lemma_times_fits(r.w, r.w);
    lemma_value_product(r.z, r.z);
    lemma_value_product(r.w, r.w);
    assert(z * z >= 0 as real && w * w >= 0 as real) by (nonlinear_arith);
    lemma_scaled_down(e, mag(z * z));
    lemma_scaled_down(e, mag(w * w));
    let none = r.x.times(r.x).plus(r.y.times(r.y));
    lemma_plus_nothing(zz, none);
    let axis2 = none.plus(zz);
    lemma_value_negated(axis2);
    lemma_plus_fits(ww, axis2.negated());
    lemma_sum_off(ww, axis2.negated(), w * w, -(z * z), e + t, e + t);
    lemma_scaled_down(e, mag(w * w - z * z));
    lemma2_to64();
    lemma_decimal(TWO, 0x80_0000, 127, 2, 1);
    let two = value(num(TWO));
    lemma_product_within(w, two, 1 as real, 2 as real);
    lemma_times_fits(r.w, num(TWO));
    lemma_value_product(r.w, num(TWO));
    assert(w * two == 2 as real * w) by (nonlinear_arith)
        requires
            two == 2 as real,
    ;
    assert(e * mag(2 as real * w) <= 2 as real * e) by (nonlinear_arith)
        requires
            mag(2 as real * w) <= 2 as real,
            e > 0 as real,
    ;
}

/// A rounding of at most one is at most a rounding.
proof fn lemma_scaled_down(e: real, m: real)
    requires
        e == eps(),
        m <= 1 as real,
    ensures
        e * m <= e,
{
    assert(e * m <= e) by (nonlinear_arith)
        requires
            e == 1 as real / 0x100_0000 as real,
            m <= 1 as real,
    ;
}

/// A product with factors that are off, taken with its own rounding.
proof fn lemma_product_off(a: Binary32, b: Binary32, x: real, y: real, c: real, d: real, h: real)
    requires
        a.finite(),
        b.finite(),
        mag(value(a) - x) <= c,
        mag(value(b) - y) <= d,
        mag(y) <= h,
        1 as real <= h <= 4 as real,
        d <= h,
        mag(x) <= 0x2_0000_0000 as real,
        c <= 0x2_0000_0000 as real,
    ensures
        a.times(b).finite(),
        mag(value(a.times(b)) - x * y) <= 2 as real * (mag(x) * d + 2 as real * (h * c)) + eps() * (h
            * mag(x)) + tiny(),
{
    lemma_large();
    let (v, w) = (value(a), value(b));
    lemma_product_within(v, w, 0x4_0000_0000 as real, 8 as real);
    lemma_times_fits(a, b);
    lemma_value_product(a, b);
    let (p, q) = (v - x, w - y);
    assert(v * w - x * y == x * q + p * w) by (nonlinear_arith)
        requires
            p == v - x,
            q == w - y,
    ;
    lemma_mag_product(x, q);
    lemma_mag_product(p, w);
    lemma_mag_product(x, y);
    let (mx, mp, mq, mw, my) = (mag(x), mag(p), mag(q), mag(w), mag(y));
    assert(mx * mq <= mx * d) by (nonlinear_arith)
        requires
            mq <= d,
            mx >= 0 as real,
    ;
    assert(mp * mw <= 2 as real * (h * c)) by (nonlinear_arith)
        requires
            0 as real <= mp <= c,
            0 as real <= mw <= 2 as real * h,
    ;
    assert(mx * my <= h * mx) by (nonlinear_arith)
        requires
            my <= h,
            mx >= 0 as real,
    ;
    let k = mx * d + 2 as real * (h * c);
    let e = eps();
    assert(e * mag(v * w) <= e * (h * mx) + k) by (nonlinear_arith)
        requires
            mag(v * w) <= h * mx + k,
            e == 1 as real / 0x100_0000 as real,
            k >= 0 as real,
    ;
}

/// A turn in the plane turns a vector by the angle whose half has the cosine `w`
/// and the sine `z`.
pub proof fn lemma_turn_value(r: Rotation, v: Vec2Lite)
    requires
        planar(r),
        v.finite(),
        mag(value(v.x)) <= 0x1_0000_0000 as real,
        mag(value(v.y)) <= 0x1_0000_0000 as real,
    ensures
        turned(r.rotate(v), value(v.x), value(v.y), r),
{
    lemma_turn_parts(r);
    lemma_value_zero();
    lemma_tiny();
    let axis2 = r.x.times(r.x).plus(r.y.times(r.y)).plus(r.z.times(r.z));
    let keep = r.w.times(r.w).minus(axis2);
    let turn = r.w.times(num(TWO));
    lemma2_to64();
    lemma_decimal(TWO, 0x80_0000, 127, 2, 1);
    // Nothing lies along an axis out of the plane.
    lemma_times_nothing(v.x, r.x);
    lemma_times_nothing(v.y, r.y);
    lemma_times_nothing(num(0), r.z);
    lemma_plus_nothing(v.x.times(r.x), v.y.times(r.y));
    lemma_plus_nothing(v.x.times(r.x).plus(v.y.times(r.y)), num(0).times(r.z));
    let sum = v.x.times(r.x).plus(v.y.times(r.y)).plus(num(0).times(r.z));
    lemma_times_nothing(sum, num(TWO));
    let along = sum.times(num(TWO));
    lemma_times_nothing(r.x, along);
    lemma_times_nothing(r.y, along);
    lemma_times_nothing(r.y, num(0));
    lemma_times_nothing(num(0), r.x);
    let cross_x = r.y.times(num(0)).minus(v.y.times(r.z));
    let cross_y = r.z.times(v.x).minus(num(0).times(r.x));
    let (x, y, z, w) = (value(v.x), value(v.y), value(r.z), value(r.w));
    lemma_cross(v.y, r.z, r.y.times(num(0)));
    lemma_cross_other(r.z, v.x, num(0).times(r.x));
    lemma_turn_part(v.x, keep, r.x.times(along), cross_x, turn, x, -(y * z), r, mag(x), mag(y));
    lemma_turn_part(v.y, keep, r.y.times(along), cross_y, turn, y, z * x, r, mag(x), mag(y));
    assert(turn_cos(r) * x - turn_sin(r) * y == turn_cos(r) * x + 2 as real * (-(y * z) * w))
        by (nonlinear_arith)
        requires
            turn_sin(r) == 2 as real * (w * z),
    ;
    assert(turn_cos(r) * y + turn_sin(r) * x == turn_cos(r) * y + 2 as real * (z * x * w))
        by (nonlinear_arith)
        requires
            turn_sin(r) == 2 as real * (w * z),
    ;
}

/// What a turn takes across, with the sign turned.
proof fn lemma_cross(y: Binary32, z: Binary32, none: Binary32)
    requires
        y.finite(),
        z.finite(),
        none.finite(),
        value(none) == 0 as real,
        mag(value(y)) <= 0x1_0000_0000 as real,
        mag(value(z)) <= 1 as real,
    ensures
        none.minus(y.times(z)).finite(),
        mag(value(none.minus(y.times(z))) - (-(value(y) * value(z)))) <= eps() * mag(value(y))
            + tiny(),
        mag(value(y) * value(z)) <= mag(value(y)),
{
    lemma_large();
    let (a, b) = (value(y), value(z));
    lemma_product_within(a, b, mag(a), 1 as real);
    assert(mag(a) * 1 as real == mag(a)) by (nonlinear_arith);
    lemma_times_fits(y, z);
    lemma_value_product(y, z);
    lemma_rounding_of_less(mag(a * b), mag(a));
    lemma_value_negated(y.times(z));
    lemma_plus_nothing(y.times(z).negated(), none);
}

/// What a turn takes across.
proof fn lemma_cross_other(z: Binary32, x: Binary32, none: Binary32)
    requires
        x.finite(),
        z.finite(),
        none.finite(),
        value(none) == 0 as real,
        mag(value(x)) <= 0x1_0000_0000 as real,
        mag(value(z)) <= 1 as real,
    ensures
        z.times(x).minus(none).finite(),
        mag(value(z.times(x).minus(none)) - value(z) * value(x)) <= eps() * mag(value(x)) + tiny(),
        mag(value(z) * value(x)) <= mag(value(x)),
{
    lemma_large();
    let (a, b) = (value(x), value(z));
    lemma_product_within(b, a, 1 as real, mag(a));
    assert(1 as real * mag(a) == mag(a)) by (nonlinear_arith);
    lemma_times_fits(z, x);
    lemma_value_product(z, x);
    lemma_rounding_of_less(mag(b * a), mag(a));
    lemma_value_negated(none);
    lemma_plus_nothing(z.times(x), none.negated());
}

/// A rounding of less is less.
proof fn lemma_rounding_of_less(a: real, b: real)
    requires
        a <= b,
    ensures
        eps() * a <= eps() * b,
{
    assert(eps() * a <= eps() * b) by (nonlinear_arith)
        requires
            a <= b,
            eps() == 1 as real / 0x100_0000 as real,
    ;
}

/// One part of a turned vector: what is kept and what comes across.
proof fn lemma_turn_part(
    a: Binary32,
    keep: Binary32,
    none: Binary32,
    cross: Binary32,
    turn: Binary32,
    x: real,
    c: real,
    r: Rotation,
    m: real,
    n: real,
)
    requires
        a.finite(),
        value(a) == x,
        keep.finite(),
        mag(value(keep) - turn_cos(r)) <= 5 as real * eps() + 4 as real * tiny(),
        mag(turn_cos(r)) <= 1 as real,
        none.finite(),
        value(none) == 0 as real,
        cross.finite(),
        mag(value(cross) - c) <= eps() * (m + n) + tiny(),
        turn.finite(),
        mag(value(turn) - 2 as real * value(r.w)) <= 2 as real * eps() + tiny(),
        mag(value(r.w)) <= 1 as real,
        mag(x) <= m + n,
        mag(c) <= m + n,
        0 as real <= m <= 0x1_0000_0000 as real,
        0 as real <= n <= 0x1_0000_0000 as real,
    ensures
        ({
            let p = a.times(keep).plus(none).plus(cross.times(turn));
            &&& p.finite()
            &&& mag(value(p) - (turn_cos(r) * x + 2 as real * (c * value(r.w)))) <= 64 as real * ((
            eps() + tiny()) * (m + n)) + 64 as real * tiny()
        }),
{
    lemma_tiny();
    lemma_large();
    let (e, t, k) = (eps(), tiny(), m + n);
    let (g, w) = (turn_cos(r), value(r.w));
    assert(e * k <= k) by (nonlinear_arith)
        requires
            e == 1 as real / 0x100_0000 as real,
            k >= 0 as real,
    ;
    lemma_product_off(a, keep, x, g, 0 as real, 5 as real * e + 4 as real * t, 1 as real);
    lemma_product_off(
        cross,
        turn,
        c,
        2 as real * w,
        e * k + t,
        2 as real * e + t,
        2 as real,
    );
    let (p, q) = (a.times(keep), cross.times(turn));
    let f = e + t;
    let fk = f * k;
    let (mx, mc) = (mag(x), mag(c));
    let b1 = 2 as real * (mx * (5 as real * e + 4 as real * t) + 2 as real * (1 as real * 0 as real))
        + e * (1 as real * mx) + t;
    assert(b1 <= 11 as real * fk + t) by (nonlinear_arith)
        requires
            b1 == 2 as real * (mx * (5 as real * e + 4 as real * t) + 2 as real * (1 as real
                * 0 as real)) + e * (1 as real * mx) + t,
            fk == (e + t) * k,
            0 as real <= mx <= k,
            e > 0 as real,
            t > 0 as real,
    {
        assert(mx * e <= k * e);
        assert(mx * t <= k * t);
    }
    let b2 = 2 as real * (mc * (2 as real * e + t) + 2 as real * (2 as real * (e * k + t))) + e * (
    2 as real * mc) + t;
    assert(b2 <= 14 as real * fk + 9 as real * t) by (nonlinear_arith)
        requires
            b2 == 2 as real * (mc * (2 as real * e + t) + 2 as real * (2 as real * (e * k + t))) + e
                * (2 as real * mc) + t,
            fk == (e + t) * k,
            0 as real <= mc <= k,
            e > 0 as real,
            t > 0 as real,
    {
        assert(mc * e <= k * e);
        assert(mc * t <= k * t);
        assert(k * t >= 0 as real);
    }
    let (u, v) = (g * x, c * (2 as real * w));
    assert(x * g == u && v == 2 as real * (c * w)) by (nonlinear_arith)
        requires
            u == g * x,
            v == c * (2 as real * w),
    ;
    lemma_plus_nothing(p, none);
    lemma_product_within(g, x, 1 as real, k);
    lemma_product_within(c, 2 as real * w, k, 2 as real);
    assert(1 as real * k == k && k * 2 as real == 2 as real * k) by (nonlinear_arith);
    assert(fk <= k) by (nonlinear_arith)
        requires
            fk == (e + t) * k,
            e == 1 as real / 0x100_0000 as real,
            t <= e,
            k >= 0 as real,
    ;
    let s = p.plus(none);
    assert(mag(value(s) - u) <= 11 as real * fk + t);
    assert(mag(value(q) - v) <= 14 as real * fk + 9 as real * t);
    lemma_plus_fits(s, q);
    lemma_sum_off(s, q, u, v, 11 as real * fk + t, 14 as real * fk + 9 as real * t);
    assert(e * mag(u + v) <= 3 as real * fk) by (nonlinear_arith)
        requires
            mag(u + v) <= 3 as real * k,
            mag(u + v) >= 0 as real,
            fk == (e + t) * k,
            e > 0 as real,
            t > 0 as real,
            k >= 0 as real,
    {
        assert(e * mag(u + v) <= e * (3 as real * k));
        assert(t * k >= 0 as real);
    }
}

/// The inverse of a turn takes a vector back into the frame that was turned.
pub proof fn lemma_turn_back_value(r: Rotation, v: Vec2Lite)
    requires
        planar(r),
        v.finite(),
        mag(value(v.x)) <= 0x1_0000_0000 as real,
        mag(value(v.y)) <= 0x1_0000_0000 as real,
    ensures
        turned_back(r.inverse().rotate(v), value(v.x), value(v.y), r),
{
    let i = r.inverse();
    lemma_value_negated(r.x);
    lemma_value_negated(r.y);
    lemma_value_negated(r.z);
    lemma_turn_value(i, v);
    let (z, w, x, y) = (value(r.z), value(r.w), value(v.x), value(v.y));
    assert((-z) * (-z) == z * z && w * (-z) == -(w * z)) by (nonlinear_arith);
    assert(turn_cos(i) == turn_cos(r) && turn_sin(i) == -turn_sin(r));
    let s = turn_sin(r);
    assert((-s) * x == -(s * x) && (-s) * y == -(s * y)) by (nonlinear_arith);
}

/// The vector leads from the second point to the first, up to one rounding of each
/// part.
pub open spec fn leads_to(d: Vec2Lite, to: Vec2Lite, from: Vec2Lite) -> bool {
    let (x, y) = (value(to.x) - value(from.x), value(to.y) - value(from.y));
    &&& d.finite()
    &&& mag(value(d.x) - x) <= eps() * mag(x)
    &&& mag(value(d.y) - y) <= eps() * mag(y)
}

/// The vector is what leads from the second point to the first, as it is seen from a
/// frame that was turned, up to rounding.
pub open spec fn seen_offset(v: Vec2Lite, to: Vec2Lite, from: Vec2Lite, r: Rotation) -> bool {
    exists|d: Vec2Lite| #[trigger]
        leads_to(d, to, from) && turned_back(v, value(d.x), value(d.y), r)
}

/// A difference of points, turned back.
pub proof fn lemma_seen_offset(to: Vec2Lite, from: Vec2Lite, r: Rotation)
    requires
        planar(r),
        modest_vector(to),
        modest_vector(from),
    ensures
        seen_offset(r.inverse().rotate(to.minus(from)), to, from, r),
{
    lemma_difference_value(to.x, from.x);
    lemma_difference_value(to.y, from.y);
    let d = to.minus(from);
    lemma_turn_back_value(r, d);
    assert(leads_to(d, to, from));
}

} // verus!
