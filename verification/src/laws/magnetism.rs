//! The forces between magnetic nodes, as numbers.

use crate::binary32::bounds::lemma_sign_of_units;
use crate::binary32::model::Binary32;
use crate::binary32::order::num;
use crate::binary32::value::lemma_decimal;
use crate::binary32::value::lemma_large;
use crate::binary32::value::lemma_near_bounds;
use crate::binary32::value::lemma_near_product;
use crate::binary32::value::lemma_near_quotient;
use crate::binary32::value::lemma_near_self;
use crate::binary32::value::lemma_product_sign;
use crate::binary32::value::lemma_product_within;
use crate::binary32::value::lemma_times_fits;
use crate::binary32::value::lemma_tiny;
use crate::binary32::value::lemma_value_negated;
use crate::binary32::value::lemma_value_order;
use crate::binary32::value::lemma_value_sign;
use crate::binary32::value::lemma_value_zero;
use crate::binary32::value::mag;
use crate::binary32::value::modest;
use crate::binary32::value::near;
use crate::binary32::value::ratio;
use crate::binary32::value::tiny;
use crate::binary32::value::value;
use crate::components::node_of;
use crate::components::Node;
use crate::fields::pair_of;
use crate::fields::FieldSample;
use crate::fields::MagneticPair;
use crate::fields::MAGNETIC_RANGE_SQUARED;
use crate::fields::MAGNETIC_STRENGTH;
use crate::fields::QUARTER;
use crate::interface::vector::ONE;
use crate::laws::births::lemma_whole_ratio;
use crate::laws::climate::lemma_quotient_fits;
use crate::laws::vectors::is_length;
use crate::laws::vectors::leads_to;
use crate::laws::vectors::lemma_difference_value;
use crate::laws::vectors::lemma_length_squared_value;
use crate::laws::vectors::lemma_length_value;
use crate::laws::vectors::modest_vector;
use crate::tags::MAGNETIC;
use vstd::arithmetic::power2::lemma2_to64;
use vstd::prelude::*;

verus! {

/// A pair whose force can be told in numbers: not right on top of each other.
pub open spec fn apart(pair: MagneticPair) -> bool {
    &&& modest_vector(pair.delta)
    &&& value(pair.delta.length()) >= ratio(1, 1000)
    &&& modest(pair.delta.length())
    &&& modest(pair.distance_squared)
}

/// The larger of the square of the distance and one.
pub open spec fn at_least_one(x: real) -> real {
    if x < 1 as real {
        1 as real
    } else {
        x
    }
}

/// The sign of the signal: one for none or more, and minus one for less.
pub open spec fn polarity(em: Binary32) -> real {
    if em.negative() {
        -(1 as real)
    } else {
        1 as real
    }
}

/// How far the smallest numbers can put a part of the force off.
pub open spec fn pull_slack(x: real, l: real, w: real) -> real {
    2 as real * (((4 as real * mag(x) + 2 as real) * tiny() + tiny()) * mag(w) + tiny() * mag(
        x * (1 as real / l) * 1 as real,
    ) + ((4 as real * mag(x) + 2 as real) * tiny() + tiny()) * tiny()) + tiny()
}

/// A part of the force between a pair: 1.2 over the square of the distance, or over
/// one where they are nearer, along the way from the first to the second.
pub open spec fn pulls(
    force: Binary32,
    along: Binary32,
    length: Binary32,
    square: Binary32,
    em: Binary32,
) -> bool {
    let (x, l) = (value(along), value(length));
    let w = value(num(MAGNETIC_STRENGTH)) / at_least_one(value(square));
    &&& near(force, polarity(em) * (x * (1 as real / l) * w), 8, pull_slack(x, l, w))
    &&& em.units() > 0 && x >= 0 as real ==> force.units() >= 0
    &&& em.units() > 0 && x <= 0 as real ==> force.units() <= 0
    &&& em.units() < 0 && x >= 0 as real ==> force.units() <= 0
    &&& em.units() < 0 && x <= 0 as real ==> force.units() >= 0
}

/// Magnets attract under a signal above zero and repel under one below: the force on
/// the first points at the second, or away from it, and falls with the square of
/// the distance from 1.2 on.
pub proof fn lemma_magnets_pull_or_push(pair: MagneticPair, field: FieldSample)
    requires
        apart(pair),
        field.em.finite(),
    ensures
        ({
            let f = pair.force(field);
            let l = pair.delta.length();
            &&& is_length(l, value(pair.delta.x), value(pair.delta.y))
            &&& pulls(f.x, pair.delta.x, l, pair.distance_squared, field.em)
            &&& pulls(f.y, pair.delta.y, l, pair.distance_squared, field.em)
            &&& near(num(MAGNETIC_STRENGTH), ratio(12, 10), 1, 0 as real)
        }),
{
    lemma_length_value(pair.delta);
    lemma2_to64();
    lemma_decimal(MAGNETIC_STRENGTH, 0x99_999a, 126, 12, 10);
    lemma_decimal(ONE, 0x80_0000, 126, 1, 1);
    lemma_whole_ratio(1);
    let l = pair.delta.length();
    let d = pair.distance_squared;
    lemma_unit_factor(l);
    lemma_strength(d);
    lemma_value_zero();
    let k = num(ONE).over(l);
    lemma_value_sign(k);
    assert(crate::binary32::model::grid(0) == 0);
    lemma_pull(pair.delta.x, l, d, field.em);
    lemma_pull(pair.delta.y, l, d, field.em);
}

/// The inverse of a length.
pub proof fn lemma_unit_factor(l: Binary32)
    requires
        modest(l),
        value(l) >= ratio(1, 1000),
    ensures
        num(ONE).over(l).finite(),
        near(num(ONE).over(l), 1 as real / value(l), 1, tiny()),
        value(num(ONE).over(l)) > 0 as real,
        0 as real <= 1 as real / value(l),
        1 as real / value(l) <= 1000 as real,
{
    lemma2_to64();
    lemma_tiny();
    lemma_decimal(ONE, 0x80_0000, 126, 1, 1);
    lemma_decimal(0x4480_0000, 0x80_0000, 136, 1024, 1);
    lemma_whole_ratio(1);
    lemma_whole_ratio(1024);
    assert(ratio(1, 1000) == 1 as real / 1000 as real);
    lemma_value_sign(l);
    let x = value(l);
    lemma_quotient_fits(num(ONE), l, num(0x4480_0000));
    lemma_near_quotient(num(ONE), l);
    let y = 1 as real / x;
    assert(1 as real / 0x8000_0000 as real <= y && y <= 1000 as real) by (nonlinear_arith)
        requires
            y == 1 as real / x,
            x >= 1 as real / 1000 as real,
            x <= 0x4000_0000 as real,
    ;
    let e = crate::binary32::value::eps();
    assert(1 as real * (e * mag(y)) <= y / 4 as real) by (nonlinear_arith)
        requires
            mag(y) == y,
            y >= 0 as real,
            e == 1 as real / 0x100_0000 as real,
    ;
}

/// The strength at a distance.
proof fn lemma_strength(d: Binary32)
    requires
        modest(d),
    ensures
        ({
            let g = d.max(num(ONE));
            let m = num(MAGNETIC_STRENGTH).over(g);
            let w = value(num(MAGNETIC_STRENGTH)) / at_least_one(value(d));
            &&& m.finite()
            &&& m.units() >= 0
            &&& near(m, w, 1, tiny())
            &&& 0 as real <= w <= 2 as real
        }),
{
    lemma2_to64();
    lemma_decimal(MAGNETIC_STRENGTH, 0x99_999a, 126, 12, 10);
    lemma_decimal(ONE, 0x80_0000, 126, 1, 1);
    lemma_whole_ratio(1);
    assert(ratio(12, 10) == 12 as real / 10 as real);
    let s = num(MAGNETIC_STRENGTH);
    lemma_value_order(d, num(ONE));
    let g = d.max(num(ONE));
    let (x, y) = (value(s), value(g));
    assert(y == at_least_one(value(d)));
    lemma_value_sign(g);
    lemma_value_sign(s);
    assert(x <= x * y) by (nonlinear_arith)
        requires
            x >= 0 as real,
            y >= 1 as real,
    ;
    lemma_quotient_fits(s, g, s);
    lemma_near_quotient(s, g);
    let q = ratio(12, 10);
    let e = crate::binary32::value::eps();
    assert(1 as real * (e * mag(q)) + 0 as real <= 1 as real / 10 as real) by (nonlinear_arith)
        requires
            mag(q) == q,
            q == 12 as real / 10 as real,
            e == 1 as real / 0x100_0000 as real,
    ;
    let w = x / y;
    assert(0 as real <= w && w <= 2 as real) by (nonlinear_arith)
        requires
            w == x / y,
            0 as real <= x <= 2 as real,
            y >= 1 as real,
    ;
    lemma_value_sign(s.over(g));
}

/// One part of the force.
proof fn lemma_pull(x: Binary32, l: Binary32, d: Binary32, em: Binary32)
    requires
        modest(x),
        modest(l),
        value(l) >= ratio(1, 1000),
        modest(d),
        em.finite(),
    ensures
        pulls(
            x.times(num(ONE).over(l)).times(em.signum()).times(
                num(MAGNETIC_STRENGTH).over(d.max(num(ONE))),
            ),
            x,
            l,
            d,
            em,
        ),
{
    lemma_unit_factor(l);
    lemma_strength(d);
    lemma_tiny();
    lemma_large();
    lemma2_to64();
    lemma_decimal(ONE, 0x80_0000, 126, 1, 1);
    lemma_whole_ratio(1);
    lemma_value_negated(num(ONE));
    let k = num(ONE).over(l);
    let s = em.signum();
    let m = num(MAGNETIC_STRENGTH).over(d.max(num(ONE)));
    let p = polarity(em);
    assert(em.negative() ==> s == num(ONE).negated());
    assert(!em.negative() ==> s == num(ONE));
    let (a, b, t, o) = (value(x), 1 as real / value(l), tiny(), 0 as real);
    let w = value(num(MAGNETIC_STRENGTH)) / at_least_one(value(d));
    let h = 0x4000_0000 as real;
    lemma_near_self(x);
    lemma_near_bounds(k, b, 1, t, 1000 as real);
    lemma_product_within(a, value(k), h, 2000 as real);
    lemma_times_fits(x, k);
    lemma_near_product(x, k, a, b, 0, 1, o, t);
    let t1 = (2 as real * mag(a) + 1 as real) * t;
    let u1 = 2 as real * (o * mag(b) + t * mag(a) + o * t) + t;
    assert(u1 == t1) by (nonlinear_arith)
        requires
            u1 == 2 as real * (o * mag(b) + t * mag(a) + o * t) + t,
            t1 == (2 as real * mag(a) + 1 as real) * t,
            o == 0 as real,
    ;
    let f1 = x.times(k);
    assert(near(f1, a * b, 3, t1));
    lemma_near_self(s);
    lemma_product_within(a, b, h, 1000 as real);
    lemma_slack_is_small(mag(a), t);
    lemma_near_bounds(f1, a * b, 3, t1, h * 1000 as real);
    lemma_product_within(value(f1), value(s), 2 as real * (h * 1000 as real), 1 as real);
    lemma_times_fits(f1, s);
    lemma_near_product(f1, s, a * b, p, 3, 0, t1, o);
    let t2 = (4 as real * mag(a) + 2 as real) * t + t;
    let u2 = 2 as real * (t1 * mag(p) + o * mag(a * b) + t1 * o) + t;
    assert(u2 == t2) by (nonlinear_arith)
        requires
            u2 == 2 as real * (t1 * mag(p) + o * mag(a * b) + t1 * o) + t,
            t1 == (2 as real * mag(a) + 1 as real) * t,
            t2 == (4 as real * mag(a) + 2 as real) * t + t,
            mag(p) == 1 as real,
            o == 0 as real,
    ;
    let f2 = f1.times(s);
    let ab = a * b;
    let abp = ab * p;
    assert(near(f2, abp, 5, t2));
    lemma_mag_turn(ab, p);
    lemma_near_bounds(f2, abp, 5, t2, h * 1000 as real);
    lemma_near_bounds(m, w, 1, t, 2 as real);
    lemma_product_within(value(f2), value(m), 2 as real * (h * 1000 as real), 4 as real);
    lemma_times_fits(f2, m);
    lemma_near_product(f2, m, abp, w, 5, 1, t2, t);
    let f = f2.times(m);
    assert(abp * w == p * (ab * w)) by (nonlinear_arith)
        requires
            abp == ab * p,
    ;
    assert(ab * 1 as real == ab) by (nonlinear_arith);
    lemma_value_sign(x);
    lemma_value_sign(k);
    lemma_value_sign(f1);
    lemma_value_sign(s);
    lemma_product_sign(x, k);
    lemma_product_sign(f1, s);
    lemma_product_sign(f2, m);
    lemma_sign_of_units(em);
}

/// A number with its sign turned or kept.
proof fn lemma_mag_turn(x: real, p: real)
    requires
        p == 1 as real || p == -(1 as real),
    ensures
        mag(x * p) == mag(x),
{
    assert(x * 1 as real == x && x * (-(1 as real)) == -x) by (nonlinear_arith);
}

/// The slack of everyday numbers is small.
proof fn lemma_slack_is_small(m: real, t: real)
    requires
        0 as real <= m <= 0x4000_0000 as real,
        t == tiny(),
    ensures
        (2 as real * m + 1 as real) * t <= 1 as real / 2 as real,
        (4 as real * m + 2 as real) * t + t <= 1 as real / 2 as real,
        (2 as real * m + 1 as real) * t >= 0 as real,
{
    lemma_tiny();
    assert(t <= 1 as real / 0x1_0000_0000_0000 as real);
    assert((4 as real * m + 2 as real) * t + t <= 1 as real / 2 as real && (2 as real * m
        + 1 as real) * t >= 0 as real && (2 as real * m + 1 as real) * t <= 1 as real / 2 as real)
        by (nonlinear_arith)
        requires
            0 as real <= m <= 0x4000_0000 as real,
            t > 0 as real,
            t <= 1 as real / 0x1_0000_0000_0000 as real,
    ;
}

/// Two nodes couple where both are magnetic bodies and the square of their distance
/// is at most 100; the pair is seen from the lower number. It leads from the one to
/// the other.
pub proof fn lemma_magnets_couple_within_ten(nodes: Seq<Node>, node: Node, other: u64)
    requires
        modest_vector(node.position),
        node_of(nodes, other) is Some,
        modest_vector(node_of(nodes, other)->0.position),
        modest_vector(node_of(nodes, other)->0.position.minus(node.position)),
    ensures
        ({
            let o = node_of(nodes, other)->0;
            let pair = pair_of(nodes, node, other);
            let d2 = o.position.minus(node.position).length_squared();
            &&& pair is Some <==> {
                &&& node.entity < other
                &&& o.physical is Some && o.tags is Some && o.tagged(MAGNETIC)
                &&& value(d2) <= 100 as real
            }
            &&& pair is Some ==> {
                &&& pair->0.first == node.entity
                &&& pair->0.second == other
                &&& leads_to(pair->0.delta, o.position, node.position)
                &&& value(d2) >= ratio(1, 4) ==> pair->0.distance_squared == d2
                &&& value(d2) < ratio(1, 4) ==> value(pair->0.distance_squared) == ratio(1, 4)
            }
        }),
{
    let o = node_of(nodes, other)->0;
    let delta = o.position.minus(node.position);
    lemma_difference_value(o.position.x, node.position.x);
    lemma_difference_value(o.position.y, node.position.y);
    lemma_length_squared_value(delta);
    let d2 = delta.length_squared();
    lemma2_to64();
    lemma_decimal(QUARTER, 0x80_0000, 124, 1, 4);
    lemma_decimal(MAGNETIC_RANGE_SQUARED, 0xc8_0000, 132, 100, 1);
    lemma_whole_ratio(100);
    assert(ratio(1, 4) == 1 as real / 4 as real);
    lemma_value_order(d2, num(QUARTER));
    lemma_value_order(num(MAGNETIC_RANGE_SQUARED), d2.max(num(QUARTER)));
}

} // verus!
