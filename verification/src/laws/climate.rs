//! The fields and their drift, as numbers.

use crate::binary32::bounds::lemma_one;
use crate::binary32::bounds::lemma_rounded_at_most;
use crate::binary32::bounds::lemma_sign_of_units;
use crate::binary32::bounds::lemma_signed;
use crate::binary32::bounds::lemma_signed_self;
use crate::binary32::model::rounded;
use crate::binary32::model::Binary32;
use crate::binary32::order::num;
use crate::binary32::shares::lemma_rounded_meets;
use crate::binary32::value::eps;
use crate::binary32::value::lemma_decimal;
use crate::binary32::value::lemma_large;
use crate::binary32::value::lemma_modest_fits;
use crate::binary32::value::lemma_near_bounds;
use crate::binary32::value::lemma_near_product;
use crate::binary32::value::lemma_near_quotient;
use crate::binary32::value::lemma_near_self;
use crate::binary32::value::lemma_plus_fits;
use crate::binary32::value::lemma_product_within;
use crate::binary32::value::lemma_times_fits;
use crate::binary32::value::lemma_tiny;
use crate::binary32::value::lemma_value_minus;
use crate::binary32::value::lemma_value_negated;
use crate::binary32::value::lemma_value_order;
use crate::binary32::value::lemma_value_product;
use crate::binary32::value::lemma_value_sign;
use crate::binary32::value::lemma_value_sum;
use crate::binary32::value::lemma_value_units;
use crate::binary32::value::lemma_value_zero;
use crate::binary32::value::mag;
use crate::binary32::value::modest;
use crate::binary32::value::near;
use crate::binary32::value::ratio;
use crate::binary32::value::tiny;
use crate::binary32::value::value;
use crate::fields::Drift;
use crate::fields::FieldSampler;
use crate::fields::Noise;
use crate::fields::DRIFT_AMPLITUDE;
use crate::fields::EM_AMPLITUDE;
use crate::fields::EM_LIMIT;
use crate::fields::EM_PERIOD;
use crate::fields::KINETIC_PERIOD;
use crate::fields::MINUS_EM_LIMIT;
use crate::fields::SPIKE_SCALE;
use crate::fields::THERMAL_PERIOD;
use crate::fields::VOLATILITY;
use crate::interface::observation::HALF;
use crate::interface::vector::ONE;
use crate::interface::vector::TWO;
use crate::interface::action::MINUS_ONE;
use crate::interface::action::TAU;
use crate::laws::births::lemma_whole_ratio;
use vstd::arithmetic::power2::lemma2_to64;
use vstd::arithmetic::power2::pow2;
use vstd::prelude::*;

verus! {

/// The number is finite and stands for `r`, up to `d`.
pub open spec fn about(x: Binary32, r: real, d: real) -> bool {
    x.finite() && mag(value(x) - r) <= d
}

/// A millionth.
pub open spec fn micro() -> real {
    1 as real / 1000000 as real
}

/// The number held within bounds.
pub open spec fn held(x: real, low: real, high: real) -> real {
    if x < low {
        low
    } else if x > high {
        high
    } else {
        x
    }
}

/// A sum of small numbers that are about right.
proof fn lemma_about_sum(a: Binary32, b: Binary32, x: real, y: real, c: real, d: real)
    requires
        about(a, x, c),
        about(b, y, d),
        mag(value(a) + value(b)) <= 16 as real,
    ensures
        about(a.plus(b), x + y, c + d + micro()),
{
    lemma_large();
    lemma_plus_fits(a, b);
    lemma_value_sum(a, b);
    let m = mag(value(a) + value(b));
    assert(eps() * m <= micro()) by (nonlinear_arith)
        requires
            m <= 16 as real,
            eps() == 1 as real / 0x100_0000 as real,
            micro() == 1 as real / 1000000 as real,
    ;
}

/// A product of small numbers.
proof fn lemma_about_product(a: Binary32, b: Binary32)
    requires
        a.finite(),
        b.finite(),
        mag(value(a) * value(b)) <= 16 as real,
    ensures
        about(a.times(b), value(a) * value(b), micro()),
{
    lemma_large();
    lemma_tiny();
    lemma_times_fits(a, b);
    lemma_value_product(a, b);
    let m = mag(value(a) * value(b));
    assert(eps() * m + tiny() <= micro()) by (nonlinear_arith)
        requires
            m <= 16 as real,
            tiny() <= eps() / 0x100_0000 as real,
            eps() == 1 as real / 0x100_0000 as real,
            micro() == 1 as real / 1000000 as real,
    ;
}

/// Noise and drift of the size that the noise functions and the sines have.
pub open spec fn mild(sampler: FieldSampler, noise: Noise) -> bool {
    &&& noise.kinetic.finite() && mag(value(noise.kinetic)) <= 1 as real
    &&& noise.thermal.finite() && mag(value(noise.thermal)) <= 1 as real
    &&& noise.em.finite() && mag(value(noise.em)) <= 1 as real
    &&& sampler.kinetic_scale.finite() && mag(value(sampler.kinetic_scale)) <= 2 as real
    &&& sampler.thermal_offset.finite() && mag(value(sampler.thermal_offset)) <= 2 as real
    &&& sampler.em_offset.finite() && mag(value(sampler.em_offset)) <= 2 as real
}

/// The fields follow the noise and the drift: drag is half of the noise and a half,
/// scaled, from 0 to 2; heat is half of the noise and an offset, from -1; the signal
/// is the noise and an offset, from -1.5 to 1.5.
pub proof fn lemma_fields_follow_noise_and_drift(sampler: FieldSampler, noise: Noise)
    requires
        mild(sampler, noise),
    ensures
        ({
            let f = sampler.sample(noise);
            let (k, t, e) = (value(noise.kinetic), value(noise.thermal), value(noise.em));
            let half = ratio(1, 2);
            &&& about(
                f.kinetic,
                held((k * half + half) * value(sampler.kinetic_scale), 0 as real, 2 as real),
                8 as real * micro(),
            )
            &&& f.thermal.finite()
            &&& value(f.thermal) >= -(1 as real)
            &&& t * half + value(sampler.thermal_offset) >= -(1 as real) ==> about(
                f.thermal,
                t * half + value(sampler.thermal_offset),
                8 as real * micro(),
            )
            &&& t * half + value(sampler.thermal_offset) < -(1 as real) ==> about(
                f.thermal,
                -(1 as real),
                8 as real * micro(),
            )
            &&& about(
                f.em,
                held(e + value(sampler.em_offset), -ratio(3, 2), ratio(3, 2)),
                8 as real * micro(),
            )
        }),
{
    lemma2_to64();
    lemma_decimal(HALF, 0x80_0000, 125, 1, 2);
    lemma_decimal(TWO, 0x80_0000, 127, 2, 1);
    lemma_decimal(EM_LIMIT, 0xc0_0000, 126, 3, 2);
    lemma_decimal(ONE, 0x80_0000, 126, 1, 1);
    lemma_whole_ratio(2);
    lemma_whole_ratio(1);
    lemma_value_zero();
    assert(num(MINUS_EM_LIMIT) == num(EM_LIMIT).negated());
    lemma_value_negated(num(EM_LIMIT));
    assert(num(MINUS_ONE) == num(ONE).negated());
    lemma_value_negated(num(ONE));
    let half = ratio(1, 2);
    assert(half == 1 as real / 2 as real && ratio(3, 2) == 3 as real / 2 as real);
    let h = num(HALF);
    let (k, t, e) = (noise.kinetic, noise.thermal, noise.em);
    let s = sampler.kinetic_scale;
    let kh = value(k) * half;
    let th = value(t) * half;
    assert(mag(kh) <= 1 as real && mag(th) <= 1 as real);
    lemma_about_product(k, h);
    lemma_about_sum(k.times(h), h, kh, half, micro(), 0 as real);
    let a = k.times(h).plus(h);
    lemma_scaled_about(a, s, kh + half);
    lemma_about_product(t, h);
    lemma_about_sum(t.times(h), sampler.thermal_offset, th, value(sampler.thermal_offset), micro(), 0 as real);
    lemma_about_sum(e, sampler.em_offset, value(e), value(sampler.em_offset), 0 as real, 0 as real);
    let kinetic = a.times(s);
    lemma_value_order(kinetic, num(0));
    lemma_value_order(num(TWO), kinetic);
    let thermal = t.times(h).plus(sampler.thermal_offset);
    lemma_value_order(thermal, num(MINUS_ONE));
    let em = e.plus(sampler.em_offset);
    lemma_value_order(em, num(MINUS_EM_LIMIT));
    lemma_value_order(num(EM_LIMIT), em);
}

/// A number that is about right, scaled.
proof fn lemma_scaled_about(a: Binary32, s: Binary32, x: real)
    requires
        about(a, x, 2 as real * micro()),
        mag(x) <= 2 as real,
        s.finite(),
        mag(value(s)) <= 2 as real,
    ensures
        about(a.times(s), x * value(s), 5 as real * micro()),
{
    let (v, w) = (value(a), value(s));
    lemma_product_within(v, w, 3 as real, 2 as real);
    lemma_about_product(a, s);
    let d = v - x;
    lemma_product_within(d, w, 2 as real * micro(), 2 as real);
    assert(v * w - x * w == d * w) by (nonlinear_arith)
        requires
            d == v - x,
    ;
}

/// The drift follows the sines: drag loses 0.4 of its sine, heat gains 0.4 of its
/// own, and the signal a quarter. Nothing else of the sampler changes.
pub proof fn lemma_drift_follows_the_sines(sampler: FieldSampler, sines: Drift)
    requires
        sines.kinetic.finite(),
        mag(value(sines.kinetic)) <= 1 as real,
        sines.thermal.finite(),
        mag(value(sines.thermal)) <= 1 as real,
        sines.em.finite(),
        mag(value(sines.em)) <= 1 as real,
    ensures
        ({
            let after = sampler.drifted(sines);
            &&& about(
                after.kinetic_scale,
                1 as real - ratio(4, 10) * value(sines.kinetic),
                4 as real * micro(),
            )
            &&& about(
                after.thermal_offset,
                ratio(4, 10) * value(sines.thermal),
                4 as real * micro(),
            )
            &&& about(after.em_offset, ratio(1, 4) * value(sines.em), 4 as real * micro())
            &&& after == (FieldSampler {
                kinetic_scale: after.kinetic_scale,
                thermal_offset: after.thermal_offset,
                em_offset: after.em_offset,
                ..sampler
            })
        }),
{
    lemma2_to64();
    lemma_decimal(ONE, 0x80_0000, 126, 1, 1);
    lemma_whole_ratio(1);
    lemma_decimal(DRIFT_AMPLITUDE, 0xcc_cccd, 124, 4, 10);
    lemma_decimal(EM_AMPLITUDE, 0x80_0000, 124, 1, 4);
    assert(ratio(4, 10) == 4 as real / 10 as real && ratio(1, 4) == 1 as real / 4 as real);
    lemma_constant_times(num(DRIFT_AMPLITUDE), sines.kinetic, ratio(4, 10));
    lemma_constant_times(num(DRIFT_AMPLITUDE), sines.thermal, ratio(4, 10));
    lemma_constant_times(num(EM_AMPLITUDE), sines.em, ratio(1, 4));
    let p = num(DRIFT_AMPLITUDE).times(sines.kinetic);
    lemma_value_negated(p);
    let x = ratio(4, 10) * value(sines.kinetic);
    lemma_about_sum(num(ONE), p.negated(), 1 as real, -x, 0 as real, 2 as real * micro());
}

/// A constant of at most one, times a number of at most one.
proof fn lemma_constant_times(c: Binary32, s: Binary32, q: real)
    requires
        near(c, q, 1, 0 as real),
        0 as real <= q <= 1 as real,
        s.finite(),
        mag(value(s)) <= 1 as real,
    ensures
        about(c.times(s), q * value(s), 2 as real * micro()),
        mag(q * value(s)) <= 1 as real,
{
    let (v, w) = (value(c), value(s));
    assert(1 as real * (eps() * mag(q)) + 0 as real <= micro()) by (nonlinear_arith)
        requires
            mag(q) == q,
            0 as real <= q <= 1 as real,
            eps() == 1 as real / 0x100_0000 as real,
            micro() == 1 as real / 1000000 as real,
    ;
    let d = v - q;
    lemma_product_within(v, w, 2 as real, 1 as real);
    lemma_product_within(d, w, micro(), 1 as real);
    lemma_product_within(q, w, 1 as real, 1 as real);
    lemma_about_product(c, s);
    assert(v * w - q * w == d * w) by (nonlinear_arith)
        requires
            d == v - q,
    ;
}

/// A spike is a signal beyond one and 0.3 of the volatility, either way.
pub proof fn lemma_spike_is_a_strong_signal(sampler: FieldSampler, noise: Noise)
    requires
        mild(sampler, noise),
        sampler.volatility.finite(),
        mag(value(sampler.volatility)) <= 1 as real,
    ensures
        ({
            let em = mag(value(sampler.sample(noise).em));
            let limit = 1 as real + ratio(3, 10) * value(sampler.volatility);
            &&& em > limit + 4 as real * micro() ==> sampler.is_em_spike(noise)
            &&& em < limit - 4 as real * micro() ==> !sampler.is_em_spike(noise)
        }),
{
    lemma_fields_follow_noise_and_drift(sampler, noise);
    lemma2_to64();
    lemma_decimal(ONE, 0x80_0000, 126, 1, 1);
    lemma_whole_ratio(1);
    lemma_decimal(SPIKE_SCALE, 0x99_999a, 124, 3, 10);
    assert(ratio(3, 10) == 3 as real / 10 as real);
    lemma_constant_times(num(SPIKE_SCALE), sampler.volatility, ratio(3, 10));
    let p = num(SPIKE_SCALE).times(sampler.volatility);
    let x = ratio(3, 10) * value(sampler.volatility);
    lemma_about_sum(num(ONE), p, 1 as real, x, 0 as real, 2 as real * micro());
    let limit = num(ONE).plus(p);
    let em = sampler.sample(noise).em;
    lemma_value_negated(limit);
    lemma_value_order(limit, em);
    lemma_value_order(em, limit.negated());
    lemma_product_within(
        ratio(3, 10),
        value(sampler.volatility),
        ratio(3, 10),
        1 as real,
    );
    assert(ratio(3, 10) * 1 as real == ratio(3, 10)) by (nonlinear_arith);
}

/// At the start heat has a period of 120 seconds, drag of 200 and the signal of 90;
/// there is no drift, and the volatility is 0.6.
pub proof fn lemma_fields_at_their_start(kinetic: u32, thermal: u32, em: u32)
    ensures
        ({
            let f = FieldSampler::with_seeds(kinetic, thermal, em);
            &&& f.kinetic_seed == kinetic && f.thermal_seed == thermal && f.em_seed == em
            &&& value(f.time) == 0 as real
            &&& value(f.thermal_drift_period) == 120 as real
            &&& value(f.kinetic_drift_period) == 200 as real
            &&& value(f.em_drift_period) == 90 as real
            &&& near(f.volatility, ratio(6, 10), 1, 0 as real)
            &&& value(f.kinetic_scale) == 1 as real
            &&& value(f.thermal_offset) == 0 as real
            &&& value(f.em_offset) == 0 as real
        }),
{
    lemma2_to64();
    lemma_decimal(THERMAL_PERIOD, 0xf0_0000, 132, 120, 1);
    lemma_decimal(KINETIC_PERIOD, 0xc8_0000, 133, 200, 1);
    lemma_decimal(EM_PERIOD, 0xb4_0000, 132, 90, 1);
    lemma_decimal(VOLATILITY, 0x99_999a, 125, 6, 10);
    lemma_decimal(ONE, 0x80_0000, 126, 1, 1);
    lemma_whole_ratio(120);
    lemma_whole_ratio(200);
    lemma_whole_ratio(90);
    lemma_whole_ratio(1);
    lemma_value_zero();
}

/// Each drift turns once in its period: its angle is the time, times a full turn
/// over the period, up to rounding.
pub proof fn lemma_drift_turns_in_its_period(time: Binary32, period: Binary32)
    requires
        modest(time),
        modest(period),
        value(period) >= 1 as real,
    ensures
        near(
            time.times(num(TAU).over(period)),
            value(time) * (value(num(TAU)) / value(period)),
            3,
            (2 as real * mag(value(time)) + 1 as real) * tiny(),
        ),
        near(num(TAU), ratio(62831853, 10000000), 1, 0 as real),
{
    lemma2_to64();
    lemma_decimal(TAU, 0xc9_0fdb, 128, 62831853, 10000000);
    lemma_tiny();
    lemma_large();
    let t = num(TAU);
    let q = t.over(period);
    lemma_turn_small(value(t), value(period));
    lemma_no_smaller(value(t), value(period));
    lemma_value_sign(period);
    lemma_quotient_fits(t, period, t);
    lemma_near_quotient(t, period);
    lemma_near_self(time);
    let (x, y, o) = (value(time), value(t) / value(period), 0 as real);
    lemma_turn_small(value(t), value(period));
    lemma_near_bounds(q, y, 1, tiny(), 8 as real);
    lemma_product_within(x, value(q), 0x4000_0000 as real, 16 as real);
    lemma_times_fits(time, q);
    lemma_near_product(time, q, x, y, 0, 1, o, tiny());
    let k = 2 as real * (o * mag(y) + tiny() * mag(x) + o * tiny()) + tiny();
    assert(k == (2 as real * mag(x) + 1 as real) * tiny()) by (nonlinear_arith)
        requires
            k == 2 as real * (o * mag(y) + tiny() * mag(x) + o * tiny()) + tiny(),
            o == 0 as real,
    ;
}

/// A full turn over a period of a second or more.
proof fn lemma_turn_small(t: real, p: real)
    requires
        mag(t - ratio(62831853, 10000000)) <= 1 as real * (eps() * mag(ratio(62831853, 10000000)))
            + 0 as real,
        p >= 1 as real,
    ensures
        mag(t / p) <= 8 as real,
        t <= 8 as real,
        t >= 0 as real,
{
    let r = ratio(62831853, 10000000);
    assert(r == 62831853 as real / 10000000 as real);
    assert(eps() * r <= 1 as real / 1000 as real) by (nonlinear_arith)
        requires
            r == 62831853 as real / 10000000 as real,
            eps() == 1 as real / 0x100_0000 as real,
    ;
    assert(1 as real * (eps() * mag(r)) == eps() * r) by (nonlinear_arith)
        requires
            mag(r) == r,
    ;
    assert(0 as real <= t / p && t / p <= 8 as real) by (nonlinear_arith)
        requires
            0 as real <= t <= 8 as real,
            p >= 1 as real,
    ;
}

/// A quotient that is at most a number is finite.
pub proof fn lemma_quotient_fits(a: Binary32, b: Binary32, c: Binary32)
    requires
        a.finite(),
        b.finite(),
        c.finite(),
        a.units() > 0,
        b.units() > 0,
        c.units() > 0,
        value(a) <= value(c) * value(b),
    ensures
        a.over(b).finite(),
{
    lemma_one();
    lemma_sign_of_units(a);
    lemma_sign_of_units(b);
    lemma_sign_of_units(c);
    lemma_value_units(a);
    lemma_value_units(b);
    lemma_value_units(c);
    let (i, j, k, w) = (a.size(), b.size(), c.size(), pow2(149));
    let u = w as real;
    let (x, y, z) = (value(a), value(b), value(c));
    assert(i as real * u <= k as real * j as real) by (nonlinear_arith)
        requires
            i as real == x * u,
            j as real == y * u,
            k as real == z * u,
            x <= z * y,
            u > 0 as real,
    {
        assert((z * u) * (y * u) == ((z * y) * u) * u);
        assert(x * u <= (z * y) * u);
    }
    assert((i * w) as real == i as real * w as real && (k * j) as real == k as real * j as real)
        by (nonlinear_arith);
    let n = i * w;
    lemma_rounded_at_most(n, j, c.magnitude());
    lemma_signed(a.negative() != b.negative(), rounded(n, j));
}

/// A gradient is a difference over the distance, up to rounding.
pub open spec fn is_slope(g: Binary32, there: Binary32, here: Binary32, epsilon: Binary32) -> bool {
    let d = value(there) - value(here);
    near(
        g,
        d * (1 as real / value(epsilon)),
        4,
        (2 as real * mag(d) + 1 as real) * tiny(),
    )
}

/// Gradients point uphill: each part is the difference to the right or above, over
/// the distance, of heat and of the signal as they are, and of drag without drift.
pub proof fn lemma_gradients_point_uphill(
    sampler: FieldSampler,
    center: Noise,
    right: Noise,
    above: Noise,
    epsilon: Binary32,
)
    requires
        mild(sampler, center),
        mild(sampler, right),
        mild(sampler, above),
        modest(epsilon),
        value(epsilon) >= ratio(1, 100),
    ensures
        ({
            let g = sampler.gradients(center, right, above, epsilon);
            let (c, x, y) = (sampler.sample(center), sampler.sample(right), sampler.sample(above));
            let still = FieldSampler { kinetic_scale: num(ONE), ..sampler };
            let (a, b, d) = (still.sample(center), still.sample(right), still.sample(above));
            &&& g.len() == 3
            &&& is_slope(g[1].x, x.thermal, c.thermal, epsilon)
            &&& is_slope(g[1].y, y.thermal, c.thermal, epsilon)
            &&& is_slope(g[2].x, x.em, c.em, epsilon)
            &&& is_slope(g[2].y, y.em, c.em, epsilon)
            &&& exists|m: Binary32, p: Binary32, q: Binary32|
                #![trigger is_slope(g[0].x, p, m, epsilon), is_slope(g[0].y, q, m, epsilon)]
                is_slope(g[0].x, p, m, epsilon) && is_slope(g[0].y, q, m, epsilon) && value(m)
                    == value(a.kinetic) && value(p) == value(b.kinetic) && value(q) == value(
                    d.kinetic,
                )
        }),
{
    let still = FieldSampler { kinetic_scale: num(ONE), ..sampler };
    lemma2_to64();
    lemma_decimal(ONE, 0x80_0000, 126, 1, 1);
    lemma_whole_ratio(1);
    lemma_fields_are_small(sampler, center);
    lemma_fields_are_small(sampler, right);
    lemma_fields_are_small(sampler, above);
    lemma_calm(still, center);
    lemma_calm(still, right);
    lemma_calm(still, above);
    let (c, x, y) = (sampler.sample(center), sampler.sample(right), sampler.sample(above));
    lemma_slope_value(x.thermal, c.thermal, epsilon);
    lemma_slope_value(y.thermal, c.thermal, epsilon);
    lemma_slope_value(x.em, c.em, epsilon);
    lemma_slope_value(y.em, c.em, epsilon);
    let (m, p, q) = (
        FieldSampler::calm_spec(center),
        FieldSampler::calm_spec(right),
        FieldSampler::calm_spec(above),
    );
    lemma_slope_value(p, m, epsilon);
    lemma_slope_value(q, m, epsilon);
    let g = sampler.gradients(center, right, above, epsilon);
    assert(is_slope(g[0].x, p, m, epsilon) && is_slope(g[0].y, q, m, epsilon));
}

/// A number times one or more is no smaller.
proof fn lemma_no_smaller(t: real, p: real)
    requires
        t >= 0 as real,
        p >= 1 as real,
    ensures
        t <= t * p,
{
    assert(t <= t * p) by (nonlinear_arith)
        requires
            t >= 0 as real,
            p >= 1 as real,
    ;
}

/// A number times one is the number.
proof fn lemma_times_one(a: Binary32)
    requires
        a.finite(),
    ensures
        a.times(num(ONE)).finite(),
        value(a.times(num(ONE))) == value(a),
{
    lemma_one();
    let one = num(ONE);
    assert(one.size() == pow2(149));
    lemma_rounded_meets(a.size() * pow2(149), pow2(149), a.magnitude());
    lemma_signed_self(a);
}

/// Drag without drift is drag at a scale of one.
proof fn lemma_calm(still: FieldSampler, noise: Noise)
    requires
        still.kinetic_scale == num(ONE),
        noise.kinetic.finite(),
        mag(value(noise.kinetic)) <= 1 as real,
    ensures
        ({
            let calm = FieldSampler::calm_spec(noise);
            &&& calm.finite()
            &&& 0 as real <= value(calm) <= 2 as real
            &&& value(calm) == value(still.sample(noise).kinetic)
        }),
{
    lemma2_to64();
    lemma_decimal(HALF, 0x80_0000, 125, 1, 2);
    lemma_decimal(TWO, 0x80_0000, 127, 2, 1);
    lemma_whole_ratio(2);
    lemma_value_zero();
    let (k, h) = (noise.kinetic, num(HALF));
    let half = ratio(1, 2);
    assert(half == 1 as real / 2 as real);
    let kh = value(k) * half;
    assert(mag(kh) <= 1 as real);
    lemma_about_product(k, h);
    lemma_about_sum(k.times(h), h, kh, half, micro(), 0 as real);
    let a = k.times(h).plus(h);
    lemma_times_one(a);
    let b = a.times(num(ONE));
    lemma_value_order(a, num(0));
    lemma_value_order(num(TWO), a);
    lemma_value_order(b, num(0));
    lemma_value_order(num(TWO), b);
}

/// One part of a gradient.
proof fn lemma_slope_value(there: Binary32, here: Binary32, epsilon: Binary32)
    requires
        there.finite(),
        mag(value(there)) <= 4 as real,
        here.finite(),
        mag(value(here)) <= 4 as real,
        modest(epsilon),
        value(epsilon) >= ratio(1, 100),
    ensures
        is_slope(there.minus(here).times(num(ONE).over(epsilon)), there, here, epsilon),
{
    lemma_tiny();
    lemma_large();
    lemma2_to64();
    lemma_decimal(ONE, 0x80_0000, 126, 1, 1);
    lemma_decimal(0x4300_0000, 0x80_0000, 133, 128, 1);
    lemma_whole_ratio(1);
    lemma_whole_ratio(128);
    assert(ratio(1, 100) == 1 as real / 100 as real);
    let (e, o) = (value(epsilon), 0 as real);
    lemma_value_sign(epsilon);
    lemma_quotient_fits(num(ONE), epsilon, num(0x4300_0000));
    lemma_near_quotient(num(ONE), epsilon);
    let k = num(ONE).over(epsilon);
    let y = 1 as real / e;
    assert(0 as real <= y && y <= 100 as real) by (nonlinear_arith)
        requires
            y == 1 as real / e,
            e >= 1 as real / 100 as real,
    ;
    let d = there.minus(here);
    lemma_modest_fits(there, here);
    lemma_value_minus(there, here);
    let x = value(there) - value(here);
    let r = eps() * mag(x);
    assert(1 as real * r + o == r) by (nonlinear_arith)
        requires
            o == 0 as real,
    ;
    assert(near(d, x, 1, o));
    lemma_near_bounds(d, x, 1, o, 8 as real);
    lemma_near_bounds(k, y, 1, tiny(), 100 as real);
    lemma_product_within(value(d), value(k), 16 as real, 200 as real);
    lemma_times_fits(d, k);
    lemma_near_product(d, k, x, y, 1, 1, o, tiny());
    let t = 2 as real * (o * mag(y) + tiny() * mag(x) + o * tiny()) + tiny();
    assert(t == (2 as real * mag(x) + 1 as real) * tiny()) by (nonlinear_arith)
        requires
            t == 2 as real * (o * mag(y) + tiny() * mag(x) + o * tiny()) + tiny(),
            o == 0 as real,
    ;
}

/// Heat and the signal are small numbers.
proof fn lemma_fields_are_small(sampler: FieldSampler, noise: Noise)
    requires
        mild(sampler, noise),
    ensures
        ({
            let f = sampler.sample(noise);
            &&& f.thermal.finite() && mag(value(f.thermal)) <= 4 as real
            &&& f.em.finite() && mag(value(f.em)) <= 4 as real
        }),
{
    lemma_fields_follow_noise_and_drift(sampler, noise);
    assert(ratio(1, 2) == 1 as real / 2 as real && ratio(3, 2) == 3 as real / 2 as real);
    lemma_product_within(value(noise.thermal), ratio(1, 2), 1 as real, 1 as real);
}

} // verus!
