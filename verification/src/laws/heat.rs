//! What heat does to the nodes, as numbers.

use crate::binary32::bounds::lemma_product_finite;
use crate::binary32::bounds::lemma_sum_not_negative;
use crate::binary32::model::Binary32;
use crate::binary32::order::num;
use crate::binary32::value::eps;
use crate::binary32::value::lemma_decimal;
use crate::binary32::value::lemma_large;
use crate::binary32::value::lemma_modest_fits;
use crate::binary32::value::lemma_near_bounds;
use crate::binary32::value::lemma_near_product;
use crate::binary32::value::lemma_near_self;
use crate::binary32::value::lemma_near_sum;
use crate::binary32::value::lemma_near_widens;
use crate::binary32::value::lemma_plus_fits;
use crate::binary32::value::lemma_product_sign;
use crate::binary32::value::lemma_product_within;
use crate::binary32::value::lemma_sum_parts;
use crate::binary32::value::lemma_times_fits;
use crate::binary32::value::lemma_tiny;
use crate::binary32::value::lemma_value_minus;
use crate::binary32::value::lemma_value_negated;
use crate::binary32::value::lemma_value_order;
use crate::binary32::value::lemma_value_sign;
use crate::binary32::value::lemma_value_sum;
use crate::binary32::value::lemma_value_zero;
use crate::binary32::value::mag;
use crate::binary32::value::modest;
use crate::binary32::value::near;
use crate::binary32::value::ratio;
use crate::binary32::value::tiny;
use crate::binary32::value::value;
use crate::components::valid_energy_amount;
use crate::components::Node;
use crate::economy::drain_rate;
use crate::economy::drained;
use crate::economy::BASE_DRAIN;
use crate::economy::CONDUCTED_DRAIN;
use crate::economy::FIXED_DT;
use crate::economy::INERT_DRAIN;
use crate::economy::VENT_STRESS;
use crate::fields::FieldSample;
use crate::interface::vector::ONE;
use crate::interface::vector::TWO;
use crate::tags::THERMAL_VENT;
use vstd::arithmetic::power2::lemma2_to64;
use vstd::prelude::*;

verus! {

/// A factor of the drain: 0.6 for each second, and as much more as heat reaches the
/// node.
pub open spec fn heat_factor(load: real, exposure: real) -> real {
    ratio(6, 10) * (1 as real + load * exposure)
}

/// The other: 0.4, and 0.6 times the conductivity.
pub open spec fn matter_factor(conductivity: real) -> real {
    ratio(4, 10) + ratio(6, 10) * conductivity
}

/// The rate of the drain is the product of the two factors, up to rounding. So it
/// rises with the heat, with the exposure and with the conductivity.
pub proof fn lemma_drain_follows_heat_and_matter(
    load: Binary32,
    exposure: Binary32,
    conductivity: Binary32,
)
    requires
        modest(load),
        value(load) >= 0 as real,
        exposure.finite(),
        0 as real <= value(exposure) <= 1 as real,
        modest(conductivity),
        value(conductivity) >= 0 as real,
    ensures
        near(
            drain_rate(load, exposure, conductivity),
            heat_factor(value(load), value(exposure)) * matter_factor(value(conductivity)),
            14,
            drain_slack(value(load), value(exposure), value(conductivity)),
        ),
{
    lemma_heat(load, exposure);
    lemma_matter(conductivity);
    lemma_tiny();
    lemma_large();
    let t = tiny();
    let (x, y) = (
        heat_factor(value(load), value(exposure)),
        matter_factor(value(conductivity)),
    );
    let a = num(BASE_DRAIN).times(num(ONE).plus(load.times(exposure)));
    let b = num(INERT_DRAIN).plus(num(CONDUCTED_DRAIN).times(conductivity));
    let h = 0x4000_0001 as real;
    lemma_near_bounds(a, x, 7, 4 as real * t, h);
    lemma_near_bounds(b, y, 5, 2 as real * t, h);
    lemma_product_within(value(a), value(b), 2 as real * h, 2 as real * h);
    lemma_times_fits(a, b);
    lemma_near_product(a, b, x, y, 7, 5, 4 as real * t, 2 as real * t);
}

/// How far the smallest numbers can put a drain off.
pub open spec fn drain_slack(load: real, exposure: real, conductivity: real) -> real {
    2 as real * (4 as real * tiny() * mag(matter_factor(conductivity)) + 2 as real * tiny() * mag(
        heat_factor(load, exposure),
    ) + 4 as real * tiny() * (2 as real * tiny())) + tiny()
}

/// The factor of heat.
proof fn lemma_heat(load: Binary32, exposure: Binary32)
    requires
        modest(load),
        value(load) >= 0 as real,
        exposure.finite(),
        0 as real <= value(exposure) <= 1 as real,
    ensures
        near(
            num(BASE_DRAIN).times(num(ONE).plus(load.times(exposure))),
            heat_factor(value(load), value(exposure)),
            7,
            4 as real * tiny(),
        ),
        0 as real <= heat_factor(value(load), value(exposure)),
        heat_factor(value(load), value(exposure)) <= 0x4000_0001 as real,
{
    lemma_tiny();
    lemma_large();
    lemma2_to64();
    lemma_decimal(BASE_DRAIN, 0x99_999a, 125, 6, 10);
    lemma_decimal(ONE, 0x80_0000, 126, 1, 1);
    let q = ratio(6, 10);
    assert(q == 6 as real / 10 as real && ratio(1, 1) == 1 as real);
    let (l, x, t, o) = (value(load), value(exposure), tiny(), 0 as real);
    let h = 0x4000_0000 as real;
    lemma_near_self(load);
    lemma_near_self(exposure);
    lemma_near_self(num(ONE));
    lemma_product_within(l, x, h, 1 as real);
    lemma_times_fits(load, exposure);
    let p = load.times(exposure);
    lemma_near_product(load, exposure, l, x, 0, 0, o, o);
    lemma_no_slack(l, x, t);
    let lx = l * x;
    assert(lx >= 0 as real) by (nonlinear_arith)
        requires
            lx == l * x,
            l >= 0 as real,
            x >= 0 as real,
    ;
    assert(near(p, lx, 2, t));
    lemma_near_bounds(p, lx, 2, t, h);
    lemma_near_widens(num(ONE), 1 as real, 0, o, 2, o);
    lemma_plus_fits(num(ONE), p);
    lemma_near_sum(num(ONE), p, 1 as real, lx, 2, o, t);
    let s = num(ONE).plus(p);
    assert(near(s, 1 as real + lx, 4, 2 as real * t));
    lemma_near_bounds(s, 1 as real + lx, 4, 2 as real * t, h + 1 as real);
    let c = num(BASE_DRAIN);
    lemma_near_bounds(c, q, 1, o, 1 as real);
    lemma_product_within(value(c), value(s), 2 as real, 2 as real * (h + 1 as real));
    lemma_times_fits(c, s);
    lemma_near_product(c, s, q, 1 as real + lx, 1, 4, o, 2 as real * t);
    let m = mag(1 as real + lx);
    let k = 2 as real * (o * m + 2 as real * t * mag(q) + o * (2 as real * t)) + t;
    assert(k <= 4 as real * t) by (nonlinear_arith)
        requires
            k == 2 as real * (o * m + 2 as real * t * mag(q) + o * (2 as real * t)) + t,
            o == 0 as real,
            mag(q) == q,
            q == 6 as real / 10 as real,
            t > 0 as real,
    ;
    lemma_near_widens(c.times(s), q * (1 as real + lx), 7, k, 7, 4 as real * t);
    let f = q * (1 as real + lx);
    assert(0 as real <= f && f <= h + 1 as real) by (nonlinear_arith)
        requires
            f == q * (1 as real + lx),
            q == 6 as real / 10 as real,
            0 as real <= lx <= h,
    ;
}

/// A product of exact numbers has the slack of one product.
pub proof fn lemma_no_slack(x: real, y: real, t: real)
    ensures
        2 as real * (0 as real * mag(y) + 0 as real * mag(x) + 0 as real * 0 as real) + t == t,
{
    let (a, b) = (mag(x), mag(y));
    assert(2 as real * (0 as real * b + 0 as real * a + 0 as real * 0 as real) + t == t)
        by (nonlinear_arith);
}

/// The factor of matter.
proof fn lemma_matter(conductivity: Binary32)
    requires
        modest(conductivity),
        value(conductivity) >= 0 as real,
    ensures
        near(
            num(INERT_DRAIN).plus(num(CONDUCTED_DRAIN).times(conductivity)),
            matter_factor(value(conductivity)),
            5,
            2 as real * tiny(),
        ),
        0 as real <= matter_factor(value(conductivity)),
        matter_factor(value(conductivity)) <= 0x4000_0001 as real,
{
    lemma_tiny();
    lemma_large();
    lemma2_to64();
    lemma_decimal(INERT_DRAIN, 0xcc_cccd, 124, 4, 10);
    lemma_decimal(CONDUCTED_DRAIN, 0x99_999a, 125, 6, 10);
    let (q, g) = (ratio(6, 10), ratio(4, 10));
    assert(q == 6 as real / 10 as real && g == 4 as real / 10 as real);
    let (c, t, o) = (value(conductivity), tiny(), 0 as real);
    let h = 0x4000_0000 as real;
    let (a, b) = (num(INERT_DRAIN), num(CONDUCTED_DRAIN));
    lemma_near_self(conductivity);
    lemma_near_bounds(b, q, 1, o, 1 as real);
    lemma_near_bounds(a, g, 1, o, 1 as real);
    lemma_modest_fits(b, conductivity);
    lemma_near_product(b, conductivity, q, c, 1, 0, o, o);
    lemma_no_slack(q, c, t);
    let p = b.times(conductivity);
    let qc = q * c;
    assert(0 as real <= qc && qc <= h) by (nonlinear_arith)
        requires
            qc == q * c,
            q == 6 as real / 10 as real,
            0 as real <= c <= h,
    ;
    assert(near(p, qc, 3, t));
    lemma_near_bounds(p, qc, 3, t, h);
    lemma_near_widens(a, g, 1, o, 3, o);
    lemma_plus_fits(a, p);
    lemma_near_sum(a, p, g, qc, 3, o, t);
    assert(2 as real * (o + t) == 2 as real * t);
}

/// The heat on a node: the thermal field, where it is above zero.
pub open spec fn heat_load(thermal: real) -> real {
    if thermal > 0 as real {
        thermal
    } else {
        0 as real
    }
}

/// What one step takes from a node: the rate of the drain for a sixtieth of a second.
pub open spec fn is_loss(loss: Binary32, load: real, exposure: real, conductivity: real) -> bool {
    near(
        loss,
        heat_factor(load, exposure) * matter_factor(conductivity) * ratio(1, 60),
        17,
        2 as real * drain_slack(load, exposure, conductivity),
    )
}

/// What one step of heat brings a vent: twice the heat for a sixtieth of a second.
pub open spec fn is_gain(gain: Binary32, load: real) -> bool {
    near(gain, 2 as real * load * ratio(1, 60), 6, 2 as real * tiny())
}

/// What one step of heat wears off a vent: 0.3 of the heat for a sixtieth of a second.
pub open spec fn is_wear(wear: Binary32, load: real) -> bool {
    near(wear, ratio(3, 10) * load * ratio(1, 60), 6, 2 as real * tiny())
}

/// One number is another and an amount, up to one rounding.
pub open spec fn moved_by(after: Binary32, before: real, amount: real) -> bool {
    after.finite() && mag(value(after) - (before + amount)) <= eps() * mag(before + amount)
}

/// A node that heat reaches, with numbers of everyday size.
pub open spec fn heated(node: Node, field: FieldSample, exposure: Binary32) -> bool {
    &&& node.physical is Some && node.ledger is Some && node.conductivity is Some
    &&& modest(node.physical->0.energy)
    &&& modest(node.physical->0.structure)
    &&& modest(node.conductivity->Some_0.0)
    &&& value(node.conductivity->Some_0.0) >= 0 as real
    &&& modest(field.thermal)
    &&& exposure.finite()
    &&& 0 as real <= value(exposure) <= 1 as real
}

/// The energy after a step: what heat brought, less what it took.
pub open spec fn energy_follows(
    node: Node,
    after: Node,
    load: real,
    exposure: real,
    gain: Binary32,
    mid: Binary32,
    loss: Binary32,
) -> bool {
    &&& is_loss(loss, load, exposure, value(node.conductivity->Some_0.0))
    &&& if node.tagged(THERMAL_VENT) {
        is_gain(gain, load) && moved_by(mid, value(node.physical->0.energy), value(gain))
    } else {
        mid == node.physical->0.energy
    }
    &&& moved_by(after.physical->0.energy, value(mid), -value(loss))
}

/// One step of heat: every node loses energy at the rate of its drain, and a vent
/// gains from the heat first and wears by it. Nothing else of the body changes, and
/// nothing else wears.
pub proof fn lemma_heat_drains_and_vents_gain(node: Node, field: FieldSample, exposure: Binary32)
    requires
        heated(node, field, exposure),
    ensures
        ({
            let after = drained(node, field, exposure);
            let load = heat_load(value(field.thermal));
            &&& after == (Node { physical: after.physical, ledger: after.ledger, ..node })
            &&& after.physical is Some && after.ledger is Some
            &&& after.physical->0.mass == node.physical->0.mass
            &&& exists|gain: Binary32, mid: Binary32, loss: Binary32| #[trigger]
                energy_follows(node, after, load, value(exposure), gain, mid, loss)
            &&& !node.tagged(THERMAL_VENT) ==> after.physical->0.structure
                == node.physical->0.structure
            &&& node.tagged(THERMAL_VENT) ==> exists|wear: Binary32| #[trigger]
                is_wear(wear, load) && moved_by(
                    after.physical->0.structure,
                    value(node.physical->0.structure),
                    -value(wear),
                )
        }),
{
    let after = drained(node, field, exposure);
    let heat = field.thermal.max(num(0));
    let load = heat_load(value(field.thermal));
    lemma_value_zero();
    lemma_value_order(field.thermal, num(0));
    assert(value(heat) == load);
    let c = node.conductivity->Some_0.0;
    let rate = drain_rate(heat, exposure, c);
    lemma_loss(heat, exposure, c);
    let loss = rate.times(num(FIXED_DT));
    let gain = num(TWO).times(heat).times(num(FIXED_DT));
    let wear = num(VENT_STRESS).times(heat).times(num(FIXED_DT));
    lemma_gain(heat);
    lemma_wear(heat);
    lemma_booked(loss);
    lemma_booked(gain);
    let p = node.physical->0;
    let (taken, given) = (valid_energy_amount(loss), valid_energy_amount(gain));
    lemma_large();
    if node.tagged(THERMAL_VENT) {
        let mid = p.energy.plus(given);
        lemma_plus_fits(p.energy, given);
        lemma_value_sum(p.energy, given);
        lemma_sum_not_far(p.energy, given);
        lemma_minus_moves(mid, taken);
        lemma_minus_moves(p.structure, wear);
        assert(is_wear(wear, load));
        assert(energy_follows(node, after, load, value(exposure), given, mid, taken));
    } else {
        lemma_minus_moves(p.energy, taken);
        assert(energy_follows(node, after, load, value(exposure), given, p.energy, taken));
    }
}

/// A sum of numbers that are not large is not large.
proof fn lemma_sum_not_far(a: Binary32, b: Binary32)
    requires
        modest(a),
        b.finite(),
        mag(value(b)) <= 0x4_0000_0000 as real,
    ensures
        a.plus(b).finite(),
        mag(value(a.plus(b))) <= 0x10_0000_0000 as real,
{
    lemma_large();
    lemma_plus_fits(a, b);
    lemma_value_sum(a, b);
    let m = mag(value(a) + value(b));
    assert(eps() * m <= m) by (nonlinear_arith)
        requires
            m >= 0 as real,
            eps() == 1 as real / 0x100_0000 as real,
    ;
}

/// A difference moves a number.
proof fn lemma_minus_moves(a: Binary32, b: Binary32)
    requires
        a.finite(),
        b.finite(),
        mag(value(a)) <= 0x10_0000_0000 as real,
        mag(value(b)) <= 0x4000_0000_0000_0000 as real,
    ensures
        moved_by(a.minus(b), value(a), -value(b)),
{
    lemma_large();
    lemma_value_negated(b);
    lemma_plus_fits(a, b.negated());
    lemma_value_minus(a, b);
}

/// An amount that is not negative is booked as it is.
proof fn lemma_booked(amount: Binary32)
    requires
        amount.finite(),
        value(amount) >= 0 as real,
    ensures
        valid_energy_amount(amount).finite(),
        value(valid_energy_amount(amount)) == value(amount),
{
    lemma_value_zero();
    lemma_value_sign(amount);
    lemma_value_order(amount, num(0));
}

/// The loss of a step.
proof fn lemma_loss(load: Binary32, exposure: Binary32, conductivity: Binary32)
    requires
        modest(load),
        value(load) >= 0 as real,
        exposure.finite(),
        0 as real <= value(exposure) <= 1 as real,
        modest(conductivity),
        value(conductivity) >= 0 as real,
    ensures
        ({
            let loss = drain_rate(load, exposure, conductivity).times(num(FIXED_DT));
            &&& is_loss(loss, value(load), value(exposure), value(conductivity))
            &&& value(loss) >= 0 as real
            &&& mag(value(loss)) <= 0x4000_0000_0000_0000 as real
        }),
{
    lemma_drain_follows_heat_and_matter(load, exposure, conductivity);
    lemma_heat(load, exposure);
    lemma_matter(conductivity);
    lemma_step_length();
    lemma_tiny();
    lemma_large();
    let rate = drain_rate(load, exposure, conductivity);
    let (x, y) = (heat_factor(value(load), value(exposure)), matter_factor(value(conductivity)));
    let slack = drain_slack(value(load), value(exposure), value(conductivity));
    let h = 0x4000_0001 as real;
    let t = tiny();
    let xy = x * y;
    assert(0 as real <= xy && xy <= h * h) by (nonlinear_arith)
        requires
            xy == x * y,
            0 as real <= x <= h,
            0 as real <= y <= h,
    ;
    lemma_slack_small(x, y, t, slack);
    lemma_near_bounds(rate, xy, 14, slack, h * h);
    let d = num(FIXED_DT);
    let q = ratio(1, 60);
    let o = 0 as real;
    lemma_near_bounds(d, q, 1, o, 1 as real);
    lemma_dt_small();
    lemma_product_within(value(rate), value(d), 2 as real * (h * h), 1 as real / 50 as real);
    lemma_times_fits(rate, d);
    lemma_near_product(rate, d, xy, q, 14, 1, slack, o);
    let k = 2 as real * (slack * mag(q) + o * mag(xy) + slack * o) + t;
    assert(k <= 2 as real * slack) by (nonlinear_arith)
        requires
            k == 2 as real * (slack * mag(q) + o * mag(xy) + slack * o) + t,
            o == 0 as real,
            mag(q) == q,
            q == 1 as real / 60 as real,
            slack >= t,
            t > 0 as real,
    ;
    let loss = rate.times(d);
    lemma_near_widens(loss, xy * q, 17, k, 17, 2 as real * slack);
    let z = xy * q;
    assert(0 as real <= z && z <= h * h) by (nonlinear_arith)
        requires
            z == xy * q,
            q == 1 as real / 60 as real,
            0 as real <= xy <= h * h,
    ;
    lemma_drain_not_negative(load, exposure, conductivity);
    lemma_value_sign(rate);
    lemma_value_sign(d);
    lemma_product_sign(rate, d);
    lemma_value_sign(loss);
    lemma_near_bounds(loss, z, 17, 2 as real * slack, h * h);
}

/// A drain is not negative.
proof fn lemma_drain_not_negative(load: Binary32, exposure: Binary32, conductivity: Binary32)
    requires
        modest(load),
        value(load) >= 0 as real,
        exposure.finite(),
        0 as real <= value(exposure) <= 1 as real,
        modest(conductivity),
        value(conductivity) >= 0 as real,
    ensures
        drain_rate(load, exposure, conductivity).units() >= 0,
{
    lemma_drain_follows_heat_and_matter(load, exposure, conductivity);
    lemma_heat(load, exposure);
    lemma_matter(conductivity);
    lemma2_to64();
    lemma_decimal(BASE_DRAIN, 0x99_999a, 125, 6, 10);
    lemma_decimal(ONE, 0x80_0000, 126, 1, 1);
    lemma_decimal(INERT_DRAIN, 0xcc_cccd, 124, 4, 10);
    lemma_decimal(CONDUCTED_DRAIN, 0x99_999a, 125, 6, 10);
    lemma_value_sign(load);
    lemma_value_sign(exposure);
    lemma_value_sign(conductivity);
    let p = load.times(exposure);
    let s = num(ONE).plus(p);
    let a = num(BASE_DRAIN).times(s);
    let q = num(CONDUCTED_DRAIN).times(conductivity);
    let b = num(INERT_DRAIN).plus(q);
    lemma_product_finite(num(BASE_DRAIN), s);
    lemma_sum_parts(num(ONE), p);
    lemma_sum_parts(num(INERT_DRAIN), q);
    lemma_product_sign(load, exposure);
    lemma_sum_not_negative(num(ONE), p);
    lemma_product_sign(num(BASE_DRAIN), s);
    lemma_product_sign(num(CONDUCTED_DRAIN), conductivity);
    lemma_sum_not_negative(num(INERT_DRAIN), q);
    lemma_product_sign(a, b);
}

/// The slack of a drain is small.
proof fn lemma_slack_small(x: real, y: real, t: real, slack: real)
    requires
        0 as real <= x <= 0x4000_0001 as real,
        0 as real <= y <= 0x4000_0001 as real,
        t == tiny(),
        slack == 2 as real * (4 as real * t * mag(y) + 2 as real * t * mag(x) + 4 as real * t * (
        2 as real * t)) + t,
    ensures
        t <= slack,
        slack <= 1 as real / 100 as real,
{
    lemma_tiny();
    let z = 1 as real / 0x1_0000_0000_0000 as real;
    assert(t <= z);
    assert(mag(x) == x && mag(y) == y);
    assert(t <= slack && slack <= 1 as real / 100 as real) by (nonlinear_arith)
        requires
            slack == 2 as real * (4 as real * t * y + 2 as real * t * x + 4 as real * t * (2 as real
                * t)) + t,
            t > 0 as real,
            t <= z,
            z == 1 as real / 0x1_0000_0000_0000 as real,
            0 as real <= x <= 0x4000_0001 as real,
            0 as real <= y <= 0x4000_0001 as real,
    {
        assert(0 as real <= t * y && t * y <= z * 0x4000_0001 as real);
        assert(0 as real <= t * x && t * x <= z * 0x4000_0001 as real);
        assert(0 as real <= t * t && t * t <= z * z);
    }
}

/// The length of a step.
pub proof fn lemma_step_length()
    ensures
        near(num(FIXED_DT), ratio(1, 60), 1, 0 as real),
        num(FIXED_DT).units() > 0,
        ratio(1, 60) == 1 as real / 60 as real,
{
    lemma2_to64();
    lemma_decimal(FIXED_DT, 0x88_8889, 120, 1, 60);
}

/// The length of a step is below a fiftieth.
proof fn lemma_dt_small()
    ensures
        mag(value(num(FIXED_DT))) <= 1 as real / 50 as real,
{
    lemma_step_length();
    let q = ratio(1, 60);
    assert(1 as real * (eps() * mag(q)) + 0 as real <= 1 as real / 1000 as real)
        by (nonlinear_arith)
        requires
            mag(q) == q,
            q == 1 as real / 60 as real,
            eps() == 1 as real / 0x100_0000 as real,
    ;
}

/// A number for a step: a factor times the heat times the length of a step.
proof fn lemma_for_a_step(factor: Binary32, heat: Binary32, f: real)
    requires
        near(factor, f, 1, 0 as real),
        factor.units() > 0,
        f > 0 as real,
        f <= 2 as real,
        modest(heat),
        value(heat) >= 0 as real,
    ensures
        ({
            let r = factor.times(heat).times(num(FIXED_DT));
            &&& near(r, f * value(heat) * ratio(1, 60), 6, 2 as real * tiny())
            &&& value(r) >= 0 as real
            &&& mag(value(r)) <= 0x4_0000_0000 as real
        }),
{
    lemma_tiny();
    lemma_large();
    lemma_step_length();
    let (x, t, o) = (value(heat), tiny(), 0 as real);
    let h = 0x4000_0000 as real;
    lemma_near_bounds(factor, f, 1, o, 2 as real);
    lemma_product_within(value(factor), x, 4 as real, h);
    lemma_times_fits(factor, heat);
    lemma_near_self(heat);
    lemma_near_product(factor, heat, f, x, 1, 0, o, o);
    lemma_no_slack(f, x, t);
    let p = factor.times(heat);
    let fx = f * x;
    assert(0 as real <= fx && fx <= 2 as real * h) by (nonlinear_arith)
        requires
            fx == f * x,
            f > 0 as real,
            f <= 2 as real,
            0 as real <= x <= h,
    ;
    assert(near(p, fx, 3, t));
    lemma_near_bounds(p, fx, 3, t, 2 as real * h);
    let d = num(FIXED_DT);
    let q = ratio(1, 60);
    lemma_near_bounds(d, q, 1, o, 1 as real);
    lemma_product_within(value(p), value(d), 4 as real * h, 2 as real);
    lemma_times_fits(p, d);
    lemma_near_product(p, d, fx, q, 3, 1, t, o);
    let k = 2 as real * (t * mag(q) + o * mag(fx) + t * o) + t;
    assert(k <= 2 as real * t) by (nonlinear_arith)
        requires
            k == 2 as real * (t * mag(q) + o * mag(fx) + t * o) + t,
            o == 0 as real,
            mag(q) == q,
            q == 1 as real / 60 as real,
            t > 0 as real,
    ;
    let r = p.times(d);
    lemma_near_widens(r, fx * q, 6, k, 6, 2 as real * t);
    let z = fx * q;
    assert(0 as real <= z && z <= 2 as real * h) by (nonlinear_arith)
        requires
            z == fx * q,
            q == 1 as real / 60 as real,
            0 as real <= fx <= 2 as real * h,
    ;
    lemma_near_bounds(r, z, 6, 2 as real * t, 2 as real * h);
    lemma_value_sign(heat);
    lemma_product_sign(factor, heat);
    lemma_product_sign(p, d);
    lemma_value_sign(r);
}

/// The gain of a vent.
proof fn lemma_gain(heat: Binary32)
    requires
        modest(heat),
        value(heat) >= 0 as real,
    ensures
        ({
            let gain = num(TWO).times(heat).times(num(FIXED_DT));
            &&& is_gain(gain, value(heat))
            &&& value(gain) >= 0 as real
            &&& mag(value(gain)) <= 0x4_0000_0000 as real
        }),
{
    lemma2_to64();
    lemma_decimal(TWO, 0x80_0000, 127, 2, 1);
    assert(2 as real / 1 as real == 2 as real) by (nonlinear_arith);
    assert(ratio(2, 1) == 2 as real / 1 as real);
    lemma_for_a_step(num(TWO), heat, 2 as real);
}

/// The wear of a vent.
proof fn lemma_wear(heat: Binary32)
    requires
        modest(heat),
        value(heat) >= 0 as real,
    ensures
        ({
            let wear = num(VENT_STRESS).times(heat).times(num(FIXED_DT));
            &&& is_wear(wear, value(heat))
            &&& value(wear) >= 0 as real
            &&& mag(value(wear)) <= 0x4_0000_0000 as real
        }),
{
    lemma2_to64();
    lemma_decimal(VENT_STRESS, 0x99_999a, 124, 3, 10);
    assert(ratio(3, 10) == 3 as real / 10 as real);
    lemma_for_a_step(num(VENT_STRESS), heat, ratio(3, 10));
}

} // verus!
