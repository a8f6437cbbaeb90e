//! What moves energy, as numbers.

use crate::binary32::bounds::lemma_sign_of_units;
use crate::binary32::model::Binary32;
use crate::binary32::order::num;
use crate::binary32::value::eps;
use crate::binary32::value::lemma_decimal;
use crate::binary32::value::lemma_large;
use crate::binary32::value::lemma_near_bounds;
use crate::binary32::value::lemma_near_product;
use crate::binary32::value::lemma_near_self;
use crate::binary32::value::lemma_near_sum;
use crate::binary32::value::lemma_near_widens;
use crate::binary32::value::lemma_plus_fits;
use crate::binary32::value::lemma_product_within;
use crate::binary32::value::lemma_times_fits;
use crate::binary32::value::lemma_tiny;
use crate::binary32::value::lemma_value_minus;
use crate::binary32::value::lemma_value_negated;
use crate::binary32::value::lemma_value_order;
use crate::binary32::value::lemma_value_sign;
use crate::binary32::value::lemma_value_sum;
use crate::binary32::value::lemma_value_zero;
use crate::binary32::value::mag;
use crate::binary32::value::modest;
use crate::binary32::value::near;
use crate::binary32::value::ratio;
use crate::binary32::value::tiny;
use crate::binary32::value::value;
use crate::components::lemma_debit_keeps_reserve;
use crate::components::lemma_place;
use crate::components::lemma_place_same;
use crate::components::node_of;
use crate::components::place_of;
use crate::components::EnergyFlow;
use crate::components::EnergyLedger;
use crate::components::Node;
use crate::economy::harvest_all;
use crate::economy::harvest_rate;
use crate::economy::harvest_round;
use crate::economy::harvested;
use crate::economy::FIXED_DT;
use crate::economy::HARVEST_MIN_REL_SPEED;
use crate::economy::HARVEST_RANGE;
use crate::economy::HARVEST_RANGE_SQUARED;
use crate::economy::HARVEST_RATE;
use crate::interface::vector::Vec2Lite;
use crate::interface::vector::ONE;
use crate::spatial_hash::SpatialHash;
use crate::tags::ENERGY_CONVERTIBLE;
use vstd::arithmetic::power2::lemma2_to64;
use vstd::prelude::*;

verus! {

/// The smaller of two.
pub open spec fn lesser(a: real, b: real) -> real {
    if a <= b {
        a
    } else {
        b
    }
}

/// The node is solvent: it has matter and a ledger, and its energy is a number
/// that is not below zero.
pub open spec fn solvent(node: Node) -> bool {
    &&& node.physical is Some
    &&& node.ledger is Some
    &&& node.physical->0.energy.finite()
    &&& node.physical->0.energy.units() >= 0
}

/// The node `b` is the node `a` but for its energy and its ledger.
pub open spec fn only_energy_differs(a: Node, b: Node) -> bool {
    &&& a.physical is Some && b.physical is Some
    &&& a.physical->0.mass == b.physical->0.mass
    &&& a.physical->0.structure == b.physical->0.structure
    &&& b == (Node { physical: b.physical, ledger: b.ledger, ..a })
}

/// A debit takes the amount, or what there is where that is less; the energy
/// falls by what was taken, up to one rounding, and nothing else changes.
pub proof fn lemma_debit_takes_what_there_is(node: Node, flow: EnergyFlow, amount: Binary32)
    requires
        solvent(node),
        !(flow is Harvested),
        !(flow is Consumed),
        !(flow is Vented),
        amount.finite(),
        amount.units() >= 0,
    ensures
        ({
            let (after, moved) = node.debited(flow, amount);
            let (e, f) = (value(node.physical->0.energy), value(after.physical->0.energy));
            &&& solvent(after)
            &&& only_energy_differs(node, after)
            &&& moved.finite() && moved.units() >= 0
            &&& value(moved) == lesser(value(amount), e)
            &&& mag(f - (e - value(moved))) <= eps() * (e - value(moved))
        }),
{
    let p = node.physical->0;
    let l = node.ledger->0;
    let (after, moved) = node.debited(flow, amount);
    lemma_debit_keeps_reserve(l, p, flow, amount);
    lemma_value_zero();
    lemma_sign_of_units(amount);
    lemma_sign_of_units(p.energy);
    assert(crate::binary32::model::grid(0) == 0);
    crate::components::lemma_amount_valid(amount);
    let booked = crate::components::valid_energy_amount(amount);
    assert(booked.units() == amount.units());
    lemma_value_order(booked, p.energy);
    lemma_value_order(amount, p.energy);
    lemma_value_order(moved, p.energy);
    lemma_value_order(booked, amount);
    lemma_value_order(amount, booked);
    assert(p.energy.max(num(0)).units() == p.energy.units());
    assert(moved == booked.min(p.energy.max(num(0))));
    assert(moved.units() == if amount.units() <= p.energy.units() {
        amount.units()
    } else {
        p.energy.units()
    });
    lemma_value_order(moved, amount);
    lemma_value_order(amount, moved);
    lemma_value_order(p.energy, moved);
    lemma_value_minus(p.energy, moved);
}

/// A credit brings in the amount: the energy rises by it, up to one rounding, and
/// nothing else changes.
pub proof fn lemma_credit_brings_the_amount(node: Node, flow: EnergyFlow, amount: Binary32)
    requires
        solvent(node),
        flow is Harvested || flow is Consumed || flow is Vented,
        amount.finite(),
        amount.units() > 0,
        modest(amount),
        modest(node.physical->0.energy),
    ensures
        ({
            let after = node.credited(flow, amount);
            let (e, f) = (value(node.physical->0.energy), value(after.physical->0.energy));
            &&& after.physical->0.energy.finite()
            &&& only_energy_differs(node, after)
            &&& mag(f - (e + value(amount))) <= eps() * (e + value(amount))
        }),
{
    crate::components::lemma_amount_valid(amount);
    crate::binary32::value::lemma_modest_fits(node.physical->0.energy, amount);
    lemma_value_sum(node.physical->0.energy, amount);
    lemma_value_sign(node.physical->0.energy);
    lemma_value_sign(amount);
}

/// Each flow has a column of its own, which its transactions add to: three of what
/// comes in, five of what goes out. No other column changes.
pub proof fn lemma_each_flow_has_its_column(ledger: EnergyLedger, amount: Binary32)
    ensures
        ledger.recorded(EnergyFlow::Harvested, amount) == (EnergyLedger {
            harvested: ledger.harvested.plus(amount),
            ..ledger
        }),
        ledger.recorded(EnergyFlow::Consumed, amount) == (EnergyLedger {
            consumed_from_others: ledger.consumed_from_others.plus(amount),
            ..ledger
        }),
        ledger.recorded(EnergyFlow::Vented, amount) == (EnergyLedger {
            vented: ledger.vented.plus(amount),
            ..ledger
        }),
        ledger.recorded(EnergyFlow::Dissipated, amount) == (EnergyLedger {
            dissipated: ledger.dissipated.plus(amount),
            ..ledger
        }),
        ledger.recorded(EnergyFlow::Actuation, amount) == (EnergyLedger {
            spent_on_actuation: ledger.spent_on_actuation.plus(amount),
            ..ledger
        }),
        ledger.recorded(EnergyFlow::Fabrication, amount) == (EnergyLedger {
            invested_in_fabrication: ledger.invested_in_fabrication.plus(amount),
            ..ledger
        }),
        ledger.recorded(EnergyFlow::Offspring, amount) == (EnergyLedger {
            invested_in_offspring: ledger.invested_in_offspring.plus(amount),
            ..ledger
        }),
        ledger.recorded(EnergyFlow::Transferred, amount) == (EnergyLedger {
            transferred_out: ledger.transferred_out.plus(amount),
            ..ledger
        }),
{
}

/// What relative motion at a speed is worth in one step: 1.5 for each unit of time
/// and of the speed above 0.5, for a sixtieth of a unit of time.
pub open spec fn motion_is_worth(speed: real) -> real {
    ratio(3, 2) * (speed - ratio(1, 2)) * ratio(1, 60)
}

/// The rate of harvesting is what the motion is worth, up to rounding.
proof fn lemma_harvest_rate(speed: Binary32)
    requires
        modest(speed),
        value(speed) >= ratio(3, 2),
    ensures
        near(harvest_rate(speed), motion_is_worth(value(speed)), 8, 2 as real * tiny()),
        harvest_rate(speed).units() > 0,
        motion_is_worth(value(speed)) >= ratio(1, 40),
{
    lemma_harvest_constants();
    lemma_tiny();
    lemma_large();
    let s = value(speed);
    let (t, o) = (tiny(), 0 as real);
    let h = 0x4000_0000 as real;
    let least = num(HARVEST_MIN_REL_SPEED);
    let a = speed.minus(least);
    lemma_value_negated(least);
    lemma_plus_fits(speed, least.negated());
    lemma_value_minus(speed, least);
    let x = s - ratio(3, 2);
    assert(mag(value(a) - x) <= 1 as real * (eps() * mag(x)) + o);
    assert(near(a, x, 1, o));
    let one = num(ONE);
    lemma_near_self(one);
    lemma_near_widens(one, 1 as real, 0, o, 1, o);
    lemma_near_bounds(a, x, 1, o, h);
    lemma_plus_fits(a, one);
    let b = a.plus(one);
    lemma_near_sum(a, one, x, 1 as real, 1, o, o);
    let y = s - ratio(1, 2);
    assert(x + 1 as real == y);
    assert(near(b, y, 3, 2 as real * (o + o)));
    assert(2 as real * (o + o) == o);
    lemma_near_bounds(b, y, 3, o, h);
    let r = num(HARVEST_RATE);
    let c = ratio(3, 2);
    lemma_product_within(value(r), value(b), 2 as real, 2 as real * h);
    lemma_times_fits(r, b);
    lemma_near_self(r);
    lemma_near_product(r, b, c, y, 0, 3, o, o);
    assert(2 as real * (o * mag(y) + o * mag(c) + o * o) + t == t) by (nonlinear_arith)
        requires
            o == 0 as real,
    ;
    let d = r.times(b);
    let z = c * y;
    assert(near(d, z, 5, t));
    let dt = num(FIXED_DT);
    let q = ratio(1, 60);
    assert(mag(z) <= 2 as real * h) by (nonlinear_arith)
        requires
            z == c * y,
            c == 3 as real / 2 as real,
            0 as real <= y <= h,
            mag(z) == z || mag(z) == -z,
    ;
    lemma_near_bounds(d, z, 5, t, 2 as real * h);
    lemma_near_bounds(dt, q, 1, o, 1 as real);
    lemma_product_within(value(d), value(dt), 4 as real * h, 2 as real);
    lemma_times_fits(d, dt);
    lemma_near_product(d, dt, z, q, 5, 1, t, o);
    let e = 2 as real * (t * mag(q) + o * mag(z) + t * o) + t;
    assert(e <= 2 as real * t) by (nonlinear_arith)
        requires
            e == 2 as real * (t * mag(q) + o * mag(z) + t * o) + t,
            o == 0 as real,
            mag(q) == q,
            q == 1 as real / 60 as real,
            t > 0 as real,
    ;
    lemma_near_widens(d.times(dt), z * q, 8, e, 8, 2 as real * t);
    let w = z * q;
    assert(w >= ratio(1, 40)) by (nonlinear_arith)
        requires
            w == c * y * q,
            c == 3 as real / 2 as real,
            y >= 1 as real,
            q == 1 as real / 60 as real,
            ratio(1, 40) == 1 as real / 40 as real,
    ;
    assert(8 as real * (eps() * mag(w)) <= w / 2 as real) by (nonlinear_arith)
        requires
            mag(w) == w,
            w >= 0 as real,
            eps() == 1 as real / 0x100_0000 as real,
    ;
    lemma_value_sign(d.times(dt));
}

/// The numbers of harvesting.
proof fn lemma_harvest_constants()
    ensures
        num(HARVEST_MIN_REL_SPEED).finite(),
        value(num(HARVEST_MIN_REL_SPEED)) == ratio(3, 2),
        num(HARVEST_RATE).finite(),
        value(num(HARVEST_RATE)) == ratio(3, 2),
        num(ONE).finite(),
        value(num(ONE)) == 1 as real,
        near(num(FIXED_DT), ratio(1, 60), 1, 0 as real),
        num(HARVEST_RANGE_SQUARED).finite(),
        value(num(HARVEST_RANGE_SQUARED)) == 16 as real,
{
    lemma2_to64();
    lemma_decimal(HARVEST_MIN_REL_SPEED, 0xc0_0000, 126, 3, 2);
    lemma_decimal(HARVEST_RATE, 0xc0_0000, 126, 3, 2);
    lemma_decimal(ONE, 0x80_0000, 126, 1, 1);
    lemma_decimal(FIXED_DT, 0x88_8889, 120, 1, 60);
    lemma_decimal(HARVEST_RANGE_SQUARED, 0x80_0000, 130, 16, 1);
}

/// One amount went from the node to the agent: the node had it, it is at most what
/// the motion is worth, and it is one or the other.
pub open spec fn harvest_moved(
    node: Node,
    node_after: Node,
    agent: Node,
    agent_after: Node,
    speed: real,
    amount: Binary32,
) -> bool {
    let had = value(node.physical->0.energy);
    let have = value(node_after.physical->0.energy);
    let held = value(agent.physical->0.energy);
    let holds = value(agent_after.physical->0.energy);
    &&& amount.finite()
    &&& value(amount) >= 0 as real
    &&& value(amount) <= had
    &&& value(amount) <= motion_is_worth(speed) * (1 as real + 9 as real * eps())
    &&& value(amount) == had || near(amount, motion_is_worth(speed), 8, 2 as real * tiny())
    &&& only_energy_differs(node, node_after)
    &&& only_energy_differs(agent, agent_after)
    &&& solvent(node_after)
    &&& mag(have - (had - value(amount))) <= eps() * (had - value(amount))
    &&& mag(holds - (held + value(amount))) <= eps() * (held + value(amount))
}

/// Harvesting is limited by the motion and by what there is: an agent that moves at
/// 1.5 or more relative to a convertible body within 4 takes what the motion is
/// worth in a step, or all that the body holds where that is less, and no more.
/// The body loses it and the agent gains it.
pub proof fn lemma_harvest_is_limited(
    nodes: Seq<Node>,
    agent: u64,
    pos: Vec2Lite,
    vel: Vec2Lite,
    other: u64,
    i: int,
    j: int,
)
    requires
        agent != other,
        place_of(nodes, other) == Some(i),
        place_of(nodes, agent) == Some(j),
        solvent(nodes[i]),
        solvent(nodes[j]),
        modest(nodes[i].physical->0.energy),
        modest(nodes[j].physical->0.energy),
        nodes[i].tagged(ENERGY_CONVERTIBLE),
        nodes[i].position.distance_squared(pos).finite(),
        value(nodes[i].position.distance_squared(pos)) <= 16 as real,
        modest(vel.minus(nodes[i].motion()).length()),
        value(vel.minus(nodes[i].motion()).length()) >= ratio(3, 2),
    ensures
        ({
            let after = harvested(nodes, agent, pos, vel, other);
            let speed = value(vel.minus(nodes[i].motion()).length());
            &&& after.len() == nodes.len()
            &&& forall|k: int| 0 <= k < nodes.len() && k != i && k != j ==> after[k] == nodes[k]
            &&& exists|amount: Binary32| #[trigger]
                harvest_moved(nodes[i], after[i], nodes[j], after[j], speed, amount)
        }),
{
    lemma_place(nodes, agent);
    lemma_place(nodes, other);
    lemma_harvest_constants();
    let d2 = nodes[i].position.distance_squared(pos);
    let s = vel.minus(nodes[i].motion()).length();
    lemma_value_order(num(HARVEST_RANGE_SQUARED), d2);
    lemma_value_order(s, num(HARVEST_MIN_REL_SPEED));
    let rate = harvest_rate(s);
    lemma_harvest_rate(s);
    lemma_value_zero();
    lemma_value_sign(rate);
    let e = nodes[i].physical->0.energy;
    lemma_sign_of_units(e);
    lemma_value_sign(e);
    let reserve = e.max(num(0));
    assert(crate::binary32::model::grid(0) == 0);
    assert(reserve.units() == e.units());
    let amount = rate.min(reserve);
    lemma_value_order(rate, e);
    lemma_value_order(amount, e);
    lemma_value_order(e, amount);
    lemma_value_order(amount, rate);
    lemma_value_order(reserve, e);
    lemma_value_order(e, reserve);
    assert(value(amount) == lesser(value(rate), value(e)));
    let after = harvested(nodes, agent, pos, vel, other);
    let speed = value(s);
    let worth = motion_is_worth(speed);
    lemma_within_worth(value(rate), worth);
    lemma_value_sign(amount);
    let (left, moved) = nodes[i].debited(EnergyFlow::Transferred, amount);
    lemma_debit_takes_what_there_is(nodes[i], EnergyFlow::Transferred, amount);
    assert(value(moved) == value(amount));
    lemma_value_order(moved, amount);
    lemma_value_order(amount, moved);
    if e.units() > 0 {
        let taken = nodes.update(i, left);
        lemma_place_same(nodes, taken, agent);
        assert(moved.units() > 0);
        lemma_credit_brings_the_amount(nodes[j], EnergyFlow::Harvested, moved);
        assert(harvest_moved(nodes[i], after[i], nodes[j], after[j], speed, moved));
    } else {
        assert(after == nodes);
        let zero = num(0);
        lemma_value_sign(nodes[j].physical->0.energy);
        let held = value(nodes[j].physical->0.energy);
        assert(eps() * held >= 0 as real) by (nonlinear_arith)
            requires
                eps() == 1 as real / 0x100_0000 as real,
                held >= 0 as real,
        ;
        assert(eps() * (value(e) - value(zero)) == 0 as real) by (nonlinear_arith)
            requires
                value(e) - value(zero) == 0 as real,
        ;
        assert(harvest_moved(nodes[i], after[i], nodes[j], after[j], speed, zero));
    }
}

/// What is near the worth of a motion is at most that and nine roundings.
proof fn lemma_within_worth(rate: real, worth: real)
    requires
        worth >= ratio(1, 40),
        mag(rate - worth) <= 8 as real * (eps() * mag(worth)) + 2 as real * tiny(),
    ensures
        rate <= worth * (1 as real + 9 as real * eps()),
{
    lemma_very_tiny();
    let e = eps();
    assert(2 as real * tiny() <= e * worth) by (nonlinear_arith)
        requires
            tiny() <= e / 0x100_0000 as real,
            e > 0 as real,
            worth >= 1 as real / 40 as real,
    ;
    assert(worth * (1 as real + 9 as real * e) == worth + 8 as real * (e * worth) + e * worth)
        by (nonlinear_arith);
}

/// Half of the smallest number is less than a rounding of a rounding.
proof fn lemma_very_tiny()
    ensures
        tiny() <= eps() / 0x100_0000 as real,
{
    lemma_tiny();
}

/// Each agent in turn harvests from where it is and as it moves: one after another
/// from the nodes that the index lists within 4 of it. One that is not there does
/// not.
pub proof fn lemma_each_agent_harvests_where_it_is(
    nodes: Seq<Node>,
    hash: SpatialHash,
    agents: Seq<u64>,
    n: nat,
    k: nat,
)
    requires
        0 < n <= agents.len(),
    ensures
        ({
            let before = harvest_all(nodes, hash, agents, (n - 1) as nat);
            let agent = agents[n - 1];
            match node_of(before, agent) {
                Some(a) => {
                    let listed = hash.found(a.position, num(HARVEST_RANGE));
                    let vel = match a.velocity {
                        Some(v) => v,
                        None => Vec2Lite { x: num(0), y: num(0) },
                    };
                    &&& harvest_all(nodes, hash, agents, n) == harvest_round(
                        before,
                        agent,
                        a.position,
                        vel,
                        listed,
                        listed.len(),
                    )
                    &&& harvest_round(before, agent, a.position, vel, listed, 0) == before
                    &&& k < listed.len() ==> harvest_round(
                        before,
                        agent,
                        a.position,
                        vel,
                        listed,
                        k + 1,
                    ) == harvested(
                        harvest_round(before, agent, a.position, vel, listed, k),
                        agent,
                        a.position,
                        vel,
                        listed[k as int],
                    )
                },
                None => harvest_all(nodes, hash, agents, n) == before,
            }
        }),
        harvest_all(nodes, hash, agents, 0) == nodes,
        value(num(HARVEST_RANGE)) == 4 as real,
{
    lemma2_to64();
    lemma_decimal(HARVEST_RANGE, 0x80_0000, 128, 4, 1);
    assert(4 as real / 1 as real == 4 as real) by (nonlinear_arith);
    assert(ratio(4, 1) == 4 as real / 1 as real);
}

} // verus!
