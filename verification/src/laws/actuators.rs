//! What the actuators of an agent do and cost, as numbers.

use crate::actuation::commanded;
use crate::actuation::drive_cost;
use crate::actuation::driven;
use crate::actuation::fabricated;
use crate::actuation::held_on;
use crate::actuation::response;
use crate::actuation::CLAMP_COOLDOWN;
use crate::actuation::CLAMP_DRAIN;
use crate::actuation::FABRICATE_COOLDOWN;
use crate::actuation::FABRICATE_ENERGY_COST;
use crate::actuation::FABRICATE_MASS_COST;
use crate::actuation::OSC_COST;
use crate::actuation::OSC_RESPONSE;
use crate::actuation::SHELTER_STRUCTURE;
use crate::binary32::model::Binary32;
use crate::binary32::order::num;
use crate::binary32::value::eps;
use crate::binary32::value::lemma_decimal;
use crate::binary32::value::lemma_large;
use crate::binary32::value::lemma_modest_fits;
use crate::binary32::value::lemma_near_bounds;
use crate::binary32::value::lemma_near_product;
use crate::binary32::value::lemma_near_self;
use crate::binary32::value::lemma_plus_fits;
use crate::binary32::value::lemma_product_within;
use crate::binary32::value::lemma_times_fits;
use crate::binary32::value::lemma_tiny;
use crate::binary32::value::lemma_value_abs;
use crate::binary32::value::lemma_value_minus;
use crate::binary32::value::lemma_value_order;
use crate::binary32::value::lemma_value_sign;
use crate::binary32::value::lemma_value_sum;
use crate::binary32::value::lemma_value_zero;
use crate::binary32::value::mag;
use crate::binary32::value::modest;
use crate::binary32::value::near;
use crate::binary32::value::ratio;
use crate::binary32::value::tiny;
use crate::binary32::value::value;
use crate::components::lemma_amount_valid;
use crate::components::lemma_debit_keeps_reserve;
use crate::components::node_of;
use crate::components::valid_energy_amount;
use crate::components::ClampState;
use crate::components::EnergyFlow;
use crate::components::Node;
use crate::components::Oscillator;
use crate::economy::FIXED_DT;
use crate::fragmentation::SHELTER_CONDUCTIVITY;
use crate::interface::action::ActionTensor;
use crate::interface::observation::HALF;
use crate::interface::vector::ONE;
use crate::laws::energy::lemma_debit_takes_what_there_is;
use crate::laws::energy::lesser;
use crate::laws::energy::only_energy_differs;
use crate::laws::energy::solvent;
use crate::laws::heat::lemma_no_slack;
use crate::laws::heat::lemma_step_length;
use crate::laws::heat::moved_by;
use crate::tags::SHELTER;
use vstd::arithmetic::power2::lemma2_to64;
use vstd::prelude::*;

verus! {

/// How far an oscillator is driven.
pub open spec fn drive_distance(osc: Oscillator, action: ActionTensor) -> real {
    value(action.osc_freq) - value(osc.freq)
}

/// What a drive costs: a two-hundredth of its distance.
proof fn lemma_drive_cost(osc: Oscillator, action: ActionTensor)
    requires
        modest(osc.freq),
        modest(action.osc_freq),
    ensures
        near(
            drive_cost(osc, action),
            mag(drive_distance(osc, action)) * ratio(5, 1000),
            4,
            tiny(),
        ),
        value(drive_cost(osc, action)) >= 0 as real,
{
    lemma_tiny();
    lemma_large();
    lemma2_to64();
    lemma_decimal(OSC_COST, 0xa3_d70a, 118, 5, 1000);
    lemma_modest_fits(action.osc_freq, osc.freq);
    lemma_value_minus(action.osc_freq, osc.freq);
    let d = action.osc_freq.minus(osc.freq);
    lemma_value_abs(d);
    let (x, q, o) = (mag(drive_distance(osc, action)), ratio(5, 1000), 0 as real);
    assert(q == 5 as real / 1000 as real);
    assert(1 as real * (eps() * mag(x)) + o == eps() * x) by (nonlinear_arith)
        requires
            mag(x) == x,
            o == 0 as real,
    ;
    assert(near(d.abs(), x, 1, o));
    lemma_near_bounds(d.abs(), x, 1, o, 0x8000_0000 as real);
    let c = num(OSC_COST);
    lemma_near_bounds(c, q, 1, o, 1 as real);
    lemma_product_within(value(d.abs()), value(c), 0x1_0000_0000 as real, 2 as real);
    lemma_times_fits(d.abs(), c);
    lemma_near_product(d.abs(), c, x, q, 1, 1, o, o);
    lemma_no_slack(x, q, tiny());
    lemma_value_sign(d.abs());
    crate::binary32::value::lemma_product_sign(d.abs(), c);
    lemma_value_sign(d.abs().times(c));
}

/// An oscillator follows a fifteenth of the way in a step.
proof fn lemma_response()
    ensures
        near(response(), ratio(1, 15), 3, tiny()),
{
    lemma_tiny();
    lemma_large();
    lemma_step_length();
    lemma2_to64();
    lemma_decimal(OSC_RESPONSE, 0x80_0000, 128, 4, 1);
    lemma_decimal(ONE, 0x80_0000, 126, 1, 1);
    assert(4 as real / 1 as real == 4 as real && 1 as real / 1 as real == 1 as real)
        by (nonlinear_arith);
    assert(ratio(4, 1) == 4 as real / 1 as real && ratio(1, 1) == 1 as real / 1 as real);
    let (q, f, o) = (ratio(1, 60), 4 as real, 0 as real);
    let (a, d) = (num(OSC_RESPONSE), num(FIXED_DT));
    lemma_near_self(a);
    lemma_near_bounds(d, q, 1, o, 1 as real);
    lemma_product_within(value(a), value(d), 4 as real, 2 as real);
    lemma_times_fits(a, d);
    lemma_near_product(a, d, f, q, 0, 1, o, o);
    lemma_no_slack(f, q, tiny());
    let r = ratio(1, 15);
    assert(r == 1 as real / 15 as real);
    assert(f * q == r);
    let p = a.times(d);
    assert(3 as real * (eps() * mag(r)) <= 1 as real / 1000 as real) by (nonlinear_arith)
        requires
            mag(r) == r,
            r == 1 as real / 15 as real,
            eps() == 1 as real / 0x100_0000 as real,
    ;
    lemma_value_zero();
    lemma_value_order(p, num(0));
    lemma_value_order(num(ONE), p);
}

/// A drive moves an oscillator a fifteenth of the way to the frequency that it is
/// asked for, sets its phase, and costs a two-hundredth of the distance. Where the
/// reserve does not have that, the oscillator stays as it is and nothing is paid.
pub proof fn lemma_oscillator_follows(node: Node, action: ActionTensor)
    requires
        solvent(node),
        node.oscillator is Some,
        modest(node.oscillator->0.freq),
        modest(action.osc_freq),
    ensures
        ({
            let after = driven(node, action);
            let osc = node.oscillator->0;
            let cost = drive_cost(osc, action);
            let had = node.physical->0.energy;
            &&& near(cost, mag(drive_distance(osc, action)) * ratio(5, 1000), 4, tiny())
            &&& value(cost) <= value(had) ==> {
                &&& only_energy_differs(node, Node { oscillator: node.oscillator, ..after })
                &&& moved_by(after.physical->0.energy, value(had), -value(cost))
                &&& after.oscillator is Some
                &&& after.oscillator->0.phase == action.osc_phase
                &&& after.oscillator->0.baseline_freq == osc.baseline_freq
                &&& exists|step: Binary32| #[trigger]
                    is_step(step, drive_distance(osc, action)) && moved_by(
                        after.oscillator->0.freq,
                        value(osc.freq),
                        value(step),
                    )
            }
            &&& value(cost) > value(had) ==> after == node
        }),
{
    let after = driven(node, action);
    let osc = node.oscillator->0;
    let cost = drive_cost(osc, action);
    let p = node.physical->0;
    lemma_drive_cost(osc, action);
    lemma_response();
    lemma_tiny();
    lemma_large();
    lemma_value_zero();
    lemma_value_sign(cost);
    lemma_amount_valid(cost);
    crate::binary32::bounds::lemma_sign_of_units(cost);
    assert(crate::binary32::model::grid(0) == 0);
    let booked = valid_energy_amount(cost);
    assert(booked.units() == cost.units());
    lemma_value_order(booked, cost);
    lemma_value_order(cost, booked);
    lemma_value_order(p.energy, booked);
    if value(cost) <= value(p.energy) {
        lemma_debit_keeps_reserve(node.ledger->0, p, EnergyFlow::Actuation, cost);
        lemma_value_minus(p.energy, booked);
        let d = action.osc_freq.minus(osc.freq);
        lemma_modest_fits(action.osc_freq, osc.freq);
        lemma_value_minus(action.osc_freq, osc.freq);
        let (x, q, o) = (drive_distance(osc, action), ratio(1, 15), 0 as real);
        assert(q == 1 as real / 15 as real);
        let e = eps() * mag(x);
        assert(1 as real * e + o == e) by (nonlinear_arith)
            requires
                o == 0 as real,
        ;
        assert(near(d, x, 1, o));
        lemma_near_bounds(d, x, 1, o, 0x8000_0000 as real);
        let r = response();
        lemma_near_bounds(r, q, 3, tiny(), 1 as real);
        lemma_product_within(value(d), value(r), 0x1_0000_0000 as real, 2 as real);
        lemma_times_fits(d, r);
        lemma_near_product(d, r, x, q, 1, 3, o, tiny());
        let step = d.times(r);
        let k = 2 as real * (o * mag(q) + tiny() * mag(x) + o * tiny()) + tiny();
        assert(k == (2 as real * mag(x) + 1 as real) * tiny()) by (nonlinear_arith)
            requires
                k == 2 as real * (o * mag(q) + tiny() * mag(x) + o * tiny()) + tiny(),
                o == 0 as real,
        ;
        assert(is_step(step, x));
        let h = 0x8000_0000 as real;
        let (t, m) = (tiny(), mag(x));
        assert((2 as real * m + 1 as real) * t <= 1 as real / 2 as real) by (nonlinear_arith)
            requires
                0 as real <= m <= h,
                h == 0x8000_0000 as real,
                t >= 0 as real,
                t <= 1 as real / 0x100_0000_0000 as real,
        ;
        lemma_product_within(x, q, h, 1 as real);
        lemma_near_bounds(step, x * q, 6, k, h);
        lemma_plus_fits(osc.freq, step);
        lemma_value_sum(osc.freq, step);
    }
}

/// The step of an oscillator: a fifteenth of the distance, up to rounding.
pub open spec fn is_step(step: Binary32, distance: real) -> bool {
    near(step, distance * ratio(1, 15), 6, (2 as real * mag(distance) + 1 as real) * tiny())
}

/// A countdown: it falls by a sixtieth in a step while it is above zero.
pub open spec fn counted_down(after: Binary32, before: Binary32) -> bool {
    &&& value(before) <= 0 as real ==> after == before
    &&& value(before) > 0 as real ==> exists|dt: Binary32|
        near(dt, ratio(1, 60), 1, 0 as real) && #[trigger] moved_by(
            after,
            value(before),
            -value(dt),
        )
}

/// One step of a countdown.
proof fn lemma_countdown(before: Binary32)
    requires
        modest(before),
    ensures
        counted_down(
            if num(0).lt(before) {
                before.minus(num(FIXED_DT))
            } else {
                before
            },
            before,
        ),
{
    lemma_step_length();
    lemma_value_zero();
    lemma_value_sign(before);
    assert(crate::binary32::model::grid(0) == 0);
    let d = num(FIXED_DT);
    lemma_near_bounds(d, ratio(1, 60), 1, 0 as real, 1 as real);
    lemma_modest_fits(before, d);
    lemma_value_minus(before, d);
    if value(before) > 0 as real {
        assert(moved_by(before.minus(d), value(before), -value(d)));
    }
}

/// The numbers of commands.
proof fn lemma_command(x: Binary32)
    requires
        x.finite(),
    ensures
        num(HALF).lt(x) <==> value(x) > ratio(1, 2),
{
    lemma2_to64();
    lemma_decimal(HALF, 0x80_0000, 125, 1, 2);
    lemma_value_order(num(HALF), x);
}

/// A clamp obeys its command. Asked for more than a half it takes hold of the
/// nearest, if it has cooled down and holds nothing; else it keeps what it holds.
/// Asked for less it lets go, and if it held something it cools down for 1.5
/// seconds.
pub proof fn lemma_clamp_obeys(
    clamp: ClampState,
    action: ActionTensor,
    nearest: Option<u64>,
    joint: u64,
)
    requires
        modest(clamp.cooldown),
        action.clamp.finite(),
    ensures
        ({
            let after = commanded(clamp, action, nearest, joint);
            let asked = value(action.clamp) > ratio(1, 2);
            &&& asked || clamp.joint is None ==> counted_down(after.cooldown, clamp.cooldown)
            &&& asked ==> {
                if value(after.cooldown) <= 0 as real && clamp.target is None && nearest is Some {
                    after.target == nearest && after.joint == Some(joint)
                } else {
                    after.target == clamp.target && after.joint == clamp.joint
                }
            }
            &&& !asked ==> after.target is None && after.joint is None
            &&& !asked && clamp.joint is Some ==> value(after.cooldown) == ratio(3, 2)
        }),
{
    lemma_countdown(clamp.cooldown);
    lemma_command(action.clamp);
    lemma2_to64();
    lemma_decimal(CLAMP_COOLDOWN, 0xc0_0000, 126, 3, 2);
    let cooled = if num(0).lt(clamp.cooldown) {
        clamp.cooldown.minus(num(FIXED_DT))
    } else {
        clamp.cooldown
    };
    lemma_value_zero();
    lemma_value_order(cooled, num(0));
    lemma_value_sign(clamp.cooldown);
    assert(crate::binary32::model::grid(0) == 0);
    assert(!cooled.nan());
}

/// To hold on costs 0.4 for each second, or what there is. A clamp that has
/// something to hold keeps it while energy is left, and lets go of it when the
/// energy is gone or the target is.
pub proof fn lemma_holding_on_costs(nodes: Seq<Node>, node: Node, clamp: ClampState)
    requires
        solvent(node),
        clamp.target is Some,
    ensures
        ({
            let after = held_on(nodes, node, clamp).0;
            let had = value(node.physical->0.energy);
            let have = value(after.physical->0.energy);
            &&& node_of(nodes, clamp.target->0) is None ==> after.physical == node.physical
                && holds_nothing(after)
            &&& node_of(nodes, clamp.target->0) is Some ==> {
                &&& only_energy_differs(node, Node { clamp: node.clamp, ..after })
                &&& solvent(after)
                &&& exists|cost: Binary32| #[trigger]
                    is_hold(cost) && mag(have - (had - lesser(value(cost), had))) <= eps() * (had
                        - lesser(value(cost), had))
                &&& have > 0 as real ==> after.clamp == Some(clamp)
                &&& have <= 0 as real ==> holds_nothing(after)
            }
        }),
{
    lemma_tiny();
    lemma_large();
    lemma_step_length();
    lemma_value_zero();
    lemma2_to64();
    lemma_decimal(CLAMP_DRAIN, 0xcc_cccd, 124, 4, 10);
    let (f, q, o) = (ratio(4, 10), ratio(1, 60), 0 as real);
    assert(f == 4 as real / 10 as real);
    let (a, d) = (num(CLAMP_DRAIN), num(FIXED_DT));
    lemma_near_bounds(a, f, 1, o, 1 as real);
    lemma_near_bounds(d, q, 1, o, 1 as real);
    lemma_product_within(value(a), value(d), 2 as real, 2 as real);
    lemma_times_fits(a, d);
    lemma_near_product(a, d, f, q, 1, 1, o, o);
    lemma_no_slack(f, q, tiny());
    let cost = a.times(d);
    assert(is_hold(cost));
    crate::binary32::value::lemma_product_sign(a, d);
    lemma_debit_takes_what_there_is(node, EnergyFlow::Actuation, cost);
    let after = held_on(nodes, node, clamp).0;
    let (left, moved) = node.debited(EnergyFlow::Actuation, cost);
    lemma_value_order(left.physical->0.energy, num(0));
}

/// The node has a clamp that holds nothing.
pub open spec fn holds_nothing(node: Node) -> bool {
    node.clamp is Some && node.clamp->0.target is None && node.clamp->0.joint is None
}

/// What a step of holding on costs.
pub open spec fn is_hold(cost: Binary32) -> bool {
    near(cost, ratio(4, 10) * ratio(1, 60), 4, tiny())
}

/// A fabricator that is asked for more than a half, has cooled down and can pay 3 of
/// energy and 0.5 of mass builds one shelter of just that, with structure 12, one
/// unit to the right; and pays, and cools down for 3 seconds. Otherwise it builds
/// nothing and pays nothing.
pub proof fn lemma_fabricator_builds_what_it_pays(
    node: Node,
    action: ActionTensor,
)
    requires
        solvent(node),
        modest(node.physical->0.energy),
        modest(node.physical->0.mass),
        modest(node.position.x),
        modest(node.position.y),
        node.fabricate is Some,
        modest(node.fabricate->0.remaining),
        action.fabricate.finite(),
    ensures
        ({
            let (after, effects) = fabricated(node, action);
            let p = node.physical->0;
            let waited = exists|left: Binary32| #[trigger]
                counted_down(left, node.fabricate->0.remaining) && value(left) <= 0 as real;
            &&& effects.len() <= 1
            &&& effects.len() == 1 ==> {
                &&& value(action.fabricate) > ratio(1, 2)
                &&& waited
                &&& value(p.energy) >= 3 as real && value(p.mass) >= ratio(1, 2)
                &&& moved_by(after.physical->0.energy, value(p.energy), -(3 as real))
                &&& moved_by(after.physical->0.mass, value(p.mass), -ratio(1, 2))
                &&& after.physical->0.structure == p.structure
                &&& after.fabricate is Some && value(after.fabricate->0.remaining) == 3 as real
                &&& effects[0] is Spawn && is_shelter(effects[0]->Spawn_0, node)
            }
            &&& effects.len() == 0 ==> {
                &&& after.fabricate is Some
                &&& after == (Node { fabricate: after.fabricate, ..node })
                &&& counted_down(after.fabricate->0.remaining, node.fabricate->0.remaining)
                &&& value(action.fabricate) <= ratio(1, 2) || value(after.fabricate->0.remaining)
                    > 0 as real || value(p.energy) < 3 as real || value(p.mass) < ratio(1, 2)
            }
        }),
{
    lemma_fabrication_numbers();
    lemma_countdown(node.fabricate->0.remaining);
    lemma_command(action.fabricate);
    lemma_value_zero();
    let p = node.physical->0;
    let (e, m) = (num(FABRICATE_ENERGY_COST), num(FABRICATE_MASS_COST));
    lemma_value_order(e, p.energy);
    lemma_value_order(m, p.mass);
    let before = node.fabricate->0.remaining;
    let left = if num(0).lt(before) {
        before.minus(num(FIXED_DT))
    } else {
        before
    };
    lemma_value_sign(before);
    lemma_value_order(left, num(0));
    assert(crate::binary32::model::grid(0) == 0);
    let (after, effects) = fabricated(node, action);
    if effects.len() == 1 {
        assert(counted_down(left, before));
        lemma_modest_fits(p.energy, e);
        lemma_modest_fits(p.mass, m);
        lemma_value_minus(p.energy, e);
        lemma_value_minus(p.mass, m);
        lemma_amount_valid(e);
        lemma_modest_fits(node.position.x, num(ONE));
        lemma_modest_fits(node.position.y, num(0));
        lemma_value_sum(node.position.x, num(ONE));
        lemma_value_sum(node.position.y, num(0));
        lemma_value_order(p.energy, e);
    }
}

/// A shelter beside the node that built it.
pub open spec fn is_shelter(s: Node, builder: Node) -> bool {
    &&& s.physical is Some
    &&& value(s.physical->0.energy) == 3 as real
    &&& value(s.physical->0.mass) == ratio(1, 2)
    &&& value(s.physical->0.structure) == 12 as real
    &&& s.yield_thresh is Some && value(s.yield_thresh->Some_0.0) == 12 as real
    &&& s.conductivity is Some && near(s.conductivity->Some_0.0, ratio(2, 10), 1, 0 as real)
    &&& s.tags is Some && s.tags->Some_0.0.0 == SHELTER
    &&& moved_by(s.position.x, value(builder.position.x), 1 as real)
    &&& moved_by(s.position.y, value(builder.position.y), 0 as real)
}

/// The numbers of fabrication.
proof fn lemma_fabrication_numbers()
    ensures
        num(FABRICATE_ENERGY_COST).finite(),
        num(FABRICATE_ENERGY_COST).units() > 0,
        value(num(FABRICATE_ENERGY_COST)) == 3 as real,
        num(FABRICATE_MASS_COST).finite(),
        value(num(FABRICATE_MASS_COST)) == ratio(1, 2),
        value(num(FABRICATE_COOLDOWN)) == 3 as real,
        value(num(SHELTER_STRUCTURE)) == 12 as real,
        num(ONE).finite(),
        value(num(ONE)) == 1 as real,
        near(num(SHELTER_CONDUCTIVITY), ratio(2, 10), 1, 0 as real),
        ratio(1, 2) == 1 as real / 2 as real,
{
    lemma2_to64();
    lemma_decimal(FABRICATE_ENERGY_COST, 0xc0_0000, 127, 3, 1);
    lemma_decimal(FABRICATE_MASS_COST, 0x80_0000, 125, 1, 2);
    lemma_decimal(FABRICATE_COOLDOWN, 0xc0_0000, 127, 3, 1);
    lemma_decimal(SHELTER_STRUCTURE, 0xc0_0000, 129, 12, 1);
    lemma_decimal(ONE, 0x80_0000, 126, 1, 1);
    lemma_decimal(SHELTER_CONDUCTIVITY, 0xcc_cccd, 123, 2, 10);
    assert(3 as real / 1 as real == 3 as real && 12 as real / 1 as real == 12 as real && 1 as real
        / 1 as real == 1 as real) by (nonlinear_arith);
    assert(ratio(3, 1) == 3 as real / 1 as real);
    assert(ratio(12, 1) == 12 as real / 1 as real);
    assert(ratio(1, 1) == 1 as real / 1 as real);
}

} // verus!
