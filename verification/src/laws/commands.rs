//! What becomes of the commands of agents, as numbers.

use crate::binary32::model::Binary32;
use crate::binary32::order::num;
use crate::binary32::value::eps;
use crate::binary32::value::lemma_decimal;
use crate::binary32::value::lemma_large;
use crate::binary32::value::lemma_modest_fits;
use crate::binary32::value::lemma_near_bounds;
use crate::binary32::value::lemma_near_product;
use crate::binary32::value::lemma_near_self;
use crate::binary32::value::lemma_product_within;
use crate::binary32::value::lemma_times_fits;
use crate::binary32::value::lemma_tiny;
use crate::binary32::value::lemma_value_minus;
use crate::binary32::value::lemma_value_negated;
use crate::binary32::value::lemma_value_order;
use crate::binary32::value::lemma_value_zero;
use crate::binary32::value::mag;
use crate::binary32::value::modest;
use crate::binary32::value::near;
use crate::binary32::value::ratio;
use crate::binary32::value::tiny;
use crate::binary32::value::value;
use crate::interface::action::ActionTensor;
use crate::interface::action::MINUS_ONE;
use crate::interface::action::MINUS_OSC_LIMIT;
use crate::interface::action::OSC_LIMIT;
use crate::interface::vector::ONE;
use crate::laws::births::lemma_whole_ratio;
use crate::laws::climate::held;
use crate::laws::magnetism::lemma_unit_factor;
use crate::laws::vectors::is_length;
use crate::laws::vectors::lemma_length_value;
use crate::laws::vectors::modest_vector;
use crate::server::lockstep::LockstepAgent;
use vstd::arithmetic::power2::lemma2_to64;
use vstd::prelude::*;

verus! {

/// A command after bounding: the nearest number within its bounds, and none for
/// what is no finite number.
pub open spec fn bounded(after: Binary32, before: Binary32, low: real, high: real) -> bool {
    &&& after.finite()
    &&& before.finite() ==> value(after) == held(value(before), low, high)
    &&& !before.finite() ==> value(after) == 0 as real
}

/// A part of a force after bounding: the part over the length.
pub open spec fn shortened(after: Binary32, before: Binary32, length: Binary32) -> bool {
    near(
        after,
        value(before) * (1 as real / value(length)),
        3,
        (2 as real * mag(value(before)) + 1 as real) * tiny(),
    )
}

/// Bounding keeps what a command says as far as it can: torque from -1 to 1, the
/// clamp and the fabricator from 0 to 1, the oscillator from -16 to 16; and a force
/// longer than 1 keeps its direction at length 1.
pub proof fn lemma_bounding_keeps_the_command(a: ActionTensor)
    requires
        modest_vector(a.force),
        modest(a.force.length()),
    ensures
        ({
            let s = a.sanitized();
            let l = a.force.length();
            &&& bounded(s.torque, a.torque, -(1 as real), 1 as real)
            &&& bounded(s.clamp, a.clamp, 0 as real, 1 as real)
            &&& bounded(s.fabricate, a.fabricate, 0 as real, 1 as real)
            &&& bounded(s.osc_freq, a.osc_freq, -(16 as real), 16 as real)
            &&& is_length(l, value(a.force.x), value(a.force.y))
            &&& value(l) <= 1 as real ==> s.force == a.force
            &&& value(l) > 1 as real ==> shortened(s.force.x, a.force.x, l) && shortened(
                s.force.y,
                a.force.y,
                l,
            )
        }),
{
    lemma2_to64();
    lemma_decimal(ONE, 0x80_0000, 126, 1, 1);
    lemma_decimal(OSC_LIMIT, 0x80_0000, 130, 16, 1);
    lemma_whole_ratio(1);
    lemma_whole_ratio(16);
    lemma_value_zero();
    assert(num(MINUS_ONE) == num(ONE).negated());
    assert(num(MINUS_OSC_LIMIT) == num(OSC_LIMIT).negated());
    lemma_value_negated(num(ONE));
    lemma_value_negated(num(OSC_LIMIT));
    lemma_bounded(a.torque, num(MINUS_ONE), num(ONE));
    lemma_bounded(a.clamp, num(0), num(ONE));
    lemma_bounded(a.fabricate, num(0), num(ONE));
    lemma_bounded(a.osc_freq, num(MINUS_OSC_LIMIT), num(OSC_LIMIT));
    lemma_length_value(a.force);
    let l = a.force.length();
    lemma_value_order(num(ONE), l);
    lemma_value_order(num(0), l);
    if value(l) > 1 as real {
        assert(ratio(1, 1000) == 1 as real / 1000 as real);
        lemma_shortened(a.force.x, l);
        lemma_shortened(a.force.y, l);
    }
}

/// A command within two bounds.
proof fn lemma_bounded(x: Binary32, low: Binary32, high: Binary32)
    requires
        low.finite(),
        high.finite(),
        value(low) <= 0 as real,
        value(high) >= 0 as real,
    ensures
        bounded(
            crate::interface::action::finite_or_zero(x).clamp(low, high),
            x,
            value(low),
            value(high),
        ),
{
    lemma_value_zero();
    let y = crate::interface::action::finite_or_zero(x);
    lemma_value_order(y, low);
    lemma_value_order(high, y);
}

/// A part of a force, shortened.
proof fn lemma_shortened(x: Binary32, l: Binary32)
    requires
        modest(x),
        modest(l),
        value(l) >= ratio(1, 1000),
    ensures
        shortened(x.times(num(ONE).over(l)), x, l),
{
    lemma_tiny();
    lemma_large();
    lemma_unit_factor(l);
    let k = num(ONE).over(l);
    let (a, b, t, o) = (value(x), 1 as real / value(l), tiny(), 0 as real);
    lemma_near_self(x);
    lemma_near_bounds(k, b, 1, t, 1000 as real);
    lemma_product_within(a, value(k), 0x4000_0000 as real, 2000 as real);
    lemma_times_fits(x, k);
    lemma_near_product(x, k, a, b, 0, 1, o, t);
    let u = 2 as real * (o * mag(b) + t * mag(a) + o * t) + t;
    assert(u == (2 as real * mag(a) + 1 as real) * t) by (nonlinear_arith)
        requires
            u == 2 as real * (o * mag(b) + t * mag(a) + o * t) + t,
            o == 0 as real,
    ;
}

/// The number is how far one went from another, up to one rounding.
pub open spec fn is_change(d: Binary32, now: Binary32, then: Binary32) -> bool {
    modest(now) && modest(then) ==> d.finite() && mag(value(d) - (value(now) - value(then)))
        <= eps() * mag(value(now) - value(then))
}

/// A change of everyday numbers.
proof fn lemma_change(now: Binary32, then: Binary32)
    ensures
        is_change(now.minus(then), now, then),
{
    if modest(now) && modest(then) {
        lemma_modest_fits(now, then);
        lemma_value_minus(now, then);
    }
}

/// A tick goes on with the action that is held, without its pulse, or asks for a
/// decision. The decision is told how mass, structure and energy changed since the
/// last one, if that is wanted and there was one.
pub proof fn lemma_decisions_are_told_what_changed(
    agent: LockstepAgent,
    state: Seq<Binary32>,
    deltas: bool,
)
    requires
        state.len() >= 5,
    ensures
        ({
            let (after, turn) = agent.begun(state, deltas);
            &&& agent.remaining_ticks > 0 ==> {
                &&& turn is Held
                &&& after.remaining_ticks + 1 == agent.remaining_ticks
                &&& after.held_action == agent.held_action
                &&& value(turn->Held_0.fabricate) == 0 as real
                &&& turn->Held_0.force == agent.held_action.force
                &&& turn->Held_0.torque == agent.held_action.torque
                &&& turn->Held_0.clamp == agent.held_action.clamp
                &&& turn->Held_0.osc_freq == agent.held_action.osc_freq
                &&& turn->Held_0.osc_phase == agent.held_action.osc_phase
            }
            &&& agent.remaining_ticks == 0 ==> {
                &&& turn is Decide
                &&& agent.decision_sequence < u64::MAX ==> after.decision_sequence
                    == agent.decision_sequence + 1
                &&& turn->Decide_0.decision_sequence == after.decision_sequence
                &&& after.previous_physical is Some
                &&& after.previous_physical->0.mass == state[2]
                &&& after.previous_physical->0.structure == state[3]
                &&& after.previous_physical->0.energy == state[4]
                &&& turn->Decide_0.delta is Some <==> deltas && agent.previous_physical is Some
                &&& turn->Decide_0.delta is Some ==> {
                    let (d, then) = (turn->Decide_0.delta->0, agent.previous_physical->0);
                    &&& is_change(d.mass, state[2], then.mass)
                    &&& is_change(d.structure, state[3], then.structure)
                    &&& is_change(d.energy, state[4], then.energy)
                }
            }
        }),
{
    lemma_value_zero();
    if agent.previous_physical is Some {
        let then = agent.previous_physical->0;
        lemma_change(state[2], then.mass);
        lemma_change(state[3], then.structure);
        lemma_change(state[4], then.energy);
    }
}

/// A decision is the reply of the client, or to do nothing; it is held for as many
/// ticks as asked, this one included, and for one at least.
pub proof fn lemma_decision_is_the_reply(
    agent: LockstepAgent,
    reply: Option<ActionTensor>,
    ticks: u32,
)
    ensures
        ({
            let (after, action) = agent.decided(reply, ticks);
            &&& reply is Some ==> action == reply->0
            &&& reply is None ==> value(action.force.x) == 0 as real && value(action.force.y)
                == 0 as real && value(action.torque) == 0 as real && value(action.clamp)
                == 0 as real && value(action.fabricate) == 0 as real
            &&& after.held_action == action
            &&& ticks >= 1 ==> after.remaining_ticks + 1 == ticks
            &&& ticks == 0 ==> after.remaining_ticks == 0
        }),
{
    lemma_value_zero();
}

} // verus!
