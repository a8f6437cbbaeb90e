//! When agents have children, and what that takes, as numbers.

use crate::binary32::model::Binary32;
use crate::binary32::order::num;
use crate::binary32::value::eps;
use crate::binary32::value::lemma_decimal;
use crate::binary32::value::lemma_modest_fits;
use crate::binary32::value::lemma_near_bounds;
use crate::binary32::value::lemma_near_product;
use crate::binary32::value::lemma_near_self;
use crate::binary32::value::lemma_tiny;
use crate::binary32::value::lemma_value_minus;
use crate::binary32::value::lemma_value_order;
use crate::binary32::value::lemma_value_sign;
use crate::binary32::value::lemma_value_sum;
use crate::binary32::value::lemma_value_zero;
use crate::binary32::value::mag;
use crate::binary32::value::modest;
use crate::binary32::value::near;
use crate::binary32::value::ratio;
use crate::binary32::value::tiny;
use crate::binary32::value::value;
use crate::components::lemma_amount_valid;
use crate::components::AgentTuning;
use crate::components::Node;
use crate::economy::FIXED_DT;
use crate::interface::vector::ONE;
use crate::laws::heat::lemma_no_slack;
use crate::laws::heat::lemma_step_length;
use crate::laws::heat::moved_by;
use crate::lineage::child_tuning;
use crate::lineage::reproduced;
use crate::lineage::BirthDraw;
use crate::lineage::PARENT_MASS;
use crate::lineage::REPRODUCTION_COOLDOWN_SECONDS;
use crate::lineage::REPRODUCTION_ENERGY_COST;
use crate::lineage::REPRODUCTION_ENERGY_THRESHOLD;
use crate::lineage::REPRODUCTION_MASS_COST;
use crate::lineage::REPRODUCTION_SURPLUS_SECONDS;
use crate::lineage::SENSOR_CEILING;
use crate::lineage::SENSOR_FLOOR;
use crate::tags::AGENT_MASK;
use vstd::arithmetic::power2::lemma2_to64;
use vstd::prelude::*;

verus! {

/// An agent that can have children, with numbers of everyday size.
pub open spec fn parental(node: Node) -> bool {
    &&& node.physical is Some && node.body_mass is Some && node.marker is Some
    &&& node.tuning is Some && node.reproduction is Some && node.node_rng is Some
    &&& node.ledger is Some
    &&& modest(node.physical->0.energy) && modest(node.physical->0.mass)
    &&& modest(node.reproduction->0.surplus_seconds)
    &&& modest(node.reproduction->0.cooldown_seconds)
}

/// The agent has a surplus: 32 of energy and 2 of mass, and its rest is over.
pub open spec fn has_surplus(node: Node) -> bool {
    &&& value(node.physical->0.energy) >= 32 as real
    &&& value(node.physical->0.mass) >= 2 as real
    &&& value(node.reproduction->0.cooldown_seconds) <= value(num(FIXED_DT))
}

/// The surplus has lasted 5 seconds, with this step.
pub open spec fn has_waited(node: Node) -> bool {
    exists|waited: Binary32| #[trigger]
        moved_by(waited, value(node.reproduction->0.surplus_seconds), value(num(FIXED_DT)))
            && value(waited) >= 5 as real
            && waited == node.reproduction->0.surplus_seconds.plus(num(FIXED_DT))
}

/// The child of an agent: 12 of energy and 1.5 of mass, the next generation of its
/// line, with the tuning of its parent as it mutated.
pub open spec fn is_child(child: Node, parent: Node, controller: u64, draw: BirthDraw) -> bool {
    &&& child.physical is Some
    &&& value(child.physical->0.energy) == 12 as real
    &&& value(child.physical->0.mass) == ratio(3, 2)
    &&& child.body_mass is Some && value(child.body_mass->0) == ratio(3, 2)
    &&& child.tuning == Some(child_tuning(parent.tuning->0, draw))
    &&& child.physical->0.structure == child.tuning->0.yield_threshold
    &&& child.yield_thresh is Some && child.yield_thresh->Some_0.0
        == child.tuning->0.yield_threshold
    &&& child.tags is Some && child.tags->Some_0.0.0 == AGENT_MASK
    &&& child.oscillator is Some && child.oscillator->0.freq == child.tuning->0.osc_baseline
    &&& child.marker is Some && child.marker->0.lineage == parent.marker->0.lineage
    &&& child.marker->0.controller == controller
    &&& parent.marker->0.generation < u32::MAX ==> child.marker->0.generation
        == parent.marker->0.generation + 1
    &&& child.reproduction is Some && value(child.reproduction->0.surplus_seconds) == 0 as real
    &&& value(child.reproduction->0.cooldown_seconds) == 0 as real
    &&& !child.dead
}

/// A birth comes when a surplus has lasted, and only then. It takes 12 of energy
/// and 1.5 of mass from the parent, who then rests for 20 seconds. Without a birth
/// the agent keeps what it has; a surplus adds up, and is forgotten when it ends.
pub proof fn lemma_birth_takes_a_lasting_surplus(
    node: Node,
    step: u64,
    controller: u64,
    draw: BirthDraw,
)
    requires
        parental(node),
    ensures
        ({
            let (after, baby) = reproduced(node, step, Some(controller), draw);
            let (p, q) = (node.physical->0, after.physical->0);
            &&& baby is Some <==> has_surplus(node) && has_waited(node)
            &&& after.reproduction is Some
            &&& baby is Some ==> {
                &&& is_child(baby->0, node, controller, draw)
                &&& after.physical is Some
                &&& moved_by(q.energy, value(p.energy), -(12 as real))
                &&& moved_by(q.mass, value(p.mass), -ratio(3, 2))
                &&& q.structure == p.structure
                &&& value(after.reproduction->0.surplus_seconds) == 0 as real
                &&& value(after.reproduction->0.cooldown_seconds) == 20 as real
            }
            &&& baby is None ==> {
                &&& after == (Node { reproduction: after.reproduction, ..node })
                &&& if has_surplus(node) {
                    moved_by(
                        after.reproduction->0.surplus_seconds,
                        value(node.reproduction->0.surplus_seconds),
                        value(num(FIXED_DT)),
                    )
                } else {
                    value(after.reproduction->0.surplus_seconds) == 0 as real
                }
                &&& value(node.reproduction->0.cooldown_seconds) <= value(num(FIXED_DT)) ==> value(
                    after.reproduction->0.cooldown_seconds,
                ) == 0 as real
                &&& value(node.reproduction->0.cooldown_seconds) > value(num(FIXED_DT)) ==> moved_by(
                    after.reproduction->0.cooldown_seconds,
                    value(node.reproduction->0.cooldown_seconds),
                    -value(num(FIXED_DT)),
                )
            }
        }),
{
    lemma_birth_numbers();
    lemma_step_length();
    lemma_value_zero();
    let p = node.physical->0;
    let r = node.reproduction->0;
    let dt = num(FIXED_DT);
    lemma_near_bounds(dt, ratio(1, 60), 1, 0 as real, 1 as real);
    lemma_value_order(num(REPRODUCTION_ENERGY_THRESHOLD), p.energy);
    lemma_value_order(num(PARENT_MASS), p.mass);
    lemma_modest_fits(r.cooldown_seconds, dt);
    lemma_modest_fits(r.surplus_seconds, dt);
    lemma_value_minus(r.cooldown_seconds, dt);
    lemma_value_sum(r.surplus_seconds, dt);
    lemma_rest(value(r.cooldown_seconds), value(dt), value(r.cooldown_seconds.minus(dt)));
    let left = r.cooldown_seconds.minus(dt);
    lemma_value_sign(left);
    lemma_value_order(left, num(0));
    assert(crate::binary32::model::grid(0) == 0);
    let waited = r.surplus_seconds.plus(dt);
    lemma_value_order(waited, num(REPRODUCTION_SURPLUS_SECONDS));
    assert(moved_by(waited, value(r.surplus_seconds), value(dt)));
    lemma_modest_fits(p.energy, num(REPRODUCTION_ENERGY_COST));
    lemma_modest_fits(p.mass, num(REPRODUCTION_MASS_COST));
    lemma_value_minus(p.energy, num(REPRODUCTION_ENERGY_COST));
    lemma_value_minus(p.mass, num(REPRODUCTION_MASS_COST));
    lemma_amount_valid(num(REPRODUCTION_ENERGY_COST));
    lemma_value_order(p.energy, num(REPRODUCTION_ENERGY_COST));
}

/// A difference that is rounded keeps its sign.
proof fn lemma_rest(a: real, b: real, d: real)
    requires
        mag(d - (a - b)) <= eps() * mag(a - b),
    ensures
        d <= 0 as real <==> a <= b,
{
    let m = mag(a - b);
    assert(eps() * m <= m / 2 as real) by (nonlinear_arith)
        requires
            m >= 0 as real,
            eps() == 1 as real / 0x100_0000 as real,
    ;
}

/// The numbers of births.
proof fn lemma_birth_numbers()
    ensures
        num(REPRODUCTION_ENERGY_THRESHOLD).finite(),
        value(num(REPRODUCTION_ENERGY_THRESHOLD)) == 32 as real,
        num(PARENT_MASS).finite(),
        value(num(PARENT_MASS)) == 2 as real,
        num(REPRODUCTION_SURPLUS_SECONDS).finite(),
        value(num(REPRODUCTION_SURPLUS_SECONDS)) == 5 as real,
        num(REPRODUCTION_ENERGY_COST).finite(),
        num(REPRODUCTION_ENERGY_COST).units() > 0,
        value(num(REPRODUCTION_ENERGY_COST)) == 12 as real,
        num(REPRODUCTION_MASS_COST).finite(),
        value(num(REPRODUCTION_MASS_COST)) == ratio(3, 2),
        value(num(REPRODUCTION_COOLDOWN_SECONDS)) == 20 as real,
        ratio(3, 2) == 3 as real / 2 as real,
{
    lemma2_to64();
    lemma_decimal(REPRODUCTION_ENERGY_THRESHOLD, 0x80_0000, 131, 32, 1);
    lemma_decimal(PARENT_MASS, 0x80_0000, 127, 2, 1);
    lemma_decimal(REPRODUCTION_SURPLUS_SECONDS, 0xa0_0000, 128, 5, 1);
    lemma_decimal(REPRODUCTION_ENERGY_COST, 0xc0_0000, 129, 12, 1);
    lemma_decimal(REPRODUCTION_MASS_COST, 0xc0_0000, 126, 3, 2);
    lemma_decimal(REPRODUCTION_COOLDOWN_SECONDS, 0xa0_0000, 130, 20, 1);
    lemma_whole_ratio(32);
    lemma_whole_ratio(2);
    lemma_whole_ratio(5);
    lemma_whole_ratio(12);
    lemma_whole_ratio(20);
}

/// A whole number over one.
pub proof fn lemma_whole_ratio(n: int)
    ensures
        ratio(n, 1) == n as real,
{
    let x = n as real;
    assert(x / 1 as real == x) by (nonlinear_arith);
}

/// A child's tuning is its parent's, with the drawn changes, held within bounds: a
/// sensor radius from 4 to 32, from 1 to 64 neighbors, and a threshold of at least 1.
pub proof fn lemma_tuning_mutates_within_bounds(tuning: AgentTuning, draw: BirthDraw)
    requires
        modest(tuning.sensor_radius),
        modest(tuning.yield_threshold),
        modest(draw.sensor),
        modest(draw.yield_threshold),
    ensures
        ({
            let t = child_tuning(tuning, draw);
            let (r, y) = (
                value(tuning.sensor_radius) * value(draw.sensor),
                value(tuning.yield_threshold) * value(draw.yield_threshold),
            );
            &&& t.sensor_radius.finite()
            &&& 4 as real <= value(t.sensor_radius) <= 32 as real
            &&& value(t.sensor_radius) == 4 as real || value(t.sensor_radius) == 32 as real || near(
                t.sensor_radius,
                r,
                2,
                tiny(),
            )
            &&& r >= 5 as real && r <= 31 as real ==> near(t.sensor_radius, r, 2, tiny())
            &&& 1 <= t.max_neighbors <= 64
            &&& 1 <= tuning.max_neighbors <= 64 ==> t.max_neighbors == tuning.max_neighbors
            &&& t.yield_threshold.finite()
            &&& value(t.yield_threshold) >= 1 as real
            &&& value(t.yield_threshold) == 1 as real || near(t.yield_threshold, y, 2, tiny())
            &&& y >= 2 as real ==> near(t.yield_threshold, y, 2, tiny())
        }),
{
    lemma_tiny();
    lemma2_to64();
    lemma_decimal(SENSOR_FLOOR, 0x80_0000, 128, 4, 1);
    lemma_decimal(SENSOR_CEILING, 0x80_0000, 131, 32, 1);
    lemma_decimal(ONE, 0x80_0000, 126, 1, 1);
    lemma_whole_ratio(4);
    lemma_whole_ratio(32);
    lemma_whole_ratio(1);
    lemma_exact_product(tuning.sensor_radius, draw.sensor);
    lemma_exact_product(tuning.yield_threshold, draw.yield_threshold);
    let r = tuning.sensor_radius.times(draw.sensor);
    let y = tuning.yield_threshold.times(draw.yield_threshold);
    lemma_value_order(r, num(SENSOR_FLOOR));
    lemma_value_order(num(SENSOR_CEILING), r);
    lemma_value_order(y, num(ONE));
}

/// A product of exact numbers.
proof fn lemma_exact_product(a: Binary32, b: Binary32)
    requires
        modest(a),
        modest(b),
    ensures
        near(a.times(b), value(a) * value(b), 2, tiny()),
        mag(value(a.times(b)) - value(a) * value(b)) <= mag(value(a) * value(b)) / 1000 as real
            + 1 as real / 1000 as real,
{
    lemma_tiny();
    lemma_modest_fits(a, b);
    lemma_near_self(a);
    lemma_near_self(b);
    let o = 0 as real;
    lemma_near_product(a, b, value(a), value(b), 0, 0, o, o);
    lemma_no_slack(value(a), value(b), tiny());
    let m = mag(value(a) * value(b));
    assert(2 as real * (eps() * m) <= m / 1000 as real) by (nonlinear_arith)
        requires
            m >= 0 as real,
            eps() == 1 as real / 0x100_0000 as real,
    ;
}

} // verus!
