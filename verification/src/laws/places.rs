//! Who is listed, and where what is put.

use crate::actuation::graspable;
use crate::actuation::CLAMP_REACH_SQUARED;
use crate::agents::probe_position;
use crate::binary32::model::Binary32;
use crate::binary32::order::num;
use crate::binary32::value::lemma_decimal;
use crate::binary32::value::lemma_large;
use crate::binary32::value::lemma_modest_fits;
use crate::binary32::value::lemma_near_bounds;
use crate::binary32::value::lemma_near_product;
use crate::binary32::value::lemma_near_self;
use crate::binary32::value::lemma_plus_fits;
use crate::binary32::value::lemma_product_within;
use crate::binary32::value::lemma_tiny;
use crate::binary32::value::lemma_value_order;
use crate::binary32::value::lemma_value_sum;
use crate::binary32::value::modest;
use crate::binary32::value::near;
use crate::binary32::value::tiny;
use crate::binary32::value::value;
use crate::components::node_of;
use crate::components::Node;
use crate::interface::vector::Rotation;
use crate::interface::vector::Vec2Lite;
use crate::interface::vector::TWO;
use crate::laws::births::lemma_whole_ratio;
use crate::laws::heat::lemma_no_slack;
use crate::laws::heat::moved_by;
use crate::lineage::child;
use crate::lineage::departed;
use crate::lineage::lives;
use crate::lineage::living;
use crate::lineage::ActiveAgentRecord;
use crate::lineage::AgentSnapshot;
use crate::lineage::BirthDraw;
use crate::world::bodies;
use vstd::arithmetic::power2::lemma2_to64;
use vstd::prelude::*;

verus! {

/// The entry is of the node: its number and place.
pub open spec fn lists(entry: (u64, Vec2Lite), node: Node) -> bool {
    &&& node.physical is Some
    &&& entry.0 == node.entity
    &&& entry.1 == node.position
}

/// Every node with matter is listed with its number and place, and nothing else is.
pub proof fn lemma_every_body_is_listed(nodes: Seq<Node>)
    ensures
        forall|i: int|
            0 <= i < nodes.len() && (#[trigger] nodes[i]).physical is Some ==> exists|k: int|
                0 <= k < bodies(nodes).len() && lists(#[trigger] bodies(nodes)[k], nodes[i]),
        forall|k: int|
            #![trigger bodies(nodes)[k]]
            0 <= k < bodies(nodes).len() ==> exists|i: int|
                0 <= i < nodes.len() && lists(bodies(nodes)[k], #[trigger] nodes[i]),
    decreases nodes.len(),
{
    if nodes.len() > 0 {
        let less = nodes.drop_last();
        lemma_every_body_is_listed(less);
        let (all, rest) = (bodies(nodes), bodies(less));
        assert forall|i: int|
            0 <= i < nodes.len() && (#[trigger] nodes[i]).physical is Some implies exists|k: int|
            0 <= k < all.len() && lists(#[trigger] all[k], nodes[i]) by {
            if i < less.len() {
                assert(less[i] == nodes[i]);
                let k = choose|k: int| 0 <= k < rest.len() && lists(#[trigger] rest[k], less[i]);
                assert(all[k] == rest[k]);
            } else {
                assert(lists(all[rest.len() as int], nodes[i]));
            }
        }
        assert forall|k: int| #![trigger all[k]] 0 <= k < all.len() implies exists|i: int|
            0 <= i < nodes.len() && lists(all[k], #[trigger] nodes[i]) by {
            if k < rest.len() {
                assert(rest[k] == all[k]);
                let i = choose|i: int| 0 <= i < less.len() && lists(rest[k], #[trigger] less[i]);
                assert(nodes[i] == less[i]);
            } else {
                assert(lists(all[k], nodes[nodes.len() - 1]));
            }
        }
    }
}

/// The record is of the agent in the node.
pub open spec fn records(r: ActiveAgentRecord, node: Node) -> bool {
    &&& node.marker is Some && node.ledger is Some
    &&& r.entity == node.entity
    &&& r.marker == node.marker->0
    &&& r.ledger == node.ledger->0
}

/// Every agent with a ledger is recorded as it is, and nobody else.
pub proof fn lemma_every_agent_is_recorded(nodes: Seq<Node>)
    ensures
        forall|i: int|
            0 <= i < nodes.len() && (#[trigger] nodes[i]).marker is Some && nodes[i].ledger is Some
                ==> exists|k: int|
                0 <= k < living(nodes).len() && records(#[trigger] living(nodes)[k], nodes[i]),
        forall|k: int|
            #![trigger living(nodes)[k]]
            0 <= k < living(nodes).len() ==> exists|i: int|
                0 <= i < nodes.len() && records(living(nodes)[k], #[trigger] nodes[i]),
    decreases nodes.len(),
{
    if nodes.len() > 0 {
        let less = nodes.drop_last();
        lemma_every_agent_is_recorded(less);
        let (all, rest) = (living(nodes), living(less));
        assert forall|i: int|
            0 <= i < nodes.len() && (#[trigger] nodes[i]).marker is Some
                && nodes[i].ledger is Some implies exists|k: int|
            0 <= k < all.len() && records(#[trigger] all[k], nodes[i]) by {
            if i < less.len() {
                assert(less[i] == nodes[i]);
                let k = choose|k: int|
                    0 <= k < rest.len() && records(#[trigger] rest[k], less[i]);
                assert(all[k] == rest[k]);
            } else {
                assert(records(all[rest.len() as int], nodes[i]));
            }
        }
        assert forall|k: int| #![trigger all[k]] 0 <= k < all.len() implies exists|i: int|
            0 <= i < nodes.len() && records(all[k], #[trigger] nodes[i]) by {
            if k < rest.len() {
                assert(rest[k] == all[k]);
                let i = choose|i: int|
                    0 <= i < less.len() && records(rest[k], #[trigger] less[i]);
                assert(nodes[i] == less[i]);
            } else {
                assert(records(all[k], nodes[nodes.len() - 1]));
            }
        }
    }
}

/// The outcome tells the end of a recorded life.
pub open spec fn tells_the_end(s: AgentSnapshot, r: ActiveAgentRecord, step: u32) -> bool {
    &&& !s.alive
    &&& s.step == step
    &&& s.entity == r.entity
    &&& s.generation == r.marker.generation
    &&& s.lineage == r.marker.lineage
    &&& s.harvested == r.ledger.harvested
    &&& s.consumed_from_others == r.ledger.consumed_from_others
    &&& s.vented == r.ledger.vented
    &&& s.born_step == r.ledger.born_step
}

/// Whoever was recorded and lives no more has an outcome, and nobody who lives.
pub proof fn lemma_the_departed_have_outcomes(
    list: Seq<ActiveAgentRecord>,
    now: Seq<ActiveAgentRecord>,
    step: u32,
)
    ensures
        forall|i: int|
            0 <= i < list.len() && !lives(now, (#[trigger] list[i]).entity) ==> exists|k: int|
                0 <= k < departed(list, now, step).len() && tells_the_end(
                    #[trigger] departed(list, now, step)[k],
                    list[i],
                    step,
                ),
        forall|k: int|
            #![trigger departed(list, now, step)[k]]
            0 <= k < departed(list, now, step).len() ==> !lives(
                now,
                departed(list, now, step)[k].entity,
            ),
    decreases list.len(),
{
    if list.len() > 0 {
        let less = list.drop_last();
        lemma_the_departed_have_outcomes(less, now, step);
        let (all, rest) = (departed(list, now, step), departed(less, now, step));
        assert forall|i: int|
            0 <= i < list.len() && !lives(now, (#[trigger] list[i]).entity) implies exists|k: int|
            0 <= k < all.len() && tells_the_end(#[trigger] all[k], list[i], step) by {
            if i < less.len() {
                assert(less[i] == list[i]);
                let k = choose|k: int|
                    0 <= k < rest.len() && tells_the_end(#[trigger] rest[k], less[i], step);
                assert(all[k] == rest[k]);
            } else {
                assert(tells_the_end(all[rest.len() as int], list[i], step));
            }
        }
        assert forall|k: int| #![trigger all[k]] 0 <= k < all.len() implies !lives(
            now,
            all[k].entity,
        ) by {
            if k < rest.len() {
                assert(rest[k] == all[k]);
            }
        }
    }
}

/// A clamp reaches other nodes with a mask whose distance squared is at most 144.
pub proof fn lemma_clamp_reaches_twelve(nodes: Seq<Node>, entity: u64, pos: Vec2Lite, other: u64)
    requires
        node_of(nodes, other) is Some,
        node_of(nodes, other)->0.position.distance_squared(pos).finite(),
    ensures
        graspable(nodes, entity, pos, other) <==> {
            &&& other != entity
            &&& node_of(nodes, other)->0.tags is Some
            &&& value(node_of(nodes, other)->0.position.distance_squared(pos)) <= 144 as real
        },
{
    lemma2_to64();
    lemma_decimal(CLAMP_REACH_SQUARED, 0x90_0000, 133, 144, 1);
    lemma_whole_ratio(144);
    lemma_value_order(
        num(CLAMP_REACH_SQUARED),
        node_of(nodes, other)->0.position.distance_squared(pos),
    );
}

/// One part of a place: twice the direction away.
pub open spec fn two_away(after: Binary32, before: Binary32, direction: Binary32) -> bool {
    exists|step: Binary32| #[trigger]
        near(step, value(direction) * 2 as real, 2, tiny()) && moved_by(
            after,
            value(before),
            value(step),
        )
}

/// A child is put two away from its parent, in the direction that was drawn.
pub proof fn lemma_child_is_put_two_away(node: Node, step: u64, controller: u64, draw: BirthDraw)
    requires
        modest(node.position.x),
        modest(node.position.y),
        modest(draw.direction.x),
        modest(draw.direction.y),
    ensures
        two_away(
            child(node, step, controller, draw).position.x,
            node.position.x,
            draw.direction.x,
        ),
        two_away(
            child(node, step, controller, draw).position.y,
            node.position.y,
            draw.direction.y,
        ),
{
    lemma_two_away(node.position.x, draw.direction.x);
    lemma_two_away(node.position.y, draw.direction.y);
}

/// One part of a place.
proof fn lemma_two_away(before: Binary32, direction: Binary32)
    requires
        modest(before),
        modest(direction),
    ensures
        two_away(before.plus(direction.times(num(TWO))), before, direction),
{
    lemma_tiny();
    lemma_large();
    lemma2_to64();
    lemma_decimal(TWO, 0x80_0000, 127, 2, 1);
    lemma_whole_ratio(2);
    let c = num(TWO);
    let (x, q, o) = (value(direction), 2 as real, 0 as real);
    lemma_modest_fits(direction, c);
    lemma_near_self(direction);
    lemma_near_self(c);
    lemma_near_product(direction, c, x, q, 0, 0, o, o);
    lemma_no_slack(x, q, tiny());
    let step = direction.times(c);
    assert(near(step, x * q, 2, tiny()));
    lemma_product_within(x, q, 0x4000_0000 as real, 2 as real);
    lemma_near_bounds(step, x * q, 2, tiny(), 0x8000_0000 as real);
    lemma_plus_fits(before, step);
    lemma_value_sum(before, step);
}

/// The place is where the vector leads from the agent, in its own frame.
pub open spec fn probes_at(at: Vec2Lite, pos: Vec2Lite, rotation: Rotation, d: Vec2Lite) -> bool {
    at.x == pos.x.plus(rotation.rotate(d).x) && at.y == pos.y.plus(rotation.rotate(d).y)
}

/// Probes stand around the agent: the first at the agent, each other where its
/// direction, as long as the radius, leads in the agent's frame.
pub proof fn lemma_probes_stand_around(
    pos: Vec2Lite,
    rotation: Rotation,
    radius: Binary32,
    direction: Vec2Lite,
)
    requires
        modest(direction.x),
        modest(direction.y),
        modest(radius),
    ensures
        exists|d: Vec2Lite| #[trigger]
            probes_at(probe_position(pos, rotation, radius, Some(direction)), pos, rotation, d)
                && near(d.x, value(direction.x) * value(radius), 2, tiny()) && near(
                d.y,
                value(direction.y) * value(radius),
                2,
                tiny(),
            ),
        probes_at(
            probe_position(pos, rotation, radius, None),
            pos,
            rotation,
            Vec2Lite { x: num(0), y: num(0) },
        ),
{
    let d = direction.scaled(radius);
    lemma_tiny();
    lemma_modest_fits(direction.x, radius);
    lemma_modest_fits(direction.y, radius);
    lemma_near_self(direction.x);
    lemma_near_self(direction.y);
    lemma_near_self(radius);
    let o = 0 as real;
    lemma_near_product(direction.x, radius, value(direction.x), value(radius), 0, 0, o, o);
    lemma_near_product(direction.y, radius, value(direction.y), value(radius), 0, 0, o, o);
    lemma_no_slack(value(direction.x), value(radius), tiny());
    lemma_no_slack(value(direction.y), value(radius), tiny());
    assert(probes_at(probe_position(pos, rotation, radius, Some(direction)), pos, rotation, d));
}

} // verus!
