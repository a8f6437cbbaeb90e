//! What an agent is shown, as numbers.

use crate::agents::channel;
use crate::agents::field_block;
use crate::agents::lemma_sightings_sorted;
use crate::agents::observed;
use crate::agents::placed;
use crate::agents::self_block;
use crate::agents::sight;
use crate::agents::sightings;
use crate::agents::view_of;
use crate::agents::visible;
use crate::agents::Probe;
use crate::agents::Sighting;
use crate::agents::REPRODUCTION_THRESHOLD;
use crate::binary32::model::Binary32;
use crate::binary32::order::num;
use crate::binary32::value::eps;
use crate::binary32::value::lemma_decimal;
use crate::binary32::value::lemma_modest_fits;
use crate::binary32::value::lemma_value_minus;
use crate::binary32::value::lemma_value_order;
use crate::binary32::value::lemma_value_sign;
use crate::binary32::value::lemma_value_zero;
use crate::binary32::value::mag;
use crate::binary32::value::modest;
use crate::binary32::value::near;
use crate::binary32::value::ratio;
use crate::binary32::value::value;
use crate::components::lemma_place;
use crate::components::node_of;
use crate::components::place_of;
use crate::components::AgentTuning;
use crate::components::Node;
use crate::fragmentation::OPEN_CONDUCTIVITY;
use crate::interface::observation::NeighborView;
use crate::interface::observation::ObservationTensor;
use crate::interface::vector::Rotation;
use crate::interface::vector::Vec2Lite;
use crate::laws::vectors::lemma_seen_offset;
use crate::laws::vectors::lemma_turn_back_value;
use crate::laws::vectors::modest_vector;
use crate::laws::vectors::planar;
use crate::laws::vectors::seen_offset;
use crate::laws::vectors::turned_back;
use crate::spatial_hash::SpatialHash;
use vstd::arithmetic::power2::lemma2_to64;
use vstd::prelude::*;

verus! {

/// The view shows the other node from the agent: where it is and how it moves
/// relative to the agent, in the agent's own frame, and what it is.
pub open spec fn shows(view: NeighborView, node: Node, other: Node) -> bool {
    &&& view.valid
    &&& planar(node.rotation) && modest_vector(other.position) && modest_vector(node.position)
        ==> seen_offset(view.rel_pos, other.position, node.position, node.rotation)
    &&& planar(node.rotation) && modest_vector(other.motion()) && modest_vector(node.motion())
        ==> seen_offset(view.rel_vel, other.motion(), node.motion(), node.rotation)
    &&& other.physical is Some && view.mass == other.physical->0.mass
    &&& view.structure == other.physical->0.structure
    &&& view.energy == other.physical->0.energy
    &&& other.tags matches Some(t) && view.tags == t.0.0
    &&& match other.conductivity {
        Some(c) => view.conductivity == c.0,
        None => near(view.conductivity, ratio(6, 10), 1, 0 as real),
    }
    &&& match other.oscillator {
        Some(o) => view.osc_freq == o.freq && view.osc_phase == o.phase,
        None => value(view.osc_freq) == 0 as real && value(view.osc_phase) == 0 as real,
    }
}

/// A view of a node shows that node.
pub proof fn lemma_view_shows_the_other(node: Node, other: Node)
    requires
        other.physical is Some,
        other.tags is Some,
    ensures
        shows(view_of(node, other), node, other),
{
    lemma2_to64();
    lemma_decimal(OPEN_CONDUCTIVITY, 0x99_999a, 125, 6, 10);
    lemma_value_zero();
    if planar(node.rotation) && modest_vector(other.position) && modest_vector(node.position) {
        lemma_seen_offset(other.position, node.position, node.rotation);
    }
    if planar(node.rotation) && modest_vector(other.motion()) && modest_vector(node.motion()) {
        lemma_seen_offset(other.motion(), node.motion(), node.rotation);
    }
}

/// Where a neighbor is seen does not depend on how either moves, and how it is seen
/// to move does not depend on where either is.
pub proof fn lemma_place_and_motion_are_told_apart(
    node: Node,
    other: Node,
    changed: Node,
    changed_other: Node,
)
    requires
        node.rotation == changed.rotation,
    ensures
        node.position == changed.position && other.position == changed_other.position ==> view_of(
            node,
            other,
        ).rel_pos == view_of(changed, changed_other).rel_pos,
        node.motion() == changed.motion() && other.motion() == changed_other.motion() ==> view_of(
            node,
            other,
        ).rel_vel == view_of(changed, changed_other).rel_vel,
{
}

/// What an agent is shown of itself: its velocity in its own frame, its mass, its
/// structure, its energy, its oscillator, and its energy above 32.
pub open spec fn tells_self(obs: ObservationTensor, node: Node) -> bool {
    let (p, o) = (node.physical->0, node.oscillator->0);
    let own = obs.self_state@;
    &&& own.len() == 8
    &&& vector_shown(own[0], own[1], node.motion(), node)
    &&& own[2] == p.mass
    &&& own[3] == p.structure
    &&& own[4] == p.energy
    &&& own[5] == o.freq
    &&& own[6] == o.phase
    &&& surplus_shown(own[7], p.energy)
}

/// The number is the energy above 32, or nothing where there is no more than that.
#[verifier::opaque]
pub open spec fn surplus_shown(surplus: Binary32, energy: Binary32) -> bool {
    &&& modest(energy) && value(energy) <= 32 as real ==> value(surplus) == 0 as real
    &&& modest(energy) && value(energy) > 32 as real ==> surplus.finite() && mag(
        value(surplus) - (value(energy) - 32 as real),
    ) <= eps() * (value(energy) - 32 as real)
}

/// What an agent is shown of the fields: for each field in turn, and for each of
/// the four probes, the value and the gradient in the agent's own frame.
pub open spec fn tells_fields(obs: ObservationTensor, node: Node, probes: Seq<Probe>) -> bool {
    let f = obs.field@;
    &&& f.len() == 36
    &&& forall|p: int|
        #![trigger probes[p]]
        0 <= p < 4 ==> probe_told(f, node, probes[p], p)
}

/// What is told of the probe `p`.
pub open spec fn probe_told(f: Seq<Binary32>, node: Node, probe: Probe, p: int) -> bool {
    &&& f[3 * p] == probe.sample.kinetic
    &&& f[12 + 3 * p] == probe.sample.thermal
    &&& f[24 + 3 * p] == probe.sample.em
    &&& vector_shown(f[3 * p + 1], f[3 * p + 2], probe.kinetic_gradient, node)
    &&& vector_shown(f[12 + 3 * p + 1], f[12 + 3 * p + 2], probe.thermal_gradient, node)
    &&& vector_shown(f[24 + 3 * p + 1], f[24 + 3 * p + 2], probe.em_gradient, node)
}

/// The two numbers are the vector as it is seen from the node.
#[verifier::opaque]
pub open spec fn vector_shown(
    x: Binary32,
    y: Binary32,
    gradient: Vec2Lite,
    node: Node,
) -> bool {
    planar(node.rotation) && modest_vector(gradient) ==> turned_back(
        Vec2Lite { x, y },
        value(gradient.x),
        value(gradient.y),
        node.rotation,
    )
}

/// An observation tells an agent its own state and the fields at its probes.
pub proof fn lemma_observation_tells_self_and_fields(
    obs: ObservationTensor,
    nodes: Seq<Node>,
    hash: SpatialHash,
    node: Node,
    tuning: AgentTuning,
    step: u64,
    probes: Seq<Probe>,
)
    requires
        observed(obs, nodes, hash, node, tuning, step, probes),
    ensures
        obs.step == step,
        obs.entity_id == node.entity,
        obs.config.max_neighbors == tuning.max_neighbors,
        obs.config.sensor_radius == tuning.sensor_radius,
        obs.config.field_samples == 4,
        obs.config.field_channels == 3,
        tells_self(obs, node),
        tells_fields(obs, node, probes),
{
    lemma_self_is_told(obs, node);
    lemma_fields_are_told(obs, node, probes);
}

/// The state of the agent itself.
proof fn lemma_self_is_told(obs: ObservationTensor, node: Node)
    requires
        obs.self_state@ == self_block(node),
    ensures
        tells_self(obs, node),
{
    let own = obs.self_state@;
    lemma_slope(node.motion(), node);
    lemma_surplus(node.physical->0.energy);
    assert(own[0] == node.rotation.inverse().rotate(node.motion()).x);
    assert(own[1] == node.rotation.inverse().rotate(node.motion()).y);
    assert(own[7] == node.physical->0.energy.minus(num(REPRODUCTION_THRESHOLD)).max(num(0)));
}

/// The energy above the threshold of reproduction.
proof fn lemma_surplus(e: Binary32)
    ensures
        surplus_shown(e.minus(num(REPRODUCTION_THRESHOLD)).max(num(0)), e),
{
    reveal(surplus_shown);
    let limit = num(REPRODUCTION_THRESHOLD);
    lemma2_to64();
    lemma_decimal(REPRODUCTION_THRESHOLD, 0x80_0000, 131, 32, 1);
    assert(ratio(32, 1) == 32 as real);
    lemma_value_zero();
    assert(crate::binary32::model::grid(0) == 0);
    if modest(e) {
        lemma_modest_fits(e, limit);
        lemma_value_minus(e, limit);
        let d = e.minus(limit);
        lemma_value_sign(d);
        lemma_value_order(d, num(0));
        let m = mag(value(e) - 32 as real);
        assert(0 as real <= eps() * m && eps() * m <= m / 2 as real) by (nonlinear_arith)
            requires
                m >= 0 as real,
                eps() == 1 as real / 0x100_0000 as real,
        ;
    }
}

/// The fields at the probes, one after another.
proof fn lemma_fields_are_told(obs: ObservationTensor, node: Node, probes: Seq<Probe>)
    requires
        obs.field@ == field_block(probes, node.rotation.inverse()),
    ensures
        tells_fields(obs, node, probes),
{
    assert forall|p: int| #![trigger probes[p]] 0 <= p < 4 implies probe_told(
        obs.field@,
        node,
        probes[p],
        p,
    ) by {
        let inverse = node.rotation.inverse();
        lemma_probe_is_told(node, probes, inverse, p, 0);
        lemma_probe_is_told(node, probes, inverse, p, 1);
        lemma_probe_is_told(node, probes, inverse, p, 2);
    }
}

/// One field at one probe.
proof fn lemma_probe_is_told(node: Node, probes: Seq<Probe>, inverse: Rotation, p: int, f: int)
    requires
        inverse == node.rotation.inverse(),
        0 <= p < 4,
        0 <= f < 3,
    ensures
        ({
            let block = field_block(probes, inverse);
            let k = 12 * f + 3 * p;
            &&& block[k] == probes[p].value(f)
            &&& vector_shown(block[k + 1], block[k + 2], probes[p].gradient(f), node)
        }),
{
    let k = 12 * f + 3 * p;
    assert(k / 3 == 4 * f + p && (4 * f + p) % 4 == p && k / 12 == f && k % 3 == 0);
    assert((k + 1) / 3 == 4 * f + p && (k + 1) / 12 == f && (k + 1) % 3 == 1);
    assert((k + 2) / 3 == 4 * f + p && (k + 2) / 12 == f && (k + 2) % 3 == 2);
    let block = field_block(probes, inverse);
    assert(block[k] == channel(probes[p], inverse, f, 0));
    assert(block[k + 1] == channel(probes[p], inverse, f, 1));
    assert(block[k + 2] == channel(probes[p], inverse, f, 2));
    lemma_slope(probes[p].gradient(f), node);
}

/// A gradient, turned back.
proof fn lemma_slope(gradient: Vec2Lite, node: Node)
    ensures
        vector_shown(
            node.rotation.inverse().rotate(gradient).x,
            node.rotation.inverse().rotate(gradient).y,
            gradient,
            node,
        ),
{
    reveal(vector_shown);
    if planar(node.rotation) && modest_vector(gradient) {
        lemma_turn_back_value(node.rotation, gradient);
    }
}

/// The other node is in sight: it has matter and tags, and is within the radius.
pub open spec fn in_sight(
    nodes: Seq<Node>,
    node: Node,
    radius: Binary32,
    other: Node,
) -> bool {
    &&& other.entity != node.entity
    &&& other.physical is Some && other.tags is Some
    &&& !radius.times(radius).lt(other.position.minus(node.position).length_squared())
}

/// Every neighbor that is shown is a node in sight, shown as it is, and every node
/// in sight that the index lists is shown, or each of the places is taken by one
/// that is no further away. Places that are left over show nothing.
pub proof fn lemma_neighbors_are_those_in_sight(
    obs: ObservationTensor,
    nodes: Seq<Node>,
    hash: SpatialHash,
    node: Node,
    tuning: AgentTuning,
    step: u64,
    probes: Seq<Probe>,
)
    requires
        observed(obs, nodes, hash, node, tuning, step, probes),
        forall|k: int| 0 <= k < nodes.len() ==> !sight(node, #[trigger] nodes[k]).nan(),
    ensures
        obs.neighbors@.len() == tuning.max_neighbors,
        forall|i: int|
            0 <= i < obs.neighbors@.len() && (#[trigger] obs.neighbors@[i]).valid ==> exists|k: int|
                0 <= k < nodes.len() && in_sight(
                    nodes,
                    node,
                    tuning.sensor_radius,
                    #[trigger] nodes[k],
                ) && shows(obs.neighbors@[i], node, nodes[k]),
        forall|id: u64|
            #![trigger hash.found(node.position, tuning.sensor_radius).contains(id)]
            hash.found(node.position, tuning.sensor_radius).contains(id) && node_of(
                nodes,
                id,
            ) is Some && in_sight(nodes, node, tuning.sensor_radius, node_of(nodes, id)->0)
                ==> shown_or_crowded_out(obs, nodes, node, node_of(nodes, id)->0),
{
    let near = hash.found(node.position, tuning.sensor_radius);
    let radius = tuning.sensor_radius;
    let list = sightings(nodes, node, radius, near, near.len());
    lemma_sightings_sorted(nodes, node, radius, near, near.len());
    lemma_listed_are_in_sight(nodes, node, radius, near, near.len());
    assert forall|i: int|
        0 <= i < obs.neighbors@.len() && (#[trigger] obs.neighbors@[i]).valid implies exists|k: int|
        0 <= k < nodes.len() && in_sight(nodes, node, radius, #[trigger] nodes[k]) && shows(
            obs.neighbors@[i],
            node,
            nodes[k],
        ) by {
        assert(i < list.len());
        assert(of_a_node(nodes, node, radius, list[i]));
        let k = choose|k: int|
            0 <= k < nodes.len() && in_sight(nodes, node, radius, #[trigger] nodes[k]) && list[i]
                == (Sighting {
                distance: sight(node, nodes[k]),
                view: view_of(node, nodes[k]),
            });
        lemma_view_shows_the_other(node, nodes[k]);
    }
    assert forall|id: u64|
        #![trigger near.contains(id)]
        near.contains(id) && node_of(nodes, id) is Some && in_sight(
            nodes,
            node,
            radius,
            node_of(nodes, id)->0,
        ) implies shown_or_crowded_out(obs, nodes, node, node_of(nodes, id)->0) by {
        let other = node_of(nodes, id)->0;
        lemma_place(nodes, id);
        lemma_view_shows_the_other(node, other);
        let m = choose|m: int| 0 <= m < near.len() && near[m] == id;
        lemma_in_sight_is_listed(nodes, node, radius, near, near.len(), m);
        let j = choose|j: int|
            0 <= j < list.len() && #[trigger] list[j] == (Sighting {
                distance: sight(node, other),
                view: view_of(node, other),
            });
        if j < obs.neighbors@.len() {
            assert(shows(obs.neighbors@[j], node, other));
        } else {
            assert forall|i: int| 0 <= i < obs.neighbors@.len() implies exists|k: int|
                0 <= k < nodes.len() && no_further(node, #[trigger] nodes[k], other) && shows(
                    #[trigger] obs.neighbors@[i],
                    node,
                    nodes[k],
                ) by {
                assert(list[i].distance.le(list[j].distance));
                assert(of_a_node(nodes, node, radius, list[i]));
                let k = choose|k: int|
                    0 <= k < nodes.len() && in_sight(nodes, node, radius, #[trigger] nodes[k])
                        && list[i] == (Sighting {
                        distance: sight(node, nodes[k]),
                        view: view_of(node, nodes[k]),
                    });
                lemma_view_shows_the_other(node, nodes[k]);
                assert(no_further(node, nodes[k], other));
            }
        }
    }
}

/// The one node is no further from the agent than the other.
pub open spec fn no_further(node: Node, one: Node, other: Node) -> bool {
    one.position.minus(node.position).length_squared().le(
        other.position.minus(node.position).length_squared(),
    )
}

/// The other node is shown, or every place shows one that is no further away.
pub open spec fn shown_or_crowded_out(
    obs: ObservationTensor,
    nodes: Seq<Node>,
    node: Node,
    other: Node,
) -> bool {
    ||| exists|i: int|
        0 <= i < obs.neighbors@.len() && shows(#[trigger] obs.neighbors@[i], node, other)
    ||| forall|i: int|
        0 <= i < obs.neighbors@.len() ==> exists|k: int|
            0 <= k < nodes.len() && no_further(node, #[trigger] nodes[k], other) && shows(
                #[trigger] obs.neighbors@[i],
                node,
                nodes[k],
            )
}

/// What is placed in a list is in it, with all that was there.
proof fn lemma_placed_holds(list: Seq<Sighting>, s: Sighting)
    ensures
        exists|j: int| 0 <= j < placed(list, s).len() && #[trigger] placed(list, s)[j] == s,
        forall|i: int|
            0 <= i < list.len() ==> exists|j: int|
                0 <= j < placed(list, s).len() && #[trigger] placed(list, s)[j] == #[trigger] list[i],
        forall|j: int|
            0 <= j < placed(list, s).len() ==> #[trigger] placed(list, s)[j] == s || exists|i: int|
                0 <= i < list.len() && placed(list, s)[j] == #[trigger] list[i],
    decreases list.len(),
{
    let all = placed(list, s);
    if list.len() == 0 || !s.distance.lt(list.last().distance) {
        assert(all[list.len() as int] == s);
        assert forall|i: int| 0 <= i < list.len() implies exists|j: int|
            0 <= j < all.len() && #[trigger] all[j] == #[trigger] list[i] by {
            assert(all[i] == list[i]);
        }
    } else {
        let less = list.drop_last();
        let part = placed(less, s);
        lemma_placed_holds(less, s);
        let j = choose|j: int| 0 <= j < part.len() && #[trigger] part[j] == s;
        assert(all[j] == s);
        assert forall|i: int| 0 <= i < list.len() implies exists|j: int|
            0 <= j < all.len() && #[trigger] all[j] == #[trigger] list[i] by {
            if i < less.len() {
                assert(less[i] == list[i]);
                let j = choose|j: int| 0 <= j < part.len() && #[trigger] part[j] == less[i];
                assert(all[j] == list[i]);
            } else {
                assert(all[part.len() as int] == list[i]);
            }
        }
        assert forall|j: int| 0 <= j < all.len() implies #[trigger] all[j] == s || exists|i: int|
            0 <= i < list.len() && all[j] == #[trigger] list[i] by {
            if j < part.len() {
                assert(part[j] == all[j]);
                if part[j] != s {
                    let i = choose|i: int| 0 <= i < less.len() && part[j] == #[trigger] less[i];
                    assert(list[i] == all[j]);
                }
            } else {
                assert(all[j] == list[list.len() - 1]);
            }
        }
    }
}

/// The sighting is of a node in sight.
pub open spec fn of_a_node(nodes: Seq<Node>, node: Node, radius: Binary32, s: Sighting) -> bool {
    exists|k: int|
        0 <= k < nodes.len() && in_sight(nodes, node, radius, #[trigger] nodes[k]) && s == (
        Sighting { distance: sight(node, nodes[k]), view: view_of(node, nodes[k]) })
}

/// Every sighting is of a node in sight.
proof fn lemma_listed_are_in_sight(
    nodes: Seq<Node>,
    node: Node,
    radius: Binary32,
    near: Seq<u64>,
    n: nat,
)
    requires
        n <= near.len(),
    ensures
        forall|i: int|
            0 <= i < sightings(nodes, node, radius, near, n).len() ==> of_a_node(
                nodes,
                node,
                radius,
                #[trigger] sightings(nodes, node, radius, near, n)[i],
            ),
    decreases n,
{
    if n > 0 {
        lemma_listed_are_in_sight(nodes, node, radius, near, (n - 1) as nat);
        let rest = sightings(nodes, node, radius, near, (n - 1) as nat);
        if visible(nodes, node, radius, near[n - 1]) {
            lemma_place(nodes, near[n - 1]);
            let m = place_of(nodes, near[n - 1])->Some_0;
            let s = Sighting {
                distance: sight(node, nodes[m]),
                view: view_of(node, nodes[m]),
            };
            assert(in_sight(nodes, node, radius, nodes[m]));
            lemma_placed_holds(rest, s);
            let all = placed(rest, s);
            assert(all == sightings(nodes, node, radius, near, n));
            assert(of_a_node(nodes, node, radius, s));
            assert forall|i: int| 0 <= i < all.len() implies of_a_node(
                nodes,
                node,
                radius,
                #[trigger] all[i],
            ) by {
                if all[i] != s {
                    let j = choose|j: int| 0 <= j < rest.len() && all[i] == #[trigger] rest[j];
                    assert(of_a_node(nodes, node, radius, rest[j]));
                }
            }
        } else {
            assert(rest == sightings(nodes, node, radius, near, n));
        }
    }
}

/// Every node in sight has a sighting.
proof fn lemma_in_sight_is_listed(
    nodes: Seq<Node>,
    node: Node,
    radius: Binary32,
    near: Seq<u64>,
    n: nat,
    m: int,
)
    requires
        0 <= m < n <= near.len(),
        node_of(nodes, near[m]) is Some,
        in_sight(nodes, node, radius, node_of(nodes, near[m])->0),
    ensures
        exists|j: int|
            0 <= j < sightings(nodes, node, radius, near, n).len() && #[trigger] sightings(
                nodes,
                node,
                radius,
                near,
                n,
            )[j] == (Sighting {
                distance: sight(node, node_of(nodes, near[m])->0),
                view: view_of(node, node_of(nodes, near[m])->0),
            }),
    decreases n,
{
    let rest = sightings(nodes, node, radius, near, (n - 1) as nat);
    let other = node_of(nodes, near[m])->0;
    let s = Sighting { distance: sight(node, other), view: view_of(node, other) };
    lemma_place(nodes, near[m]);
    if m == n - 1 {
        assert(visible(nodes, node, radius, near[m]));
        lemma_placed_holds(rest, s);
        assert(placed(rest, s) == sightings(nodes, node, radius, near, n));
    } else {
        lemma_in_sight_is_listed(nodes, node, radius, near, (n - 1) as nat, m);
        let j = choose|j: int| 0 <= j < rest.len() && #[trigger] rest[j] == s;
        if visible(nodes, node, radius, near[n - 1]) {
            let last = node_of(nodes, near[n - 1])->Some_0;
            let t = Sighting { distance: sight(node, last), view: view_of(node, last) };
            lemma_placed_holds(rest, t);
            assert(rest[j] == s);
            assert(placed(rest, t) == sightings(nodes, node, radius, near, n));
        } else {
            assert(rest == sightings(nodes, node, radius, near, n));
        }
    }
}

} // verus!
