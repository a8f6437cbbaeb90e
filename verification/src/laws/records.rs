//! Where each number stands in what is sent and kept.

use crate::binary32::model::Binary32;
use crate::binary32::value::value;
use crate::components::Node;
use crate::interface::action::ActionTensor;
use crate::interface::header::WireHeader;
use crate::interface::observation::NeighborView;
use crate::interface::vector::Rotation;
use crate::server::wire::action_header;
use crate::server::wire::words_bytes;
use crate::snapshot::canonical;
use crate::snapshot::restoration::revived;
use crate::snapshot::CanonicalNode;
use vstd::prelude::*;

verus! {

/// Words go out lowest byte first: each word is what its four bytes make, each byte
/// worth 256 times the one before.
pub proof fn lemma_words_go_out_lowest_byte_first(words: Seq<u32>, i: int)
    requires
        0 <= i < words.len(),
    ensures
        words_bytes(words).len() == 4 * words.len(),
        words[i] == words_bytes(words)[4 * i] + 256 * words_bytes(words)[4 * i + 1] + 65536
            * words_bytes(words)[4 * i + 2] + 16777216 * words_bytes(words)[4 * i + 3],
{
    let b = words_bytes(words);
    let w = words[i];
    assert((4 * i) / 4 == i && (4 * i + 1) / 4 == i && (4 * i + 2) / 4 == i && (4 * i + 3) / 4
        == i);
    assert(b[4 * i] == (w % 0x100) as u8);
    assert(b[4 * i + 1] == (w / 0x100 % 0x100) as u8);
    assert(b[4 * i + 2] == (w / 0x1_0000 % 0x100) as u8);
    assert(b[4 * i + 3] == (w / 0x100_0000) as u8);
}

/// A long number goes out in two words, the low one first.
pub proof fn lemma_long_numbers_go_out_low_word_first(h: WireHeader)
    ensures
        h.words().len() == 14,
        h.words()[1] == h.version,
        h.words()[2] == h.frame_kind,
        h.words()[3] == h.frame_bytes,
        h.words()[4] + 4294967296 * h.words()[5] == h.step,
        h.words()[6] + 4294967296 * h.words()[7] == h.entity_id,
        h.words()[8] == h.max_neighbors,
        h.words()[9] == h.neighbor_count,
        h.words()[10] == h.field_samples,
        h.words()[11] == h.field_channels,
        h.words()[12] == h.payload_floats,
        h.words()[13] == 0,
{
}

/// An action goes out as force, torque, clamp, fabricator and oscillator.
pub proof fn lemma_action_layout(a: ActionTensor)
    ensures
        a.flat().len() == 7,
        a.flat()[0] == a.force.x,
        a.flat()[1] == a.force.y,
        a.flat()[2] == a.torque,
        a.flat()[3] == a.clamp,
        a.flat()[4] == a.fabricate,
        a.flat()[5] == a.osc_freq,
        a.flat()[6] == a.osc_phase,
        ActionTensor::unflat(a.flat()) == a,
{
}

/// A neighbor goes out as its place and motion, its matter, the four parts of its
/// mask, its conductivity, its oscillator, and whether it is there.
pub proof fn lemma_neighbor_layout(n: NeighborView)
    ensures
        n.flat().len() == 15,
        n.flat()[0] == n.rel_pos.x,
        n.flat()[1] == n.rel_pos.y,
        n.flat()[2] == n.rel_vel.x,
        n.flat()[3] == n.rel_vel.y,
        n.flat()[4] == n.mass,
        n.flat()[5] == n.structure,
        n.flat()[6] == n.energy,
        n.flat()[11] == n.conductivity,
        n.flat()[12] == n.osc_freq,
        n.flat()[13] == n.osc_phase,
        value(n.flat()[14]) > 0 as real <==> n.valid,
{
    crate::binary32::value::lemma_value_zero();
    vstd::arithmetic::power2::lemma2_to64();
    crate::binary32::value::lemma_decimal(
        crate::interface::vector::ONE,
        0x80_0000,
        126,
        1,
        1,
    );
    crate::laws::births::lemma_whole_ratio(1);
}

/// The header of an action names the step and the entity that it is for.
pub proof fn lemma_action_header_names_its_turn(version: u8, step: u64, entity_id: u64)
    ensures
        action_header(version, step, entity_id).version == version,
        action_header(version, step, entity_id).step == step,
        action_header(version, step, entity_id).entity_id == entity_id,
        action_header(version, step, entity_id).frame_bytes == 56 + 4 * 7,
        action_header(version, step, entity_id).payload_floats == 7,
{
}

/// What is kept of a node is what it is: each number under its own name.
pub open spec fn keeps(c: CanonicalNode, node: Node) -> bool {
    &&& node.stable_id is Some && c.stable_id == node.stable_id->Some_0.0
    &&& c.position == node.position
    &&& node.velocity is Some ==> c.linear_velocity == node.velocity->0
    &&& node.spin is Some ==> c.angular_velocity == node.spin->0
    &&& c.physical.mass == node.physical->0.mass
    &&& c.physical.structure == node.physical->0.structure
    &&& c.physical.energy == node.physical->0.energy
    &&& c.yield_threshold == node.yield_thresh->Some_0.0
    &&& c.conductivity == node.conductivity->Some_0.0
    &&& c.tags == node.tags->Some_0.0.0
    &&& c.oscillator == node.oscillator
    &&& node.node_rng is Some ==> c.node_rng == node.node_rng->Some_0.0
    &&& c.chunk_origin == node.chunk_origin
    &&& c.dead == node.dead
    &&& node.ledger is Some ==> c.energy_ledger == node.ledger->0
    &&& c.agent is Some <==> node.marker is Some && node.tuning is Some
    &&& c.agent is Some ==> {
        &&& c.agent->0.generation == node.marker->0.generation
        &&& c.agent->0.lineage == node.marker->0.lineage
        &&& c.agent->0.sensor_radius == node.tuning->0.sensor_radius
        &&& c.agent->0.max_neighbors == node.tuning->0.max_neighbors
        &&& c.agent->0.yield_threshold == node.tuning->0.yield_threshold
        &&& c.agent->0.oscillator_baseline == node.tuning->0.osc_baseline
        &&& node.reproduction is Some ==> c.agent->0.reproduction == node.reproduction->0
        &&& node.fabricate is Some ==> c.agent->0.fabricate_cooldown
            == node.fabricate->0.remaining
        &&& node.clamp is Some ==> c.agent->0.clamp_cooldown == node.clamp->0.cooldown
    }
}

/// A snapshot keeps what a node is.
pub proof fn lemma_snapshot_keeps_the_node(nodes: Seq<Node>, node: Node, angle: Binary32)
    requires
        node.stable_id is Some,
        node.physical is Some,
        node.yield_thresh is Some,
        node.conductivity is Some,
        node.tags is Some,
    ensures
        keeps(canonical(nodes, node, angle), node),
        canonical(nodes, node, angle).rotation == angle,
{
}

/// A node that comes back from a snapshot is what was kept of it.
pub proof fn lemma_revived_is_what_was_kept(
    c: CanonicalNode,
    turn: Rotation,
    entity: u64,
    controller: u64,
)
    ensures
        ({
            let node = revived(c, turn, entity, Some(controller));
            &&& node.entity == entity
            &&& node.rotation == turn
            &&& keeps(c, node)
            &&& c.agent is Some ==> node.marker->0.controller == controller
        }),
{
}

} // verus!
