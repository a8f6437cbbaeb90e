//! What new bodies are made of, as numbers.

use crate::agents::agent_node;
use crate::agents::BIRTH_ENERGY;
use crate::agents::BIRTH_MASS;
use crate::binary32::order::num;
use crate::binary32::value::lemma_decimal;
use crate::binary32::value::lemma_value_order;
use crate::binary32::value::lemma_value_zero;
use crate::binary32::value::near;
use crate::binary32::value::ratio;
use crate::binary32::value::value;
use crate::components::AgentTuning;
use crate::fragmentation::OPEN_CONDUCTIVITY;
use crate::genesis::chunk_terrain;
use crate::genesis::spawn_genesis_node;
use crate::genesis::TerrainSpawn;
use crate::interface::vector::Vec2Lite;
use crate::laws::births::lemma_whole_ratio;
use crate::tags::AGENT;
use crate::tags::CLAMP_CAPABLE;
use crate::tags::ENERGY_CONVERTIBLE;
use crate::tags::OSCILLATOR;
use crate::tags::SHELTER;
use crate::tags::THERMAL_VENT;
use crate::tags::VOLATILE_TRAP;
use vstd::arithmetic::power2::lemma2_to64;
use vstd::prelude::*;

verus! {

/// A new agent stands where it is put, with 20 of energy, a structure and a mass of
/// its threshold (but at least a tenth of mass), its own line at generation zero,
/// and the mask of an agent that clamps and oscillates.
pub proof fn lemma_new_agents_are_alike(
    controller: u64,
    pos: Vec2Lite,
    tuning: AgentTuning,
    node_rng: u64,
    born_step: u32,
)
    ensures
        ({
            let a = agent_node(controller, pos, tuning, node_rng, born_step);
            let p = a.physical->0;
            &&& a.position == pos
            &&& a.physical is Some
            &&& value(p.energy) == 20 as real
            &&& p.structure == tuning.yield_threshold
            &&& tuning.yield_threshold.finite() && value(tuning.yield_threshold) >= 1 as real
                ==> p.mass == tuning.yield_threshold
            &&& tuning.yield_threshold.finite() && value(tuning.yield_threshold) <= 0 as real
                ==> near(p.mass, ratio(1, 10), 1, 0 as real)
            &&& a.body_mass == Some(p.mass)
            &&& a.yield_thresh is Some && a.yield_thresh->Some_0.0 == tuning.yield_threshold
            &&& a.conductivity is Some && near(
                a.conductivity->Some_0.0,
                ratio(6, 10),
                1,
                0 as real,
            )
            &&& a.tags is Some && a.tags->Some_0.0.0 == AGENT + CLAMP_CAPABLE + OSCILLATOR
            &&& a.marker is Some && a.marker->0.generation == 0 && a.marker->0.controller
                == controller
            &&& a.tuning == Some(tuning)
            &&& a.ledger is Some && a.ledger->0.born_step == born_step
            &&& a.node_rng is Some && a.node_rng->Some_0.0 == node_rng
            &&& !a.dead
        }),
{
    lemma2_to64();
    lemma_decimal(BIRTH_ENERGY, 0xa0_0000, 130, 20, 1);
    lemma_decimal(BIRTH_MASS, 0xcc_cccd, 122, 1, 10);
    lemma_decimal(OPEN_CONDUCTIVITY, 0x99_999a, 125, 6, 10);
    lemma_whole_ratio(20);
    assert(ratio(1, 10) == 1 as real / 10 as real);
    let q = ratio(1, 10);
    let e = crate::binary32::value::eps();
    assert(1 as real * (e * q) + 0 as real <= 1 as real / 1000 as real) by (nonlinear_arith)
        requires
            q == 1 as real / 10 as real,
            e == 1 as real / 0x100_0000 as real,
    ;
    lemma_value_order(tuning.yield_threshold, num(BIRTH_MASS));
}

/// The matter of a body, in numbers.
pub open spec fn made_of(
    s: TerrainSpawn,
    mass: real,
    structure: real,
    energy: real,
    conductivity: real,
) -> bool {
    &&& value(s.mass) == mass
    &&& value(s.structure) == structure
    &&& value(s.energy) == energy
    &&& near(s.conductivity, conductivity, 1, 0 as real)
}

/// The terrain of a chunk: two convertible bodies, a vent, a trap and a shelter,
/// each of its own matter.
pub proof fn lemma_terrain_matter(seed: u64, cx: i32, cy: i32, jitter: Seq<Vec2Lite>)
    ensures
        ({
            let t = chunk_terrain(seed, cx, cy, jitter);
            &&& t.len() == 5
            &&& forall|i: int|
                0 <= i < 5 ==> (#[trigger] t[i]).chunk_origin.x == cx && t[i].chunk_origin.y == cy
            &&& made_of(t[0], 1 as real, 8 as real, 6 as real, ratio(6, 10))
            &&& made_of(t[1], 1 as real, 8 as real, 6 as real, ratio(6, 10))
            &&& made_of(t[2], 2 as real, 10 as real, 4 as real, ratio(6, 10))
            &&& made_of(t[3], ratio(3, 2), 8 as real, 12 as real, ratio(6, 10))
            &&& made_of(t[4], 1 as real, 14 as real, 2 as real, ratio(2, 10))
            &&& t[0].kind.tag_bits() == ENERGY_CONVERTIBLE
            &&& t[1].kind.tag_bits() == ENERGY_CONVERTIBLE
            &&& t[2].kind.tag_bits() == THERMAL_VENT
            &&& t[3].kind.tag_bits() == VOLATILE_TRAP
            &&& t[4].kind.tag_bits() == SHELTER
        }),
{
    lemma2_to64();
    lemma_decimal(0x3f80_0000, 0x80_0000, 126, 1, 1);
    lemma_decimal(0x4100_0000, 0x80_0000, 129, 8, 1);
    lemma_decimal(0x40c0_0000, 0xc0_0000, 128, 6, 1);
    lemma_decimal(0x4000_0000, 0x80_0000, 127, 2, 1);
    lemma_decimal(0x4120_0000, 0xa0_0000, 129, 10, 1);
    lemma_decimal(0x4080_0000, 0x80_0000, 128, 4, 1);
    lemma_decimal(0x3fc0_0000, 0xc0_0000, 126, 3, 2);
    lemma_decimal(0x4140_0000, 0xc0_0000, 129, 12, 1);
    lemma_decimal(0x4160_0000, 0xe0_0000, 129, 14, 1);
    lemma_decimal(0x3f19_999a, 0x99_999a, 125, 6, 10);
    lemma_decimal(0x3e4c_cccd, 0xcc_cccd, 123, 2, 10);
    lemma_whole_ratio(1);
    lemma_whole_ratio(8);
    lemma_whole_ratio(6);
    lemma_whole_ratio(2);
    lemma_whole_ratio(10);
    lemma_whole_ratio(4);
    lemma_whole_ratio(12);
    lemma_whole_ratio(14);
}

/// A terrain node is what its plan says, at rest, and no agent.
pub proof fn lemma_terrain_is_as_planned(s: TerrainSpawn)
    ensures
        ({
            let n = spawn_genesis_node(s);
            &&& n.position == s.pos
            &&& n.physical is Some
            &&& n.physical->0.mass == s.mass
            &&& n.physical->0.structure == s.structure
            &&& n.physical->0.energy == s.energy
            &&& n.yield_thresh is Some && n.yield_thresh->Some_0.0 == s.structure
            &&& n.conductivity is Some && n.conductivity->Some_0.0 == s.conductivity
            &&& n.tags is Some && n.tags->Some_0.0.0 == s.kind.tag_bits()
            &&& n.chunk_origin == Some(s.chunk_origin)
            &&& n.node_rng is Some && n.node_rng->Some_0.0 == s.node_rng
            &&& n.marker is None
            &&& value(n.motion().x) == 0 as real && value(n.motion().y) == 0 as real
        }),
{
    lemma_value_zero();
}

} // verus!
