//! Genesis and chunk streaming. The plane is cut into square chunks. Terrain is a
//! function of the seed and the chunk, so that chunks can be dropped and made
//! again. Streaming places terrain only: it never adds agents.

use crate::agents::agent_node;
use crate::agents::Agent;
use crate::binary32::arith::size_of;
use crate::binary32::bounds::lemma_one;
use crate::binary32::bounds::lemma_sign_of_units;
use crate::binary32::convert::one_unit;
use crate::binary32::model::lemma_grid_assembled;
use crate::binary32::model::BINADE;
use crate::binary32::num;
use crate::binary32::whole::lemma_from_i32;
use crate::binary32::whole::lemma_product_meets;
use crate::binary32::whole::lemma_stays_near;
use crate::binary32::whole::lemma_sum_meets;
use crate::binary32::whole::lemma_thirty_second;
use crate::binary32::Binary32;
use crate::components::AgentTuning;
use crate::components::ChunkOrigin;
use crate::components::Conductivity;
use crate::components::EnergyLedger;
use crate::components::ImpulseAccum;
use crate::components::Node;
use crate::components::NodeRng;
use crate::components::Oscillator;
use crate::components::Physical;
use crate::components::Tags;
use crate::components::Yield;
use crate::fragmentation::MIN_MASS;
use crate::interface::action::ActionTensor;
use crate::interface::observation::ObservationTensor;
use crate::interface::vector::Vec2Lite;
use crate::tags::CustomTags;
use crate::tags::AGENT;
use crate::tags::ENERGY_CONVERTIBLE;
use crate::tags::SHELTER;
use crate::tags::THERMAL_VENT;
use crate::tags::VOLATILE_TRAP;
use vstd::arithmetic::power2::lemma2_to64;
use vstd::arithmetic::power2::lemma_pow2_adds;
use vstd::arithmetic::power2::pow2;
use vstd::prelude::*;

verus! {

/// Pattern of the side of a chunk, 32.
pub const CHUNK_SIZE: u32 = 0x4200_0000;

/// Agents in each chunk of a first population.
pub const AGENTS_PER_CHUNK: usize = 4;

/// Steps between two rounds of streaming.
pub const STREAM_PERIOD: u64 = 120;

/// Patterns of one quarter, one half and three quarters: where terrain stands in
/// its chunk.
pub const NEAR: u32 = 0x3e80_0000;

pub const MIDDLE: u32 = 0x3f00_0000;

pub const FAR: u32 = 0x3f40_0000;

/// A controller that does nothing.
#[derive(Clone, Copy, Debug, Default, PartialEq, Eq, Structural)]
pub struct GenesisAgent;

impl Agent for GenesisAgent {
    /// It answers everything with no action.
    open spec fn acts(
        before: GenesisAgent,
        observation: ObservationTensor,
        after: GenesisAgent,
        action: ActionTensor,
    ) -> bool {
        action == ActionTensor::noop()
    }

    fn act(&mut self, observation: &ObservationTensor) -> (r: ActionTensor) {
        ActionTensor::noop()
    }

    fn on_reset(&mut self, seed: u64) {
    }

    fn spawn_child(&mut self, seed: u64) -> (r: Option<GenesisAgent>)
        ensures
            r is Some,
    {
        Some(GenesisAgent)
    }
}

/// What a terrain node is.
#[derive(Clone, Copy, Debug, PartialEq, Eq, Structural)]
pub enum TerrainKind {
    EnergyConvertible,
    ThermalVent,
    VolatileTrap,
    Shelter,
}

impl TerrainKind {
    pub open spec fn tag_bits_spec(self) -> u64 {
        match self {
            TerrainKind::EnergyConvertible => ENERGY_CONVERTIBLE,
            TerrainKind::ThermalVent => THERMAL_VENT,
            TerrainKind::VolatileTrap => VOLATILE_TRAP,
            TerrainKind::Shelter => SHELTER,
        }
    }

    /// The mask of the kind.
    #[verifier::when_used_as_spec(tag_bits_spec)]
    pub fn tag_bits(self) -> (r: u64)
        ensures
            r == self.tag_bits_spec(),
    {
        match self {
            TerrainKind::EnergyConvertible => ENERGY_CONVERTIBLE,
            TerrainKind::ThermalVent => THERMAL_VENT,
            TerrainKind::VolatileTrap => VOLATILE_TRAP,
            TerrainKind::Shelter => SHELTER,
        }
    }

    /// Mass, structure, energy and conductivity of the kind, as patterns.
    pub open spec fn material(self) -> (u32, u32, u32, u32) {
        match self {
            TerrainKind::EnergyConvertible => (0x3f80_0000, 0x4100_0000, 0x40c0_0000, 0x3f19_999a),
            TerrainKind::ThermalVent => (0x4000_0000, 0x4120_0000, 0x4080_0000, 0x3f19_999a),
            TerrainKind::VolatileTrap => (0x3fc0_0000, 0x4100_0000, 0x4140_0000, 0x3f19_999a),
            TerrainKind::Shelter => (0x3f80_0000, 0x4160_0000, 0x4000_0000, 0x3e4c_cccd),
        }
    }
}

/// A terrain node to be made.
#[derive(Clone, Copy, Debug, PartialEq, Eq, Structural)]
pub struct TerrainSpawn {
    pub chunk_origin: ChunkOrigin,
    pub pos: Vec2Lite,
    pub node_rng: u64,
    pub kind: TerrainKind,
    pub mass: Binary32,
    pub structure: Binary32,
    pub energy: Binary32,
    pub conductivity: Binary32,
}

pub open spec fn spawn_genesis_node_spec(spawn: TerrainSpawn) -> Node {
    Node {
        body_mass: Some(spawn.mass.max(num(MIN_MASS))),
        physical: Some(
            Physical { mass: spawn.mass, structure: spawn.structure, energy: spawn.energy },
        ),
        yield_thresh: Some(Yield(spawn.structure)),
        conductivity: Some(Conductivity(spawn.conductivity)),
        tags: Some(Tags(CustomTags::from_bits(spawn.kind.tag_bits()))),
        oscillator: Some(Oscillator { freq: num(0), phase: num(0), baseline_freq: num(0) }),
        impulse: Some(ImpulseAccum { value: num(0), source: None }),
        ledger: Some(EnergyLedger::opened(0)),
        node_rng: Some(NodeRng(spawn.node_rng)),
        chunk_origin: Some(spawn.chunk_origin),
        ..Node::bare(0, spawn.pos)
    }
}

/// A terrain node. Its number is given by the engine.
#[verifier::when_used_as_spec(spawn_genesis_node_spec)]
pub fn spawn_genesis_node(spawn: TerrainSpawn) -> (r: Node)
    ensures
        r == spawn_genesis_node_spec(spawn),
{
    let mut node: Node = Node::bare(0, spawn.pos);
    node.body_mass = Some(spawn.mass.max(num(MIN_MASS)));
    node.physical = Some(
        Physical { mass: spawn.mass, structure: spawn.structure, energy: spawn.energy },
    );
    node.yield_thresh = Some(Yield(spawn.structure));
    node.conductivity = Some(Conductivity(spawn.conductivity));
    node.tags = Some(Tags(CustomTags::from_bits(spawn.kind.tag_bits())));
    node.oscillator = Some(Oscillator { freq: num(0), phase: num(0), baseline_freq: num(0) });
    node.impulse = Some(ImpulseAccum { value: num(0), source: None });
    node.ledger = Some(EnergyLedger::opened(0));
    node.node_rng = Some(NodeRng(spawn.node_rng));
    node.chunk_origin = Some(spawn.chunk_origin);
    node
}

/// The body of an agent of the first population.
pub fn spawn_genesis(controller: u64, pos: Vec2Lite, node_rng: u64, born_step: u32) -> (r: Node)
    ensures
        r == agent_node(controller, pos, AgentTuning::standard(), node_rng, born_step),
{
    agent_node(controller, pos, AgentTuning::default(), node_rng, born_step)
}

/// The order of chunks: by column, then by row.
pub open spec fn before(a: (i32, i32), b: (i32, i32)) -> bool {
    a.0 < b.0 || (a.0 == b.0 && a.1 < b.1)
}

/// The list is in order, each chunk once.
pub open spec fn in_order(list: Seq<(i32, i32)>) -> bool {
    forall|i: int, j: int|
        0 <= i < j < list.len() ==> before(#[trigger] list[i], #[trigger] list[j])
}

/// Adds a chunk to a list in order.
fn insert_chunk(list: &mut Vec<(i32, i32)>, c: (i32, i32))
    requires
        in_order(old(list)@),
    ensures
        in_order(final(list)@),
        forall|d: (i32, i32)| #[trigger]
            final(list)@.contains(d) <==> old(list)@.contains(d) || d == c,
{
    let ghost start = list@;
    let mut i: usize = 0;
    while i < list.len() && (list[i].0 < c.0 || (list[i].0 == c.0 && list[i].1 < c.1))
        invariant
            i <= list@.len(),
            list@ == start,
            forall|j: int| 0 <= j < i ==> before(#[trigger] list@[j], c),
        decreases list@.len() - i,
    {
        i += 1;
    }
    if i < list.len() && list[i].0 == c.0 && list[i].1 == c.1 {
        assert(start[i as int] == c);
        return;
    }
    list.insert(i, c);
    proof {
        assert(list@ =~= start.insert(i as int, c));
        assert forall|a: int, b: int| 0 <= a < b < list@.len() implies before(
            #[trigger] list@[a],
            #[trigger] list@[b],
        ) by {
            if a < i && b < i {
                assert(before(start[a], start[b]));
            } else if a > i {
                assert(before(start[a - 1], start[b - 1]));
            } else if a < i && b > i {
                assert(before(start[a], start[b - 1]));
            } else if a == i {
                if b - 1 > i {
                    assert(before(start[i as int], start[b - 1]));
                }
            }
        }
        assert forall|d: (i32, i32)| #[trigger] list@.contains(d) <==> start.contains(d) || d == c by {
            if start.contains(d) {
                let k = choose|k: int| 0 <= k < start.len() && start[k] == d;
                if k < i {
                    assert(list@[k] == d);
                } else {
                    assert(list@[k + 1] == d);
                }
            }
            if d == c {
                assert(list@[i as int] == d);
            }
            if list@.contains(d) {
                let k = choose|k: int| 0 <= k < list@.len() && list@[k] == d;
                if k < i {
                    assert(start[k] == d);
                } else if k > i {
                    assert(start[k - 1] == d);
                }
            }
        }
    }
}

/// Is the chunk on the list?
fn has_chunk(list: &Vec<(i32, i32)>, c: (i32, i32)) -> (r: bool)
    ensures
        r == list@.contains(c),
{
    let mut i: usize = 0;
    while i < list.len()
        invariant
            i <= list@.len(),
            forall|j: int| 0 <= j < i ==> list@[j] != c,
        decreases list@.len() - i,
    {
        let d: (i32, i32) = list[i];
        if d.0 == c.0 && d.1 == c.1 {
            assert(list@[i as int] == c);
            return true;
        }
        i += 1;
    }
    false
}

/// Those of the first chunks that are not on the second list, in order.
pub open spec fn chunks_without(list: Seq<(i32, i32)>, other: Seq<(i32, i32)>) -> Seq<(i32, i32)> {
    list.filter(|c: (i32, i32)| !other.contains(c))
}

/// Keeps the chunks that are not on the other list.
fn difference(list: &Vec<(i32, i32)>, other: &Vec<(i32, i32)>) -> (r: Vec<(i32, i32)>)
    ensures
        r@ == chunks_without(list@, other@),
{
    let mut out: Vec<(i32, i32)> = Vec::new();
    let mut i: usize = 0;
    let ghost keep = |c: (i32, i32)| !other@.contains(c);
    proof {
        reveal(Seq::filter);
        assert(out@ =~= list@.take(0).filter(keep));
    }
    while i < list.len()
        invariant
            i <= list@.len(),
            keep == (|c: (i32, i32)| !other@.contains(c)),
            out@ == list@.take(i as int).filter(keep),
        decreases list@.len() - i,
    {
        proof {
            reveal(Seq::filter);
            assert(list@.take(i + 1).drop_last() =~= list@.take(i as int));
        }
        if !has_chunk(other, list[i]) {
            out.push(list[i]);
        }
        i += 1;
    }
    assert(list@.take(i as int) =~= list@);
    out
}

/// The chunk of a position.
pub open spec fn chunk_of_spec(pos: Vec2Lite) -> (i32, i32) {
    (
        pos.x.over(num(CHUNK_SIZE)).floor_to_i32(),
        pos.y.over(num(CHUNK_SIZE)).floor_to_i32(),
    )
}

/// The chunk of a position.
#[verifier::when_used_as_spec(chunk_of_spec)]
pub fn chunk_of(pos: Vec2Lite) -> (r: (i32, i32))
    ensures
        r == chunk_of_spec(pos),
{
    (
        pos.x.over(num(CHUNK_SIZE)).floor_to_i32(),
        pos.y.over(num(CHUNK_SIZE)).floor_to_i32(),
    )
}

/// The corner of a chunk.
pub open spec fn chunk_base(cx: i32, cy: i32) -> Vec2Lite {
    Vec2Lite {
        x: Binary32::from_i32(cx).times(num(CHUNK_SIZE)),
        y: Binary32::from_i32(cy).times(num(CHUNK_SIZE)),
    }
}

/// The seed of a chunk.
pub open spec fn chunk_seed(seed: u64, cx: i32, cy: i32) -> u64 {
    seed ^ ((cx as u64) << 32) ^ (cy as u64)
}

/// The kinds of terrain of every chunk, in order.
pub open spec fn terrain_kind(index: int) -> TerrainKind {
    if index < 2 {
        TerrainKind::EnergyConvertible
    } else if index == 2 {
        TerrainKind::ThermalVent
    } else if index == 3 {
        TerrainKind::VolatileTrap
    } else {
        TerrainKind::Shelter
    }
}

/// Where each kind of terrain stands in its chunk, as a fraction of the side.
pub open spec fn terrain_fraction(index: int) -> (u32, u32) {
    if index == 0 {
        (NEAR, NEAR)
    } else if index == 1 {
        (FAR, NEAR)
    } else if index == 2 {
        (NEAR, FAR)
    } else if index == 3 {
        (FAR, FAR)
    } else {
        (MIDDLE, MIDDLE)
    }
}

/// The `index`-th terrain node of a chunk.
pub open spec fn terrain(seed: u64, cx: i32, cy: i32, index: int, jitter: Vec2Lite) -> TerrainSpawn {
    let kind = terrain_kind(index);
    let (mass, structure, energy, conductivity) = kind.material();
    let (fx, fy) = terrain_fraction(index);
    TerrainSpawn {
        chunk_origin: ChunkOrigin { x: cx, y: cy },
        pos: chunk_base(cx, cy).plus(
            Vec2Lite { x: num(fx), y: num(fy) }.scaled(num(CHUNK_SIZE)),
        ).plus(jitter),
        node_rng: chunk_seed(seed, cx, cy) ^ (index as u64).wrapping_mul(0x9E37_79B1),
        kind,
        mass: num(mass),
        structure: num(structure),
        energy: num(energy),
        conductivity: num(conductivity),
    }
}

/// The terrain of a chunk: two convertible nodes, a vent, a trap and a shelter.
pub open spec fn chunk_terrain(seed: u64, cx: i32, cy: i32, jitter: Seq<Vec2Lite>) -> Seq<
    TerrainSpawn,
> {
    Seq::new(5, |i: int| terrain(seed, cx, cy, i, jitter[i]))
}

/// How many chunks a grid has; none where a side is not positive.
pub open spec fn grid_cells(grid_x: i32, grid_y: i32) -> nat {
    if grid_x <= 0 || grid_y <= 0 {
        0
    } else {
        grid_x as nat * grid_y as nat
    }
}

/// The terrain of the first `n` chunks of a grid of `rows` rows, column by
/// column.
pub open spec fn grid_terrain(
    seed: u64,
    rows: int,
    jitter: Seq<[Vec2Lite; 5]>,
    n: nat,
) -> Seq<TerrainSpawn>
    decreases n,
{
    if n == 0 {
        Seq::empty()
    } else {
        let k = n - 1;
        grid_terrain(seed, rows, jitter, (n - 1) as nat) + chunk_terrain(
            seed,
            (k / rows) as i32,
            (k % rows) as i32,
            jitter[k]@,
        )
    }
}

/// An agent to be made: where, and with which seed.
#[derive(Clone, Copy, Debug, PartialEq, Eq, Structural)]
pub struct AgentSpawn {
    pub pos: Vec2Lite,
    pub node_rng: u64,
}

/// The `i`-th agent of a chunk.
pub open spec fn settler(seed: u64, cx: i32, cy: i32, i: int, offset: Vec2Lite) -> AgentSpawn {
    AgentSpawn {
        pos: chunk_base(cx, cy).plus(offset),
        node_rng: seed ^ (i as u64).wrapping_mul(0x9E37_79B1) ^ ((cx as u64) << 32) ^ (cy as u64),
    }
}

/// The first `n` agents of a grid of `rows` rows, chunk by chunk.
pub open spec fn settlers(seed: u64, rows: int, offsets: Seq<Vec2Lite>, n: nat) -> Seq<AgentSpawn> {
    Seq::new(
        n,
        |k: int|
            settler(
                seed,
                (k / 4 / rows) as i32,
                (k / 4 % rows) as i32,
                k % 4,
                offsets[k],
            ),
    )
}

/// Which chunks are active, and the seed of the world.
#[derive(Debug)]
pub struct ChunkManager {
    pub active: Vec<(i32, i32)>,
    pub seed: u64,
}

impl Default for ChunkManager {
    fn default() -> (r: ChunkManager)
        ensures
            r.well_formed(),
            r.active@ == Seq::<(i32, i32)>::empty(),
            r.seed == 1,
    {
        ChunkManager { active: Vec::new(), seed: 1 }
    }
}

impl ChunkManager {
    /// The active chunks are listed in order, each once.
    pub open spec fn well_formed(&self) -> bool {
        in_order(self.active@)
    }

    /// No chunk is active yet.
    pub fn new(seed: u64) -> (r: ChunkManager)
        ensures
            r.well_formed(),
            r.active@ == Seq::<(i32, i32)>::empty(),
            r.seed == seed,
    {
        ChunkManager { active: Vec::new(), seed }
    }

    /// The active chunks, in order.
    pub fn active_chunks(&self) -> (r: Vec<(i32, i32)>)
        ensures
            r@ == self.active@,
    {
        let mut out: Vec<(i32, i32)> = Vec::new();
        let mut i: usize = 0;
        while i < self.active.len()
            invariant
                i <= self.active@.len(),
                out@ == self.active@.take(i as int),
            decreases self.active@.len() - i,
        {
            out.push(self.active[i]);
            assert(out@ =~= self.active@.take(i + 1));
            i += 1;
        }
        assert(out@ =~= self.active@);
        out
    }

    /// Makes exactly these chunks active.
    pub fn restore_active_chunks(&mut self, chunks: &[(i32, i32)])
        ensures
            final(self).well_formed(),
            final(self).seed == old(self).seed,
            forall|c: (i32, i32)| #[trigger] final(self).active@.contains(c) <==> chunks@.contains(c),
    {
        let mut list: Vec<(i32, i32)> = Vec::new();
        let mut i: usize = 0;
        assert forall|c: (i32, i32)| #[trigger] list@.contains(c) <==> chunks@.take(0).contains(c) by {}
        while i < chunks.len()
            invariant
                i <= chunks@.len(),
                in_order(list@),
                forall|c: (i32, i32)| #[trigger]
                    list@.contains(c) <==> chunks@.take(i as int).contains(c),
            decreases chunks@.len() - i,
        {
            let ghost listed = list@;
            insert_chunk(&mut list, chunks[i]);
            proof {
                assert forall|c: (i32, i32)| #[trigger]
                    list@.contains(c) <==> chunks@.take(i + 1).contains(c) by {
                    let head = chunks@.take(i as int);
                    let more = chunks@.take(i + 1);
                    assert(listed.contains(c) <==> head.contains(c));
                    if head.contains(c) {
                        let k = choose|k: int| 0 <= k < head.len() && head[k] == c;
                        assert(more[k] == c);
                    }
                    if c == chunks@[i as int] {
                        assert(more[i as int] == c);
                    }
                    if more.contains(c) {
                        let k = choose|k: int| 0 <= k < more.len() && more[k] == c;
                        if k < i {
                            assert(head[k] == c);
                        }
                    }
                }
            }
            i += 1;
        }
        assert(chunks@.take(i as int) =~= chunks@);
        self.active = list;
    }

    /// The seed of the draws that scatter a chunk's terrain.
    pub fn terrain_seed(&self, cx: i32, cy: i32) -> (r: u64)
        ensures
            r == chunk_seed(self.seed, cx, cy) ^ 0xDEAD_BEEF,
    {
        self.seed ^ ((cx as u64) << 32) ^ (cy as u64) ^ 0xDEAD_BEEF
    }

    /// The `index`-th terrain node of a chunk.
    fn terrain_at(&self, cx: i32, cy: i32, index: usize, jitter: Vec2Lite) -> (r: TerrainSpawn)
        requires
            index < 5,
        ensures
            r == terrain(self.seed, cx, cy, index as int, jitter),
    {
        let (kind, fx, fy): (TerrainKind, u32, u32) = match index {
            0 => (TerrainKind::EnergyConvertible, NEAR, NEAR),
            1 => (TerrainKind::EnergyConvertible, FAR, NEAR),
            2 => (TerrainKind::ThermalVent, NEAR, FAR),
            3 => (TerrainKind::VolatileTrap, FAR, FAR),
            _ => (TerrainKind::Shelter, MIDDLE, MIDDLE),
        };
        let (mass, structure, energy, conductivity): (u32, u32, u32, u32) = match kind {
            TerrainKind::EnergyConvertible => (0x3f80_0000, 0x4100_0000, 0x40c0_0000, 0x3f19_999a),
            TerrainKind::ThermalVent => (0x4000_0000, 0x4120_0000, 0x4080_0000, 0x3f19_999a),
            TerrainKind::VolatileTrap => (0x3fc0_0000, 0x4100_0000, 0x4140_0000, 0x3f19_999a),
            TerrainKind::Shelter => (0x3f80_0000, 0x4160_0000, 0x4000_0000, 0x3e4c_cccd),
        };
        let base: Vec2Lite = Vec2Lite::new(
            Binary32::from_i32(cx).times(num(CHUNK_SIZE)),
            Binary32::from_i32(cy).times(num(CHUNK_SIZE)),
        );
        let seed: u64 = self.seed ^ ((cx as u64) << 32) ^ (cy as u64);
        TerrainSpawn {
            chunk_origin: ChunkOrigin { x: cx, y: cy },
            pos: base.plus(Vec2Lite::new(num(fx), num(fy)).scaled(num(CHUNK_SIZE))).plus(jitter),
            node_rng: seed ^ (index as u64).wrapping_mul(0x9E37_79B1),
            kind,
            mass: num(mass),
            structure: num(structure),
            energy: num(energy),
            conductivity: num(conductivity),
        }
    }

    /// The terrain of a chunk. `jitter` holds the five draws that scatter it,
    /// from the generator with [`ChunkManager::terrain_seed`].
    pub fn terrain_plan_for_chunk(&self, cx: i32, cy: i32, jitter: &[Vec2Lite; 5]) -> (r: Vec<
        TerrainSpawn,
    >)
        ensures
            r@ == chunk_terrain(self.seed, cx, cy, jitter@),
    {
        let mut out: Vec<TerrainSpawn> = Vec::new();
        let mut i: usize = 0;
        while i < 5
            invariant
                i <= 5,
                out@ == chunk_terrain(self.seed, cx, cy, jitter@).take(i as int),
            decreases 5 - i,
        {
            out.push(self.terrain_at(cx, cy, i, jitter[i]));
            assert(out@ =~= chunk_terrain(self.seed, cx, cy, jitter@).take(i + 1));
            i += 1;
        }
        assert(out@ =~= chunk_terrain(self.seed, cx, cy, jitter@));
        out
    }

    /// The terrain of a grid of chunks, column by column.
    pub fn terrain_plan(&self, grid_x: i32, grid_y: i32, jitter: &[[Vec2Lite; 5]]) -> (r: Vec<
        TerrainSpawn,
    >)
        requires
            jitter@.len() == grid_cells(grid_x, grid_y),
        ensures
            r@ == grid_terrain(self.seed, grid_y as int, jitter@, grid_cells(grid_x, grid_y)),
    {
        let mut out: Vec<TerrainSpawn> = Vec::new();
        if grid_x <= 0 || grid_y <= 0 {
            return out;
        }
        let mut k: usize = 0;
        let mut cx: i32 = 0;
        let mut cy: i32 = 0;
        while k < jitter.len()
            invariant
                k <= jitter@.len(),
                0 <= grid_x,
                0 <= grid_y,
                jitter@.len() == grid_x * grid_y,
                0 <= cx <= grid_x,
                0 <= cy,
                k == cx * grid_y + cy,
                k < jitter@.len() ==> cy < grid_y && cx < grid_x,
                k == jitter@.len() ==> cy <= grid_y,
                out@ == grid_terrain(self.seed, grid_y as int, jitter@, k as nat),
            decreases jitter@.len() - k,
        {
            proof {
                vstd::arithmetic::div_mod::lemma_fundamental_div_mod_converse(
                    k as int,
                    grid_y as int,
                    cx as int,
                    cy as int,
                );
            }
            let mut part: Vec<TerrainSpawn> = self.terrain_plan_for_chunk(cx, cy, &jitter[k]);
            out.append(&mut part);
            assert(out@ =~= grid_terrain(self.seed, grid_y as int, jitter@, (k + 1) as nat));
            proof {
                lemma_grid_step(cx as int, cy as int, grid_x as int, grid_y as int, k as int);
            }
            k += 1;
            if cy + 1 < grid_y {
                cy += 1;
            } else {
                cy = 0;
                cx += 1;
            }
        }
        out
    }

    /// The first population of a grid of chunks: four agents in each. `offsets`
    /// holds the draws that place them in their chunks, from the generator with
    /// the seed of the world. Nothing becomes active by planning.
    pub fn spawn_plan(&mut self, grid_x: i32, grid_y: i32, offsets: &[Vec2Lite]) -> (r: Vec<
        AgentSpawn,
    >)
        requires
            offsets@.len() == 4 * grid_cells(grid_x, grid_y),
        ensures
            *final(self) == *old(self),
            r@ == settlers(old(self).seed, grid_y as int, offsets@, offsets@.len()),
    {
        let mut out: Vec<AgentSpawn> = Vec::new();
        if grid_x <= 0 || grid_y <= 0 {
            assert(out@ =~= settlers(self.seed, grid_y as int, offsets@, 0));
            return out;
        }
        assert(out@ =~= settlers(self.seed, grid_y as int, offsets@, 0));
        let mut cx: i32 = 0;
        while cx < grid_x
            invariant
                0 <= cx <= grid_x,
                0 <= grid_y,
                offsets@.len() == 4 * (grid_x * grid_y),
                *self == *old(self),
                out@ == settlers(
                    self.seed,
                    grid_y as int,
                    offsets@,
                    (4 * (cx * grid_y)) as nat,
                ),
            decreases grid_x - cx,
        {
            let mut cy: i32 = 0;
            while cy < grid_y
                invariant
                    0 <= cx < grid_x,
                    0 <= cy <= grid_y,
                    offsets@.len() == 4 * (grid_x * grid_y),
                    *self == *old(self),
                    out@ == settlers(
                        self.seed,
                        grid_y as int,
                        offsets@,
                        (4 * (cx * grid_y + cy)) as nat,
                    ),
                decreases grid_y - cy,
            {
                let base: Vec2Lite = Vec2Lite::new(
                    Binary32::from_i32(cx).times(num(CHUNK_SIZE)),
                    Binary32::from_i32(cy).times(num(CHUNK_SIZE)),
                );
                let ghost n = 4 * (cx * grid_y + cy);
                proof {
                    assert(cx * grid_y + cy < grid_x * grid_y) by (nonlinear_arith)
                        requires
                            0 <= cx < grid_x,
                            0 <= cy < grid_y,
                    ;
                    assert(cx * grid_y >= 0) by (nonlinear_arith)
                        requires
                            0 <= cx,
                            0 <= grid_y,
                    ;
                }
                let mut i: usize = 0;
                while i < AGENTS_PER_CHUNK
                    invariant
                        i <= 4,
                        0 <= cx < grid_x,
                        0 <= cy < grid_y,
                        n == 4 * (cx * grid_y + cy),
                        n >= 0,
                        n + 4 <= offsets@.len(),
                        base == chunk_base(cx, cy),
                        out@.len() == n + i,
                        out@ == settlers(self.seed, grid_y as int, offsets@, (n + i) as nat),
                    decreases 4 - i,
                {
                    let at: usize = out.len();
                    let node_rng: u64 = self.seed ^ (i as u64).wrapping_mul(0x9E37_79B1) ^ ((
                    cx as u64) << 32) ^ (cy as u64);
                    proof {
                        let k = n + i;
                        assert(k / 4 == cx * grid_y + cy && k % 4 == i);
                        vstd::arithmetic::div_mod::lemma_fundamental_div_mod_converse(
                            k / 4,
                            grid_y as int,
                            cx as int,
                            cy as int,
                        );
                    }
                    out.push(AgentSpawn { pos: base.plus(offsets[at]), node_rng });
                    assert(out@ =~= settlers(
                        self.seed,
                        grid_y as int,
                        offsets@,
                        (n + i + 1) as nat,
                    ));
                    i += 1;
                }
                cy += 1;
            }
            assert(cx * grid_y + grid_y == (cx + 1) * grid_y) by (nonlinear_arith);
            cx += 1;
        }
        out
    }

    /// Makes a grid of chunks active, besides those that are.
    pub fn activate_grid(&mut self, grid_x: i32, grid_y: i32)
        requires
            old(self).well_formed(),
        ensures
            final(self).well_formed(),
            final(self).seed == old(self).seed,
            forall|c: (i32, i32)| #[trigger]
                final(self).active@.contains(c) <==> old(self).active@.contains(c) || (0 <= c.0
                    < grid_x && 0 <= c.1 < grid_y),
    {
        let ghost start = self.active@;
        let mut cx: i32 = 0;
        while cx < grid_x
            invariant
                0 <= cx,
                cx <= grid_x || cx == 0,
                self.well_formed(),
                self.seed == old(self).seed,
                forall|c: (i32, i32)| #[trigger]
                    self.active@.contains(c) <==> start.contains(c) || (0 <= c.0 < cx && 0 <= c.1
                        < grid_y),
            decreases grid_x - cx,
        {
            let mut cy: i32 = 0;
            while cy < grid_y
                invariant
                    0 <= cx < grid_x,
                    0 <= cy,
                    cy <= grid_y || cy == 0,
                    self.well_formed(),
                    self.seed == old(self).seed,
                    forall|c: (i32, i32)| #[trigger]
                        self.active@.contains(c) <==> start.contains(c) || (0 <= c.0 < cx && 0
                            <= c.1 < grid_y) || (c.0 == cx && 0 <= c.1 < cy),
                decreases grid_y - cy,
            {
                insert_chunk(&mut self.active, (cx, cy));
                cy += 1;
            }
            cx += 1;
        }
    }
}

/// Counting a grid column by column.
proof fn lemma_grid_step(cx: int, cy: int, gx: int, gy: int, k: int)
    requires
        0 <= cx < gx,
        0 <= cy < gy,
        k == cx * gy + cy,
        k < gx * gy,
    ensures
        cy + 1 < gy ==> k + 1 == cx * gy + (cy + 1) && k + 1 < gx * gy,
        cy + 1 == gy ==> k + 1 == (cx + 1) * gy && (k + 1 < gx * gy ==> cx + 1 < gx),
{
    assert((cx + 1) * gy == cx * gy + gy) by (nonlinear_arith);
    assert((cx + 1) * gy <= gx * gy) by (nonlinear_arith)
        requires
            cx + 1 <= gx,
            gy >= 0,
    ;
    if cx + 1 == gx {
        assert((cx + 1) * gy == gx * gy);
    }
}

/// Is the chunk next to the position's, or the same?
pub open spec fn beside(c: (i32, i32), pos: Vec2Lite) -> bool {
    let (x, y) = chunk_of(pos);
    -1 <= c.0 - x <= 1 && -1 <= c.1 - y <= 1
}

/// Should the chunk be active? One around every agent should.
pub open spec fn wanted(nodes: Seq<Node>, n: int, c: (i32, i32)) -> bool {
    exists|i: int|
        0 <= i < n && (#[trigger] nodes[i]).marker is Some && beside(c, nodes[i].position)
}

/// The chunk around a position and those next to it can be numbered.
pub open spec fn surrounded(pos: Vec2Lite) -> bool {
    let (x, y) = chunk_of(pos);
    i32::MIN < x < i32::MAX && i32::MIN < y < i32::MAX
}

/// Can the chunk around a position and those next to it be numbered?
pub fn is_surrounded(pos: Vec2Lite) -> (r: bool)
    ensures
        r == surrounded(pos),
{
    let (x, y) = chunk_of(pos);
    i32::MIN < x && x < i32::MAX && i32::MIN < y && y < i32::MAX
}

/// The chunk that a node belongs to: the one that it came from, or else the one
/// that it is in.
pub open spec fn owner(node: Node) -> (i32, i32) {
    match node.chunk_origin {
        Some(o) => (o.x, o.y),
        None => chunk_of(node.position),
    }
}

/// The inert nodes of inactive chunks, in table order.
pub open spec fn dropped(nodes: Seq<Node>, inactive: Seq<(i32, i32)>) -> Seq<u64>
    decreases nodes.len(),
{
    if nodes.len() == 0 {
        Seq::empty()
    } else {
        let rest = dropped(nodes.drop_last(), inactive);
        let node = nodes.last();
        if node.physical is Some && node.marker is None && inactive.contains(owner(node)) {
            rest.push(node.entity)
        } else {
            rest
        }
    }
}

/// The chunks that should be active.
fn desired_chunks(nodes: &Vec<Node>) -> (r: Vec<(i32, i32)>)
    requires
        forall|i: int|
            0 <= i < nodes@.len() && (#[trigger] nodes@[i]).marker is Some ==> surrounded(
                nodes@[i].position,
            ),
    ensures
        in_order(r@),
        forall|c: (i32, i32)| #[trigger]
            r@.contains(c) <==> wanted(nodes@, nodes@.len() as int, c),
{
    let mut list: Vec<(i32, i32)> = Vec::new();
    let mut i: usize = 0;
    while i < nodes.len()
        invariant
            i <= nodes@.len(),
            in_order(list@),
            forall|i: int|
                0 <= i < nodes@.len() && (#[trigger] nodes@[i]).marker is Some ==> surrounded(
                    nodes@[i].position,
                ),
            forall|c: (i32, i32)| #[trigger]
                list@.contains(c) <==> wanted(nodes@, i as int, c),
        decreases nodes@.len() - i,
    {
        let ghost listed = list@;
        if nodes[i].marker.is_some() {
            let (x, y) = chunk_of(nodes[i].position);
            assert(surrounded(nodes@[i as int].position));
            let mut dx: i32 = -1;
            while dx <= 1
                invariant
                    -1 <= dx <= 2,
                    i32::MIN < x < i32::MAX,
                    i32::MIN < y < i32::MAX,
                    in_order(list@),
                    forall|c: (i32, i32)| #[trigger]
                        list@.contains(c) <==> listed.contains(c) || (-1 <= c.0 - x < dx && -1 <= c.1
                            - y <= 1),
                decreases 2 - dx,
            {
                let mut dy: i32 = -1;
                while dy <= 1
                    invariant
                        -1 <= dx <= 1,
                        -1 <= dy <= 2,
                        i32::MIN < x < i32::MAX,
                        i32::MIN < y < i32::MAX,
                        in_order(list@),
                        forall|c: (i32, i32)| #[trigger]
                            list@.contains(c) <==> listed.contains(c) || (-1 <= c.0 - x < dx && -1
                                <= c.1 - y <= 1) || (c.0 - x == dx && -1 <= c.1 - y < dy),
                    decreases 2 - dy,
                {
                    insert_chunk(&mut list, (x + dx, y + dy));
                    dy += 1;
                }
                dx += 1;
            }
        }
        proof {
            assert forall|c: (i32, i32)| #[trigger] list@.contains(c) <==> wanted(
                nodes@,
                i + 1,
                c,
            ) by {
                assert(listed.contains(c) <==> wanted(nodes@, i as int, c));
                if wanted(nodes@, i as int, c) {
                    let k = choose|k: int|
                        0 <= k < i && (#[trigger] nodes@[k]).marker is Some && beside(
                            c,
                            nodes@[k].position,
                        );
                    assert(nodes@[k].marker is Some);
                }
                if nodes@[i as int].marker is Some && beside(c, nodes@[i as int].position) {
                    assert(nodes@[i as int].marker is Some);
                }
                if wanted(nodes@, i + 1, c) {
                    let k = choose|k: int|
                        0 <= k < i + 1 && (#[trigger] nodes@[k]).marker is Some && beside(
                            c,
                            nodes@[k].position,
                        );
                    if k < i {
                        assert(nodes@[k].marker is Some);
                    }
                }
            }
        }
        i += 1;
    }
    list
}

/// What streaming asks for.
#[derive(Debug)]
pub struct StreamPlan {
    /// Chunks whose terrain must be made, in order.
    pub load: Vec<(i32, i32)>,
    /// Nodes that must go.
    pub unload: Vec<u64>,
}

/// Keeps a halo of one chunk active around every agent, every 120 steps. Inert
/// nodes of chunks that are not active any more go; they are made again from the
/// seed when a chunk is revisited.
pub fn stream_chunks(chunks: &mut ChunkManager, step: u64, nodes: &Vec<Node>) -> (r: StreamPlan)
    requires
        old(chunks).well_formed(),
        step % STREAM_PERIOD == 0 ==> forall|i: int|
            0 <= i < nodes@.len() && (#[trigger] nodes@[i]).marker is Some ==> surrounded(
                nodes@[i].position,
            ),
    ensures
        final(chunks).well_formed(),
        final(chunks).seed == old(chunks).seed,
        step % STREAM_PERIOD != 0 ==> {
            &&& *final(chunks) == *old(chunks)
            &&& r.load@ == Seq::<(i32, i32)>::empty()
            &&& r.unload@ == Seq::<u64>::empty()
        },
        step % STREAM_PERIOD == 0 ==> {
            &&& forall|c: (i32, i32)| #[trigger]
                final(chunks).active@.contains(c) <==> wanted(nodes@, nodes@.len() as int, c)
            &&& r.load@ == chunks_without(final(chunks).active@, old(chunks).active@)
            &&& r.unload@ == dropped(
                nodes@,
                chunks_without(old(chunks).active@, final(chunks).active@),
            )
        },
{
    if step % STREAM_PERIOD != 0 {
        return StreamPlan { load: Vec::new(), unload: Vec::new() };
    }
    let desired: Vec<(i32, i32)> = desired_chunks(nodes);
    let load: Vec<(i32, i32)> = difference(&desired, &chunks.active);
    let inactive: Vec<(i32, i32)> = difference(&chunks.active, &desired);
    let mut unload: Vec<u64> = Vec::new();
    let mut i: usize = 0;
    assert(nodes@.take(0) =~= Seq::<Node>::empty());
    while i < nodes.len()
        invariant
            i <= nodes@.len(),
            unload@ == dropped(nodes@.take(i as int), inactive@),
        decreases nodes@.len() - i,
    {
        assert(nodes@.take(i + 1).drop_last() =~= nodes@.take(i as int));
        let node: Node = nodes[i];
        if node.physical.is_some() && node.marker.is_none() {
            let home: (i32, i32) = match node.chunk_origin {
                Some(o) => (o.x, o.y),
                None => chunk_of(node.position),
            };
            if has_chunk(&inactive, home) {
                unload.push(node.entity);
            }
        }
        i += 1;
    }
    assert(nodes@.take(i as int) =~= nodes@);
    chunks.active = desired;
    StreamPlan { load, unload }
}

/// The terrain of a chunk depends on the seed, the chunk and its own draws, and
/// on nothing that happened before.
pub proof fn lemma_terrain_is_reproducible(
    first: ChunkManager,
    second: ChunkManager,
    cx: i32,
    cy: i32,
    jitter: Seq<Vec2Lite>,
)
    requires
        first.seed == second.seed,
    ensures
        chunk_terrain(first.seed, cx, cy, jitter) == chunk_terrain(second.seed, cx, cy, jitter),
        chunk_seed(first.seed, cx, cy) == chunk_seed(second.seed, cx, cy),
{
}

/// Streaming never adds an agent: terrain has neither a controller nor an
/// agent's mask.
pub proof fn lemma_terrain_is_inert(spawn: TerrainSpawn)
    ensures
        spawn_genesis_node(spawn).marker is None,
        spawn_genesis_node(spawn).tuning is None,
        !spawn_genesis_node(spawn).tagged(AGENT),
        spawn_genesis_node(spawn).chunk_origin == Some(spawn.chunk_origin),
{
    assert(0x01u64 & 0x40u64 == 0) by (bit_vector);
    assert(0x08u64 & 0x40u64 == 0) by (bit_vector);
    assert(0x10u64 & 0x40u64 == 0) by (bit_vector);
    assert(0x04u64 & 0x40u64 == 0) by (bit_vector);
}

/// Every chunk has the same five kinds of terrain: two convertible nodes, a vent,
/// a trap and a shelter, each marked with the chunk. Only the shelter conducts
/// little.
pub proof fn lemma_terrain_mix(seed: u64, cx: i32, cy: i32, jitter: Seq<Vec2Lite>, i: int)
    requires
        0 <= i < 5,
    ensures
        chunk_terrain(seed, cx, cy, jitter).len() == 5,
        chunk_terrain(seed, cx, cy, jitter)[i].chunk_origin == (ChunkOrigin { x: cx, y: cy }),
        chunk_terrain(seed, cx, cy, jitter)[i].kind == terrain_kind(i),
        chunk_terrain(seed, cx, cy, jitter)[i].conductivity == if i == 4 {
            num(0x3e4c_cccd)
        } else {
            num(0x3f19_999a)
        },
{
}

/// One coordinate of a terrain node.
pub open spec fn spot(c: i32, fraction: u32, jitter: Binary32) -> Binary32 {
    Binary32::from_i32(c).times(num(CHUNK_SIZE)).plus(num(fraction).times(num(CHUNK_SIZE))).plus(
        jitter,
    )
}

/// The whole distance from a chunk's corner to where a terrain node stands.
pub open spec fn inset(fraction: u32) -> int {
    if fraction == NEAR {
        8
    } else if fraction == MIDDLE {
        16
    } else {
        24
    }
}

/// The coordinates of a chunk within which every place of its terrain is a
/// number: from `-2^22` up to `2^22`.
pub open spec fn placeable(c: i32) -> bool {
    -0x40_0000 <= c < 0x40_0000
}

/// The draw is at most one half away from zero.
pub open spec fn slight(jitter: Binary32) -> bool {
    jitter.finite() && 2 * jitter.size() <= one_unit()
}

/// A fraction of the side is a whole number.
proof fn lemma_inset(fraction: u32)
    requires
        fraction == NEAR || fraction == MIDDLE || fraction == FAR,
    ensures
        num(fraction).times(num(CHUNK_SIZE)).finite(),
        num(fraction).times(num(CHUNK_SIZE)).units() == inset(fraction) * one_unit(),
        num(CHUNK_SIZE).finite(),
        num(CHUNK_SIZE).size() == 32 * one_unit(),
{
    lemma_one();
    lemma2_to64();
    let b = BINADE as nat;
    lemma_grid_assembled(b, 131);
    lemma_pow2_adds(23, 131);
    lemma_pow2_adds(5, 149);
    assert(131 * BINADE + BINADE == CHUNK_SIZE);
    let side = num(CHUNK_SIZE).size();
    let f = num(fraction);
    lemma_grid_assembled(b, 124);
    lemma_grid_assembled(b, 125);
    lemma_grid_assembled(0xc0_0000, 125);
    assert(124 * BINADE + BINADE == NEAR && 125 * BINADE + BINADE == MIDDLE && 125 * BINADE
        + 0xc0_0000 == FAR);
    lemma_pow2_adds(23, 124);
    lemma_pow2_adds(1, 124);
    lemma_pow2_adds(1, 147);
    lemma_pow2_adds(2, 147);
    lemma_pow2_adds(3, 149);
    let w = pow2(147);
    let k: nat = if fraction == NEAR {
        1
    } else if fraction == MIDDLE {
        2
    } else {
        3
    };
    assert(f.size() == k * w);
    assert((k * w) * side == (k * pow2(152)) * one_unit()) by (nonlinear_arith)
        requires
            side == 32 * one_unit(),
            one_unit() == 4 * w,
            pow2(152) == 8 * one_unit(),
    ;
    lemma_product_meets(f, num(CHUNK_SIZE), k, 152);
    assert(k * pow2(152) == inset(fraction) * one_unit()) by (nonlinear_arith)
        requires
            pow2(152) == 8 * one_unit(),
            inset(fraction) == 8 * k,
    ;
}

/// One coordinate stays within one half of its place, and in its chunk.
proof fn lemma_spot(c: i32, fraction: u32, jitter: Binary32)
    requires
        fraction == NEAR || fraction == MIDDLE || fraction == FAR,
        placeable(c),
        slight(jitter),
    ensures
        spot(c, fraction, jitter).finite(),
        2 * size_of(spot(c, fraction, jitter).units() - (32 * c + inset(fraction)) * one_unit())
            <= one_unit(),
        spot(c, fraction, jitter).over(num(CHUNK_SIZE)).floor_to_i32() == c,
{
    lemma_one();
    lemma2_to64();
    lemma_inset(fraction);
    lemma_from_i32(c);
    lemma_pow2_adds(5, 149);
    lemma_pow2_adds(3, 149);
    let u = one_unit();
    let k = inset(fraction);
    let a = Binary32::from_i32(c);
    let side = num(CHUNK_SIZE);
    let m = size_of(c as int);
    assert(a.size() * side.size() == (m * pow2(154)) * u) by (nonlinear_arith)
        requires
            a.size() == m * u,
            side.size() == 32 * u,
            pow2(154) == 32 * u,
    ;
    lemma_product_meets(a, side, m, 154);
    let corner = a.times(side);
    assert(corner.units() == (32 * c) * u) by {
        assert(m * pow2(154) == (32 * m) * u) by (nonlinear_arith)
            requires
                pow2(154) == 32 * u,
        ;
        assert((-(32 * c)) * u == -((32 * c) * u)) by (nonlinear_arith);
    }
    let v = 32 * c + k;
    let inner = num(fraction).times(side);
    assert((32 * c) * u + k * u == v * u) by (nonlinear_arith)
        requires
            v == 32 * c + k,
    ;
    assert(v * u == (4 * c + k / 8) * pow2(152)) by (nonlinear_arith)
        requires
            pow2(152) == 8 * u,
            v == 8 * (4 * c + k / 8),
    ;
    lemma_sum_meets(corner, inner, 4 * c + k / 8, 152);
    let place = corner.plus(inner);
    lemma_stays_near(place, v, jitter);
    let x = place.plus(jitter);
    lemma_sign_of_units(x);
    assert(x == spot(c, fraction, jitter));
    lemma_spot_in_chunk(x, c, k);
}

/// A coordinate between the two sides of a chunk is in that chunk.
proof fn lemma_spot_in_chunk(x: Binary32, c: i32, k: int)
    requires
        x.finite(),
        placeable(c),
        8 <= k <= 24,
        2 * size_of(x.units() - (32 * c + k) * one_unit()) <= one_unit(),
    ensures
        x.over(num(CHUNK_SIZE)).floor_to_i32() == c,
{
    lemma_one();
    let u = one_unit() as int;
    lemma_sign_of_units(x);
    assert((32 * c + k) * u == 32 * (c * u) + k * u) by (nonlinear_arith);
    assert(8 * u <= k * u <= 24 * u) by (nonlinear_arith)
        requires
            8 <= k <= 24,
            u > 0,
    ;
    assert(c >= 0 ==> c * u >= 0) by (nonlinear_arith)
        requires
            u > 0,
    ;
    assert(c < 0 ==> c * u <= -u) by (nonlinear_arith)
        requires
            u > 0,
    ;
    lemma_thirty_second(x);
    let q = x.over(num(CHUNK_SIZE)).units();
    assert(c * u <= q < c * u + u);
    assert((c + 1) * u == c * u + u) by (nonlinear_arith);
    vstd::arithmetic::div_mod::lemma_fundamental_div_mod_converse(q, u, c as int, q - c * u);
}

/// Draws of at most one half put every terrain node within one half of its place
/// along each axis, and hence in its own chunk. Beyond these chunks some place is
/// no number of the format.
pub proof fn lemma_terrain_stays_in_its_chunk(
    seed: u64,
    cx: i32,
    cy: i32,
    jitter: Seq<Vec2Lite>,
    i: int,
)
    requires
        0 <= i < 5,
        placeable(cx),
        placeable(cy),
        slight(jitter[i].x),
        slight(jitter[i].y),
    ensures
        ({
            let pos = chunk_terrain(seed, cx, cy, jitter)[i].pos;
            let (fx, fy) = terrain_fraction(i);
            &&& pos.finite()
            &&& 2 * size_of(pos.x.units() - (32 * cx + inset(fx)) * one_unit()) <= one_unit()
            &&& 2 * size_of(pos.y.units() - (32 * cy + inset(fy)) * one_unit()) <= one_unit()
            &&& chunk_of(pos) == (cx, cy)
        }),
{
    let (fx, fy) = terrain_fraction(i);
    lemma_spot(cx, fx, jitter[i].x);
    lemma_spot(cy, fy, jitter[i].y);
}

/// Nothing inert stays behind in a chunk that was let go.
pub proof fn lemma_inactive_is_dropped(nodes: Seq<Node>, inactive: Seq<(i32, i32)>, i: int)
    requires
        0 <= i < nodes.len(),
        nodes[i].physical is Some,
        nodes[i].marker is None,
        inactive.contains(owner(nodes[i])),
    ensures
        dropped(nodes, inactive).contains(nodes[i].entity),
    decreases nodes.len(),
{
    let rest = nodes.drop_last();
    let list = dropped(rest, inactive);
    let all = dropped(nodes, inactive);
    if i < rest.len() {
        lemma_inactive_is_dropped(rest, inactive, i);
        assert(rest[i] == nodes[i]);
        let k = choose|k: int| 0 <= k < list.len() && list[k] == nodes[i].entity;
        assert(all[k] == nodes[i].entity);
    } else {
        assert(all[list.len() as int] == nodes[i].entity);
    }
}

/// No node of an agent is ever dropped, and every node that is dropped belonged
/// to a chunk that was let go.
pub proof fn lemma_dropped_are_inert(nodes: Seq<Node>, inactive: Seq<(i32, i32)>, e: u64)
    requires
        dropped(nodes, inactive).contains(e),
    ensures
        exists|i: int|
            0 <= i < nodes.len() && (#[trigger] nodes[i]).entity == e && nodes[i].marker is None
                && inactive.contains(owner(nodes[i])),
    decreases nodes.len(),
{
    if nodes.len() > 0 {
        let rest = nodes.drop_last();
        let list = dropped(rest, inactive);
        if list.contains(e) {
            lemma_dropped_are_inert(rest, inactive, e);
            let i = choose|i: int|
                0 <= i < rest.len() && (#[trigger] rest[i]).entity == e && rest[i].marker is None
                    && inactive.contains(owner(rest[i]));
            assert(nodes[i] == rest[i]);
        } else {
            let all = dropped(nodes, inactive);
            let k = choose|k: int| 0 <= k < all.len() && all[k] == e;
            assert(k == list.len()) by {
                if k < list.len() {
                    assert(list[k] == e);
                }
            }
            assert(nodes[nodes.len() - 1].entity == e);
        }
    }
}

} // verus!
