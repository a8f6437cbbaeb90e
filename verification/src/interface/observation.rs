//! What an agent sees.

use crate::binary32::model::lemma_grid_order;
use crate::binary32::num;
use crate::binary32::Binary32;
use crate::interface::config::InterfaceConfig;
use crate::interface::config::CONDUCTIVITY;
use crate::interface::config::ENERGY;
use crate::interface::config::MASS;
use crate::interface::config::NEIGHBOR_STRIDE;
use crate::interface::config::OSC_FREQ;
use crate::interface::config::OSC_PHASE;
use crate::interface::config::REL_VX;
use crate::interface::config::REL_VY;
use crate::interface::config::REL_X;
use crate::interface::config::REL_Y;
use crate::interface::config::SELF_STRIDE;
use crate::interface::config::STRUCTURE;
use crate::interface::config::TAG_0;
use crate::interface::config::TAG_1;
use crate::interface::config::TAG_2;
use crate::interface::config::TAG_3;
use crate::interface::config::VALID;
use crate::interface::vector::Vec2Lite;
use crate::interface::vector::ONE;
use vstd::prelude::*;

verus! {

/// Pattern of one half.
pub const HALF: u32 = 0x3f00_0000;

/// One neighbor as the agent sees it. `valid == false` marks a padding ghost.
#[derive(Clone, Copy, Debug, Default, PartialEq, Eq, Structural)]
pub struct NeighborView {
    pub rel_pos: Vec2Lite,
    pub rel_vel: Vec2Lite,
    pub mass: Binary32,
    pub structure: Binary32,
    pub energy: Binary32,
    pub tags: u64,
    /// Low for shelter material.
    pub conductivity: Binary32,
    /// The neighbor's oscillator broadcast.
    pub osc_freq: Binary32,
    pub osc_phase: Binary32,
    pub valid: bool,
}

/// The `i`-th 16 bits of a relation mask.
pub open spec fn tag_chunk(tags: u64, i: nat) -> u16 {
    if i == 0 {
        (tags % 0x1_0000) as u16
    } else if i == 1 {
        (tags / 0x1_0000 % 0x1_0000) as u16
    } else if i == 2 {
        (tags / 0x1_0000_0000 % 0x1_0000) as u16
    } else {
        (tags / 0x1_0000_0000_0000) as u16
    }
}

/// The mask with these four chunks.
pub open spec fn joined_chunks(a: u16, b: u16, c: u16, d: u16) -> u64 {
    (a + b * 0x1_0000 + c * 0x1_0000_0000 + d * 0x1_0000_0000_0000) as u64
}

/// Four chunks make the mask they were taken from.
pub proof fn lemma_chunks_join(tags: u64)
    ensures
        joined_chunks(
            tag_chunk(tags, 0),
            tag_chunk(tags, 1),
            tag_chunk(tags, 2),
            tag_chunk(tags, 3),
        ) == tags,
{
}

/// A chunk as a number of the tensor. Every one is met exactly.
pub open spec fn chunk_number(tags: u64, i: nat) -> Binary32 {
    Binary32::from_u32(tag_chunk(tags, i) as u32)
}

/// One for true and zero for false.
pub open spec fn flag_number(flag: bool) -> Binary32 {
    if flag {
        num(ONE)
    } else {
        num(0)
    }
}

impl NeighborView {
    /// The ghost that pads the list.
    pub open spec fn ghost_spec() -> NeighborView {
        NeighborView {
            rel_pos: Vec2Lite::zero(),
            rel_vel: Vec2Lite::zero(),
            mass: num(0),
            structure: num(0),
            energy: num(0),
            tags: 0,
            conductivity: num(0),
            osc_freq: num(0),
            osc_phase: num(0),
            valid: false,
        }
    }

    /// The ghost that pads the list.
    #[verifier::when_used_as_spec(ghost_spec)]
    pub fn padding() -> (r: NeighborView)
        ensures
            r == NeighborView::ghost_spec(),
    {
        NeighborView {
            rel_pos: Vec2Lite::zero(),
            rel_vel: Vec2Lite::zero(),
            mass: num(0),
            structure: num(0),
            energy: num(0),
            tags: 0,
            conductivity: num(0),
            osc_freq: num(0),
            osc_phase: num(0),
            valid: false,
        }
    }

    /// The neighbor's block in wire order.
    pub open spec fn flat(self) -> Seq<Binary32> {
        seq![
            self.rel_pos.x,
            self.rel_pos.y,
            self.rel_vel.x,
            self.rel_vel.y,
            self.mass,
            self.structure,
            self.energy,
            chunk_number(self.tags, 0),
            chunk_number(self.tags, 1),
            chunk_number(self.tags, 2),
            chunk_number(self.tags, 3),
            self.conductivity,
            self.osc_freq,
            self.osc_phase,
            flag_number(self.valid),
        ]
    }

    /// Appends the neighbor's block.
    fn push_flat(&self, out: &mut Vec<Binary32>)
        ensures
            final(out)@ == old(out)@ + self.flat(),
    {
        let t: u64 = self.tags;
        out.push(self.rel_pos.x);
        out.push(self.rel_pos.y);
        out.push(self.rel_vel.x);
        out.push(self.rel_vel.y);
        out.push(self.mass);
        out.push(self.structure);
        out.push(self.energy);
        out.push(Binary32::from_u32((t % 0x1_0000) as u32));
        out.push(Binary32::from_u32((t / 0x1_0000 % 0x1_0000) as u32));
        out.push(Binary32::from_u32((t / 0x1_0000_0000 % 0x1_0000) as u32));
        out.push(Binary32::from_u32((t / 0x1_0000_0000_0000) as u32));
        out.push(self.conductivity);
        out.push(self.osc_freq);
        out.push(self.osc_phase);
        out.push(
            if self.valid {
                num(ONE)
            } else {
                num(0)
            },
        );
        assert(out@ =~= old(out)@ + self.flat());
    }

    /// The neighbor that a block describes.
    pub open spec fn unflat(raw: Seq<Binary32>) -> NeighborView {
        NeighborView {
            rel_pos: Vec2Lite { x: raw[REL_X as int], y: raw[REL_Y as int] },
            rel_vel: Vec2Lite { x: raw[REL_VX as int], y: raw[REL_VY as int] },
            mass: raw[MASS as int],
            structure: raw[STRUCTURE as int],
            energy: raw[ENERGY as int],
            tags: joined_chunks(
                raw[TAG_0 as int].to_u16_spec() as u16,
                raw[TAG_1 as int].to_u16_spec() as u16,
                raw[TAG_2 as int].to_u16_spec() as u16,
                raw[TAG_3 as int].to_u16_spec() as u16,
            ),
            conductivity: raw[CONDUCTIVITY as int],
            osc_freq: raw[OSC_FREQ as int],
            osc_phase: raw[OSC_PHASE as int],
            valid: num(HALF).le(raw[VALID as int]),
        }
    }
}

/// The blocks of all neighbors, one after the other.
pub open spec fn flat_neighbors(neighbors: Seq<NeighborView>) -> Seq<Binary32>
    decreases neighbors.len(),
{
    if neighbors.len() == 0 {
        Seq::empty()
    } else {
        flat_neighbors(neighbors.drop_last()) + neighbors.last().flat()
    }
}

/// How many neighbors are no ghosts.
pub open spec fn valid_count(neighbors: Seq<NeighborView>) -> nat
    decreases neighbors.len(),
{
    if neighbors.len() == 0 {
        0
    } else {
        valid_count(neighbors.drop_last()) + if neighbors.last().valid {
            1nat
        } else {
            0
        }
    }
}

/// Blocks all have the same length.
pub proof fn lemma_flat_neighbors_len(neighbors: Seq<NeighborView>)
    ensures
        flat_neighbors(neighbors).len() == neighbors.len() * NEIGHBOR_STRIDE,
    decreases neighbors.len(),
{
    if neighbors.len() > 0 {
        lemma_flat_neighbors_len(neighbors.drop_last());
    }
}

/// The `i`-th block is the `i`-th neighbor's.
pub proof fn lemma_flat_neighbors_block(neighbors: Seq<NeighborView>, i: int)
    requires
        0 <= i < neighbors.len(),
    ensures
        flat_neighbors(neighbors).len() == neighbors.len() * NEIGHBOR_STRIDE,
        flat_neighbors(neighbors).subrange(
            i * NEIGHBOR_STRIDE,
            i * NEIGHBOR_STRIDE + NEIGHBOR_STRIDE,
        ) == neighbors[i].flat(),
    decreases neighbors.len(),
{
    lemma_flat_neighbors_len(neighbors);
    let rest = neighbors.drop_last();
    lemma_flat_neighbors_len(rest);
    let all = flat_neighbors(neighbors);
    let lo = i * NEIGHBOR_STRIDE;
    let hi = lo + NEIGHBOR_STRIDE;
    if i == neighbors.len() - 1 {
        assert(all.subrange(lo, hi) =~= neighbors[i].flat());
    } else {
        lemma_flat_neighbors_block(rest, i);
        assert(all.subrange(lo, hi) =~= flat_neighbors(rest).subrange(lo, hi));
    }
}

/// A neighbor survives the wire, its 64-bit mask and its flag exactly.
pub proof fn lemma_neighbor_returns(n: NeighborView)
    ensures
        NeighborView::unflat(n.flat()) == n,
{
    Binary32::lemma_u16_returns(tag_chunk(n.tags, 0));
    Binary32::lemma_u16_returns(tag_chunk(n.tags, 1));
    Binary32::lemma_u16_returns(tag_chunk(n.tags, 2));
    Binary32::lemma_u16_returns(tag_chunk(n.tags, 3));
    lemma_chunks_join(n.tags);
    lemma_grid_order(HALF as nat, ONE as nat);
    lemma_grid_order(0, HALF as nat);
    let raw = n.flat();
    assert(num(HALF).le(raw[VALID as int]) == n.valid);
}

/// Egocentric observation that the world hands to an agent.
#[derive(Debug)]
pub struct ObservationTensor {
    pub step: u64,
    pub entity_id: u64,
    pub config: InterfaceConfig,
    pub self_state: [Binary32; 8],
    /// The three fields, each with its probes, each with its channels.
    pub field: Vec<Binary32>,
    /// Real neighbors first, then ghosts.
    pub neighbors: Vec<NeighborView>,
}

impl ObservationTensor {
    /// The blocks have the lengths that the configuration says.
    pub open spec fn well_formed(&self) -> bool {
        &&& self.config.max_neighbors > 0
        &&& self.config.countable()
        &&& self.field@.len() == self.config.field_len_spec()
        &&& self.neighbors@.len() == self.config.max_neighbors
    }

    /// An observation of nothing, padded with ghosts.
    pub fn new(config: InterfaceConfig) -> (r: ObservationTensor)
        requires
            config.max_neighbors > 0,
            config.countable(),
        ensures
            r.well_formed(),
            r.step == 0,
            r.entity_id == 0,
            r.config == config,
            r.self_state@ == Seq::new(SELF_STRIDE as nat, |i: int| num(0)),
            r.field@ == Seq::new(config.field_len_spec(), |i: int| num(0)),
            r.neighbors@ == Seq::new(config.max_neighbors as nat, |i: int| NeighborView::padding()),
    {
        let field_len: usize = config.field_len();
        let mut field: Vec<Binary32> = Vec::new();
        while field.len() < field_len
            invariant
                field@.len() <= field_len,
                field@ == Seq::new(field@.len(), |i: int| num(0)),
            decreases field_len - field@.len(),
        {
            field.push(num(0));
            assert(field@ =~= Seq::new(field@.len(), |i: int| num(0)));
        }
        let mut neighbors: Vec<NeighborView> = Vec::new();
        while neighbors.len() < config.max_neighbors
            invariant
                neighbors@.len() <= config.max_neighbors,
                neighbors@ == Seq::new(neighbors@.len(), |i: int| NeighborView::padding()),
            decreases config.max_neighbors - neighbors@.len(),
        {
            neighbors.push(NeighborView::padding());
            assert(neighbors@ =~= Seq::new(neighbors@.len(), |i: int| NeighborView::padding()));
        }
        let z: Binary32 = num(0);
        let self_state: [Binary32; 8] = [z, z, z, z, z, z, z, z];
        assert(self_state@ =~= Seq::new(SELF_STRIDE as nat, |i: int| num(0)));
        ObservationTensor { step: 0, entity_id: 0, config, self_state, field, neighbors }
    }

    /// Flattened length.
    pub fn len(&self) -> (r: usize)
        requires
            self.config.countable(),
        ensures
            r == self.config.observation_len_spec(),
    {
        self.config.observation_len()
    }

    /// Never: the agent's own state is always there.
    pub fn is_empty(&self) -> (r: bool)
        requires
            self.config.countable(),
        ensures
            r == (self.config.observation_len_spec() == 0),
            !r,
    {
        self.len() == 0
    }

    /// The tensor in wire order: self state, fields, neighbors.
    pub open spec fn flat(&self) -> Seq<Binary32> {
        self.self_state@ + self.field@ + flat_neighbors(self.neighbors@)
    }

    /// Flattens into the wire layout.
    pub fn to_f32_vec(&self) -> (out: Vec<Binary32>)
        ensures
            out@ == self.flat(),
            self.well_formed() ==> out@.len() == self.config.observation_len_spec(),
    {
        let mut out: Vec<Binary32> = Vec::new();
        let mut i: usize = 0;
        while i < 8
            invariant
                i <= 8,
                out@ == self.self_state@.take(i as int),
            decreases 8 - i,
        {
            out.push(self.self_state[i]);
            assert(out@ =~= self.self_state@.take(i + 1));
            i = i + 1;
        }
        assert(out@ =~= self.self_state@);
        let mut j: usize = 0;
        while j < self.field.len()
            invariant
                j <= self.field@.len(),
                out@ == self.self_state@ + self.field@.take(j as int),
            decreases self.field@.len() - j,
        {
            out.push(self.field[j]);
            assert(out@ =~= self.self_state@ + self.field@.take(j + 1));
            j = j + 1;
        }
        assert(self.field@.take(j as int) =~= self.field@);
        let mut k: usize = 0;
        let ghost head = self.self_state@ + self.field@;
        assert(out@ =~= head + flat_neighbors(self.neighbors@.take(0)));
        while k < self.neighbors.len()
            invariant
                k <= self.neighbors@.len(),
                out@ == head + flat_neighbors(self.neighbors@.take(k as int)),
            decreases self.neighbors@.len() - k,
        {
            self.neighbors[k].push_flat(&mut out);
            proof {
                assert(self.neighbors@.take(k + 1).drop_last() =~= self.neighbors@.take(k as int));
                assert(out@ =~= head + flat_neighbors(self.neighbors@.take(k + 1)));
            }
            k = k + 1;
        }
        proof {
            assert(self.neighbors@.take(k as int) =~= self.neighbors@);
            lemma_flat_neighbors_len(self.neighbors@);
        }
        out
    }

    /// The observation holds what the numbers `s` say under `config`.
    pub open spec fn read_from(&self, s: Seq<Binary32>, config: InterfaceConfig) -> bool {
        let field_end = SELF_STRIDE + config.field_len_spec() as int;
        &&& self.step == 0
        &&& self.entity_id == 0
        &&& self.config == config
        &&& self.self_state@ == s.take(SELF_STRIDE as int)
        &&& self.field@ == s.subrange(SELF_STRIDE as int, field_end)
        &&& self.neighbors@.len() == config.max_neighbors
        &&& forall|i: int|
            0 <= i < config.max_neighbors ==> #[trigger] self.neighbors@[i] == NeighborView::unflat(
                s.skip(field_end).subrange(
                    i * NEIGHBOR_STRIDE,
                    i * NEIGHBOR_STRIDE + NEIGHBOR_STRIDE,
                ),
            )
    }

    /// Reads the wire layout.
    pub fn from_f32_slice(s: &[Binary32], config: InterfaceConfig) -> (r: ObservationTensor)
        requires
            config.max_neighbors > 0,
            config.countable(),
            s@.len() == config.observation_len_spec(),
        ensures
            r.read_from(s@, config),
            r.well_formed(),
    {
        let field_len: usize = config.field_len();
        let field_end: usize = SELF_STRIDE + field_len;
        let self_state: [Binary32; 8] = [s[0], s[1], s[2], s[3], s[4], s[5], s[6], s[7]];
        assert(self_state@ =~= s@.take(SELF_STRIDE as int));
        let mut field: Vec<Binary32> = Vec::new();
        while field.len() < field_len
            invariant
                field@.len() <= field_len,
                field_end == SELF_STRIDE + field_len,
                field_end <= s@.len(),
                field@ == s@.subrange(SELF_STRIDE as int, SELF_STRIDE + field@.len() as int),
            decreases field_len - field@.len(),
        {
            let at: usize = field.len();
            field.push(s[SELF_STRIDE + at]);
            assert(field@ =~= s@.subrange(SELF_STRIDE as int, SELF_STRIDE + field@.len() as int));
        }
        let mut neighbors: Vec<NeighborView> = Vec::new();
        let ghost rest = s@.skip(field_end as int);
        let mut base: usize = field_end;
        while neighbors.len() < config.max_neighbors
            invariant
                neighbors@.len() <= config.max_neighbors,
                s@.len() == field_end + config.max_neighbors * NEIGHBOR_STRIDE,
                s@.len() <= usize::MAX,
                base == field_end + neighbors@.len() * NEIGHBOR_STRIDE,
                rest == s@.skip(field_end as int),
                forall|i: int|
                    0 <= i < neighbors@.len() ==> #[trigger] neighbors@[i] == NeighborView::unflat(
                        rest.subrange(
                            i * NEIGHBOR_STRIDE,
                            i * NEIGHBOR_STRIDE + NEIGHBOR_STRIDE,
                        ),
                    ),
            decreases config.max_neighbors - neighbors@.len(),
        {
            let tag_0: u64 = s[base + TAG_0].to_u16() as u64;
            let tag_1: u64 = s[base + TAG_1].to_u16() as u64;
            let tag_2: u64 = s[base + TAG_2].to_u16() as u64;
            let tag_3: u64 = s[base + TAG_3].to_u16() as u64;
            let view: NeighborView = NeighborView {
                rel_pos: Vec2Lite::new(s[base + REL_X], s[base + REL_Y]),
                rel_vel: Vec2Lite::new(s[base + REL_VX], s[base + REL_VY]),
                mass: s[base + MASS],
                structure: s[base + STRUCTURE],
                energy: s[base + ENERGY],
                tags: tag_0 + tag_1 * 0x1_0000 + tag_2 * 0x1_0000_0000 + tag_3
                    * 0x1_0000_0000_0000,
                conductivity: s[base + CONDUCTIVITY],
                osc_freq: s[base + OSC_FREQ],
                osc_phase: s[base + OSC_PHASE],
                valid: num(HALF).le(s[base + VALID]),
            };
            proof {
                let i = neighbors@.len() as int;
                let raw = rest.subrange(i * NEIGHBOR_STRIDE, i * NEIGHBOR_STRIDE + NEIGHBOR_STRIDE);
                assert(forall|j: int| 0 <= j < NEIGHBOR_STRIDE ==> #[trigger] raw[j] == s@[base + j]);
                assert(view == NeighborView::unflat(raw));
            }
            neighbors.push(view);
            base = base + NEIGHBOR_STRIDE;
        }
        ObservationTensor { step: 0, entity_id: 0, config, self_state, field, neighbors }
    }
}

/// An observation survives the wire: what is read back from its flattened form
/// has the same self state, the same fields and the same neighbors.
pub proof fn lemma_observation_returns(obs: ObservationTensor, back: ObservationTensor)
    requires
        obs.well_formed(),
        back.read_from(obs.flat(), obs.config),
    ensures
        back.self_state@ == obs.self_state@,
        back.field@ == obs.field@,
        back.neighbors@ == obs.neighbors@,
{
    let flat = obs.flat();
    let tail = flat_neighbors(obs.neighbors@);
    assert(back.self_state@ =~= obs.self_state@);
    assert(back.field@ =~= obs.field@);
    assert(flat.skip(SELF_STRIDE + obs.config.field_len_spec() as int) =~= tail);
    assert forall|i: int| 0 <= i < obs.config.max_neighbors implies back.neighbors@[i]
        == #[trigger] obs.neighbors@[i] by {
        lemma_flat_neighbors_block(obs.neighbors@, i);
        lemma_neighbor_returns(obs.neighbors@[i]);
    }
    assert(back.neighbors@ =~= obs.neighbors@);
}

} // verus!
