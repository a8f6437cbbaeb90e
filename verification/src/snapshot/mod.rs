//! Canonical snapshots of a world between two steps.
//!
//! A snapshot holds the physical state, the clocks, the seeds and the public
//! identities of a world, and the name of a checkpoint that an external agent
//! keeps for itself. It never holds a controller.

pub mod restoration;

pub use restoration::restore;

use crate::binary32::num;
use crate::binary32::Binary32;
use crate::components::lemma_place;
use crate::components::lemma_place_is;
use crate::components::lookup;
use crate::components::node_of;
use crate::components::place_of;
use crate::components::AgentMarker;
use crate::components::AgentTuning;
use crate::components::ChunkOrigin;
use crate::components::ClampState;
use crate::components::EnergyLedger;
use crate::components::Node;
use crate::components::Oscillator;
use crate::components::Physical;
use crate::components::ReproductionState;
use crate::components::StableId;
use crate::draws::blake3_hex;
use crate::draws::digest;
use crate::interface::vector::Vec2Lite;
use crate::world::ErtwWorld;
use vstd::prelude::*;

verus! {

/// Version of the form of a snapshot.
pub const SNAPSHOT_SCHEMA_VERSION: u16 = 2;

/// `n`, or the largest identity.
pub open spec fn saturated(n: int) -> u64 {
    if n > u64::MAX {
        u64::MAX
    } else {
        n as u64
    }
}

/// Gives out identities that outlive the engine's numbers.
#[derive(Clone, Copy, Debug, Default, PartialEq, Eq, Structural)]
pub struct StableIdAllocator {
    /// The largest identity given out or seen.
    pub next: u64,
}

impl StableIdAllocator {
    /// The next identity.
    pub fn allocate(&mut self) -> (r: StableId)
        ensures
            r == StableId(saturated(old(self).next + 1)),
            final(self).next == r.0,
    {
        self.next = self.next.saturating_add(1);
        StableId(self.next)
    }

    /// Takes note of an identity that was given elsewhere.
    pub fn observe(&mut self, value: u64)
        ensures
            final(self).next == if old(self).next < value {
                value
            } else {
                old(self).next
            },
    {
        if self.next < value {
            self.next = value;
        }
    }
}

/// An identity that is given out is new, until the last one was given: it is
/// larger than every one given out or observed before.
pub proof fn lemma_allocated_is_new(before: StableIdAllocator, observed: u64, given: StableId)
    requires
        before.next < u64::MAX,
        observed <= before.next,
        given == StableId(saturated(before.next + 1)),
    ensures
        given.0 > observed,
        given.0 > 0,
{
}

/// Does the node need an identity?
pub open spec fn needs_id(node: Node) -> bool {
    node.physical is Some && node.stable_id is None
}

/// The largest identity among the first `n` nodes.
pub open spec fn highest(nodes: Seq<Node>, n: nat) -> u64
    decreases n,
{
    if n == 0 {
        0
    } else {
        let rest = highest(nodes, (n - 1) as nat);
        match nodes[n - 1].stable_id {
            Some(id) => if rest < id.0 {
                id.0
            } else {
                rest
            },
            None => rest,
        }
    }
}

/// Does node `j` get its identity before node `i`? Identities go by the engine's
/// numbers.
pub open spec fn precedes(nodes: Seq<Node>, j: int, i: int) -> bool {
    &&& needs_id(nodes[j])
    &&& nodes[j].entity < nodes[i].entity || (nodes[j].entity == nodes[i].entity && j < i)
}

/// How many of the first `n` nodes get their identity before node `i`.
pub open spec fn earlier(nodes: Seq<Node>, i: int, n: nat) -> nat
    decreases n,
{
    if n == 0 {
        0
    } else {
        earlier(nodes, i, (n - 1) as nat) + if precedes(nodes, n - 1, i) {
            1nat
        } else {
            0
        }
    }
}

/// How many of the first `n` nodes need an identity.
pub open spec fn needing(nodes: Seq<Node>, n: nat) -> nat
    decreases n,
{
    if n == 0 {
        0
    } else {
        needing(nodes, (n - 1) as nat) + if needs_id(nodes[n - 1]) {
            1nat
        } else {
            0
        }
    }
}

/// The larger of two identities.
pub open spec fn larger(a: u64, b: u64) -> u64 {
    if a < b {
        b
    } else {
        a
    }
}

/// Node `i` with an identity; `base` is the largest one in use.
pub open spec fn labelled(nodes: Seq<Node>, base: u64, i: int) -> Node {
    if needs_id(nodes[i]) {
        Node {
            stable_id: Some(StableId(saturated(base + earlier(nodes, i, nodes.len()) + 1))),
            ..nodes[i]
        }
    } else {
        nodes[i]
    }
}

/// The table with identities.
pub open spec fn identified(nodes: Seq<Node>, base: u64) -> Seq<Node> {
    Seq::new(nodes.len(), |i: int| labelled(nodes, base, i))
}

/// Gives every node with a body an identity, in the order of the engine's
/// numbers. Identities in use are never given again.
pub fn ensure_stable_ids(nodes: &mut Vec<Node>, allocator: &mut StableIdAllocator)
    ensures
        final(nodes)@ == identified(
            old(nodes)@,
            larger(old(allocator).next, highest(old(nodes)@, old(nodes)@.len())),
        ),
        final(allocator).next == saturated(
            larger(old(allocator).next, highest(old(nodes)@, old(nodes)@.len())) + needing(
                old(nodes)@,
                old(nodes)@.len(),
            ),
        ),
{
    let ghost start = nodes@;
    let mut top: u64 = 0;
    let mut count: u64 = 0;
    let mut i: usize = 0;
    while i < nodes.len()
        invariant
            i <= nodes@.len(),
            nodes@ == start,
            top == highest(start, i as nat),
            count == needing(start, i as nat),
            count <= i,
        decreases nodes@.len() - i,
    {
        match nodes[i].stable_id {
            Some(id) => {
                if top < id.0 {
                    top = id.0;
                }
            },
            None => {
                if nodes[i].physical.is_some() {
                    count += 1;
                }
            },
        }
        i += 1;
    }
    allocator.observe(top);
    let base: u64 = allocator.next;
    let mut out: Vec<Node> = Vec::new();
    let mut i: usize = 0;
    while i < nodes.len()
        invariant
            i <= nodes@.len(),
            nodes@ == start,
            out@ == identified(start, base).take(i as int),
        decreases nodes@.len() - i,
    {
        let mut node: Node = nodes[i];
        if node.physical.is_some() && node.stable_id.is_none() {
            let mut rank: u64 = 0;
            let mut j: usize = 0;
            while j < nodes.len()
                invariant
                    j <= nodes@.len(),
                    i < nodes@.len(),
                    nodes@ == start,
                    node == start[i as int],
                    rank == earlier(start, i as int, j as nat),
                    rank <= j,
                decreases nodes@.len() - j,
            {
                let other: Node = nodes[j];
                if other.physical.is_some() && other.stable_id.is_none() && (other.entity
                    < node.entity || (other.entity == node.entity && j < i)) {
                    rank += 1;
                }
                j += 1;
            }
            node.stable_id = Some(StableId(base.saturating_add(rank).saturating_add(1)));
        }
        out.push(node);
        assert(out@ =~= identified(start, base).take(i + 1));
        i += 1;
    }
    allocator.next = base.saturating_add(count);
    assert(out@ =~= identified(start, base));
    *nodes = out;
}

proof fn lemma_highest(nodes: Seq<Node>, n: nat, i: int)
    requires
        0 <= i < n <= nodes.len(),
    ensures
        nodes[i].stable_id matches Some(id) ==> id.0 <= highest(nodes, n),
    decreases n,
{
    if i < n - 1 {
        lemma_highest(nodes, (n - 1) as nat, i);
    }
}

/// Of two nodes that need an identity, the one that comes first has fewer before
/// it.
proof fn lemma_earlier_grows(nodes: Seq<Node>, a: int, b: int, n: nat)
    requires
        0 <= a < nodes.len(),
        n <= nodes.len(),
        precedes(nodes, a, b),
    ensures
        earlier(nodes, a, n) + if a < n {
            1nat
        } else {
            0
        } <= earlier(nodes, b, n),
    decreases n,
{
    if n > 0 {
        lemma_earlier_grows(nodes, a, b, (n - 1) as nat);
    }
}

/// No identity is used twice: where the identities in use are different and
/// enough are left, all are different afterwards, and those in use stay.
pub proof fn lemma_identities_differ(nodes: Seq<Node>, next: u64, i: int, j: int)
    requires
        0 <= i < nodes.len(),
        0 <= j < nodes.len(),
        i != j,
        larger(next, highest(nodes, nodes.len())) + needing(nodes, nodes.len()) <= u64::MAX,
        forall|a: int, b: int|
            0 <= a < nodes.len() && 0 <= b < nodes.len() && a != b && (
            #[trigger] nodes[a]).stable_id is Some ==> nodes[a].stable_id != (
            #[trigger] nodes[b]).stable_id,
    ensures
        ({
            let all = identified(nodes, larger(next, highest(nodes, nodes.len())));
            &&& all[i].stable_id is Some ==> all[i].stable_id != all[j].stable_id
            &&& nodes[i].stable_id is Some ==> all[i] == nodes[i]
        }),
{
    let n = nodes.len();
    lemma_earlier_room(nodes, i, n);
    lemma_earlier_room(nodes, j, n);
    lemma_highest(nodes, n, i);
    lemma_highest(nodes, n, j);
    if needs_id(nodes[i]) && needs_id(nodes[j]) {
        if precedes(nodes, i, j) {
            lemma_earlier_grows(nodes, i, j, n);
        } else {
            lemma_earlier_grows(nodes, j, i, n);
        }
    }
}

/// A node that needs an identity is not before itself.
proof fn lemma_earlier_room(nodes: Seq<Node>, i: int, n: nat)
    requires
        0 <= i < nodes.len(),
        n <= nodes.len(),
    ensures
        needs_id(nodes[i]) && i < n ==> earlier(nodes, i, n) < needing(nodes, n),
        earlier(nodes, i, n) <= needing(nodes, n),
    decreases n,
{
    if n > 0 {
        lemma_earlier_room(nodes, i, (n - 1) as nat);
    }
}

/// What a snapshot says of an agent.
#[derive(Clone, Copy, Debug, PartialEq, Eq, Structural)]
pub struct CanonicalAgent {
    pub generation: u32,
    pub lineage: u64,
    pub sensor_radius: Binary32,
    pub max_neighbors: usize,
    pub yield_threshold: Binary32,
    pub oscillator_baseline: Binary32,
    pub reproduction: ReproductionState,
    pub fabricate_cooldown: Binary32,
    /// Identity of the node that the agent holds.
    pub clamp_target: Option<u64>,
    pub clamp_cooldown: Binary32,
}

/// What a snapshot says of a node.
#[derive(Clone, Copy, Debug, PartialEq, Eq, Structural)]
pub struct CanonicalNode {
    pub stable_id: u64,
    pub position: Vec2Lite,
    /// Angle about the axis that stands on the plane.
    pub rotation: Binary32,
    pub linear_velocity: Vec2Lite,
    pub angular_velocity: Binary32,
    pub physical: Physical,
    pub yield_threshold: Binary32,
    pub conductivity: Binary32,
    pub tags: u64,
    pub oscillator: Option<Oscillator>,
    pub node_rng: u64,
    pub chunk_origin: Option<ChunkOrigin>,
    pub dead: bool,
    /// The flows since the node was born, and when that was.
    pub energy_ledger: EnergyLedger,
    pub agent: Option<CanonicalAgent>,
}

/// A world between two steps.
#[derive(Clone, Debug)]
pub struct WorldSnapshot {
    pub schema_version: u16,
    pub seed: u64,
    pub simulation_tick: u64,
    pub field_time: Binary32,
    pub agent_checkpoint: Option<String>,
    pub active_chunks: Vec<(i32, i32)>,
    pub nodes: Vec<CanonicalNode>,
}

impl WorldSnapshot {
    /// The digest of a snapshot, from its canonical bytes.
    pub fn content_hash(canonical_bytes: &[u8]) -> (r: String)
        ensures
            r@ == blake3_hex(canonical_bytes@),
            r@.len() == 64,
    {
        digest(canonical_bytes)
    }
}

/// The identity of the node that a clamp holds, if it has one.
pub open spec fn held_identity(nodes: Seq<Node>, clamp: ClampState) -> Option<u64> {
    match clamp.target {
        Some(target) => match node_of(nodes, target) {
            Some(n) => match n.stable_id {
                Some(id) => Some(id.0),
                None => None,
            },
            None => None,
        },
        None => None,
    }
}

/// What a snapshot says of the agent in a node.
pub open spec fn canonical_agent(nodes: Seq<Node>, node: Node) -> Option<CanonicalAgent> {
    match (node.marker, node.tuning) {
        (Some(marker), Some(tuning)) => Some(
            CanonicalAgent {
                generation: marker.generation,
                lineage: marker.lineage,
                sensor_radius: tuning.sensor_radius,
                max_neighbors: tuning.max_neighbors,
                yield_threshold: tuning.yield_threshold,
                oscillator_baseline: tuning.osc_baseline,
                reproduction: match node.reproduction {
                    Some(r) => r,
                    None => ReproductionState { surplus_seconds: num(0), cooldown_seconds: num(0) },
                },
                fabricate_cooldown: match node.fabricate {
                    Some(f) => f.remaining,
                    None => num(0),
                },
                clamp_target: match node.clamp {
                    Some(c) => held_identity(nodes, c),
                    None => None,
                },
                clamp_cooldown: match node.clamp {
                    Some(c) => c.cooldown,
                    None => num(0),
                },
            },
        ),
        _ => None,
    }
}

/// Does the node go into a snapshot?
pub open spec fn lasting(node: Node) -> bool {
    &&& node.stable_id is Some
    &&& node.physical is Some
    &&& node.yield_thresh is Some
    &&& node.conductivity is Some
    &&& node.tags is Some
}

/// What a snapshot says of a node that turned by `angle`.
pub open spec fn canonical(nodes: Seq<Node>, node: Node, angle: Binary32) -> CanonicalNode {
    CanonicalNode {
        stable_id: node.stable_id->Some_0.0,
        position: node.position,
        rotation: angle,
        linear_velocity: node.motion(),
        angular_velocity: match node.spin {
            Some(s) => s,
            None => num(0),
        },
        physical: node.physical->Some_0,
        yield_threshold: node.yield_thresh->Some_0.0,
        conductivity: node.conductivity->Some_0.0,
        tags: node.tags->Some_0.0.0,
        oscillator: node.oscillator,
        node_rng: match node.node_rng {
            Some(r) => r.0,
            None => 0,
        },
        chunk_origin: node.chunk_origin,
        dead: node.dead,
        energy_ledger: match node.ledger {
            Some(l) => l,
            None => EnergyLedger::opened(0),
        },
        agent: canonical_agent(nodes, node),
    }
}

/// Where a node goes in a list sorted by identity: behind its equals.
pub open spec fn slot(list: Seq<CanonicalNode>, id: u64, n: nat) -> nat
    decreases n,
{
    if n == 0 || list[n - 1].stable_id <= id {
        n
    } else {
        slot(list, id, (n - 1) as nat)
    }
}

/// The list with one node more.
pub open spec fn placed(list: Seq<CanonicalNode>, node: CanonicalNode) -> Seq<CanonicalNode> {
    list.insert(slot(list, node.stable_id, list.len()) as int, node)
}

/// What a snapshot lists of the first `n` nodes, by identity.
pub open spec fn listed(nodes: Seq<Node>, angles: Seq<Binary32>, n: nat) -> Seq<CanonicalNode>
    decreases n,
{
    if n == 0 {
        Seq::empty()
    } else {
        let rest = listed(nodes, angles, (n - 1) as nat);
        if lasting(nodes[n - 1]) {
            placed(rest, canonical(nodes, nodes[n - 1], angles[n - 1]))
        } else {
            rest
        }
    }
}

proof fn lemma_slot(list: Seq<CanonicalNode>, id: u64, n: nat)
    ensures
        slot(list, id, n) <= n,
        slot(list, id, n) > 0 ==> list[slot(list, id, n) - 1].stable_id <= id,
        forall|i: int| slot(list, id, n) <= i < n ==> (#[trigger] list[i]).stable_id > id,
    decreases n,
{
    if n > 0 && list[n - 1].stable_id > id {
        lemma_slot(list, id, (n - 1) as nat);
    }
}

/// Puts a node into a list sorted by identity.
fn place(list: &mut Vec<CanonicalNode>, node: CanonicalNode)
    ensures
        final(list)@ == placed(old(list)@, node),
{
    let mut k: usize = list.len();
    while k > 0 && list[k - 1].stable_id > node.stable_id
        invariant
            k <= list@.len(),
            list@ == old(list)@,
            slot(list@, node.stable_id, list@.len()) == slot(list@, node.stable_id, k as nat),
        decreases k,
    {
        k -= 1;
    }
    list.insert(k, node);
}

/// What a snapshot says of one node.
fn describe(nodes: &Vec<Node>, node: Node, angle: Binary32) -> (r: Option<CanonicalNode>)
    ensures
        r == if lasting(node) {
            Some(canonical(nodes@, node, angle))
        } else {
            None
        },
{
    match (node.stable_id, node.physical, node.yield_thresh, node.conductivity, node.tags) {
        (Some(id), Some(physical), Some(y), Some(c), Some(t)) => {
            let agent: Option<CanonicalAgent> = describe_agent(nodes, node);
            Some(
                CanonicalNode {
                    stable_id: id.0,
                    position: node.position,
                    rotation: angle,
                    linear_velocity: node.motion(),
                    angular_velocity: match node.spin {
                        Some(s) => s,
                        None => num(0),
                    },
                    physical,
                    yield_threshold: y.0,
                    conductivity: c.0,
                    tags: t.0.0,
                    oscillator: node.oscillator,
                    node_rng: match node.node_rng {
                        Some(r) => r.0,
                        None => 0,
                    },
                    chunk_origin: node.chunk_origin,
                    dead: node.dead,
                    energy_ledger: match node.ledger {
                        Some(l) => l,
                        None => EnergyLedger::opened(0),
                    },
                    agent,
                },
            )
        },
        _ => None,
    }
}

/// What a snapshot says of the agent in a node.
fn describe_agent(nodes: &Vec<Node>, node: Node) -> (r: Option<CanonicalAgent>)
    ensures
        r == canonical_agent(nodes@, node),
{
    let (marker, tuning): (AgentMarker, AgentTuning) = match (node.marker, node.tuning) {
        (Some(m), Some(t)) => (m, t),
        _ => {
            return None;
        },
    };
    let (clamp_target, clamp_cooldown): (Option<u64>, Binary32) = match node.clamp {
        Some(c) => {
            let held: Option<u64> = match c.target {
                Some(target) => match lookup(nodes, target) {
                    Some(n) => match n.stable_id {
                        Some(id) => Some(id.0),
                        None => None,
                    },
                    None => None,
                },
                None => None,
            };
            (held, c.cooldown)
        },
        None => (None, num(0)),
    };
    Some(
        CanonicalAgent {
            generation: marker.generation,
            lineage: marker.lineage,
            sensor_radius: tuning.sensor_radius,
            max_neighbors: tuning.max_neighbors,
            yield_threshold: tuning.yield_threshold,
            oscillator_baseline: tuning.osc_baseline,
            reproduction: match node.reproduction {
                Some(r) => r,
                None => ReproductionState { surplus_seconds: num(0), cooldown_seconds: num(0) },
            },
            fabricate_cooldown: match node.fabricate {
                Some(f) => f.remaining,
                None => num(0),
            },
            clamp_target,
            clamp_cooldown,
        },
    )
}

/// Takes a snapshot. Every node with a body gets an identity first. `angles`
/// holds how far each node has turned.
pub fn capture<A>(
    world: &mut ErtwWorld<A>,
    angles: &[Binary32],
    agent_checkpoint: Option<String>,
) -> (r: WorldSnapshot)
    requires
        angles@.len() == old(world).nodes@.len(),
    ensures
        final(world).nodes@ == identified(
            old(world).nodes@,
            larger(
                old(world).allocator.next,
                highest(old(world).nodes@, old(world).nodes@.len()),
            ),
        ),
        final(world).allocator.next == saturated(
            larger(
                old(world).allocator.next,
                highest(old(world).nodes@, old(world).nodes@.len()),
            ) + needing(old(world).nodes@, old(world).nodes@.len()),
        ),
        final(world).agents == old(world).agents,
        final(world).chunks == old(world).chunks,
        final(world).seed == old(world).seed,
        final(world).clock == old(world).clock,
        final(world).sampler == old(world).sampler,
        final(world).joints == old(world).joints,
        final(world).spatial == old(world).spatial,
        final(world).pending == old(world).pending,
        final(world).history == old(world).history,
        final(world).fragments == old(world).fragments,
        final(world).deaths == old(world).deaths,
        r.schema_version == SNAPSHOT_SCHEMA_VERSION,
        r.seed == old(world).seed.0,
        r.simulation_tick == old(world).clock.step,
        r.field_time == old(world).sampler.time,
        r.agent_checkpoint == agent_checkpoint,
        r.active_chunks@ == old(world).chunks.active@,
        r.nodes@ == listed(final(world).nodes@, angles@, final(world).nodes@.len()),
{
    ensure_stable_ids(&mut world.nodes, &mut world.allocator);
    let mut list: Vec<CanonicalNode> = Vec::new();
    let mut i: usize = 0;
    while i < world.nodes.len()
        invariant
            i <= world.nodes@.len(),
            angles@.len() == world.nodes@.len(),
            list@ == listed(world.nodes@, angles@, i as nat),
        decreases world.nodes@.len() - i,
    {
        match describe(&world.nodes, world.nodes[i], angles[i]) {
            Some(c) => {
                place(&mut list, c);
            },
            None => {},
        }
        i += 1;
    }
    WorldSnapshot {
        schema_version: SNAPSHOT_SCHEMA_VERSION,
        seed: world.seed.0,
        simulation_tick: world.clock.step,
        field_time: world.sampler.time,
        agent_checkpoint,
        active_chunks: world.chunks.active_chunks(),
        nodes: list,
    }
}

/// A snapshot lists its nodes by identity.
pub proof fn lemma_snapshot_is_sorted(nodes: Seq<Node>, angles: Seq<Binary32>, n: nat)
    ensures
        forall|i: int, j: int|
            0 <= i < j < listed(nodes, angles, n).len() ==> (#[trigger] listed(
                nodes,
                angles,
                n,
            )[i]).stable_id <= (#[trigger] listed(nodes, angles, n)[j]).stable_id,
    decreases n,
{
    if n > 0 {
        lemma_snapshot_is_sorted(nodes, angles, (n - 1) as nat);
        if lasting(nodes[n - 1]) {
            let rest = listed(nodes, angles, (n - 1) as nat);
            let c = canonical(nodes, nodes[n - 1], angles[n - 1]);
            lemma_slot(rest, c.stable_id, rest.len());
            let k = slot(rest, c.stable_id, rest.len()) as int;
            let all = placed(rest, c);
            assert forall|i: int, j: int| 0 <= i < j < all.len() implies (
            #[trigger] all[i]).stable_id <= (#[trigger] all[j]).stable_id by {
                let a = if i < k {
                    i
                } else {
                    i - 1
                };
                let b = if j < k {
                    j
                } else {
                    j - 1
                };
                if i != k {
                    assert(all[i] == rest[a]);
                }
                if j != k {
                    assert(all[j] == rest[b]);
                }
                if i == k {
                    assert(rest[b].stable_id > c.stable_id);
                } else if j == k {
                    assert(rest[a].stable_id <= rest[k - 1].stable_id);
                }
            }
        }
    }
}

/// What a snapshot lists is what there is: each lasting node as it is described,
/// and nothing else.
pub proof fn lemma_snapshot_is_complete(
    nodes: Seq<Node>,
    angles: Seq<Binary32>,
    n: nat,
    c: CanonicalNode,
)
    requires
        n <= nodes.len(),
    ensures
        listed(nodes, angles, n).contains(c) <==> exists|i: int|
            0 <= i < n && lasting(#[trigger] nodes[i]) && canonical(nodes, nodes[i], angles[i])
                == c,
    decreases n,
{
    if n > 0 {
        lemma_snapshot_is_complete(nodes, angles, (n - 1) as nat, c);
        let rest = listed(nodes, angles, (n - 1) as nat);
        if lasting(nodes[n - 1]) {
            let new = canonical(nodes, nodes[n - 1], angles[n - 1]);
            lemma_slot(rest, new.stable_id, rest.len());
            let k = slot(rest, new.stable_id, rest.len()) as int;
            let all = placed(rest, new);
            assert(all[k] == new);
            if rest.contains(c) {
                let a = choose|a: int| 0 <= a < rest.len() && rest[a] == c;
                if a < k {
                    assert(all[a] == c);
                } else {
                    assert(all[a + 1] == c);
                }
            }
            if all.contains(c) && c != new {
                let a = choose|a: int| 0 <= a < all.len() && all[a] == c;
                if a < k {
                    assert(rest[a] == c);
                } else {
                    assert(rest[a - 1] == c);
                }
            }
        }
    }
}

/// Different identities all over the table.
pub open spec fn distinct_identities(nodes: Seq<Node>) -> bool {
    forall|i: int, j: int|
        0 <= i < nodes.len() && 0 <= j < nodes.len() && i != j && (
        #[trigger] nodes[i]).stable_id is Some ==> nodes[i].stable_id != (
        #[trigger] nodes[j]).stable_id
}

/// Different numbers all over the table.
pub open spec fn distinct_entities(nodes: Seq<Node>) -> bool {
    forall|i: int, j: int|
        0 <= i < nodes.len() && 0 <= j < nodes.len() && i != j ==> (#[trigger] nodes[i]).entity != (
        #[trigger] nodes[j]).entity
}

/// The identities grow along the list.
pub open spec fn ascending(list: Seq<CanonicalNode>) -> bool {
    forall|i: int, j: int|
        0 <= i < j < list.len() ==> (#[trigger] list[i]).stable_id < (
        #[trigger] list[j]).stable_id
}

/// Different identities grow along a snapshot.
pub proof fn lemma_snapshot_ascends(nodes: Seq<Node>, angles: Seq<Binary32>, n: nat)
    requires
        n <= nodes.len(),
        distinct_identities(nodes),
    ensures
        ascending(listed(nodes, angles, n)),
    decreases n,
{
    if n > 0 {
        lemma_snapshot_ascends(nodes, angles, (n - 1) as nat);
        if lasting(nodes[n - 1]) {
            let rest = listed(nodes, angles, (n - 1) as nat);
            let c = canonical(nodes, nodes[n - 1], angles[n - 1]);
            let all = placed(rest, c);
            lemma_slot(rest, c.stable_id, rest.len());
            lemma_snapshot_is_sorted(nodes, angles, n);
            let k = slot(rest, c.stable_id, rest.len()) as int;
            assert forall|i: int, j: int| 0 <= i < j < all.len() implies (
            #[trigger] all[i]).stable_id < (#[trigger] all[j]).stable_id by {
                let a = if i < k {
                    i
                } else {
                    i - 1
                };
                let b = if j < k {
                    j
                } else {
                    j - 1
                };
                if i != k && j != k {
                    assert(all[i] == rest[a] && all[j] == rest[b]);
                } else {
                    let m = if i == k {
                        b
                    } else {
                        a
                    };
                    assert(rest.contains(rest[m]));
                    lemma_snapshot_is_complete(nodes, angles, (n - 1) as nat, rest[m]);
                    let x = choose|x: int|
                        0 <= x < n - 1 && lasting(#[trigger] nodes[x]) && canonical(
                            nodes,
                            nodes[x],
                            angles[x],
                        ) == rest[m];
                    assert(nodes[x].stable_id != nodes[n - 1].stable_id);
                    assert(all[i].stable_id <= all[j].stable_id);
                }
            }
        }
    }
}

/// Two ascending lists of the same nodes are the same list.
proof fn lemma_ascending_unique(a: Seq<CanonicalNode>, b: Seq<CanonicalNode>)
    requires
        ascending(a),
        ascending(b),
        forall|c: CanonicalNode| #[trigger] a.contains(c) <==> b.contains(c),
    ensures
        a == b,
    decreases a.len(),
{
    if a.len() == 0 {
        if b.len() > 0 {
            assert(b.contains(b[0]));
            assert(a.contains(b[0]));
        }
        assert(a =~= b);
    } else {
        assert(a.contains(a.last()));
        assert(b.contains(a.last()));
        assert(b.contains(b.last()));
        assert(a.contains(b.last()));
        let i = choose|i: int| 0 <= i < b.len() && b[i] == a.last();
        let j = choose|j: int| 0 <= j < a.len() && a[j] == b.last();
        assert(a.last() == b.last()) by {
            if i < b.len() - 1 {
                assert(b[i].stable_id < b[b.len() - 1].stable_id);
            }
            if j < a.len() - 1 {
                assert(a[j].stable_id < a[a.len() - 1].stable_id);
            }
        }
        let (x, y) = (a.drop_last(), b.drop_last());
        assert forall|c: CanonicalNode| #[trigger] x.contains(c) <==> y.contains(c) by {
            assert(a.contains(c) <==> b.contains(c));
            if x.contains(c) {
                let k = choose|k: int| 0 <= k < x.len() && x[k] == c;
                assert(a[k] == c);
                assert(a[k].stable_id < a[a.len() - 1].stable_id);
                let m = choose|m: int| 0 <= m < b.len() && b[m] == c;
                assert(m < b.len() - 1);
                assert(y[m] == c);
            }
            if y.contains(c) {
                let k = choose|k: int| 0 <= k < y.len() && y[k] == c;
                assert(b[k] == c);
                assert(b[k].stable_id < b[b.len() - 1].stable_id);
                let m = choose|m: int| 0 <= m < a.len() && a[m] == c;
                assert(m < a.len() - 1);
                assert(x[m] == c);
            }
        }
        lemma_ascending_unique(x, y);
        assert(a =~= x.push(a.last()));
        assert(b =~= y.push(b.last()));
    }
}

/// The node with a number, where numbers differ.
pub proof fn lemma_node_at(nodes: Seq<Node>, i: int)
    requires
        0 <= i < nodes.len(),
        distinct_entities(nodes),
    ensures
        node_of(nodes, nodes[i].entity) == Some(nodes[i]),
        place_of(nodes, nodes[i].entity) == Some(i),
{
    lemma_place(nodes, nodes[i].entity);
    lemma_place_is(nodes, nodes[i].entity, i);
}

/// Every row of the first table is a row of the second.
pub open spec fn rows_within(
    a: Seq<Node>,
    a_angles: Seq<Binary32>,
    b: Seq<Node>,
    b_angles: Seq<Binary32>,
) -> bool {
    forall|i: int|
        0 <= i < a.len() ==> exists|j: int|
            0 <= j < b.len() && (#[trigger] a[i]) == #[trigger] b[j] && a_angles[i] == b_angles[j]
}

/// Tables with the same rows find the same node under a number.
proof fn lemma_same_rows_same_node(
    a: Seq<Node>,
    a_angles: Seq<Binary32>,
    b: Seq<Node>,
    b_angles: Seq<Binary32>,
    entity: u64,
)
    requires
        distinct_entities(a),
        distinct_entities(b),
        rows_within(a, a_angles, b, b_angles),
        rows_within(b, b_angles, a, a_angles),
    ensures
        node_of(a, entity) == node_of(b, entity),
{
    lemma_place(a, entity);
    lemma_place(b, entity);
    match place_of(a, entity) {
        Some(i) => {
            let j = choose|j: int|
                0 <= j < b.len() && a[i] == #[trigger] b[j] && a_angles[i] == b_angles[j];
            lemma_node_at(b, j);
        },
        None => {
            if place_of(b, entity) is Some {
                let i = place_of(b, entity)->Some_0;
                let j = choose|j: int|
                    0 <= j < a.len() && b[i] == #[trigger] a[j] && b_angles[i] == a_angles[j];
                lemma_node_at(a, j);
            }
        },
    }
}

/// What one table's snapshot lists, the other's lists.
proof fn lemma_listed_within(
    a: Seq<Node>,
    a_angles: Seq<Binary32>,
    b: Seq<Node>,
    b_angles: Seq<Binary32>,
    c: CanonicalNode,
)
    requires
        distinct_entities(a),
        distinct_entities(b),
        rows_within(a, a_angles, b, b_angles),
        rows_within(b, b_angles, a, a_angles),
        listed(a, a_angles, a.len()).contains(c),
    ensures
        listed(b, b_angles, b.len()).contains(c),
{
    lemma_snapshot_is_complete(a, a_angles, a.len(), c);
    lemma_snapshot_is_complete(b, b_angles, b.len(), c);
    let i = choose|i: int|
        0 <= i < a.len() && lasting(#[trigger] a[i]) && canonical(a, a[i], a_angles[i]) == c;
    let j = choose|j: int|
        0 <= j < b.len() && a[i] == #[trigger] b[j] && a_angles[i] == b_angles[j];
    match a[i].clamp {
        Some(clamp) => match clamp.target {
            Some(target) => {
                lemma_same_rows_same_node(a, a_angles, b, b_angles, target);
            },
            None => {},
        },
        None => {},
    }
    assert(canonical(b, b[j], b_angles[j]) == c);
}

/// Snapshots are canonical: in whatever order the engine keeps its nodes, the
/// snapshot lists them alike.
pub proof fn lemma_snapshot_is_canonical(
    a: Seq<Node>,
    a_angles: Seq<Binary32>,
    b: Seq<Node>,
    b_angles: Seq<Binary32>,
)
    requires
        distinct_entities(a),
        distinct_entities(b),
        distinct_identities(a),
        distinct_identities(b),
        rows_within(a, a_angles, b, b_angles),
        rows_within(b, b_angles, a, a_angles),
    ensures
        listed(a, a_angles, a.len()) == listed(b, b_angles, b.len()),
{
    lemma_snapshot_ascends(a, a_angles, a.len());
    lemma_snapshot_ascends(b, b_angles, b.len());
    let (x, y) = (listed(a, a_angles, a.len()), listed(b, b_angles, b.len()));
    assert forall|c: CanonicalNode| #[trigger] x.contains(c) <==> y.contains(c) by {
        if x.contains(c) {
            lemma_listed_within(a, a_angles, b, b_angles, c);
        }
        if y.contains(c) {
            lemma_listed_within(b, b_angles, a, a_angles, c);
        }
    }
    lemma_ascending_unique(x, y);
}

/// What a snapshot says is held, it lists, where every node with an identity is
/// a complete body.
pub proof fn lemma_held_is_listed(
    nodes: Seq<Node>,
    angles: Seq<Binary32>,
    c: CanonicalNode,
    agent: CanonicalAgent,
    id: u64,
) -> (k: int)
    requires
        forall|i: int|
            0 <= i < nodes.len() && (#[trigger] nodes[i]).stable_id is Some ==> lasting(nodes[i]),
        listed(nodes, angles, nodes.len()).contains(c),
        c.agent == Some(agent),
        agent.clamp_target == Some(id),
    ensures
        0 <= k < listed(nodes, angles, nodes.len()).len(),
        listed(nodes, angles, nodes.len())[k].stable_id == id,
{
    let list = listed(nodes, angles, nodes.len());
    lemma_snapshot_is_complete(nodes, angles, nodes.len(), c);
    let i = choose|i: int|
        0 <= i < nodes.len() && lasting(#[trigger] nodes[i]) && canonical(
            nodes,
            nodes[i],
            angles[i],
        ) == c;
    let target = nodes[i].clamp->Some_0.target->Some_0;
    lemma_place(nodes, target);
    let j = place_of(nodes, target)->Some_0;
    assert(nodes[j].stable_id == Some(StableId(id)));
    assert(lasting(nodes[j]));
    let d = canonical(nodes, nodes[j], angles[j]);
    lemma_snapshot_is_complete(nodes, angles, nodes.len(), d);
    assert(list.contains(d));
    let k = choose|k: int| 0 <= k < list.len() && list[k] == d;
    k
}

} // verus!
