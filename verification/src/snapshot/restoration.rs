//! Bringing a world back from a snapshot. Controllers are supplied separately,
//! by the identities of their agents: a snapshot holds none.

use crate::agents::lemma_fewer_agents_are_steered;
use crate::agents::lemma_listed_is_registered;
use crate::agents::lemma_one_more_is_steered;
use crate::agents::steered;
use crate::binary32::num;
use crate::binary32::Binary32;
use crate::components::AgentMarker;
use crate::components::AgentTuning;
use crate::components::ClampJoint;
use crate::components::ClampState;
use crate::components::Conductivity;
use crate::components::FabricateCooldown;
use crate::components::ImpulseAccum;
use crate::components::Node;
use crate::components::NodeRng;
use crate::components::StableId;
use crate::components::Tags;
use crate::components::Yield;
use crate::fields::Drift;
use crate::fields::FieldSampler;
use crate::fields::SimSeed;
use crate::fragmentation::MIN_MASS;
use crate::genesis::before;
use crate::genesis::in_order;
use crate::interface::vector::Rotation;
use crate::snapshot::ascending;
use crate::snapshot::canonical;
use crate::snapshot::canonical_agent;
use crate::snapshot::distinct_entities;
use crate::snapshot::distinct_identities;
use crate::snapshot::held_identity;
use crate::snapshot::identified;
use crate::snapshot::larger;
use crate::snapshot::lasting;
use crate::snapshot::lemma_held_is_listed;
use crate::snapshot::lemma_node_at;
use crate::snapshot::lemma_snapshot_ascends;
use crate::snapshot::listed;
use crate::snapshot::needing;
use crate::snapshot::placed;
use crate::snapshot::slot;
use crate::snapshot::CanonicalNode;
use crate::snapshot::WorldSnapshot;
use crate::snapshot::SNAPSHOT_SCHEMA_VERSION;
use crate::tags::CustomTags;
use crate::world::ErtwWorld;
use vstd::prelude::*;

verus! {

/// Why a snapshot cannot be brought back.
#[derive(Clone, Copy, Debug, PartialEq, Eq, Structural)]
pub enum RestoreError {
    /// The snapshot has another form.
    UnsupportedSchema,
}

impl RestoreError {
    /// The error in words.
    pub fn message(self) -> (r: &'static str)
        ensures
            r@ == "unsupported snapshot schema"@,
    {
        "unsupported snapshot schema"
    }
}

/// The first of the first `n` controllers supplied for an identity.
pub open spec fn seek<A>(controllers: Seq<(u64, A)>, id: u64, n: nat) -> Option<int>
    decreases n,
{
    if n == 0 {
        None
    } else {
        match seek(controllers, id, (n - 1) as nat) {
            Some(i) => Some(i),
            None => if controllers[n - 1].0 == id {
                Some(n - 1)
            } else {
                None
            },
        }
    }
}

/// The controllers that are left after the first `n` nodes took theirs, and
/// those that were taken, under their new identities.
pub open spec fn handed<A>(
    nodes: Seq<CanonicalNode>,
    controllers: Seq<(u64, A)>,
    n: nat,
) -> (Seq<(u64, A)>, Seq<(u64, A)>)
    decreases n,
{
    if n == 0 {
        (controllers, Seq::empty())
    } else {
        let (left, taken) = handed(nodes, controllers, (n - 1) as nat);
        let node = nodes[n - 1];
        match seek(left, node.stable_id, left.len()) {
            Some(i) if node.agent is Some => (
                left.remove(i),
                taken.push((taken.len() as u64, left[i].1)),
            ),
            _ => (left, taken),
        }
    }
}

/// The controller that node `i` gets.
pub open spec fn controller_of<A>(
    nodes: Seq<CanonicalNode>,
    controllers: Seq<(u64, A)>,
    i: int,
) -> Option<u64> {
    let (left, taken) = handed(nodes, controllers, i as nat);
    if nodes[i].agent is Some && seek(left, nodes[i].stable_id, left.len()) is Some {
        Some(taken.len() as u64)
    } else {
        None
    }
}

/// A node as its snapshot says, without what its agent held.
pub open spec fn revived(
    c: CanonicalNode,
    turn: Rotation,
    entity: u64,
    controller: Option<u64>,
) -> Node {
    let base = Node {
        rotation: turn,
        velocity: Some(c.linear_velocity),
        spin: Some(c.angular_velocity),
        body_mass: Some(c.physical.mass.max(num(MIN_MASS))),
        physical: Some(c.physical),
        yield_thresh: Some(Yield(c.yield_threshold)),
        conductivity: Some(Conductivity(c.conductivity)),
        tags: Some(Tags(CustomTags::from_bits(c.tags))),
        oscillator: c.oscillator,
        impulse: Some(ImpulseAccum { value: num(0), source: None }),
        ledger: Some(c.energy_ledger),
        node_rng: Some(NodeRng(c.node_rng)),
        stable_id: Some(StableId(c.stable_id)),
        chunk_origin: c.chunk_origin,
        dead: c.dead,
        ..Node::bare(entity, c.position)
    };
    match (c.agent, controller) {
        (Some(agent), Some(id)) => Node {
            marker: Some(
                AgentMarker { generation: agent.generation, lineage: agent.lineage, controller: id },
            ),
            tuning: Some(
                AgentTuning {
                    sensor_radius: agent.sensor_radius,
                    max_neighbors: agent.max_neighbors,
                    yield_threshold: agent.yield_threshold,
                    osc_baseline: agent.oscillator_baseline,
                },
            ),
            clamp: Some(ClampState { target: None, joint: None, cooldown: agent.clamp_cooldown }),
            fabricate: Some(FabricateCooldown { remaining: agent.fabricate_cooldown }),
            reproduction: Some(agent.reproduction),
            ..base
        },
        _ => base,
    }
}

/// The table before anyone holds anyone.
pub open spec fn revived_all<A>(
    nodes: Seq<CanonicalNode>,
    controllers: Seq<(u64, A)>,
    turns: Seq<Rotation>,
    entities: Seq<u64>,
    n: nat,
) -> Seq<Node> {
    Seq::new(
        n,
        |i: int|
            revived(nodes[i], turns[i], entities[i], controller_of(nodes, controllers, i)),
    )
}

/// The last of the first `n` nodes with an identity.
pub open spec fn bearer(nodes: Seq<CanonicalNode>, id: u64, n: nat) -> Option<int>
    decreases n,
{
    if n == 0 {
        None
    } else if nodes[n - 1].stable_id == id {
        Some(n - 1)
    } else {
        bearer(nodes, id, (n - 1) as nat)
    }
}

/// The identity that node `i` holds, if its agent holds one.
pub open spec fn grip(c: CanonicalNode) -> Option<u64> {
    match c.agent {
        Some(agent) => agent.clamp_target,
        None => None,
    }
}

/// The node with its clamp closed.
pub open spec fn holding(node: Node, target: u64, joint: u64) -> Node {
    match node.clamp {
        Some(clamp) => Node {
            clamp: Some(ClampState { target: Some(target), joint: Some(joint), ..clamp }),
            ..node
        },
        None => node,
    }
}

/// The table and the joints after the first `n` nodes took hold again.
pub open spec fn rejoined(
    table: Seq<Node>,
    nodes: Seq<CanonicalNode>,
    entities: Seq<u64>,
    joints: Seq<u64>,
    n: nat,
) -> (Seq<Node>, Seq<(u64, ClampJoint)>)
    decreases n,
{
    if n == 0 {
        (table, Seq::empty())
    } else {
        let (t, made) = rejoined(table, nodes, entities, joints, (n - 1) as nat);
        let joint = joints[n - 1];
        match grip(nodes[n - 1]) {
            Some(id) => match (
                bearer(nodes, nodes[n - 1].stable_id, nodes.len()),
                bearer(nodes, id, nodes.len()),
            ) {
                (Some(o), Some(k)) => (
                    t.update(o, holding(t[o], entities[k], joint)),
                    made.push((joint, ClampJoint { owner: entities[o], target: entities[k] })),
                ),
                _ => (t, made),
            },
            None => (t, made),
        }
    }
}

/// The largest identity among the first `n` nodes of a snapshot.
pub open spec fn top_identity(nodes: Seq<CanonicalNode>, n: nat) -> u64
    decreases n,
{
    if n == 0 {
        0
    } else {
        larger(top_identity(nodes, (n - 1) as nat), nodes[n - 1].stable_id)
    }
}

proof fn lemma_seek<A>(controllers: Seq<(u64, A)>, id: u64, n: nat)
    requires
        n <= controllers.len(),
    ensures
        match seek(controllers, id, n) {
            Some(i) => {
                &&& 0 <= i < n
                &&& controllers[i].0 == id
                &&& forall|j: int| 0 <= j < i ==> (#[trigger] controllers[j]).0 != id
            },
            None => forall|j: int| 0 <= j < n ==> (#[trigger] controllers[j]).0 != id,
        },
    decreases n,
{
    if n > 0 {
        lemma_seek(controllers, id, (n - 1) as nat);
    }
}

/// Finds the controller supplied for an identity.
fn find_key<A>(controllers: &Vec<(u64, A)>, id: u64) -> (r: Option<usize>)
    ensures
        match r {
            Some(i) => seek(controllers@, id, controllers@.len()) == Some(i as int) && i
                < controllers@.len(),
            None => seek(controllers@, id, controllers@.len()) is None,
        },
{
    let mut i: usize = 0;
    while i < controllers.len()
        invariant
            i <= controllers@.len(),
            forall|j: int| 0 <= j < i ==> (#[trigger] controllers@[j]).0 != id,
        decreases controllers@.len() - i,
    {
        if controllers[i].0 == id {
            proof {
                lemma_seek(controllers@, id, controllers@.len());
            }
            return Some(i);
        }
        i += 1;
    }
    proof {
        lemma_seek(controllers@, id, controllers@.len());
    }
    None
}

/// Finds the last node with an identity.
fn find_bearer(nodes: &Vec<CanonicalNode>, id: u64) -> (r: Option<usize>)
    ensures
        match r {
            Some(i) => bearer(nodes@, id, nodes@.len()) == Some(i as int) && i < nodes@.len(),
            None => bearer(nodes@, id, nodes@.len()) is None,
        },
{
    let mut i: usize = nodes.len();
    while i > 0
        invariant
            i <= nodes@.len(),
            bearer(nodes@, id, nodes@.len()) == bearer(nodes@, id, i as nat),
        decreases i,
    {
        if nodes[i - 1].stable_id == id {
            return Some(i - 1);
        }
        i -= 1;
    }
    None
}

/// Brings one node back.
fn revive(c: CanonicalNode, turn: Rotation, entity: u64, controller: Option<u64>) -> (r: Node)
    ensures
        r == revived(c, turn, entity, controller),
{
    let mut node: Node = Node::bare(entity, c.position);
    node.rotation = turn;
    node.velocity = Some(c.linear_velocity);
    node.spin = Some(c.angular_velocity);
    node.body_mass = Some(c.physical.mass.max(num(MIN_MASS)));
    node.physical = Some(c.physical);
    node.yield_thresh = Some(Yield(c.yield_threshold));
    node.conductivity = Some(Conductivity(c.conductivity));
    node.tags = Some(Tags(CustomTags::from_bits(c.tags)));
    node.oscillator = c.oscillator;
    node.impulse = Some(ImpulseAccum { value: num(0), source: None });
    node.ledger = Some(c.energy_ledger);
    node.node_rng = Some(NodeRng(c.node_rng));
    node.stable_id = Some(StableId(c.stable_id));
    node.chunk_origin = c.chunk_origin;
    node.dead = c.dead;
    match (c.agent, controller) {
        (Some(agent), Some(id)) => {
            node.marker = Some(
                AgentMarker { generation: agent.generation, lineage: agent.lineage, controller: id },
            );
            node.tuning = Some(
                AgentTuning {
                    sensor_radius: agent.sensor_radius,
                    max_neighbors: agent.max_neighbors,
                    yield_threshold: agent.yield_threshold,
                    osc_baseline: agent.oscillator_baseline,
                },
            );
            node.clamp = Some(
                ClampState { target: None, joint: None, cooldown: agent.clamp_cooldown },
            );
            node.fabricate = Some(FabricateCooldown { remaining: agent.fabricate_cooldown });
            node.reproduction = Some(agent.reproduction);
        },
        _ => {},
    }
    node
}

/// No more controllers are taken than there are nodes.
proof fn lemma_taken_at_most<A>(nodes: Seq<CanonicalNode>, controllers: Seq<(u64, A)>, n: nat)
    ensures
        handed(nodes, controllers, n).1.len() <= n,
    decreases n,
{
    if n > 0 {
        lemma_taken_at_most(nodes, controllers, (n - 1) as nat);
    }
}

/// Brings a world back. `turns` holds the rotation by each node's angle;
/// `entities` and `joints` hold the numbers that the engine reserved for the
/// nodes and for what each of them may hold. An agent whose controller is not
/// supplied comes back as matter. The drift of the fields must be refreshed from
/// the angles returned.
pub fn restore<A>(
    snapshot: &WorldSnapshot,
    controllers: Vec<(u64, A)>,
    turns: &[Rotation],
    entities: &[u64],
    joints: &[u64],
) -> (r: Result<(ErtwWorld<A>, Drift), RestoreError>)
    requires
        turns@.len() == snapshot.nodes@.len(),
        entities@.len() == snapshot.nodes@.len(),
        joints@.len() == snapshot.nodes@.len(),
    ensures
        r is Ok <==> snapshot.schema_version == SNAPSHOT_SCHEMA_VERSION,
        r matches Err(e) ==> e == RestoreError::UnsupportedSchema,
        r matches Ok((world, angles)) ==> {
            let nodes = snapshot.nodes@;
            let n = nodes.len();
            &&& world.well_formed()
            &&& world.seed == SimSeed(snapshot.seed)
            &&& world.clock.step == snapshot.simulation_tick
            &&& world.sampler == (FieldSampler {
                time: snapshot.field_time,
                ..FieldSampler::seeded(SimSeed(snapshot.seed))
            })
            &&& angles == world.sampler.drift_angles()
            &&& world.chunks.seed == snapshot.seed
            &&& forall|c: (i32, i32)| #[trigger]
                world.chunks.active@.contains(c) <==> snapshot.active_chunks@.contains(c)
            &&& world.agents.controllers@ == handed(nodes, controllers@, n).1
            &&& world.agents.next_id == handed(nodes, controllers@, n).1.len()
            &&& world.allocator.next == top_identity(nodes, n)
            &&& world.spatial.lists(Seq::empty())
            &&& world.pending.items@.len() == 0
            &&& world.history.active@.len() == 0
            &&& world.history.completed@.len() == 0
            &&& world.fragments.entities@.len() == 0
            &&& world.deaths.entities@.len() == 0
            &&& (world.nodes@, world.joints@) == rejoined(
                revived_all(nodes, controllers@, turns@, entities@, n),
                nodes,
                entities@,
                joints@,
                n,
            )
            &&& steered(world.nodes@, world.agents)
        },
{
    if snapshot.schema_version != SNAPSHOT_SCHEMA_VERSION {
        return Err(RestoreError::UnsupportedSchema);
    }
    let ghost given = controllers@;
    let ghost nodes = snapshot.nodes@;
    let mut world: ErtwWorld<A> = ErtwWorld::new(snapshot.seed);
    world.clock.step = snapshot.simulation_tick;
    let angles: Drift = world.sampler.set_time(snapshot.field_time);
    world.chunks.restore_active_chunks(snapshot.active_chunks.as_slice());
    let ghost empty = world;
    let mut left: Vec<(u64, A)> = controllers;
    let mut i: usize = 0;
    assert(world.nodes@ =~= revived_all(nodes, given, turns@, entities@, 0));
    while i < snapshot.nodes.len()
        invariant
            i <= nodes.len(),
            nodes == snapshot.nodes@,
            turns@.len() == nodes.len(),
            entities@.len() == nodes.len(),
            world.seed == empty.seed,
            world.clock == empty.clock,
            world.sampler == empty.sampler,
            world.chunks == empty.chunks,
            world.spatial == empty.spatial,
            world.pending == empty.pending,
            world.history == empty.history,
            world.fragments == empty.fragments,
            world.deaths == empty.deaths,
            world.joints@.len() == 0,
            world.agents.well_formed(),
            world.agents.controllers@ == handed(nodes, given, i as nat).1,
            world.agents.next_id == handed(nodes, given, i as nat).1.len(),
            left@ == handed(nodes, given, i as nat).0,
            world.allocator.next == top_identity(nodes, i as nat),
            world.nodes@ == revived_all(nodes, given, turns@, entities@, i as nat),
            steered(world.nodes@, world.agents),
        decreases nodes.len() - i,
    {
        let ghost before = world;
        let c: CanonicalNode = snapshot.nodes[i];
        proof {
            lemma_taken_at_most(nodes, given, i as nat);
        }
        let mut controller: Option<u64> = None;
        if c.agent.is_some() {
            match find_key(&left, c.stable_id) {
                Some(k) => {
                    let (_, agent): (u64, A) = left.remove(k);
                    controller = Some(world.agents.register(agent));
                },
                None => {},
            }
        }
        assert(controller == controller_of(nodes, given, i as int));
        world.nodes.push(revive(c, turns[i], entities[i], controller));
        proof {
            if controller is Some {
                lemma_listed_is_registered(world.agents, before.agents.controllers@.len() as int);
            }
            lemma_one_more_is_steered(
                before.nodes@,
                before.agents,
                world.agents,
                world.nodes@.last(),
            );
            assert(world.nodes@ =~= before.nodes@.push(world.nodes@.last()));
        }
        world.allocator.observe(c.stable_id);
        assert(world.nodes@ =~= revived_all(nodes, given, turns@, entities@, (i + 1) as nat));
        i += 1;
    }
    let ghost table = world.nodes@;
    let mut i: usize = 0;
    assert(world.joints@ =~= Seq::empty());
    while i < snapshot.nodes.len()
        invariant
            i <= nodes.len(),
            nodes == snapshot.nodes@,
            table.len() == nodes.len(),
            entities@.len() == nodes.len(),
            joints@.len() == nodes.len(),
            world.seed == empty.seed,
            world.clock == empty.clock,
            world.sampler == empty.sampler,
            world.chunks == empty.chunks,
            world.spatial == empty.spatial,
            world.pending == empty.pending,
            world.history == empty.history,
            world.fragments == empty.fragments,
            world.deaths == empty.deaths,
            world.agents.well_formed(),
            world.agents.controllers@ == handed(nodes, given, nodes.len()).1,
            world.agents.next_id == handed(nodes, given, nodes.len()).1.len(),
            world.allocator.next == top_identity(nodes, nodes.len()),
            world.nodes@.len() == nodes.len(),
            (world.nodes@, world.joints@) == rejoined(table, nodes, entities@, joints@, i as nat),
            steered(world.nodes@, world.agents),
        decreases nodes.len() - i,
    {
        let ghost before = world.nodes@;
        let c: CanonicalNode = snapshot.nodes[i];
        let held: Option<u64> = match c.agent {
            Some(agent) => agent.clamp_target,
            None => None,
        };
        match held {
            Some(id) => {
                match (
                    find_bearer(&snapshot.nodes, c.stable_id),
                    find_bearer(&snapshot.nodes, id),
                ) {
                    (Some(o), Some(k)) => {
                        let joint: u64 = joints[i];
                        world.joints.push(
                            (joint, ClampJoint { owner: entities[o], target: entities[k] }),
                        );
                        let mut node: Node = world.nodes[o];
                        match node.clamp {
                            Some(clamp) => {
                                node.clamp = Some(
                                    ClampState {
                                        target: Some(entities[k]),
                                        joint: Some(joint),
                                        cooldown: clamp.cooldown,
                                    },
                                );
                            },
                            None => {},
                        }
                        world.nodes.set(o, node);
                    },
                    _ => {},
                }
            },
            None => {},
        }
        proof {
            lemma_fewer_agents_are_steered(before, world.nodes@, world.agents);
        }
        i += 1;
    }
    Ok((world, angles))
}

/// Is a controller supplied for the identity?
pub open spec fn supplied<A>(controllers: Seq<(u64, A)>, id: u64) -> bool {
    exists|k: int| 0 <= k < controllers.len() && (#[trigger] controllers[k]).0 == id
}

/// Is the identity in the snapshot?
pub open spec fn borne(nodes: Seq<CanonicalNode>, id: u64) -> bool {
    exists|k: int| 0 <= k < nodes.len() && (#[trigger] nodes[k]).stable_id == id
}

/// A controller stays until its own agent takes it.
proof fn lemma_still_supplied<A>(
    nodes: Seq<CanonicalNode>,
    controllers: Seq<(u64, A)>,
    n: nat,
    id: u64,
)
    requires
        n <= nodes.len(),
        supplied(controllers, id),
        forall|i: int| 0 <= i < n ==> (#[trigger] nodes[i]).stable_id != id,
    ensures
        supplied(handed(nodes, controllers, n).0, id),
    decreases n,
{
    if n > 0 {
        lemma_still_supplied(nodes, controllers, (n - 1) as nat, id);
        let left = handed(nodes, controllers, (n - 1) as nat).0;
        let own = nodes[n - 1].stable_id;
        lemma_seek(left, own, left.len());
        match seek(left, own, left.len()) {
            Some(i) if nodes[n - 1].agent is Some => {
                let k = choose|k: int| 0 <= k < left.len() && (#[trigger] left[k]).0 == id;
                let rest = left.remove(i);
                if k < i {
                    assert(rest[k].0 == id);
                } else {
                    assert(rest[k - 1].0 == id);
                }
            },
            _ => {},
        }
    }
}

/// Where identities differ, the bearer of one is its node.
proof fn lemma_bearer(nodes: Seq<CanonicalNode>, i: int, n: nat)
    requires
        0 <= i < n <= nodes.len(),
        ascending(nodes),
    ensures
        bearer(nodes, nodes[i].stable_id, n) == Some(i),
    decreases n,
{
    if i < n - 1 {
        assert(nodes[i].stable_id < nodes[n - 1].stable_id);
        lemma_bearer(nodes, i, (n - 1) as nat);
    }
}

/// What became of node `i` when the first `n` nodes took hold again.
proof fn lemma_rejoined_at(
    table: Seq<Node>,
    nodes: Seq<CanonicalNode>,
    entities: Seq<u64>,
    joints: Seq<u64>,
    n: nat,
    i: int,
)
    requires
        0 <= i < nodes.len(),
        n <= nodes.len(),
        table.len() == nodes.len(),
        ascending(nodes),
    ensures
        rejoined(table, nodes, entities, joints, n).0.len() == nodes.len(),
        rejoined(table, nodes, entities, joints, n).0[i] == match grip(nodes[i]) {
            Some(id) if i < n => match bearer(nodes, id, nodes.len()) {
                Some(k) => holding(table[i], entities[k], joints[i]),
                None => table[i],
            },
            _ => table[i],
        },
    decreases n,
{
    if n > 0 {
        lemma_rejoined_at(table, nodes, entities, joints, (n - 1) as nat, i);
        lemma_bearer(nodes, n - 1, nodes.len());
    }
}

/// Two lists of chunks in order with the same chunks are the same list.
proof fn lemma_in_order_unique(a: Seq<(i32, i32)>, b: Seq<(i32, i32)>)
    requires
        in_order(a),
        in_order(b),
        forall|c: (i32, i32)| #[trigger] a.contains(c) <==> b.contains(c),
    ensures
        a == b,
    decreases a.len(),
{
    if a.len() == 0 {
        if b.len() > 0 {
            assert(b.contains(b[0]));
            assert(a.contains(b[0]));
        }
        assert(a =~= b);
    } else {
        assert(a.contains(a.last()));
        assert(b.contains(a.last()));
        assert(b.contains(b.last()));
        assert(a.contains(b.last()));
        let i = choose|i: int| 0 <= i < b.len() && b[i] == a.last();
        let j = choose|j: int| 0 <= j < a.len() && a[j] == b.last();
        assert(a.last() == b.last()) by {
            if i < b.len() - 1 {
                assert(before(b[i], b[b.len() - 1]));
            }
            if j < a.len() - 1 {
                assert(before(a[j], a[a.len() - 1]));
            }
        }
        let (x, y) = (a.drop_last(), b.drop_last());
        assert forall|c: (i32, i32)| #[trigger] x.contains(c) <==> y.contains(c) by {
            assert(a.contains(c) <==> b.contains(c));
            if x.contains(c) {
                let k = choose|k: int| 0 <= k < x.len() && x[k] == c;
                assert(a[k] == c);
                assert(before(a[k], a[a.len() - 1]));
                let m = choose|m: int| 0 <= m < b.len() && b[m] == c;
                assert(m < b.len() - 1);
                assert(y[m] == c);
            }
            if y.contains(c) {
                let k = choose|k: int| 0 <= k < y.len() && y[k] == c;
                assert(b[k] == c);
                assert(before(b[k], b[b.len() - 1]));
                let m = choose|m: int| 0 <= m < a.len() && a[m] == c;
                assert(m < a.len() - 1);
                assert(x[m] == c);
            }
        }
        lemma_in_order_unique(x, y);
        assert(a =~= x.push(a.last()));
        assert(b =~= y.push(b.last()));
    }
}

/// A node that came back is described as before.
proof fn lemma_described_alike<A>(
    nodes: Seq<CanonicalNode>,
    controllers: Seq<(u64, A)>,
    turns: Seq<Rotation>,
    entities: Seq<u64>,
    joints: Seq<u64>,
    i: int,
)
    requires
        0 <= i < nodes.len(),
        ascending(nodes),
        entities.len() == nodes.len(),
        entities.no_duplicates(),
        nodes[i].agent is Some ==> supplied(controllers, nodes[i].stable_id),
        grip(nodes[i]) matches Some(id) ==> borne(nodes, id),
    ensures
        ({
            let table = rejoined(
                revived_all(nodes, controllers, turns, entities, nodes.len()),
                nodes,
                entities,
                joints,
                nodes.len(),
            ).0;
            &&& table.len() == nodes.len()
            &&& table[i].stable_id == Some(StableId(nodes[i].stable_id))
            &&& lasting(table[i])
            &&& canonical(table, table[i], nodes[i].rotation) == nodes[i]
        }),
{
    let first = revived_all(nodes, controllers, turns, entities, nodes.len());
    let table = rejoined(first, nodes, entities, joints, nodes.len()).0;
    lemma_rejoined_at(first, nodes, entities, joints, nodes.len(), i);
    let c = nodes[i];
    if c.agent is Some {
        assert forall|j: int| 0 <= j < i implies (#[trigger] nodes[j]).stable_id
            != c.stable_id by {}
        lemma_still_supplied(nodes, controllers, i as nat, c.stable_id);
        let left = handed(nodes, controllers, i as nat).0;
        lemma_seek(left, c.stable_id, left.len());
        assert(controller_of(nodes, controllers, i) is Some);
    }
    match grip(c) {
        Some(id) => {
            let k = choose|k: int| 0 <= k < nodes.len() && (#[trigger] nodes[k]).stable_id == id;
            lemma_bearer(nodes, k, nodes.len());
            lemma_rejoined_at(first, nodes, entities, joints, nodes.len(), k);
            assert forall|a: int| 0 <= a < table.len() implies (#[trigger] table[a]).entity
                == entities[a] by {
                lemma_rejoined_at(first, nodes, entities, joints, nodes.len(), a);
            }
            assert(distinct_entities(table));
            lemma_node_at(table, k);
            assert(held_identity(table, table[i].clamp->Some_0) == Some(id));
        },
        None => {},
    }
    assert(canonical_agent(table, table[i]) == c.agent);
}

/// A snapshot comes back as it was taken: bring a world back from it, with a
/// controller for every agent, take a snapshot again, and the two say the same.
/// No identity is added. Left out are snapshots whose identities do not grow, or
/// that name an identity which is held and not listed; no snapshot of a world
/// whose bodies are all complete is one of them. The rotation by an angle and the
/// angle of a rotation are taken to undo each other.
pub proof fn lemma_snapshot_returns<A>(
    nodes: Seq<CanonicalNode>,
    controllers: Seq<(u64, A)>,
    turns: Seq<Rotation>,
    entities: Seq<u64>,
    joints: Seq<u64>,
    angles: Seq<Binary32>,
    base: u64,
    chunks: Seq<(i32, i32)>,
    active: Seq<(i32, i32)>,
)
    requires
        ascending(nodes),
        entities.len() == nodes.len(),
        entities.no_duplicates(),
        angles == nodes.map_values(|c: CanonicalNode| c.rotation),
        forall|i: int|
            0 <= i < nodes.len() && (#[trigger] nodes[i]).agent is Some ==> supplied(
                controllers,
                nodes[i].stable_id,
            ),
        forall|i: int|
            0 <= i < nodes.len() ==> (grip(#[trigger] nodes[i]) matches Some(id) ==> borne(
                nodes,
                id,
            )),
        in_order(chunks),
        in_order(active),
        forall|c: (i32, i32)| #[trigger] active.contains(c) <==> chunks.contains(c),
    ensures
        ({
            let table = rejoined(
                revived_all(nodes, controllers, turns, entities, nodes.len()),
                nodes,
                entities,
                joints,
                nodes.len(),
            ).0;
            &&& table.len() == nodes.len()
            &&& identified(table, base) == table
            &&& needing(table, table.len()) == 0
            &&& listed(table, angles, table.len()) == nodes
            &&& active == chunks
        }),
{
    let first = revived_all(nodes, controllers, turns, entities, nodes.len());
    let table = rejoined(first, nodes, entities, joints, nodes.len()).0;
    lemma_in_order_unique(active, chunks);
    if nodes.len() > 0 {
        lemma_described_alike(nodes, controllers, turns, entities, joints, 0);
    } else {
        assert(table.len() == 0);
    }
    assert forall|i: int| 0 <= i < nodes.len() implies lasting(#[trigger] table[i]) && canonical(
        table,
        table[i],
        angles[i],
    ) == nodes[i] && table[i].stable_id is Some by {
        assert(nodes[i].agent is Some ==> supplied(controllers, nodes[i].stable_id));
        lemma_described_alike(nodes, controllers, turns, entities, joints, i);
    }
    assert(identified(table, base) =~= table);
    lemma_none_needing(table, table.len());
    lemma_listed_alike(table, angles, nodes, nodes.len());
    assert(nodes.take(nodes.len() as int) =~= nodes);
}

proof fn lemma_none_needing(table: Seq<Node>, n: nat)
    requires
        n <= table.len(),
        forall|i: int| 0 <= i < table.len() ==> (#[trigger] table[i]).stable_id is Some,
    ensures
        needing(table, n) == 0,
    decreases n,
{
    if n > 0 {
        lemma_none_needing(table, (n - 1) as nat);
        assert(table[n - 1].stable_id is Some);
    }
}

/// Nodes that come in the order of their identities are listed as they come.
proof fn lemma_listed_alike(
    table: Seq<Node>,
    angles: Seq<Binary32>,
    nodes: Seq<CanonicalNode>,
    n: nat,
)
    requires
        n <= nodes.len(),
        table.len() == nodes.len(),
        ascending(nodes),
        forall|i: int|
            0 <= i < nodes.len() ==> lasting(#[trigger] table[i]) && canonical(
                table,
                table[i],
                angles[i],
            ) == nodes[i],
    ensures
        listed(table, angles, n) == nodes.take(n as int),
    decreases n,
{
    if n > 0 {
        lemma_listed_alike(table, angles, nodes, (n - 1) as nat);
        let rest = nodes.take(n - 1);
        let c = nodes[n - 1];
        assert(lasting(table[n - 1]));
        if n > 1 {
            assert(nodes[n - 2].stable_id < nodes[n - 1].stable_id);
            assert(rest[n - 2] == nodes[n - 2]);
        }
        assert(slot(rest, c.stable_id, rest.len()) == rest.len());
        assert(placed(rest, c) =~= nodes.take(n as int));
    } else {
        assert(nodes.take(0) =~= Seq::<CanonicalNode>::empty());
    }
}

/// What a world's snapshot says of its nodes, the snapshot of the world that
/// comes back from it says again, with a controller for every agent.
pub proof fn lemma_world_returns<A>(
    nodes: Seq<Node>,
    angles: Seq<Binary32>,
    controllers: Seq<(u64, A)>,
    turns: Seq<Rotation>,
    entities: Seq<u64>,
    joints: Seq<u64>,
)
    requires
        distinct_identities(nodes),
        forall|i: int|
            0 <= i < nodes.len() && (#[trigger] nodes[i]).stable_id is Some ==> lasting(nodes[i]),
        entities.len() == listed(nodes, angles, nodes.len()).len(),
        entities.no_duplicates(),
        forall|i: int|
            0 <= i < listed(nodes, angles, nodes.len()).len() && (#[trigger] listed(
                nodes,
                angles,
                nodes.len(),
            )[i]).agent is Some ==> supplied(
                controllers,
                listed(nodes, angles, nodes.len())[i].stable_id,
            ),
    ensures
        ({
            let taken = listed(nodes, angles, nodes.len());
            let table = rejoined(
                revived_all(taken, controllers, turns, entities, taken.len()),
                taken,
                entities,
                joints,
                taken.len(),
            ).0;
            listed(
                table,
                taken.map_values(|c: CanonicalNode| c.rotation),
                table.len(),
            ) == taken
        }),
{
    let taken = listed(nodes, angles, nodes.len());
    lemma_snapshot_ascends(nodes, angles, nodes.len());
    assert forall|i: int| 0 <= i < taken.len() implies (grip(#[trigger] taken[i]) matches Some(id)
        ==> borne(taken, id)) by {
        if grip(taken[i]) is Some {
            assert(taken.contains(taken[i]));
            let id = grip(taken[i])->Some_0;
            let k = lemma_held_is_listed(nodes, angles, taken[i], taken[i].agent->Some_0, id);
            assert(taken[k].stable_id == id);
        }
    }
    lemma_snapshot_returns(
        taken,
        controllers,
        turns,
        entities,
        joints,
        taken.map_values(|c: CanonicalNode| c.rotation),
        0,
        Seq::empty(),
        Seq::empty(),
    );
}

} // verus!
