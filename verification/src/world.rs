//! The world as a whole: its clock, its controllers and its table of nodes, and
//! the two passes that turn observations into actions and actions into forces.

use crate::agents::agent_config;
use crate::agents::agent_node;
use crate::agents::build_observation;
use crate::agents::lemma_listed_is_registered;
use crate::agents::lemma_one_more_is_steered;
use crate::agents::lemma_registered_is_listed;
use crate::agents::observed;
use crate::agents::observes;
use crate::agents::spawn_with_id;
use crate::agents::steered;
use crate::agents::Agent;
use crate::agents::Probe;
use crate::agents::WorldAgents;
use crate::binary32::num;
use crate::binary32::Binary32;
use crate::components::find;
use crate::components::lookup;
use crate::components::node_of;
use crate::components::place_of;
use crate::components::AgentTuning;
use crate::components::ClampJoint;
use crate::components::EnergyFlow;
use crate::components::EnergyLedger;
use crate::components::Node;
use crate::components::Physical;
use crate::economy::DeathQueue;
use crate::fields::FieldSampler;
use crate::fields::SimSeed;
use crate::fragmentation::FragmentQueue;
use crate::genesis;
use crate::genesis::grid_cells;
use crate::genesis::grid_terrain;
use crate::genesis::spawn_genesis;
use crate::genesis::spawn_genesis_node;
use crate::genesis::AgentSpawn;
use crate::genesis::ChunkManager;
use crate::genesis::TerrainSpawn;
use crate::interface::action::lemma_sanitized_bounded;
use crate::interface::action::ActionTensor;
use crate::interface::action::MINUS_ONE;
use crate::interface::action::MINUS_OSC_LIMIT;
use crate::interface::action::OSC_LIMIT;
use crate::interface::action::TAU;
use crate::interface::observation::ObservationTensor;
use crate::interface::shortening::unit_bound;
use crate::interface::vector::Vec2Lite;
use crate::interface::vector::ONE;
use crate::lineage::AgentHistory;
use crate::snapshot::StableIdAllocator;
use crate::spatial_hash::is_reachable;
use crate::spatial_hash::reachable;
use crate::spatial_hash::SpatialHash;
use vstd::prelude::*;

verus! {

/// Pattern of the energy that a unit of force or torque costs, 0.1.
pub const ACTION_COST: u32 = 0x3dcc_cccd;

/// The clock of the simulation: completed fixed steps.
#[derive(Clone, Copy, Debug, Default, PartialEq, Eq, Structural)]
pub struct SimClock {
    pub step: u64,
}

/// Counts one completed step, as far as the clock goes.
pub fn advance_sim_clock(clock: &mut SimClock)
    ensures
        final(clock).step == if old(clock).step == u64::MAX {
            u64::MAX as int
        } else {
            old(clock).step + 1
        },
{
    clock.step = clock.step.saturating_add(1);
}

/// The actions of one step, in the order of the agents.
#[derive(Debug)]
pub struct PendingActions {
    pub items: Vec<(u64, ActionTensor)>,
}

/// Everything that a world holds between two steps.
#[derive(Debug)]
pub struct ErtwWorld<A> {
    pub seed: SimSeed,
    pub clock: SimClock,
    pub sampler: FieldSampler,
    pub spatial: SpatialHash,
    pub pending: PendingActions,
    pub agents: WorldAgents<A>,
    pub history: AgentHistory,
    pub fragments: FragmentQueue,
    pub deaths: DeathQueue,
    pub chunks: ChunkManager,
    pub allocator: StableIdAllocator,
    pub nodes: Vec<Node>,
    pub joints: Vec<(u64, ClampJoint)>,
}

impl<A> ErtwWorld<A> {
    /// Controllers and chunks are in order.
    pub open spec fn well_formed(&self) -> bool {
        &&& self.agents.well_formed()
        &&& self.chunks.well_formed()
    }

    /// An empty world. The fields and the terrain follow from the seed.
    pub fn new(seed: u64) -> (r: ErtwWorld<A>)
        ensures
            r.well_formed(),
            r.seed == SimSeed(seed),
            r.clock.step == 0,
            r.sampler == FieldSampler::seeded(SimSeed(seed)),
            r.spatial.lists(Seq::empty()),
            r.pending.items@ == Seq::<(u64, ActionTensor)>::empty(),
            r.agents.controllers@ == Seq::<(u64, A)>::empty(),
            r.agents.next_id == 0,
            r.history.active@.len() == 0,
            r.history.completed@.len() == 0,
            r.fragments.entities@.len() == 0,
            r.deaths.entities@.len() == 0,
            r.chunks.active@ == Seq::<(i32, i32)>::empty(),
            r.chunks.seed == seed,
            r.allocator.next == 0,
            r.nodes@ == Seq::<Node>::empty(),
            r.joints@ == Seq::<(u64, ClampJoint)>::empty(),
    {
        ErtwWorld {
            seed: SimSeed(seed),
            clock: SimClock { step: 0 },
            sampler: FieldSampler::from_world(SimSeed(seed)),
            spatial: SpatialHash::new(),
            pending: PendingActions { items: Vec::new() },
            agents: WorldAgents::new(),
            history: AgentHistory::new(),
            fragments: FragmentQueue { entities: Vec::new() },
            deaths: DeathQueue { entities: Vec::new() },
            chunks: ChunkManager::new(seed),
            allocator: StableIdAllocator { next: 0 },
            nodes: Vec::new(),
            joints: Vec::new(),
        }
    }

    /// Registers a controller and puts its body into the world, under the number
    /// that the engine gave it.
    pub fn spawn_agent(&mut self, agent: A, pos: Vec2Lite, entity: u64)
        requires
            old(self).well_formed(),
            old(self).agents.next_id < u64::MAX,
        ensures
            final(self).well_formed(),
            final(self).agents.controllers@ == old(self).agents.controllers@.push(
                (old(self).agents.next_id, agent),
            ),
            final(self).agents.next_id == old(self).agents.next_id + 1,
            final(self).nodes@ == old(self).nodes@.push(
                (Node {
                    entity,
                    ..spawn_with_id(old(self).agents.next_id, pos, AgentTuning::standard())
                }),
            ),
            final(self).chunks == old(self).chunks,
            final(self).kept(*old(self)),
            steered(old(self).nodes@, old(self).agents) ==> steered(
                final(self).nodes@,
                final(self).agents,
            ),
    {
        let controller: u64 = self.agents.register(agent);
        let mut node: Node = spawn_with_id(controller, pos, AgentTuning::default());
        node.entity = entity;
        self.nodes.push(node);
        proof {
            lemma_listed_is_registered(self.agents, old(self).agents.controllers@.len() as int);
            if steered(old(self).nodes@, old(self).agents) {
                lemma_one_more_is_steered(
                    old(self).nodes@,
                    old(self).agents,
                    self.agents,
                    node,
                );
            }
        }
    }
}

/// The bodies of the first population, under the numbers given to them.
pub open spec fn settled(plan: Seq<AgentSpawn>, first: int, entities: Seq<u64>) -> Seq<Node> {
    Seq::new(
        plan.len(),
        |i: int|
            Node {
                entity: entities[i],
                ..agent_node(
                    (first + i) as u64,
                    plan[i].pos,
                    AgentTuning::standard(),
                    plan[i].node_rng,
                    0,
                )
            },
    )
}

/// The terrain, under the numbers given to it.
pub open spec fn laid(plan: Seq<TerrainSpawn>, entities: Seq<u64>) -> Seq<Node> {
    Seq::new(
        plan.len(),
        |i: int| Node { entity: entities[i], ..spawn_genesis_node(plan[i]) },
    )
}

/// Controllers under growing identities.
pub open spec fn numbered<A>(controllers: Seq<A>, first: int) -> Seq<(u64, A)> {
    Seq::new(controllers.len(), |i: int| ((first + i) as u64, controllers[i]))
}

impl<A> ErtwWorld<A> {
    /// Gives every agent of the plan a controller and a body.
    fn settle(&mut self, plan: &Vec<AgentSpawn>, controllers: Vec<A>, entities: &[u64])
        requires
            old(self).agents.well_formed(),
            controllers@.len() == plan@.len(),
            entities@.len() >= plan@.len(),
            old(self).agents.next_id + plan@.len() <= u64::MAX,
        ensures
            final(self).agents.well_formed(),
            final(self).agents.next_id == old(self).agents.next_id + plan@.len(),
            final(self).agents.controllers@ == old(self).agents.controllers@ + numbered(
                controllers@,
                old(self).agents.next_id as int,
            ),
            final(self).nodes@ == old(self).nodes@ + settled(
                plan@,
                old(self).agents.next_id as int,
                entities@,
            ),
            final(self).chunks == old(self).chunks,
            final(self).kept(*old(self)),
            steered(old(self).nodes@, old(self).agents) ==> steered(
                final(self).nodes@,
                final(self).agents,
            ),
    {
        let ghost given = controllers@;
        let ghost first = self.agents.next_id as int;
        let mut rest: Vec<A> = controllers;
        let mut i: usize = 0;
        proof {
            assert(self.nodes@ =~= old(self).nodes@ + settled(plan@, first, entities@).take(0));
            assert(self.agents.controllers@ =~= old(self).agents.controllers@ + numbered(
                given,
                first,
            ).take(0));
        }
        while i < plan.len()
            invariant
                i <= plan@.len(),
                given.len() == plan@.len(),
                entities@.len() >= plan@.len(),
                rest@ == given.skip(i as int),
                first == old(self).agents.next_id,
                first + plan@.len() <= u64::MAX,
                self.agents.well_formed(),
                self.agents.next_id == first + i,
                self.agents.controllers@ == old(self).agents.controllers@ + numbered(
                    given,
                    first,
                ).take(i as int),
                self.nodes@ == old(self).nodes@ + settled(plan@, first, entities@).take(i as int),
                self.chunks == old(self).chunks,
                self.kept(*old(self)),
                steered(old(self).nodes@, old(self).agents) ==> steered(self.nodes@, self.agents),
            decreases plan@.len() - i,
        {
            let ghost before = *self;
            let agent: A = rest.remove(0);
            let spawn: AgentSpawn = plan[i];
            let controller: u64 = self.agents.register(agent);
            let mut node: Node = spawn_genesis(controller, spawn.pos, spawn.node_rng, 0);
            node.entity = entities[i];
            self.nodes.push(node);
            proof {
                lemma_listed_is_registered(
                    self.agents,
                    before.agents.controllers@.len() as int,
                );
                if steered(before.nodes@, before.agents) {
                    lemma_one_more_is_steered(before.nodes@, before.agents, self.agents, node);
                }
                assert(rest@ =~= given.skip(i + 1));
                assert(self.nodes@ =~= old(self).nodes@ + settled(plan@, first, entities@).take(
                    i + 1,
                ));
                assert(self.agents.controllers@ =~= old(self).agents.controllers@ + numbered(
                    given,
                    first,
                ).take(i + 1));
            }
            i += 1;
        }
        proof {
            assert(settled(plan@, first, entities@).take(i as int) =~= settled(
                plan@,
                first,
                entities@,
            ));
            assert(numbered(given, first).take(i as int) =~= numbered(given, first));
        }
    }

    /// Puts terrain into the world.
    pub fn lay_terrain(&mut self, plan: &Vec<TerrainSpawn>, entities: &[u64])
        requires
            entities@.len() >= plan@.len(),
        ensures
            final(self).nodes@ == old(self).nodes@ + laid(plan@, entities@),
            final(self).agents == old(self).agents,
            final(self).chunks == old(self).chunks,
            final(self).kept(*old(self)),
            old(self).agents.well_formed() && steered(old(self).nodes@, old(self).agents)
                ==> steered(final(self).nodes@, final(self).agents),
    {
        let mut i: usize = 0;
        assert(self.nodes@ =~= old(self).nodes@ + laid(plan@, entities@).take(0));
        while i < plan.len()
            invariant
                i <= plan@.len(),
                entities@.len() >= plan@.len(),
                self.nodes@ == old(self).nodes@ + laid(plan@, entities@).take(i as int),
                self.agents == old(self).agents,
                self.chunks == old(self).chunks,
                self.kept(*old(self)),
                old(self).agents.well_formed() && steered(old(self).nodes@, old(self).agents)
                    ==> steered(self.nodes@, self.agents),
            decreases plan@.len() - i,
        {
            let ghost before = *self;
            let mut node: Node = spawn_genesis_node(plan[i]);
            node.entity = entities[i];
            self.nodes.push(node);
            proof {
                if self.agents.well_formed() && steered(before.nodes@, before.agents) {
                    lemma_one_more_is_steered(before.nodes@, before.agents, self.agents, node);
                }
            }
            assert(self.nodes@ =~= old(self).nodes@ + laid(plan@, entities@).take(i + 1));
            i += 1;
        }
        assert(laid(plan@, entities@).take(i as int) =~= laid(plan@, entities@));
    }

    /// Seeds the first population and the terrain of a grid of chunks: four
    /// agents and five terrain nodes in each. `controllers` holds one controller
    /// for each agent, `offsets` and `jitter` what chance decides of the places,
    /// and the two lists of numbers what the engine numbered the bodies.
    pub fn seed_world(
        &mut self,
        grid_x: i32,
        grid_y: i32,
        controllers: Vec<A>,
        offsets: &[Vec2Lite],
        jitter: &[[Vec2Lite; 5]],
        settlers: &[u64],
        features: &[u64],
    )
        requires
            old(self).well_formed(),
            controllers@.len() == 4 * grid_cells(grid_x, grid_y),
            offsets@.len() == 4 * grid_cells(grid_x, grid_y),
            jitter@.len() == grid_cells(grid_x, grid_y),
            settlers@.len() == 4 * grid_cells(grid_x, grid_y),
            features@.len() == 5 * grid_cells(grid_x, grid_y),
            old(self).agents.next_id + 4 * grid_cells(grid_x, grid_y) <= u64::MAX,
        ensures
            final(self).well_formed(),
            final(self).agents.next_id == old(self).agents.next_id + controllers@.len(),
            final(self).agents.controllers@ == old(self).agents.controllers@ + numbered(
                controllers@,
                old(self).agents.next_id as int,
            ),
            final(self).nodes@ == old(self).nodes@ + settled(
                genesis::settlers(old(self).chunks.seed, grid_y as int, offsets@, offsets@.len()),
                old(self).agents.next_id as int,
                settlers@,
            ) + laid(
                grid_terrain(old(self).chunks.seed, grid_y as int, jitter@, jitter@.len()),
                features@,
            ),
            final(self).chunks.seed == old(self).chunks.seed,
            forall|c: (i32, i32)| #[trigger]
                final(self).chunks.active@.contains(c) <==> old(self).chunks.active@.contains(c)
                    || (0 <= c.0 < grid_x && 0 <= c.1 < grid_y),
            final(self).kept(*old(self)),
            steered(old(self).nodes@, old(self).agents) ==> steered(
                final(self).nodes@,
                final(self).agents,
            ),
    {
        let agent_plan: Vec<AgentSpawn> = self.chunks.spawn_plan(grid_x, grid_y, offsets);
        let terrain_plan: Vec<TerrainSpawn> = self.chunks.terrain_plan(grid_x, grid_y, jitter);
        self.chunks.activate_grid(grid_x, grid_y);
        proof {
            lemma_grid_terrain_len(
                self.chunks.seed,
                grid_y as int,
                jitter@,
                jitter@.len(),
            );
        }
        self.settle(&agent_plan, controllers, settlers);
        self.lay_terrain(&terrain_plan, features);
    }

    /// What seeding does not touch.
    pub open spec fn kept(&self, before: ErtwWorld<A>) -> bool {
        &&& self.seed == before.seed
        &&& self.clock == before.clock
        &&& self.sampler == before.sampler
        &&& self.spatial == before.spatial
        &&& self.pending == before.pending
        &&& self.history == before.history
        &&& self.fragments == before.fragments
        &&& self.deaths == before.deaths
        &&& self.allocator == before.allocator
        &&& self.joints == before.joints
    }
}

/// Five terrain nodes to a chunk.
proof fn lemma_grid_terrain_len(seed: u64, rows: int, jitter: Seq<[Vec2Lite; 5]>, n: nat)
    ensures
        grid_terrain(seed, rows, jitter, n).len() == 5 * n,
    decreases n,
{
    if n > 0 {
        lemma_grid_terrain_len(seed, rows, jitter, (n - 1) as nat);
    }
}

/// The nodes with a body and their positions, in table order.
pub open spec fn bodies(nodes: Seq<Node>) -> Seq<(u64, Vec2Lite)>
    decreases nodes.len(),
{
    if nodes.len() == 0 {
        Seq::empty()
    } else {
        let rest = bodies(nodes.drop_last());
        if nodes.last().physical is Some {
            rest.push((nodes.last().entity, nodes.last().position))
        } else {
            rest
        }
    }
}

/// Rebuilds the spatial index before any neighbor is looked for. Only nodes with
/// a body are listed.
pub fn rebuild_spatial_hash(nodes: &Vec<Node>, spatial: &mut SpatialHash)
    ensures
        final(spatial).lists(bodies(nodes@)),
{
    let mut entries: Vec<(u64, Vec2Lite)> = Vec::new();
    let mut i: usize = 0;
    assert(nodes@.take(0) =~= Seq::<Node>::empty());
    while i < nodes.len()
        invariant
            i <= nodes@.len(),
            entries@ == bodies(nodes@.take(i as int)),
        decreases nodes@.len() - i,
    {
        assert(nodes@.take(i + 1).drop_last() =~= nodes@.take(i as int));
        if nodes[i].physical.is_some() {
            entries.push((nodes[i].entity, nodes[i].position));
        }
        i += 1;
    }
    assert(nodes@.take(i as int) =~= nodes@);
    spatial.rebuild(entries.as_slice());
}

/// The controllers that still have an agent, in table order.
pub open spec fn steering(nodes: Seq<Node>) -> Seq<u64>
    decreases nodes.len(),
{
    if nodes.len() == 0 {
        Seq::empty()
    } else {
        let rest = steering(nodes.drop_last());
        match nodes.last().marker {
            Some(m) => rest.push(m.controller),
            None => rest,
        }
    }
}

/// Lists the controllers that still have an agent.
pub fn active_controllers(nodes: &Vec<Node>) -> (r: Vec<u64>)
    ensures
        r@ == steering(nodes@),
{
    let mut out: Vec<u64> = Vec::new();
    let mut i: usize = 0;
    assert(nodes@.take(0) =~= Seq::<Node>::empty());
    while i < nodes.len()
        invariant
            i <= nodes@.len(),
            out@ == steering(nodes@.take(i as int)),
        decreases nodes@.len() - i,
    {
        assert(nodes@.take(i + 1).drop_last() =~= nodes@.take(i as int));
        match nodes[i].marker {
            Some(m) => {
                out.push(m.controller);
            },
            None => {},
        }
        i += 1;
    }
    assert(nodes@.take(i as int) =~= nodes@);
    out
}

/// Is the node an agent that can be shown the world?
pub open spec fn attends(nodes: Seq<Node>, node: Node) -> bool {
    &&& node.marker is Some
    &&& node.tuning is Some
    &&& node_of(nodes, node.entity) matches Some(n) && observes(n)
}

/// An agent's tuning allows an observation.
pub open spec fn sighted(nodes: Seq<Node>, node: Node) -> bool {
    node.marker is Some ==> (node.tuning matches Some(t) ==> {
        &&& t.max_neighbors > 0
        &&& agent_config(t).countable()
        &&& node_of(nodes, node.entity) matches Some(n) ==> reachable(n.position, t.sensor_radius)
    })
}

/// Does the agent's tuning allow an observation? A node that is no agent needs
/// none.
pub fn is_sighted(nodes: &Vec<Node>, node: Node) -> (r: bool)
    ensures
        r == sighted(nodes@, node),
{
    match (node.marker, node.tuning) {
        (Some(_), Some(t)) => {
            proof {
                assert(agent_config(t).countable() <==> 44 + t.max_neighbors * 15 <= usize::MAX)
                    by {
                    let c = agent_config(t);
                    assert(c.field_len_spec() == 36) by (nonlinear_arith)
                        requires
                            c.field_samples == 4,
                            c.field_channels == 3,
                            c.field_len_spec() == if c.field_channels == 0 {
                                0
                            } else {
                                (3 * c.field_samples * c.field_channels) as nat
                            },
                    ;
                }
            }
            t.max_neighbors > 0 && t.max_neighbors <= (usize::MAX - 44) / 15 && match lookup(
                nodes,
                node.entity,
            ) {
                Some(n) => is_reachable(n.position, t.sensor_radius),
                None => true,
            }
        },
        _ => true,
    }
}

/// What an agent is shown.
#[derive(Debug)]
pub struct Job {
    pub entity: u64,
    pub controller: u64,
    pub observation: ObservationTensor,
}

/// The jobs of the first `n` nodes: one for each agent that can be shown the
/// world, in table order.
pub open spec fn shown(
    jobs: Seq<Job>,
    nodes: Seq<Node>,
    hash: SpatialHash,
    step: u64,
    probes: Seq<[Probe; 4]>,
    n: nat,
) -> bool
    decreases n,
{
    if n == 0 {
        jobs.len() == 0
    } else {
        let node = nodes[n - 1];
        if attends(nodes, node) {
            &&& jobs.len() > 0
            &&& jobs.last().entity == node.entity
            &&& jobs.last().controller == node.marker->Some_0.controller
            &&& observed(
                jobs.last().observation,
                nodes,
                hash,
                node_of(nodes, node.entity)->Some_0,
                node.tuning->Some_0,
                step,
                probes[n - 1]@,
            )
            &&& shown(jobs.drop_last(), nodes, hash, step, probes, (n - 1) as nat)
        } else {
            shown(jobs, nodes, hash, step, probes, (n - 1) as nat)
        }
    }
}

/// Builds the observation of every agent. `probes` holds the fields around each
/// node.
pub fn observation_jobs(
    nodes: &Vec<Node>,
    hash: &SpatialHash,
    step: u64,
    probes: &[[Probe; 4]],
) -> (r: Vec<Job>)
    requires
        probes@.len() == nodes@.len(),
        forall|i: int| 0 <= i < nodes@.len() ==> sighted(nodes@, #[trigger] nodes@[i]),
    ensures
        shown(r@, nodes@, *hash, step, probes@, nodes@.len()),
{
    let mut jobs: Vec<Job> = Vec::new();
    let mut i: usize = 0;
    while i < nodes.len()
        invariant
            i <= nodes@.len(),
            probes@.len() == nodes@.len(),
            forall|j: int| 0 <= j < nodes@.len() ==> sighted(nodes@, #[trigger] nodes@[j]),
            shown(jobs@, nodes@, *hash, step, probes@, i as nat),
        decreases nodes@.len() - i,
    {
        let node: Node = nodes[i];
        assert(sighted(nodes@, nodes@[i as int]));
        let ghost before = jobs@;
        match (node.marker, node.tuning) {
            (Some(m), Some(t)) => {
                match build_observation(nodes, hash, node.entity, t, step, &probes[i]) {
                    Some(observation) => {
                        jobs.push(
                            Job { entity: node.entity, controller: m.controller, observation },
                        );
                        assert(jobs@.drop_last() =~= before);
                    },
                    None => {},
                }
            },
            _ => {},
        }
        i += 1;
    }
    jobs
}

/// The jobs whose controller is registered, in order.
pub open spec fn answerable<A>(jobs: Seq<Job>, agents: WorldAgents<A>) -> Seq<u64>
    decreases jobs.len(),
{
    if jobs.len() == 0 {
        Seq::empty()
    } else {
        let rest = answerable(jobs.drop_last(), agents);
        if agents.place(jobs.last().controller) is Some {
            rest.push(jobs.last().entity)
        } else {
            rest
        }
    }
}

/// The same identities are registered.
pub open spec fn same_identities<A>(a: Seq<(u64, A)>, b: Seq<(u64, A)>) -> bool {
    &&& a.len() == b.len()
    &&& forall|i: int| 0 <= i < a.len() ==> (#[trigger] a[i]).0 == (#[trigger] b[i]).0
}

/// Identities that stay keep controllers in their places.
proof fn lemma_places_stay<A>(a: WorldAgents<A>, b: WorldAgents<A>, id: u64)
    requires
        same_identities(a.controllers@, b.controllers@),
    ensures
        (a.place(id) is Some) == (b.place(id) is Some),
{
    if a.place(id) is Some {
        let i = a.place(id)->Some_0;
        assert(a.controllers@[i].0 == b.controllers@[i].0);
    }
    if b.place(id) is Some {
        let i = b.place(id)->Some_0;
        assert(a.controllers@[i].0 == b.controllers@[i].0);
    }
}

/// The action is some action brought into bounds.
pub open spec fn tamed(action: ActionTensor) -> bool {
    exists|raw: ActionTensor| action == #[trigger] raw.sanitized()
}

/// Controller `p` was shown what the job holds and answered. Nobody else changed.
pub open spec fn answering<A: Agent>(
    before: Seq<(u64, A)>,
    job: Job,
    after: Seq<(u64, A)>,
    action: ActionTensor,
    p: int,
) -> bool {
    &&& 0 <= p < before.len()
    &&& before[p].0 == job.controller
    &&& after == before.update(p, (job.controller, after[p].1))
    &&& A::acts(before[p].1, job.observation, after[p].1, action)
}

/// The controller of the job was asked, if it is registered.
pub open spec fn asked<A: Agent>(
    before: Seq<(u64, A)>,
    job: Job,
    after: Seq<(u64, A)>,
    reply: Option<ActionTensor>,
) -> bool {
    match reply {
        Some(action) => exists|p: int| #[trigger] answering(before, job, after, action, p),
        None => after == before && forall|k: int|
            0 <= k < before.len() ==> (#[trigger] before[k]).0 != job.controller,
    }
}

/// All jobs were asked, one after the other: `states` are the controllers before
/// each of them and after the last.
pub open spec fn consulted<A: Agent>(
    jobs: Seq<Job>,
    states: Seq<Seq<(u64, A)>>,
    replies: Seq<Option<ActionTensor>>,
) -> bool {
    &&& states.len() == jobs.len() + 1
    &&& replies.len() == jobs.len()
    &&& forall|k: int|
        0 <= k < jobs.len() ==> asked(states[k], jobs[k], states[k + 1], #[trigger] replies[k])
}

/// What the first `n` replies queue: each action within its bounds, for the
/// entity of its job.
pub open spec fn queued(
    jobs: Seq<Job>,
    replies: Seq<Option<ActionTensor>>,
    n: nat,
) -> Seq<(u64, ActionTensor)>
    decreases n,
{
    if n == 0 {
        Seq::empty()
    } else {
        let rest = queued(jobs, replies, (n - 1) as nat);
        match replies[n - 1] {
            Some(action) => rest.push((jobs[n - 1].entity, action.sanitized())),
            None => rest,
        }
    }
}

/// What is queued for the first replies does not depend on the later ones.
proof fn lemma_queued_prefix(
    jobs: Seq<Job>,
    some: Seq<Option<ActionTensor>>,
    more: Seq<Option<ActionTensor>>,
    n: nat,
)
    requires
        n <= some.len() <= more.len(),
        forall|k: int| 0 <= k < some.len() ==> #[trigger] some[k] == more[k],
    ensures
        queued(jobs, some, n) == queued(jobs, more, n),
    decreases n,
{
    if n > 0 {
        lemma_queued_prefix(jobs, some, more, (n - 1) as nat);
        assert(some[n - 1] == more[n - 1]);
    }
}

/// One more job asked.
proof fn lemma_one_more_asked<A: Agent>(
    jobs: Seq<Job>,
    k: int,
    states: Seq<Seq<(u64, A)>>,
    replies: Seq<Option<ActionTensor>>,
    after: Seq<(u64, A)>,
    reply: Option<ActionTensor>,
)
    requires
        0 <= k < jobs.len(),
        consulted(jobs.take(k), states, replies),
        asked(states.last(), jobs[k], after, reply),
    ensures
        consulted(jobs.take(k + 1), states.push(after), replies.push(reply)),
{
    let all = states.push(after);
    let said = replies.push(reply);
    assert forall|i: int| 0 <= i < k + 1 implies asked(
        all[i],
        jobs.take(k + 1)[i],
        all[i + 1],
        #[trigger] said[i],
    ) by {
        if i < k {
            assert(said[i] == replies[i]);
            assert(jobs.take(k)[i] == jobs.take(k + 1)[i]);
            assert(all[i] == states[i] && all[i + 1] == states[i + 1]);
        } else {
            assert(all[k] == states.last());
        }
    }
}

/// Asks every controller for its action, once for each of its jobs. Whatever a
/// controller answers is brought into bounds before anything else sees it.
pub fn decide<A: Agent>(agents: &mut WorldAgents<A>, jobs: &Vec<Job>) -> (r: PendingActions)
    requires
        old(agents).well_formed(),
    ensures
        final(agents).well_formed(),
        final(agents).next_id == old(agents).next_id,
        same_identities(final(agents).controllers@, old(agents).controllers@),
        r.items@.map_values(|i: (u64, ActionTensor)| i.0) == answerable(jobs@, *old(agents)),
        forall|i: int|
            0 <= i < r.items@.len() ==> tamed((#[trigger] r.items@[i]).1),
        exists|states: Seq<Seq<(u64, A)>>, replies: Seq<Option<ActionTensor>>| #[trigger]
            consulted(jobs@, states, replies) && states[0] == old(agents).controllers@
                && states.last() == final(agents).controllers@ && r.items@ == queued(
                jobs@,
                replies,
                jobs@.len(),
            ),
{
    let ghost start = *agents;
    let ghost mut states = seq![agents.controllers@];
    let ghost mut replies = Seq::<Option<ActionTensor>>::empty();
    let ghost name = |i: (u64, ActionTensor)| i.0;
    let mut items: Vec<(u64, ActionTensor)> = Vec::new();
    let mut k: usize = 0;
    proof {
        assert(jobs@.take(0) =~= Seq::<Job>::empty());
        assert(items@.map_values(name) =~= answerable(jobs@.take(0), start));
    }
    while k < jobs.len()
        invariant
            k <= jobs@.len(),
            name == (|i: (u64, ActionTensor)| i.0),
            agents.well_formed(),
            agents.next_id == start.next_id,
            same_identities(agents.controllers@, start.controllers@),
            items@.map_values(name) == answerable(jobs@.take(k as int), start),
            forall|i: int|
                0 <= i < items@.len() ==> tamed((#[trigger] items@[i]).1),
            consulted(jobs@.take(k as int), states, replies),
            states[0] == start.controllers@,
            states.last() == agents.controllers@,
            items@ == queued(jobs@, replies, k as nat),
        decreases jobs@.len() - k,
    {
        let job: &Job = &jobs[k];
        proof {
            assert(jobs@.take(k + 1).drop_last() =~= jobs@.take(k as int));
            lemma_places_stay(*agents, start, job.controller);
        }
        let ghost before = items@;
        let ghost held = agents.controllers@;
        let reply: Option<ActionTensor> = match agents.get_mut(job.controller) {
            Some(a) => Some(a.act(&job.observation)),
            None => None,
        };
        proof {
            match reply {
                Some(action) => {
                    let p = choose|p: int|
                        0 <= p < held.len() && (#[trigger] held[p]).0 == job.controller;
                    assert(answering(held, *job, agents.controllers@, action, p));
                },
                None => {},
            }
            lemma_one_more_asked(
                jobs@,
                k as int,
                states,
                replies,
                agents.controllers@,
                reply,
            );
            lemma_queued_prefix(jobs@, replies, replies.push(reply), k as nat);
            states = states.push(agents.controllers@);
            replies = replies.push(reply);
        }
        match reply {
            Some(answer) => {
                let mut action: ActionTensor = answer;
                action.sanitize();
                items.push((job.entity, action));
                assert(items@.map_values(name) =~= before.map_values(name).push(job.entity));
                assert forall|i: int| 0 <= i < items@.len() implies tamed((#[trigger] items@[i]).1) by {
                    if i < before.len() {
                        assert(items@[i] == before[i]);
                    } else {
                        assert(items@[i].1 == answer.sanitized());
                        assert(tamed(items@[i].1));
                    }
                }
            },
            None => {},
        }
        k += 1;
    }
    assert(jobs@.take(k as int) =~= jobs@);
    PendingActions { items }
}

/// Every action that reaches the actuators is finite and within its bands.
pub proof fn lemma_actions_are_bounded(action: ActionTensor)
    requires
        tamed(action),
    ensures
        action.force.finite(),
        unit_bound(action.force),
        num(MINUS_ONE).le(action.torque) && action.torque.le(num(ONE)),
        num(0).le(action.clamp) && action.clamp.le(num(ONE)),
        num(0).le(action.fabricate) && action.fabricate.le(num(ONE)),
        num(MINUS_OSC_LIMIT).le(action.osc_freq) && action.osc_freq.le(num(OSC_LIMIT)),
        num(0).le(action.osc_phase) && action.osc_phase.le(num(TAU)),
{
    let raw = choose|raw: ActionTensor| action == #[trigger] raw.sanitized();
    lemma_sanitized_bounded(raw);
}

/// The first pass of a step: drops the controllers whose agents are gone, shows
/// the world to every other, and collects the answers.
pub fn gather_agent_actions<A: Agent>(
    agents: &mut WorldAgents<A>,
    nodes: &Vec<Node>,
    hash: &SpatialHash,
    step: u64,
    probes: &[[Probe; 4]],
) -> (r: PendingActions)
    requires
        old(agents).well_formed(),
        probes@.len() == nodes@.len(),
        forall|i: int| 0 <= i < nodes@.len() ==> sighted(nodes@, #[trigger] nodes@[i]),
    ensures
        final(agents).well_formed(),
        final(agents).next_id == old(agents).next_id,
        same_identities(
            final(agents).controllers@,
            old(agents).controllers@.filter(|c: (u64, A)| steering(nodes@).contains(c.0)),
        ),
        exists|
            jobs: Seq<Job>,
            states: Seq<Seq<(u64, A)>>,
            replies: Seq<Option<ActionTensor>>,
        | #[trigger]
            consulted(jobs, states, replies) && shown(
                jobs,
                nodes@,
                *hash,
                step,
                probes@,
                nodes@.len(),
            ) && states[0] == old(agents).controllers@.filter(
                |c: (u64, A)| steering(nodes@).contains(c.0),
            ) && states.last() == final(agents).controllers@ && r.items@ == queued(
                jobs,
                replies,
                jobs.len(),
            ) && r.items@.map_values(|i: (u64, ActionTensor)| i.0) == answerable(
                jobs,
                *final(agents),
            ),
        forall|i: int|
            0 <= i < r.items@.len() ==> tamed((#[trigger] r.items@[i]).1),
        steered(nodes@, *old(agents)) ==> steered(nodes@, *final(agents)),
{
    let active: Vec<u64> = active_controllers(nodes);
    agents.retain(active.as_slice());
    let jobs: Vec<Job> = observation_jobs(nodes, hash, step, probes);
    let ghost kept = *agents;
    let r: PendingActions = decide(agents, &jobs);
    proof {
        lemma_answerable_stays(jobs@, kept, *agents);
        if steered(nodes@, *old(agents)) {
            assert forall|i: int| 0 <= i < nodes@.len() implies ((
            #[trigger] nodes@[i]).marker matches Some(m) ==> agents.place(m.controller) is Some) by {
                if nodes@[i].marker is Some {
                    lemma_active_is_kept(nodes@, *old(agents), kept, i);
                    lemma_places_stay(
                        *agents,
                        kept,
                        nodes@[i].marker->Some_0.controller,
                    );
                }
            }
        }
    }
    r
}

/// The controller of an agent is among those that are kept.
proof fn lemma_active_is_kept<A>(
    nodes: Seq<Node>,
    before: WorldAgents<A>,
    kept: WorldAgents<A>,
    i: int,
)
    requires
        before.well_formed(),
        steered(nodes, before),
        kept.controllers@ == before.controllers@.filter(
            |c: (u64, A)| steering(nodes).contains(c.0),
        ),
        0 <= i < nodes.len(),
        nodes[i].marker is Some,
    ensures
        kept.place(nodes[i].marker->Some_0.controller) is Some,
{
    let keep = |c: (u64, A)| steering(nodes).contains(c.0);
    let id = nodes[i].marker->Some_0.controller;
    lemma_steering_lists(nodes, i);
    lemma_registered_is_listed(before, id);
    let k = before.place(id)->Some_0;
    before.controllers@.lemma_filter_contains(keep, k);
    let c = before.controllers@[k];
    let j = choose|j: int| 0 <= j < kept.controllers@.len() && kept.controllers@[j] == c;
    lemma_listed_is_registered(kept, j);
}

/// Every agent's controller is listed.
proof fn lemma_steering_lists(nodes: Seq<Node>, i: int)
    requires
        0 <= i < nodes.len(),
        nodes[i].marker is Some,
    ensures
        steering(nodes).contains(nodes[i].marker->Some_0.controller),
    decreases nodes.len(),
{
    let rest = nodes.drop_last();
    let list = steering(rest);
    let all = steering(nodes);
    let id = nodes[i].marker->Some_0.controller;
    if i < rest.len() {
        lemma_steering_lists(rest, i);
        let k = choose|k: int| 0 <= k < list.len() && list[k] == id;
        assert(all[k] == id);
    } else {
        assert(all[list.len() as int] == id);
    }
}

/// Who is answered depends on the identities only.
proof fn lemma_answerable_stays<A>(jobs: Seq<Job>, a: WorldAgents<A>, b: WorldAgents<A>)
    requires
        same_identities(b.controllers@, a.controllers@),
    ensures
        answerable(jobs, a) == answerable(jobs, b),
    decreases jobs.len(),
{
    if jobs.len() > 0 {
        lemma_answerable_stays(jobs.drop_last(), a, b);
        lemma_places_stay(b, a, jobs.last().controller);
    }
}

/// A force and a torque on a node.
#[derive(Clone, Copy, Debug, PartialEq, Eq, Structural)]
pub struct Drive {
    pub entity: u64,
    pub force: Vec2Lite,
    pub torque: Binary32,
}

pub open spec fn action_cost_spec(action: ActionTensor) -> Binary32 {
    action.force.length().plus(action.torque.abs()).times(num(ACTION_COST))
}

/// What an action costs.
#[verifier::when_used_as_spec(action_cost_spec)]
pub fn action_cost(action: ActionTensor) -> (r: Binary32)
    ensures
        r == action_cost_spec(action),
{
    action.force.length().plus(action.torque.abs()).times(num(ACTION_COST))
}

/// Can the node pay for the action?
pub open spec fn affords(node: Node, action: ActionTensor) -> bool {
    node.physical matches Some(p) && action_cost(action).le(p.energy)
}

/// The node after it paid for the action.
pub open spec fn charged(node: Node, action: ActionTensor) -> Node {
    let cost = action_cost(action);
    match (node.physical, node.ledger) {
        (Some(p), Some(l)) => {
            let b = l.debited_exact(p, EnergyFlow::Actuation, cost);
            Node { physical: Some(b.physical), ledger: Some(b.ledger), ..node }
        },
        (Some(p), None) => Node {
            physical: Some(Physical { energy: p.energy.minus(cost), ..p }),
            ..node
        },
        _ => node,
    }
}

/// The table and the forces after the first `n` actions.
pub open spec fn driven(nodes: Seq<Node>, items: Seq<(u64, ActionTensor)>, n: nat) -> (
    Seq<Node>,
    Seq<Drive>,
)
    decreases n,
{
    if n == 0 {
        (nodes, Seq::empty())
    } else {
        let (table, drives) = driven(nodes, items, (n - 1) as nat);
        let (entity, action) = items[n - 1];
        match place_of(table, entity) {
            Some(i) if affords(table[i], action) => (
                table.update(i, charged(table[i], action)),
                drives.push(Drive { entity, force: action.force, torque: action.torque }),
            ),
            _ => (
                table,
                drives.push(Drive { entity, force: Vec2Lite::zero(), torque: num(0) }),
            ),
        }
    }
}

/// The second pass of a step: every agent that can pay for its force and torque
/// pays, and gets them; every other gets none.
pub fn apply_agent_actions(nodes: &mut Vec<Node>, pending: &PendingActions) -> (r: Vec<Drive>)
    ensures
        (final(nodes)@, r@) == driven(old(nodes)@, pending.items@, pending.items@.len()),
{
    let mut out: Vec<Drive> = Vec::new();
    let mut k: usize = 0;
    while k < pending.items.len()
        invariant
            k <= pending.items@.len(),
            (nodes@, out@) == driven(old(nodes)@, pending.items@, k as nat),
        decreases pending.items@.len() - k,
    {
        let (entity, action): (u64, ActionTensor) = pending.items[k];
        let cost: Binary32 = action_cost(action);
        let mut drive: Drive = Drive { entity, force: Vec2Lite::zero(), torque: num(0) };
        match find(nodes, entity) {
            Some(i) => {
                let mut node: Node = nodes[i];
                match node.physical {
                    Some(p) => {
                        if cost.le(p.energy) {
                            let mut physical: Physical = p;
                            match node.ledger {
                                Some(l) => {
                                    let mut ledger: EnergyLedger = l;
                                    ledger.debit_exact(&mut physical, EnergyFlow::Actuation, cost);
                                    node.ledger = Some(ledger);
                                },
                                None => {
                                    physical.energy = physical.energy.minus(cost);
                                },
                            }
                            node.physical = Some(physical);
                            nodes.set(i, node);
                            drive.force = action.force;
                            drive.torque = action.torque;
                        }
                    },
                    None => {},
                }
            },
            None => {},
        }
        out.push(drive);
        k += 1;
    }
    out
}

/// No motion is free: whoever gets a force or a torque paid its cost out of the
/// reserve, and the ledger says so. Nobody pays without getting it.
pub proof fn lemma_motion_is_paid(nodes: Seq<Node>, items: Seq<(u64, ActionTensor)>, n: nat)
    requires
        0 < n <= items.len(),
    ensures
        ({
            let (table, drives) = driven(nodes, items, (n - 1) as nat);
            let (after, all) = driven(nodes, items, n);
            let (entity, action) = items[n - 1];
            let drive = all.last();
            &&& all == drives.push(drive)
            &&& drive.entity == entity
            &&& drive.force != Vec2Lite::zero() || drive.torque != num(0) ==> {
                &&& place_of(table, entity) matches Some(i) && affords(table[i], action)
                    && after == table.update(i, charged(table[i], action))
                &&& drive.force == action.force
                &&& drive.torque == action.torque
            }
            &&& !(place_of(table, entity) matches Some(i) && affords(table[i], action)) ==> after
                == table
        }),
{
}

} // verus!
