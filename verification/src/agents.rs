//! Controllers and what they see. A controller owns no part of the world: it
//! gets an observation and returns an action.

use crate::binary32::num;
use crate::binary32::Binary32;
use crate::components::is_listed;
use crate::components::lookup;
use crate::components::node_of;
use crate::components::AgentMarker;
use crate::components::AgentTuning;
use crate::components::ClampState;
use crate::components::Conductivity;
use crate::components::EnergyLedger;
use crate::components::FabricateCooldown;
use crate::components::ImpulseAccum;
use crate::components::Node;
use crate::components::NodeRng;
use crate::components::Oscillator;
use crate::components::Physical;
use crate::components::ReproductionState;
use crate::components::Tags;
use crate::components::Yield;
use crate::fields::FieldSample;
use crate::fragmentation::OPEN_CONDUCTIVITY;
use crate::interface::action::ActionTensor;
use crate::interface::action::TAU;
use crate::interface::config::InterfaceConfig;
use crate::interface::observation::NeighborView;
use crate::interface::observation::ObservationTensor;
use crate::interface::vector::Rotation;
use crate::interface::vector::Vec2Lite;
use crate::spatial_hash::reachable;
use crate::spatial_hash::SpatialHash;
use crate::tags::CustomTags;
use crate::tags::AGENT_MASK;
use vstd::prelude::*;

verus! {

/// Pattern of the reserve above which an agent has a surplus, 32.
pub const REPRODUCTION_THRESHOLD: u32 = 0x4200_0000;

/// Pattern of the energy of a new agent, 20.
pub const BIRTH_ENERGY: u32 = 0x41a0_0000;

/// Pattern of the smallest mass of a new agent, 0.1.
pub const BIRTH_MASS: u32 = 0x3dcc_cccd;

/// Pattern of the step of a gradient, 0.05.
pub const GRADIENT_EPSILON: u32 = 0x3d4c_cccd;

/// Probes of each field in an agent's observation.
pub const FIELD_PROBES: usize = 4;

/// Channels of each probe: the value and its gradient.
pub const PROBE_CHANNELS: usize = 3;

/// The contract of every controller, in the process or outside it.
pub trait Agent: Sized {
    /// How the controller answers: it was `before` when it was shown the
    /// observation, it is `after` now, and it wants the action. Each controller
    /// says for itself which answers it gives; one that says nothing may give
    /// any.
    open spec fn acts(
        before: Self,
        observation: ObservationTensor,
        after: Self,
        action: ActionTensor,
    ) -> bool {
        true
    }

    /// The action for an observation. Called once per fixed step.
    fn act(&mut self, observation: &ObservationTensor) -> (r: ActionTensor)
        ensures
            Self::acts(*old(self), *observation, *final(self), r),
    ;

    /// Called when the controller is given to a new body. Does nothing unless a
    /// controller says otherwise.
    fn on_reset(&mut self, seed: u64)
        default_ensures
            *final(self) == *old(self),
    {
    }

    /// An independent controller for a child. Controllers that cannot have one,
    /// such as a single remote socket, return nothing; so does every controller
    /// that does not say otherwise.
    fn spawn_child(&mut self, seed: u64) -> (r: Option<Self>)
        default_ensures
            r is None,
            *final(self) == *old(self),
    {
        None
    }
}

/// The controllers of a world, in the order in which they were registered.
#[derive(Debug)]
pub struct WorldAgents<A> {
    pub controllers: Vec<(u64, A)>,
    pub next_id: u64,
}

impl<A> WorldAgents<A> {
    /// Identities grow, and none was given out twice.
    pub open spec fn well_formed(&self) -> bool {
        &&& forall|i: int, j: int|
            0 <= i < j < self.controllers@.len() ==> (#[trigger] self.controllers@[i]).0 < (
            #[trigger] self.controllers@[j]).0
        &&& forall|i: int|
            0 <= i < self.controllers@.len() ==> (#[trigger] self.controllers@[i]).0 < self.next_id
    }

    /// Where the controller with this identity stands.
    pub open spec fn place(&self, id: u64) -> Option<int> {
        if exists|i: int| 0 <= i < self.controllers@.len() && (#[trigger] self.controllers@[i]).0
            == id {
            Some(
                choose|i: int|
                    0 <= i < self.controllers@.len() && (#[trigger] self.controllers@[i]).0 == id,
            )
        } else {
            None
        }
    }

    /// No controllers yet.
    pub fn new() -> (r: WorldAgents<A>)
        ensures
            r.well_formed(),
            r.controllers@ == Seq::<(u64, A)>::empty(),
            r.next_id == 0,
    {
        WorldAgents { controllers: Vec::new(), next_id: 0 }
    }

    /// Registers a controller and returns its identity.
    pub fn register(&mut self, agent: A) -> (r: u64)
        requires
            old(self).well_formed(),
            old(self).next_id < u64::MAX,
        ensures
            final(self).well_formed(),
            r == old(self).next_id,
            final(self).next_id == old(self).next_id + 1,
            final(self).controllers@ == old(self).controllers@.push((r, agent)),
    {
        let id: u64 = self.next_id;
        self.next_id = self.next_id + 1;
        self.controllers.push((id, agent));
        id
    }

    /// Finds a controller.
    fn find(&self, id: u64) -> (r: Option<usize>)
        requires
            self.well_formed(),
        ensures
            match r {
                Some(i) => self.place(id) == Some(i as int) && i < self.controllers@.len()
                    && self.controllers@[i as int].0 == id,
                None => self.place(id) is None,
            },
    {
        let mut i: usize = 0;
        while i < self.controllers.len()
            invariant
                i <= self.controllers@.len(),
                self.well_formed(),
                forall|j: int| 0 <= j < i ==> (#[trigger] self.controllers@[j]).0 != id,
            decreases self.controllers@.len() - i,
        {
            if self.controllers[i].0 == id {
                assert(self.controllers@[i as int].0 == id);
                return Some(i);
            }
            i += 1;
        }
        None
    }

    /// The controller with this identity.
    pub fn get(&self, id: u64) -> (r: Option<&A>)
        requires
            self.well_formed(),
        ensures
            match self.place(id) {
                Some(i) => r == Some(&self.controllers@[i].1),
                None => r is None,
            },
    {
        match self.find(id) {
            Some(i) => Some(&self.controllers[i].1),
            None => None,
        }
    }

    /// The controller with this identity, to be used.
    pub fn get_mut(&mut self, id: u64) -> (r: Option<&mut A>)
        requires
            old(self).well_formed(),
        ensures
            final(self).well_formed(),
            final(self).next_id == old(self).next_id,
            match r {
                Some(a) => old(self).place(id) matches Some(i) && *a == old(self).controllers@[i].1
                    && final(self).controllers@ == old(self).controllers@.update(
                    i,
                    (id, *final(a)),
                ),
                None => old(self).place(id) is None && final(self).controllers@ == old(
                    self,
                ).controllers@,
            },
    {
        match self.find(id) {
            Some(i) => Some(&mut self.controllers[i].1),
            None => None,
        }
    }

    /// Drops every controller whose agent is gone.
    pub fn retain(&mut self, active: &[u64])
        requires
            old(self).well_formed(),
        ensures
            final(self).well_formed(),
            final(self).next_id == old(self).next_id,
            final(self).controllers@ == old(self).controllers@.filter(
                |c: (u64, A)| active@.contains(c.0),
            ),
    {
        let ghost keep = |c: (u64, A)| active@.contains(c.0);
        let ghost start = self.controllers@;
        let ghost mut seen: int = 0;
        let mut i: usize = 0;
        proof {
            reveal(Seq::filter);
            assert(self.controllers@ =~= start.take(0).filter(keep) + start.skip(0));
        }
        while i < self.controllers.len()
            invariant
                i <= self.controllers@.len(),
                0 <= seen <= start.len(),
                keep == (|c: (u64, A)| active@.contains(c.0)),
                i == start.take(seen).filter(keep).len(),
                self.controllers@ == start.take(seen).filter(keep) + start.skip(seen),
                self.well_formed(),
                self.next_id == old(self).next_id,
            decreases start.len() - seen,
        {
            proof {
                reveal(Seq::filter);
                assert(start.take(seen + 1).drop_last() =~= start.take(seen));
                assert(self.controllers@[i as int] == start[seen]);
            }
            let ghost before = self.controllers@;
            if is_listed(active, self.controllers[i].0) {
                i += 1;
            } else {
                let _dropped: (u64, A) = self.controllers.remove(i);
                proof {
                    assert forall|a: int, b: int|
                        0 <= a < b < self.controllers@.len() implies (
                    #[trigger] self.controllers@[a]).0 < (#[trigger] self.controllers@[b]).0 by {
                        let x = if a < i {
                            a
                        } else {
                            a + 1
                        };
                        let y = if b < i {
                            b
                        } else {
                            b + 1
                        };
                        assert(before[x].0 < before[y].0);
                    }
                    assert forall|a: int| 0 <= a < self.controllers@.len() implies (
                    #[trigger] self.controllers@[a]).0 < self.next_id by {
                        let x = if a < i {
                            a
                        } else {
                            a + 1
                        };
                        assert(before[x].0 < self.next_id);
                    }
                }
            }
            proof {
                seen = seen + 1;
                assert(self.controllers@ =~= start.take(seen).filter(keep) + start.skip(seen));
            }
        }
        assert(start.take(seen) =~= start);
        assert(self.controllers@ =~= start.filter(keep));
    }

    /// Takes a child in, if there is one.
    pub fn adopt(&mut self, child: Option<A>) -> (r: Option<u64>)
        requires
            old(self).well_formed(),
            old(self).next_id < u64::MAX,
        ensures
            final(self).well_formed(),
            match child {
                Some(c) => {
                    &&& r == Some(old(self).next_id)
                    &&& final(self).next_id == old(self).next_id + 1
                    &&& final(self).controllers@ == old(self).controllers@.push(
                        (old(self).next_id, c),
                    )
                },
                None => r is None && *final(self) == *old(self),
            },
    {
        match child {
            Some(c) => Some(self.register(c)),
            None => None,
        }
    }
}

/// The entity is there, and is an agent still.
pub open spec fn alive(nodes: Seq<Node>, entity: u64) -> bool {
    node_of(nodes, entity) matches Some(node) && node.marker is Some
}

/// Does the agent still live?
pub fn is_alive(nodes: &Vec<Node>, entity: u64) -> (r: bool)
    ensures
        r == alive(nodes@, entity),
{
    match lookup(nodes, entity) {
        Some(node) => node.marker.is_some(),
        None => false,
    }
}

/// Every agent has a controller that is registered, and no two have the same.
pub open spec fn steered<A>(nodes: Seq<Node>, agents: WorldAgents<A>) -> bool {
    &&& forall|i: int|
        0 <= i < nodes.len() ==> ((#[trigger] nodes[i]).marker matches Some(m) ==> agents.place(
            m.controller,
        ) is Some)
    &&& forall|i: int, j: int|
        0 <= i < j < nodes.len() ==> match (
            (#[trigger] nodes[i]).marker,
            (#[trigger] nodes[j]).marker,
        ) {
            (Some(a), Some(b)) => a.controller != b.controller,
            _ => true,
        }
}

/// Whoever stands in the list is registered.
pub proof fn lemma_listed_is_registered<A>(agents: WorldAgents<A>, k: int)
    requires
        0 <= k < agents.controllers@.len(),
    ensures
        agents.place(agents.controllers@[k].0) is Some,
{
    assert(agents.controllers@[k].0 == agents.controllers@[k].0);
}

/// Whoever is registered stands in the list, below the next identity.
pub proof fn lemma_registered_is_listed<A>(agents: WorldAgents<A>, id: u64)
    requires
        agents.well_formed(),
        agents.place(id) is Some,
    ensures
        ({
            let k = agents.place(id)->Some_0;
            0 <= k < agents.controllers@.len() && agents.controllers@[k].0 == id
        }),
        id < agents.next_id,
{
    let k = agents.place(id)->Some_0;
    assert(agents.controllers@[k].0 == id);
}

/// An identity stands in one place only.
pub proof fn lemma_one_place<A>(agents: WorldAgents<A>, k: int)
    requires
        agents.well_formed(),
        0 <= k < agents.controllers@.len(),
    ensures
        agents.place(agents.controllers@[k].0) == Some(k),
{
    let id = agents.controllers@[k].0;
    lemma_listed_is_registered(agents, k);
    lemma_registered_is_listed(agents, id);
    let p = agents.place(id)->Some_0;
    if p < k {
        assert(agents.controllers@[p].0 < agents.controllers@[k].0);
    } else if k < p {
        assert(agents.controllers@[k].0 < agents.controllers@[p].0);
    }
}

/// Where the first controllers stay, whoever was registered stays so.
pub proof fn lemma_prefix_stays_registered<A>(before: WorldAgents<A>, after: WorldAgents<A>, id: u64)
    requires
        before.well_formed(),
        before.controllers@.len() <= after.controllers@.len(),
        forall|k: int|
            0 <= k < before.controllers@.len() ==> (#[trigger] after.controllers@[k]).0
                == before.controllers@[k].0,
        before.place(id) is Some,
    ensures
        after.place(id) is Some,
{
    lemma_registered_is_listed(before, id);
    let k = before.place(id)->Some_0;
    assert(after.controllers@[k].0 == id);
}

/// One more node without an agent, or with a newly registered one, keeps every
/// agent steered.
pub proof fn lemma_one_more_is_steered<A>(
    nodes: Seq<Node>,
    before: WorldAgents<A>,
    after: WorldAgents<A>,
    node: Node,
)
    requires
        before.well_formed(),
        steered(nodes, before),
        before.controllers@.len() <= after.controllers@.len(),
        forall|k: int|
            0 <= k < before.controllers@.len() ==> (#[trigger] after.controllers@[k]).0
                == before.controllers@[k].0,
        node.marker matches Some(m) ==> m.controller >= before.next_id && after.place(
            m.controller,
        ) is Some,
    ensures
        steered(nodes.push(node), after),
{
    let all = nodes.push(node);
    assert forall|i: int| 0 <= i < all.len() implies ((#[trigger] all[i]).marker matches Some(m)
        ==> after.place(m.controller) is Some) by {
        if i < nodes.len() && all[i].marker is Some {
            assert(nodes[i].marker is Some);
            lemma_prefix_stays_registered(before, after, nodes[i].marker->Some_0.controller);
        }
    }
    assert forall|i: int, j: int| 0 <= i < j < all.len() implies match (
        (#[trigger] all[i]).marker,
        (#[trigger] all[j]).marker,
    ) {
        (Some(a), Some(b)) => a.controller != b.controller,
        _ => true,
    } by {
        if j < nodes.len() {
            assert(all[i] == nodes[i] && all[j] == nodes[j]);
        } else if all[i].marker is Some {
            assert(nodes[i].marker is Some);
            lemma_registered_is_listed(before, nodes[i].marker->Some_0.controller);
        }
    }
}

/// Nodes that leave take no other agent's controller with them.
pub proof fn lemma_rest_is_steered<A>(
    nodes: Seq<Node>,
    agents: WorldAgents<A>,
    keep: spec_fn(Node) -> bool,
)
    requires
        steered(nodes, agents),
    ensures
        steered(nodes.filter(keep), agents),
    decreases nodes.len(),
{
    reveal(Seq::filter);
    if nodes.len() > 0 {
        let rest = nodes.drop_last();
        let kept = rest.filter(keep);
        assert forall|i: int| 0 <= i < rest.len() implies #[trigger] rest[i] == nodes[i] by {}
        lemma_rest_is_steered(rest, agents, keep);
        let last = nodes.last();
        if keep(last) {
            let all = kept.push(last);
            assert forall|i: int, j: int| 0 <= i < j < all.len() implies match (
                (#[trigger] all[i]).marker,
                (#[trigger] all[j]).marker,
            ) {
                (Some(a), Some(b)) => a.controller != b.controller,
                _ => true,
            } by {
                if j == kept.len() {
                    assert(kept.contains(kept[i]));
                    rest.lemma_filter_contains_rev(keep, kept[i]);
                    let k = choose|k: int| 0 <= k < rest.len() && rest[k] == kept[i];
                    assert(nodes[k] == kept[i] && nodes[nodes.len() - 1] == last);
                } else {
                    assert(all[i] == kept[i] && all[j] == kept[j]);
                }
            }
            assert forall|i: int| 0 <= i < all.len() implies ((#[trigger] all[i]).marker matches Some(
                m,
            ) ==> agents.place(m.controller) is Some) by {
                if i < kept.len() {
                    assert(all[i] == kept[i]);
                } else {
                    assert(nodes[nodes.len() - 1] == last);
                }
            }
        }
    }
}

/// As long as nobody is dropped from the list, every agent stays steered.
pub proof fn lemma_same_identities_steer<A>(
    nodes: Seq<Node>,
    before: WorldAgents<A>,
    after: WorldAgents<A>,
)
    requires
        before.well_formed(),
        steered(nodes, before),
        before.controllers@.len() <= after.controllers@.len(),
        forall|k: int|
            0 <= k < before.controllers@.len() ==> (#[trigger] after.controllers@[k]).0
                == before.controllers@[k].0,
    ensures
        steered(nodes, after),
{
    assert forall|i: int| 0 <= i < nodes.len() implies ((#[trigger] nodes[i]).marker matches Some(m)
        ==> after.place(m.controller) is Some) by {
        if nodes[i].marker is Some {
            lemma_prefix_stays_registered(before, after, nodes[i].marker->Some_0.controller);
        }
    }
}

/// Nodes that lose their agents, or keep them, stay steered.
pub proof fn lemma_fewer_agents_are_steered<A>(
    before: Seq<Node>,
    after: Seq<Node>,
    agents: WorldAgents<A>,
)
    requires
        steered(before, agents),
        after.len() == before.len(),
        forall|i: int|
            0 <= i < after.len() ==> (#[trigger] after[i]).marker is None || after[i].marker
                == before[i].marker,
    ensures
        steered(after, agents),
{
    assert forall|i: int| 0 <= i < after.len() implies ((#[trigger] after[i]).marker matches Some(m)
        ==> agents.place(m.controller) is Some) by {
        assert(before[i].marker is Some || after[i].marker is None);
    }
    assert forall|i: int, j: int| 0 <= i < j < after.len() implies match (
        (#[trigger] after[i]).marker,
        (#[trigger] after[j]).marker,
    ) {
        (Some(a), Some(b)) => a.controller != b.controller,
        _ => true,
    } by {
        assert(before[i] == before[i] && before[j] == before[j]);
    }
}

impl<A: Agent> WorldAgents<A> {
    /// Asks the parent's controller for a child and registers it. There is none
    /// where the parent is unknown or cannot have one. Nobody else changes.
    pub fn spawn_child(&mut self, parent: u64, seed: u64) -> (r: Option<u64>)
        requires
            old(self).well_formed(),
            old(self).next_id < u64::MAX,
        ensures
            final(self).well_formed(),
            old(self).place(parent) is None ==> {
                &&& r is None
                &&& final(self).next_id == old(self).next_id
                &&& final(self).controllers@ == old(self).controllers@
            },
            old(self).place(parent) matches Some(p) ==> {
                let n = old(self).controllers@.len() as int;
                &&& forall|i: int|
                    0 <= i < n && i != p ==> #[trigger] final(self).controllers@[i] == old(
                        self,
                    ).controllers@[i]
                &&& final(self).controllers@[p].0 == parent
                &&& exists|m: &mut A, child: Option<A>| #[trigger]
                    call_ensures(A::spawn_child, (m, seed), child) && *m == old(
                        self,
                    ).controllers@[p].1 && *final(m) == final(self).controllers@[p].1 && match (
                        child,
                        r,
                    ) {
                        (Some(c), Some(_)) => exists|new: &mut A| #[trigger]
                            call_ensures(A::on_reset, (new, seed), ()) && *new == c
                                && *final(new) == final(self).controllers@[n].1,
                        (None, None) => true,
                        _ => false,
                    }
                &&& match r {
                    Some(id) => {
                        &&& id == old(self).next_id
                        &&& final(self).next_id == old(self).next_id + 1
                        &&& final(self).controllers@.len() == n + 1
                        &&& final(self).controllers@[n].0 == id
                    },
                    None => {
                        &&& final(self).next_id == old(self).next_id
                        &&& final(self).controllers@.len() == n
                    },
                }
            },
    {
        let child: Option<A> = match self.get_mut(parent) {
            Some(a) => match a.spawn_child(seed) {
                Some(c) => {
                    let mut c: A = c;
                    c.on_reset(seed);
                    Some(c)
                },
                None => None,
            },
            None => None,
        };
        self.adopt(child)
    }
}

pub open spec fn agent_node_spec(
    controller: u64,
    pos: Vec2Lite,
    tuning: AgentTuning,
    node_rng: u64,
    born_step: u32,
) -> Node {
    let mass = tuning.yield_threshold.max(num(BIRTH_MASS));
    Node {
        body_mass: Some(mass),
        physical: Some(
            Physical { mass, structure: tuning.yield_threshold, energy: num(BIRTH_ENERGY) },
        ),
        yield_thresh: Some(Yield(tuning.yield_threshold)),
        conductivity: Some(Conductivity(num(OPEN_CONDUCTIVITY))),
        tags: Some(Tags(CustomTags::from_bits(AGENT_MASK))),
        oscillator: Some(
            Oscillator {
                freq: tuning.osc_baseline,
                phase: num(0),
                baseline_freq: tuning.osc_baseline,
            },
        ),
        impulse: Some(ImpulseAccum { value: num(0), source: None }),
        ledger: Some(EnergyLedger::opened(born_step)),
        marker: Some(
            AgentMarker { generation: 0, lineage: controller ^ 0xABCD, controller },
        ),
        tuning: Some(tuning),
        clamp: Some(ClampState { target: None, joint: None, cooldown: num(0) }),
        fabricate: Some(FabricateCooldown { remaining: num(0) }),
        reproduction: Some(
            ReproductionState { surplus_seconds: num(0), cooldown_seconds: num(0) },
        ),
        node_rng: Some(NodeRng(node_rng)),
        ..Node::bare(0, pos)
    }
}

/// A new agent without parents. Its number is given by the engine.
#[verifier::when_used_as_spec(agent_node_spec)]
pub fn agent_node(
    controller: u64,
    pos: Vec2Lite,
    tuning: AgentTuning,
    node_rng: u64,
    born_step: u32,
) -> (r: Node)
    ensures
        r == agent_node_spec(controller, pos, tuning, node_rng, born_step),
{
    let mass: Binary32 = tuning.yield_threshold.max(num(BIRTH_MASS));
    let mut node: Node = Node::bare(0, pos);
    node.body_mass = Some(mass);
    node.physical = Some(
        Physical { mass, structure: tuning.yield_threshold, energy: num(BIRTH_ENERGY) },
    );
    node.yield_thresh = Some(Yield(tuning.yield_threshold));
    node.conductivity = Some(Conductivity(num(OPEN_CONDUCTIVITY)));
    node.tags = Some(Tags(CustomTags::from_bits(AGENT_MASK)));
    node.oscillator = Some(
        Oscillator {
            freq: tuning.osc_baseline,
            phase: num(0),
            baseline_freq: tuning.osc_baseline,
        },
    );
    node.impulse = Some(ImpulseAccum { value: num(0), source: None });
    node.ledger = Some(EnergyLedger::opened(born_step));
    node.marker = Some(AgentMarker { generation: 0, lineage: controller ^ 0xABCD, controller });
    node.tuning = Some(tuning);
    node.clamp = Some(ClampState { target: None, joint: None, cooldown: num(0) });
    node.fabricate = Some(FabricateCooldown { remaining: num(0) });
    node.reproduction = Some(
        ReproductionState { surplus_seconds: num(0), cooldown_seconds: num(0) },
    );
    node.node_rng = Some(NodeRng(node_rng));
    node
}

pub open spec fn spawn_with_id_spec(controller: u64, pos: Vec2Lite, tuning: AgentTuning) -> Node {
    agent_node(controller, pos, tuning, controller.wrapping_mul(0x9E37_79B1) ^ 0xABCD, 0)
}

/// The body of a registered controller.
#[verifier::when_used_as_spec(spawn_with_id_spec)]
pub fn spawn_with_id(controller: u64, pos: Vec2Lite, tuning: AgentTuning) -> (r: Node)
    ensures
        r == spawn_with_id_spec(controller, pos, tuning),
{
    agent_node(controller, pos, tuning, controller.wrapping_mul(0x9E37_79B1) ^ 0xABCD, 0)
}

/// Registers a controller and makes its body.
pub fn spawn_agent<A>(
    world_agents: &mut WorldAgents<A>,
    agent: A,
    pos: Vec2Lite,
    tuning: AgentTuning,
) -> (r: Node)
    requires
        old(world_agents).well_formed(),
        old(world_agents).next_id < u64::MAX,
    ensures
        final(world_agents).well_formed(),
        final(world_agents).next_id == old(world_agents).next_id + 1,
        final(world_agents).controllers@ == old(world_agents).controllers@.push(
            (old(world_agents).next_id, agent),
        ),
        r == spawn_with_id(old(world_agents).next_id, pos, tuning),
{
    let controller: u64 = world_agents.register(agent);
    spawn_with_id(controller, pos, tuning)
}

/// The shape of an agent's observation.
pub open spec fn agent_config_spec(tuning: AgentTuning) -> InterfaceConfig {
    InterfaceConfig {
        max_neighbors: tuning.max_neighbors,
        sensor_radius: tuning.sensor_radius,
        field_samples: FIELD_PROBES,
        field_channels: PROBE_CHANNELS,
    }
}

/// The shape of an agent's observation.
#[verifier::when_used_as_spec(agent_config_spec)]
pub fn agent_config(tuning: AgentTuning) -> (r: InterfaceConfig)
    ensures
        r == agent_config_spec(tuning),
{
    InterfaceConfig {
        max_neighbors: tuning.max_neighbors,
        sensor_radius: tuning.sensor_radius,
        field_samples: FIELD_PROBES,
        field_channels: PROBE_CHANNELS,
    }
}

/// The angle of probe `s`. Probe zero has none: it is at the agent.
pub fn probe_angle(s: u32) -> (r: Binary32)
    requires
        1 <= s < FIELD_PROBES,
    ensures
        r == Binary32::from_u32((s - 1) as u32).over(Binary32::from_u32(3)).times(num(TAU)),
{
    Binary32::from_u32(s - 1).over(Binary32::from_u32(3)).times(num(TAU))
}

pub open spec fn probe_position_spec(
    pos: Vec2Lite,
    rotation: Rotation,
    radius: Binary32,
    direction: Option<Vec2Lite>,
) -> Vec2Lite {
    let local = match direction {
        Some(d) => d.scaled(radius),
        None => Vec2Lite::zero(),
    };
    pos.plus(rotation.rotate(local))
}

/// Where a probe is: at the agent, or on a ring at the sensor radius, in the
/// direction given by the cosine and sine of its angle.
#[verifier::when_used_as_spec(probe_position_spec)]
pub fn probe_position(
    pos: Vec2Lite,
    rotation: Rotation,
    radius: Binary32,
    direction: Option<Vec2Lite>,
) -> (r: Vec2Lite)
    ensures
        r == probe_position_spec(pos, rotation, radius, direction),
{
    let local: Vec2Lite = match direction {
        Some(d) => d.scaled(radius),
        None => Vec2Lite::zero(),
    };
    pos.plus(rotation.rotate(local))
}

/// What a probe reads: the fields and their gradients in the world's frame.
#[derive(Clone, Copy, Debug, Default, PartialEq, Eq, Structural)]
pub struct Probe {
    pub sample: FieldSample,
    pub kinetic_gradient: Vec2Lite,
    pub thermal_gradient: Vec2Lite,
    pub em_gradient: Vec2Lite,
}

impl Probe {
    /// The value of field `f`: kinetic, thermal, electromagnetic.
    pub open spec fn value(self, f: int) -> Binary32 {
        if f == 0 {
            self.sample.kinetic
        } else if f == 1 {
            self.sample.thermal
        } else {
            self.sample.em
        }
    }

    /// The gradient of field `f`.
    pub open spec fn gradient(self, f: int) -> Vec2Lite {
        if f == 0 {
            self.kinetic_gradient
        } else if f == 1 {
            self.thermal_gradient
        } else {
            self.em_gradient
        }
    }
}

/// Channel `c` of field `f` at a probe, in the agent's frame: the value, then the
/// gradient.
pub open spec fn channel(probe: Probe, inverse: Rotation, f: int, c: int) -> Binary32 {
    let local = inverse.rotate(probe.gradient(f));
    if c == 0 {
        probe.value(f)
    } else if c == 1 {
        local.x
    } else {
        local.y
    }
}

/// The field block: field by field, probe by probe, channel by channel.
pub open spec fn field_block(probes: Seq<Probe>, inverse: Rotation) -> Seq<Binary32> {
    Seq::new(36, |k: int| channel(probes[k / 3 % 4], inverse, k / 12, k % 3))
}

/// The agent's own state: velocity in its own frame, mass, structure, energy,
/// oscillator, and surplus. Its position is not among them.
pub open spec fn self_block(node: Node) -> Seq<Binary32> {
    let local = node.rotation.inverse().rotate(node.motion());
    let p = node.physical->Some_0;
    let o = node.oscillator->Some_0;
    seq![
        local.x,
        local.y,
        p.mass,
        p.structure,
        p.energy,
        o.freq,
        o.phase,
        p.energy.minus(num(REPRODUCTION_THRESHOLD)).max(num(0)),
    ]
}

/// Another node as the agent sees it, in the agent's frame.
pub open spec fn view_of(node: Node, other: Node) -> NeighborView {
    let inverse = node.rotation.inverse();
    let p = other.physical->Some_0;
    NeighborView {
        rel_pos: inverse.rotate(other.position.minus(node.position)),
        rel_vel: inverse.rotate(other.motion().minus(node.motion())),
        mass: p.mass,
        structure: p.structure,
        energy: p.energy,
        tags: other.tags->Some_0.0.0,
        conductivity: match other.conductivity {
            Some(c) => c.0,
            None => num(OPEN_CONDUCTIVITY),
        },
        osc_freq: match other.oscillator {
            Some(o) => o.freq,
            None => num(0),
        },
        osc_phase: match other.oscillator {
            Some(o) => o.phase,
            None => num(0),
        },
        valid: true,
    }
}

/// How far another node is, squared.
pub open spec fn sight(node: Node, other: Node) -> Binary32 {
    other.position.minus(node.position).length_squared()
}

/// Does the agent see the node? It must be another one, with a body and a mask,
/// within the sensor radius.
pub open spec fn visible(nodes: Seq<Node>, node: Node, radius: Binary32, other: u64) -> bool {
    &&& other != node.entity
    &&& node_of(nodes, other) matches Some(o) && o.physical is Some && o.tags is Some
        && !radius.times(radius).lt(sight(node, o))
}

/// A neighbor with its squared distance.
#[derive(Clone, Copy, Debug, PartialEq, Eq, Structural)]
pub struct Sighting {
    pub distance: Binary32,
    pub view: NeighborView,
}

/// The list with one more, behind all that are not farther.
pub open spec fn placed(list: Seq<Sighting>, s: Sighting) -> Seq<Sighting>
    decreases list.len(),
{
    if list.len() == 0 || !s.distance.lt(list.last().distance) {
        list.push(s)
    } else {
        placed(list.drop_last(), s).push(list.last())
    }
}

/// Those of the first `n` nearby that the agent sees, nearest first. Of equally
/// near ones the first found comes first.
pub open spec fn sightings(
    nodes: Seq<Node>,
    node: Node,
    radius: Binary32,
    near: Seq<u64>,
    n: nat,
) -> Seq<Sighting>
    decreases n,
{
    if n == 0 {
        Seq::empty()
    } else {
        let rest = sightings(nodes, node, radius, near, (n - 1) as nat);
        if visible(nodes, node, radius, near[n - 1]) {
            let other = node_of(nodes, near[n - 1])->Some_0;
            placed(rest, Sighting { distance: sight(node, other), view: view_of(node, other) })
        } else {
            rest
        }
    }
}

/// The first `n` sightings, and ghosts behind them.
pub open spec fn padded(list: Seq<Sighting>, n: nat) -> Seq<NeighborView> {
    Seq::new(
        n,
        |i: int|
            if i < list.len() {
                list[i].view
            } else {
                NeighborView::padding()
            },
    )
}

/// The node can observe: it has a body and an oscillator.
pub open spec fn observes(node: Node) -> bool {
    node.physical is Some && node.oscillator is Some
}

/// `obs` is what the node sees at `step`.
pub open spec fn observed(
    obs: ObservationTensor,
    nodes: Seq<Node>,
    hash: SpatialHash,
    node: Node,
    tuning: AgentTuning,
    step: u64,
    probes: Seq<Probe>,
) -> bool {
    let near = hash.found(node.position, tuning.sensor_radius);
    &&& obs.well_formed()
    &&& obs.step == step
    &&& obs.entity_id == node.entity
    &&& obs.config == agent_config(tuning)
    &&& obs.self_state@ == self_block(node)
    &&& obs.field@ == field_block(probes, node.rotation.inverse())
    &&& obs.neighbors@ == padded(
        sightings(nodes, node, tuning.sensor_radius, near, near.len()),
        tuning.max_neighbors as nat,
    )
}

/// Nothing stands behind a whole list.
proof fn lemma_placed_whole(list: Seq<Sighting>, s: Sighting)
    ensures
        placed(list.take(list.len() as int), s) + list.skip(list.len() as int) == placed(list, s),
{
    assert(list.take(list.len() as int) =~= list);
    assert(placed(list, s) + list.skip(list.len() as int) =~= placed(list, s));
}

/// A sighting goes before the `j`-th where it is nearer.
proof fn lemma_placed_step(list: Seq<Sighting>, s: Sighting, j: int)
    requires
        0 < j <= list.len(),
        s.distance.lt(list[j - 1].distance),
    ensures
        placed(list.take(j - 1), s) + list.skip(j - 1) == placed(list.take(j), s) + list.skip(j),
{
    let head = list.take(j);
    let rest = placed(list.take(j - 1), s);
    assert(head.drop_last() =~= list.take(j - 1));
    assert(placed(head, s) == rest.push(list[j - 1]));
    assert(rest + list.skip(j - 1) =~= rest.push(list[j - 1]) + list.skip(j));
}

/// A sighting goes behind the `j`-th where it is no nearer.
proof fn lemma_placed_here(list: Seq<Sighting>, s: Sighting, j: int)
    requires
        0 <= j <= list.len(),
        j > 0 ==> !s.distance.lt(list[j - 1].distance),
    ensures
        placed(list.take(j), s) == list.take(j).push(s),
{
}

/// Puts a sighting into its place.
fn place_sighting(list: &mut Vec<Sighting>, s: Sighting)
    ensures
        final(list)@ == placed(old(list)@, s),
{
    let mut j: usize = list.len();
    proof {
        lemma_placed_whole(list@, s);
    }
    while j > 0 && s.distance.lt(list[j - 1].distance)
        invariant
            j <= list@.len(),
            list@ == old(list)@,
            placed(list@.take(j as int), s) + list@.skip(j as int) == placed(list@, s),
        decreases j,
    {
        proof {
            lemma_placed_step(list@, s, j as int);
        }
        j -= 1;
    }
    proof {
        lemma_placed_here(list@, s, j as int);
    }
    list.insert(j, s);
    assert(list@ =~= old(list)@.take(j as int).push(s) + old(list)@.skip(j as int));
}

/// Describes another node.
fn describe(node: Node, other: Node, physical: Physical, tags: Tags) -> (r: NeighborView)
    requires
        other.physical == Some(physical),
        other.tags == Some(tags),
    ensures
        r == view_of(node, other),
{
    let inverse: Rotation = node.rotation.inverse();
    let conductivity: Binary32 = match other.conductivity {
        Some(c) => c.0,
        None => num(OPEN_CONDUCTIVITY),
    };
    let (osc_freq, osc_phase): (Binary32, Binary32) = match other.oscillator {
        Some(o) => (o.freq, o.phase),
        None => (num(0), num(0)),
    };
    NeighborView {
        rel_pos: inverse.rotate(other.position.minus(node.position)),
        rel_vel: inverse.rotate(other.motion().minus(node.motion())),
        mass: physical.mass,
        structure: physical.structure,
        energy: physical.energy,
        tags: tags.0.0,
        conductivity,
        osc_freq,
        osc_phase,
        valid: true,
    }
}

/// Pushes the three channels of one field at one probe.
fn push_channels(field: &mut Vec<Binary32>, value: Binary32, gradient: Vec2Lite, inverse: Rotation)
    ensures
        final(field)@ == old(field)@.push(value).push(inverse.rotate(gradient).x).push(
            inverse.rotate(gradient).y,
        ),
{
    let local: Vec2Lite = inverse.rotate(gradient);
    field.push(value);
    field.push(local.x);
    field.push(local.y);
}

/// One probe of one field more is three channels more.
proof fn lemma_block_grows(probes: Seq<Probe>, inverse: Rotation, f: int, s: int)
    requires
        0 <= f < 3,
        0 <= s < 4,
    ensures
        field_block(probes, inverse).take(12 * f + 3 * s + 3) == field_block(probes, inverse).take(
            12 * f + 3 * s,
        ).push(probes[s].value(f)).push(inverse.rotate(probes[s].gradient(f)).x).push(
            inverse.rotate(probes[s].gradient(f)).y,
        ),
{
    let k = 12 * f + 3 * s;
    let block = field_block(probes, inverse);
    assert(k / 12 == f && k / 3 % 4 == s && k % 3 == 0);
    assert((k + 1) / 12 == f && (k + 1) / 3 % 4 == s && (k + 1) % 3 == 1);
    assert((k + 2) / 12 == f && (k + 2) / 3 % 4 == s && (k + 2) % 3 == 2);
    assert(block[k] == channel(probes[s], inverse, f, 0));
    assert(block[k + 1] == channel(probes[s], inverse, f, 1));
    assert(block[k + 2] == channel(probes[s], inverse, f, 2));
    assert(block.take(k + 3) =~= block.take(k).push(block[k]).push(block[k + 1]).push(
        block[k + 2],
    ));
}

/// Fills the field block.
fn fill_field(probes: &[Probe; 4], inverse: Rotation) -> (r: Vec<Binary32>)
    ensures
        r@ == field_block(probes@, inverse),
{
    let mut field: Vec<Binary32> = Vec::new();
    let mut f: usize = 0;
    while f < 3
        invariant
            f <= 3,
            field@ == field_block(probes@, inverse).take(12 * f as int),
        decreases 3 - f,
    {
        let mut s: usize = 0;
        while s < 4
            invariant
                f < 3,
                s <= 4,
                field@ == field_block(probes@, inverse).take(12 * f + 3 * s),
            decreases 4 - s,
        {
            let probe: Probe = probes[s];
            let (value, gradient): (Binary32, Vec2Lite) = if f == 0 {
                (probe.sample.kinetic, probe.kinetic_gradient)
            } else if f == 1 {
                (probe.sample.thermal, probe.thermal_gradient)
            } else {
                (probe.sample.em, probe.em_gradient)
            };
            assert(value == probes@[s as int].value(f as int));
            assert(gradient == probes@[s as int].gradient(f as int));
            push_channels(&mut field, value, gradient, inverse);
            proof {
                lemma_block_grows(probes@, inverse, f as int, s as int);
            }
            s += 1;
        }
        f += 1;
    }
    assert(field@ =~= field_block(probes@, inverse));
    field
}

/// Builds what one agent sees: its own state, the fields at four probes, and its
/// neighbors in its own frame, nearest first, padded with ghosts. There is
/// nothing to see for a node without a body or an oscillator.
pub fn build_observation(
    nodes: &Vec<Node>,
    hash: &SpatialHash,
    entity: u64,
    tuning: AgentTuning,
    step: u64,
    probes: &[Probe; 4],
) -> (r: Option<ObservationTensor>)
    requires
        tuning.max_neighbors > 0,
        agent_config(tuning).countable(),
        node_of(nodes@, entity) matches Some(n) ==> reachable(n.position, tuning.sensor_radius),
    ensures
        r is Some <==> (node_of(nodes@, entity) matches Some(n) && observes(n)),
        r matches Some(obs) ==> observed(
            obs,
            nodes@,
            *hash,
            node_of(nodes@, entity)->Some_0,
            tuning,
            step,
            probes@,
        ),
{
    proof {
        crate::components::lemma_place(nodes@, entity);
    }
    let node: Node = match lookup(nodes, entity) {
        Some(n) => n,
        None => {
            return None;
        },
    };
    let (physical, osc): (Physical, Oscillator) = match (node.physical, node.oscillator) {
        (Some(p), Some(o)) => (p, o),
        _ => {
            return None;
        },
    };
    let config: InterfaceConfig = agent_config(tuning);
    let inverse: Rotation = node.rotation.inverse();
    let local: Vec2Lite = inverse.rotate(node.motion());
    let self_state: [Binary32; 8] = [
        local.x,
        local.y,
        physical.mass,
        physical.structure,
        physical.energy,
        osc.freq,
        osc.phase,
        physical.energy.minus(num(REPRODUCTION_THRESHOLD)).max(num(0)),
    ];
    assert(self_state@ =~= self_block(node));
    let field: Vec<Binary32> = fill_field(probes, inverse);
    let mut near: Vec<u64> = Vec::new();
    hash.query_radius(node.position, tuning.sensor_radius, &mut near);
    let mut list: Vec<Sighting> = Vec::new();
    let limit: Binary32 = tuning.sensor_radius.times(tuning.sensor_radius);
    let mut i: usize = 0;
    while i < near.len()
        invariant
            i <= near@.len(),
            node_of(nodes@, entity) == Some(node),
            node.entity == entity,
            limit == tuning.sensor_radius.times(tuning.sensor_radius),
            list@ == sightings(nodes@, node, tuning.sensor_radius, near@, i as nat),
        decreases near@.len() - i,
    {
        let other: u64 = near[i];
        if other != entity {
            match lookup(nodes, other) {
                Some(o) => match (o.physical, o.tags) {
                    (Some(p), Some(t)) => {
                        let distance: Binary32 = o.position.minus(node.position).length_squared();
                        if !limit.lt(distance) {
                            let view: NeighborView = describe(node, o, p, t);
                            place_sighting(&mut list, Sighting { distance, view });
                        }
                    },
                    _ => {},
                },
                None => {},
            }
        }
        i += 1;
    }
    let mut neighbors: Vec<NeighborView> = Vec::new();
    while neighbors.len() < tuning.max_neighbors
        invariant
            neighbors@.len() <= tuning.max_neighbors,
            neighbors@ == padded(list@, neighbors@.len()),
        decreases tuning.max_neighbors - neighbors@.len(),
    {
        let at: usize = neighbors.len();
        let view: NeighborView = if at < list.len() {
            list[at].view
        } else {
            NeighborView::padding()
        };
        neighbors.push(view);
        assert(neighbors@ =~= padded(list@, neighbors@.len()));
    }
    let obs: ObservationTensor = ObservationTensor {
        step,
        entity_id: entity,
        config,
        self_state,
        field,
        neighbors,
    };
    assert(config.field_len_spec() == 36) by (nonlinear_arith)
        requires
            config.field_samples == 4,
            config.field_channels == 3,
    ;
    assert(obs.well_formed());
    Some(obs)
}

/// The absolute position is never shown: an agent's own state does not depend on
/// where it is, and what it sees of a neighbor depends on the difference of their
/// positions alone.
pub proof fn lemma_position_is_not_shown(
    node: Node,
    other: Node,
    pos: Vec2Lite,
    other_pos: Vec2Lite,
)
    requires
        other_pos.minus(pos) == other.position.minus(node.position),
    ensures
        ({
            let moved = Node { position: pos, ..node };
            let seen = Node { position: other_pos, ..other };
            self_block(moved) == self_block(node) && view_of(moved, seen) == view_of(node, other)
        }),
{
}

/// A sighting is put behind everything nearer, so that a list in order stays in
/// order.
proof fn lemma_placed_sorted(list: Seq<Sighting>, s: Sighting)
    requires
        !s.distance.nan(),
        forall|i: int| 0 <= i < list.len() ==> !(#[trigger] list[i]).distance.nan(),
        forall|i: int, j: int|
            0 <= i < j < list.len() ==> (#[trigger] list[i]).distance.le(
                (#[trigger] list[j]).distance,
            ),
    ensures
        placed(list, s).len() == list.len() + 1,
        forall|i: int| 0 <= i < list.len() + 1 ==> !(#[trigger] placed(list, s)[i]).distance.nan(),
        forall|i: int, j: int|
            0 <= i < j < list.len() + 1 ==> (#[trigger] placed(list, s)[i]).distance.le(
                (#[trigger] placed(list, s)[j]).distance,
            ),
        forall|i: int|
            0 <= i < list.len() + 1 && list.len() > 0 && s.distance.lt(list.last().distance) ==> (
            #[trigger] placed(list, s)[i]).distance.le(list.last().distance),
    decreases list.len(),
{
    if list.len() == 0 || !s.distance.lt(list.last().distance) {
        let all = list.push(s);
        assert forall|i: int| 0 <= i < list.len() implies (#[trigger] all[i]).distance.le(
            s.distance,
        ) by {
            if i < list.len() - 1 {
                assert(list[i].distance.le(list[list.len() - 1].distance));
            }
        }
    } else {
        let rest = list.drop_last();
        lemma_placed_sorted(rest, s);
        let head = placed(rest, s);
        assert forall|i: int| 0 <= i < head.len() implies (#[trigger] head[i]).distance.le(
            list.last().distance,
        ) by {
            lemma_placed_bounded(rest, s, list.last().distance, i);
        }
    }
}

/// What bounds a list and a sighting bounds the list with the sighting.
proof fn lemma_placed_bounded(list: Seq<Sighting>, s: Sighting, bound: Binary32, i: int)
    requires
        s.distance.le(bound),
        forall|j: int| 0 <= j < list.len() ==> (#[trigger] list[j]).distance.le(bound),
        0 <= i < placed(list, s).len(),
    ensures
        placed(list, s).len() == list.len() + 1,
        placed(list, s)[i].distance.le(bound),
    decreases list.len(),
{
    if list.len() == 0 || !s.distance.lt(list.last().distance) {
    } else {
        let rest = list.drop_last();
        assert forall|j: int| 0 <= j < rest.len() implies (#[trigger] rest[j]).distance.le(
            bound,
        ) by {
            assert(rest[j] == list[j]);
        }
        lemma_placed_len(rest, s);
        if i < placed(rest, s).len() {
            lemma_placed_bounded(rest, s, bound, i);
        }
    }
}

/// One more makes one more.
proof fn lemma_placed_len(list: Seq<Sighting>, s: Sighting)
    ensures
        placed(list, s).len() == list.len() + 1,
    decreases list.len(),
{
    if list.len() > 0 && s.distance.lt(list.last().distance) {
        lemma_placed_len(list.drop_last(), s);
    }
}

/// Neighbors are reported nearest first, where all distances are numbers.
pub proof fn lemma_neighbors_sorted(
    nodes: Seq<Node>,
    node: Node,
    radius: Binary32,
    near: Seq<u64>,
    n: nat,
    i: int,
    j: int,
)
    requires
        n <= near.len(),
        forall|k: int| 0 <= k < nodes.len() ==> !sight(node, #[trigger] nodes[k]).nan(),
        0 <= i < j < sightings(nodes, node, radius, near, n).len(),
    ensures
        sightings(nodes, node, radius, near, n)[i].distance.le(
            sightings(nodes, node, radius, near, n)[j].distance,
        ),
{
    lemma_sightings_sorted(nodes, node, radius, near, n);
}

/// Sightings are in order at every step.
pub proof fn lemma_sightings_sorted(
    nodes: Seq<Node>,
    node: Node,
    radius: Binary32,
    near: Seq<u64>,
    n: nat,
)
    requires
        n <= near.len(),
        forall|k: int| 0 <= k < nodes.len() ==> !sight(node, #[trigger] nodes[k]).nan(),
    ensures
        ({
            let list = sightings(nodes, node, radius, near, n);
            &&& forall|i: int| 0 <= i < list.len() ==> !(#[trigger] list[i]).distance.nan()
            &&& forall|i: int, j: int|
                0 <= i < j < list.len() ==> (#[trigger] list[i]).distance.le(
                    (#[trigger] list[j]).distance,
                )
        }),
    decreases n,
{
    if n > 0 {
        lemma_sightings_sorted(nodes, node, radius, near, (n - 1) as nat);
        let rest = sightings(nodes, node, radius, near, (n - 1) as nat);
        if visible(nodes, node, radius, near[n - 1]) {
            crate::components::lemma_place(nodes, near[n - 1]);
            let other = node_of(nodes, near[n - 1])->Some_0;
            lemma_placed_sorted(
                rest,
                Sighting { distance: sight(node, other), view: view_of(node, other) },
            );
        }
    }
}

} // verus!
