//! Lineage: births after a sustained surplus, and the record of every agent's
//! outcome for the external evaluator. No reward is computed here.

use crate::agents::lemma_fewer_agents_are_steered;
use crate::agents::lemma_listed_is_registered;
use crate::agents::lemma_one_place;
use crate::agents::lemma_registered_is_listed;
use crate::agents::lemma_same_identities_steer;
use crate::agents::steered;
use crate::agents::Agent;
use crate::agents::WorldAgents;
use crate::binary32::model::grid;
use crate::binary32::model::lemma_grid_order;
use crate::binary32::num;
use crate::binary32::shares::lemma_parts_make_up;
use crate::binary32::shares::parts_make_up;
use crate::binary32::Binary32;
use crate::components::AgentMarker;
use crate::components::AgentTuning;
use crate::components::ClampState;
use crate::components::Conductivity;
use crate::components::EnergyFlow;
use crate::components::EnergyLedger;
use crate::components::FabricateCooldown;
use crate::components::ImpulseAccum;
use crate::components::Node;
use crate::components::NodeRng;
use crate::components::Oscillator;
use crate::components::Physical;
use crate::components::ReproductionState;
use crate::components::Tags;
use crate::components::Yield;
use crate::economy::FIXED_DT;
use crate::fragmentation::MIN_MASS;
use crate::fragmentation::OPEN_CONDUCTIVITY;
use crate::interface::action::MINUS_OSC_LIMIT;
use crate::interface::action::OSC_LIMIT;
use crate::interface::vector::Vec2Lite;
use crate::interface::vector::ONE;
use crate::interface::vector::TWO;
use crate::tags::CustomTags;
use crate::tags::AGENT_MASK;
use vstd::prelude::*;

verus! {

/// Pattern of the reserve that counts as a surplus, 32.
pub const REPRODUCTION_ENERGY_THRESHOLD: u32 = 0x4200_0000;

/// Pattern of how long a surplus must last, 5 seconds.
pub const REPRODUCTION_SURPLUS_SECONDS: u32 = 0x40a0_0000;

/// Pattern of the energy given to a child, 12.
pub const REPRODUCTION_ENERGY_COST: u32 = 0x4140_0000;

/// Pattern of the mass given to a child, 1.5.
pub const REPRODUCTION_MASS_COST: u32 = 0x3fc0_0000;

/// Pattern of the mass that a parent needs, 2.
pub const PARENT_MASS: u32 = 0x4000_0000;

/// Pattern of the rest after a birth, 20 seconds.
pub const REPRODUCTION_COOLDOWN_SECONDS: u32 = 0x41a0_0000;

/// Patterns of the band of sensor radii, 4 to 32.
pub const SENSOR_FLOOR: u32 = 0x4080_0000;

pub const SENSOR_CEILING: u32 = 0x4200_0000;

/// What chance decides of a child.
#[derive(Clone, Copy, Debug, Default, PartialEq, Eq, Structural)]
pub struct BirthDraw {
    /// Factor of the sensor radius, within five percent of one.
    pub sensor: Binary32,
    /// Factor of the yield threshold, within five percent of one.
    pub yield_threshold: Binary32,
    /// Shift of the oscillator, within 0.15 of zero.
    pub oscillator: Binary32,
    /// Cosine and sine of the angle at which the child is put.
    pub direction: Vec2Lite,
}

pub open spec fn child_seed_spec(rng: NodeRng, step: u64) -> u64 {
    rng.0 ^ step.wrapping_mul(0x9E37_79B9_7F4A_7C15)
}

/// The seed of the child that an agent would have at this step.
#[verifier::when_used_as_spec(child_seed_spec)]
pub fn child_seed(rng: NodeRng, step: u64) -> (r: u64)
    ensures
        r == child_seed_spec(rng, step),
{
    rng.0 ^ step.wrapping_mul(0x9E37_79B9_7F4A_7C15)
}

/// The seed that a parent goes on with.
pub open spec fn turned(seed: u64) -> u64 {
    (seed << 17) | (seed >> 47)
}

/// Can the node have children at all?
pub open spec fn fertile(node: Node) -> bool {
    &&& node.physical is Some
    &&& node.body_mass is Some
    &&& node.marker is Some
    &&& node.tuning is Some
    &&& node.reproduction is Some
    &&& node.node_rng is Some
    &&& node.ledger is Some
}

/// The rest that is left after this step.
pub open spec fn rest_left(state: ReproductionState) -> Binary32 {
    state.cooldown_seconds.minus(num(FIXED_DT)).max(num(0))
}

/// Does the agent have a surplus in this step?
pub open spec fn eligible(node: Node) -> bool {
    let p = node.physical->Some_0;
    &&& num(REPRODUCTION_ENERGY_THRESHOLD).le(p.energy)
    &&& num(PARENT_MASS).le(p.mass)
    &&& rest_left(node.reproduction->Some_0).le(num(0))
}

/// How long the surplus has lasted, this step included.
pub open spec fn surplus(node: Node) -> Binary32 {
    if eligible(node) {
        node.reproduction->Some_0.surplus_seconds.plus(num(FIXED_DT))
    } else {
        num(0)
    }
}

/// Is a birth due in this step?
pub open spec fn due_spec(node: Node) -> bool {
    fertile(node) && eligible(node) && !surplus(node).lt(num(REPRODUCTION_SURPLUS_SECONDS))
}

/// Is a birth due in this step?
#[verifier::when_used_as_spec(due_spec)]
pub fn due(node: Node) -> (r: bool)
    ensures
        r == due_spec(node),
{
    match (node.physical, node.reproduction) {
        (Some(p), Some(s)) => {
            let rest: Binary32 = s.cooldown_seconds.minus(num(FIXED_DT)).max(num(0));
            node.body_mass.is_some() && node.marker.is_some() && node.tuning.is_some()
                && node.node_rng.is_some() && node.ledger.is_some() && num(
                REPRODUCTION_ENERGY_THRESHOLD,
            ).le(p.energy) && num(PARENT_MASS).le(p.mass) && rest.le(num(0))
                && !s.surplus_seconds.plus(num(FIXED_DT)).lt(num(REPRODUCTION_SURPLUS_SECONDS))
        },
        _ => false,
    }
}

/// A neighbor count within its band, 1 to 64.
pub open spec fn banded(n: usize) -> usize {
    if n < 1 {
        1
    } else if n > 64 {
        64
    } else {
        n
    }
}

/// The mutated tuning of a child.
pub open spec fn child_tuning_spec(tuning: AgentTuning, draw: BirthDraw) -> AgentTuning {
    AgentTuning {
        sensor_radius: tuning.sensor_radius.times(draw.sensor).clamp(
            num(SENSOR_FLOOR),
            num(SENSOR_CEILING),
        ),
        max_neighbors: banded(tuning.max_neighbors),
        yield_threshold: tuning.yield_threshold.times(draw.yield_threshold).max(num(ONE)),
        osc_baseline: tuning.osc_baseline.plus(draw.oscillator).clamp(
            num(MINUS_OSC_LIMIT),
            num(OSC_LIMIT),
        ),
    }
}

/// The bands of a tuning are in order.
proof fn lemma_tuning_bands()
    ensures
        num(SENSOR_FLOOR).le(num(SENSOR_CEILING)),
        num(MINUS_OSC_LIMIT).le(num(OSC_LIMIT)),
{
    lemma_grid_order(SENSOR_FLOOR as nat, SENSOR_CEILING as nat);
    lemma_grid_order(0, OSC_LIMIT as nat);
    assert(grid(0) == 0);
}

/// The mutated tuning of a child.
#[verifier::when_used_as_spec(child_tuning_spec)]
pub fn child_tuning(tuning: AgentTuning, draw: BirthDraw) -> (r: AgentTuning)
    ensures
        r == child_tuning_spec(tuning, draw),
{
    proof {
        lemma_tuning_bands();
    }
    AgentTuning {
        sensor_radius: tuning.sensor_radius.times(draw.sensor).clamp(
            num(SENSOR_FLOOR),
            num(SENSOR_CEILING),
        ),
        max_neighbors: if tuning.max_neighbors < 1 {
            1
        } else if tuning.max_neighbors > 64 {
            64
        } else {
            tuning.max_neighbors
        },
        yield_threshold: tuning.yield_threshold.times(draw.yield_threshold).max(num(ONE)),
        osc_baseline: tuning.osc_baseline.plus(draw.oscillator).clamp(
            num(MINUS_OSC_LIMIT),
            num(OSC_LIMIT),
        ),
    }
}

/// A step as the evaluator counts it.
pub open spec fn short_step_spec(step: u64) -> u32 {
    if step > u32::MAX {
        u32::MAX
    } else {
        step as u32
    }
}

/// A step as the evaluator counts it.
#[verifier::when_used_as_spec(short_step_spec)]
pub fn short_step(step: u64) -> (r: u32)
    ensures
        r == short_step_spec(step),
{
    if step > u32::MAX as u64 {
        u32::MAX
    } else {
        step as u32
    }
}

/// One generation more, as far as a counter goes.
pub open spec fn next_generation(generation: u32) -> u32 {
    if generation == u32::MAX {
        u32::MAX
    } else {
        (generation + 1) as u32
    }
}

/// The child of an agent. Its number is given by the engine.
pub open spec fn child(node: Node, step: u64, controller: u64, draw: BirthDraw) -> Node {
    let marker = node.marker->Some_0;
    let tuning = child_tuning(node.tuning->Some_0, draw);
    Node {
        body_mass: Some(num(REPRODUCTION_MASS_COST)),
        physical: Some(
            Physical {
                mass: num(REPRODUCTION_MASS_COST),
                structure: tuning.yield_threshold,
                energy: num(REPRODUCTION_ENERGY_COST),
            },
        ),
        yield_thresh: Some(Yield(tuning.yield_threshold)),
        conductivity: Some(Conductivity(num(OPEN_CONDUCTIVITY))),
        tags: Some(Tags(CustomTags::from_bits(AGENT_MASK))),
        oscillator: Some(
            Oscillator {
                freq: tuning.osc_baseline,
                phase: num(0),
                baseline_freq: tuning.osc_baseline,
            },
        ),
        impulse: Some(ImpulseAccum { value: num(0), source: None }),
        ledger: Some(EnergyLedger::opened(short_step(step))),
        marker: Some(
            AgentMarker {
                generation: next_generation(marker.generation),
                lineage: marker.lineage,
                controller,
            },
        ),
        tuning: Some(tuning),
        clamp: Some(ClampState { target: None, joint: None, cooldown: num(0) }),
        fabricate: Some(FabricateCooldown { remaining: num(0) }),
        reproduction: Some(
            ReproductionState { surplus_seconds: num(0), cooldown_seconds: num(0) },
        ),
        node_rng: Some(NodeRng(child_seed(node.node_rng->Some_0, step))),
        ..Node::bare(0, node.position.plus(draw.direction.scaled(num(TWO))))
    }
}

/// The parent after a birth: the child's mass and energy are its own no more.
pub open spec fn parent(node: Node, step: u64) -> Node {
    let p = node.physical->Some_0;
    let b = node.ledger->Some_0.debited_exact(
        p,
        EnergyFlow::Offspring,
        num(REPRODUCTION_ENERGY_COST),
    );
    let mass = p.mass.minus(num(REPRODUCTION_MASS_COST));
    Node {
        physical: Some(Physical { mass, ..b.physical }),
        ledger: Some(b.ledger),
        body_mass: Some(mass.max(num(MIN_MASS))),
        reproduction: Some(
            ReproductionState {
                surplus_seconds: num(0),
                cooldown_seconds: num(REPRODUCTION_COOLDOWN_SECONDS),
            },
        ),
        node_rng: Some(NodeRng(turned(child_seed(node.node_rng->Some_0, step)))),
        ..node
    }
}

/// The agent after one step, and its child if there is one. `controller` is the
/// child's, if the parent's controller made one.
pub open spec fn reproduced(
    node: Node,
    step: u64,
    controller: Option<u64>,
    draw: BirthDraw,
) -> (Node, Option<Node>) {
    if !fertile(node) {
        (node, None)
    } else if !due(node) {
        (
            Node {
                reproduction: Some(
                    ReproductionState {
                        surplus_seconds: surplus(node),
                        cooldown_seconds: rest_left(node.reproduction->Some_0),
                    },
                ),
                ..node
            },
            None,
        )
    } else {
        match controller {
            None => (
                Node {
                    reproduction: Some(
                        ReproductionState {
                            surplus_seconds: num(0),
                            cooldown_seconds: num(REPRODUCTION_COOLDOWN_SECONDS),
                        },
                    ),
                    ..node
                },
                None,
            ),
            Some(c) => (parent(node, step), Some(child(node, step, c, draw))),
        }
    }
}

/// An agent with a surplus can fund a child.
proof fn lemma_surplus_funds(p: Physical)
    requires
        num(REPRODUCTION_ENERGY_THRESHOLD).le(p.energy),
    ensures
        EnergyLedger::funds(p, EnergyFlow::Offspring, num(REPRODUCTION_ENERGY_COST)),
{
    assert(grid(0) == 0);
    lemma_grid_order(0, REPRODUCTION_ENERGY_COST as nat);
    lemma_grid_order(REPRODUCTION_ENERGY_COST as nat, REPRODUCTION_ENERGY_THRESHOLD as nat);
}

/// Lets one agent reproduce, given the child's controller.
pub fn reproduce_one(node: &mut Node, step: u64, controller: Option<u64>, draw: BirthDraw) -> (r:
    Option<Node>)
    ensures
        (*final(node), r) == reproduced(*old(node), step, controller, draw),
{
    let (p, m, marker, tuning, s, rng, l): (
        Physical,
        Binary32,
        AgentMarker,
        AgentTuning,
        ReproductionState,
        NodeRng,
        EnergyLedger,
    ) = match (
        node.physical,
        node.body_mass,
        node.marker,
        node.tuning,
        node.reproduction,
        node.node_rng,
        node.ledger,
    ) {
        (Some(p), Some(m), Some(a), Some(t), Some(s), Some(r), Some(l)) => (p, m, a, t, s, r, l),
        _ => {
            return None;
        },
    };
    let birth: bool = due(*node);
    let mut state: ReproductionState = s;
    state.cooldown_seconds = state.cooldown_seconds.minus(num(FIXED_DT)).max(num(0));
    let ready: bool = num(REPRODUCTION_ENERGY_THRESHOLD).le(p.energy) && num(PARENT_MASS).le(p.mass)
        && state.cooldown_seconds.le(num(0));
    if !ready {
        state.surplus_seconds = num(0);
        node.reproduction = Some(state);
        return None;
    }
    state.surplus_seconds = state.surplus_seconds.plus(num(FIXED_DT));
    if state.surplus_seconds.lt(num(REPRODUCTION_SURPLUS_SECONDS)) {
        node.reproduction = Some(state);
        return None;
    }
    state.surplus_seconds = num(0);
    state.cooldown_seconds = num(REPRODUCTION_COOLDOWN_SECONDS);
    let c: u64 = match controller {
        Some(c) => c,
        None => {
            node.reproduction = Some(state);
            return None;
        },
    };
    let seed: u64 = child_seed(rng, step);
    let inherited: AgentTuning = child_tuning(tuning, draw);
    let mut physical: Physical = p;
    let mut ledger: EnergyLedger = l;
    proof {
        lemma_surplus_funds(p);
    }
    let funded: bool = ledger.debit_exact(
        &mut physical,
        EnergyFlow::Offspring,
        num(REPRODUCTION_ENERGY_COST),
    );
    assert(funded);
    physical.mass = physical.mass.minus(num(REPRODUCTION_MASS_COST));
    let position: Vec2Lite = node.position.plus(draw.direction.scaled(num(TWO)));
    node.body_mass = Some(physical.mass.max(num(MIN_MASS)));
    node.physical = Some(physical);
    node.ledger = Some(ledger);
    node.reproduction = Some(state);
    node.node_rng = Some(NodeRng((seed << 17) | (seed >> 47)));
    let mut young: Node = Node::bare(0, position);
    young.body_mass = Some(num(REPRODUCTION_MASS_COST));
    young.physical = Some(
        Physical {
            mass: num(REPRODUCTION_MASS_COST),
            structure: inherited.yield_threshold,
            energy: num(REPRODUCTION_ENERGY_COST),
        },
    );
    young.yield_thresh = Some(Yield(inherited.yield_threshold));
    young.conductivity = Some(Conductivity(num(OPEN_CONDUCTIVITY)));
    young.tags = Some(Tags(CustomTags::from_bits(AGENT_MASK)));
    young.oscillator = Some(
        Oscillator {
            freq: inherited.osc_baseline,
            phase: num(0),
            baseline_freq: inherited.osc_baseline,
        },
    );
    young.impulse = Some(ImpulseAccum { value: num(0), source: None });
    young.ledger = Some(EnergyLedger::opened(short_step(step)));
    young.marker = Some(
        AgentMarker {
            generation: marker.generation.saturating_add(1),
            lineage: marker.lineage,
            controller: c,
        },
    );
    young.tuning = Some(inherited);
    young.clamp = Some(ClampState { target: None, joint: None, cooldown: num(0) });
    young.fabricate = Some(FabricateCooldown { remaining: num(0) });
    young.reproduction = Some(
        ReproductionState { surplus_seconds: num(0), cooldown_seconds: num(0) },
    );
    young.node_rng = Some(NodeRng(seed));
    Some(young)
}

/// The births of one step.
#[derive(Debug)]
pub struct Births {
    /// The children, in the order of their parents.
    pub children: Vec<Node>,
    /// For each node the controller of its child, if one was made.
    pub controllers: Vec<Option<u64>>,
}

/// The children of the first `n` nodes.
pub open spec fn children_of(
    nodes: Seq<Node>,
    step: u64,
    controllers: Seq<Option<u64>>,
    draws: Seq<BirthDraw>,
    n: nat,
) -> Seq<Node>
    decreases n,
{
    if n == 0 {
        Seq::empty()
    } else {
        let rest = children_of(nodes, step, controllers, draws, (n - 1) as nat);
        match reproduced(nodes[n - 1], step, controllers[n - 1], draws[n - 1]).1 {
            Some(c) => rest.push(c),
            None => rest,
        }
    }
}

/// How many of the first `n` answers are there.
pub open spec fn answered(controllers: Seq<Option<u64>>, n: nat) -> nat
    decreases n,
{
    if n == 0 {
        0
    } else {
        answered(controllers, (n - 1) as nat) + if controllers[n - 1] is Some {
            1nat
        } else {
            0
        }
    }
}

/// The controllers of before, in their places, and behind them `n` new ones with
/// the next identities.
pub open spec fn joined_by<A>(
    after: Seq<(u64, A)>,
    before: Seq<(u64, A)>,
    first: int,
    n: nat,
) -> bool {
    &&& after.len() == before.len() + n
    &&& forall|k: int|
        0 <= k < after.len() ==> (#[trigger] after[k]).0 == if k < before.len() {
            before[k].0 as int
        } else {
            first + k - before.len()
        }
}

/// An agent whose controller was registered once, and is not any more.
pub open spec fn orphaned<A>(controllers: Seq<(u64, A)>, next_id: u64, node: Node) -> bool {
    node.marker matches Some(m) && m.controller < next_id && forall|k: int|
        0 <= k < controllers.len() ==> (#[trigger] controllers[k]).0 != m.controller
}

/// The agent has a registered controller that no other agent has.
pub open spec fn sole<A>(nodes: Seq<Node>, agents: WorldAgents<A>, i: int) -> bool {
    &&& nodes[i].marker matches Some(m) && agents.place(m.controller) is Some
    &&& forall|j: int|
        0 <= j < nodes.len() && j != i ==> ((#[trigger] nodes[j]).marker matches Some(m)
            ==> m.controller != nodes[i].marker->Some_0.controller)
}

/// No agent names a controller that was not given out yet.
pub open spec fn foreseen(nodes: Seq<Node>, next_id: u64) -> bool {
    forall|j: int|
        0 <= j < nodes.len() ==> ((#[trigger] nodes[j]).marker matches Some(m) ==> m.controller
            < next_id)
}

/// Where every agent has a controller of its own, each is the only one to have
/// it, and none names one that was not given out.
pub proof fn lemma_steered_is_sole<A>(nodes: Seq<Node>, agents: WorldAgents<A>, i: int)
    requires
        agents.well_formed(),
        steered(nodes, agents),
        0 <= i < nodes.len(),
        nodes[i].marker is Some,
    ensures
        sole(nodes, agents, i),
        foreseen(nodes, agents.next_id),
{
    assert forall|j: int| 0 <= j < nodes.len() && j != i implies ((
    #[trigger] nodes[j]).marker matches Some(m) ==> m.controller
        != nodes[i].marker->Some_0.controller) by {
        if j < i {
            assert(nodes[j].marker is Some ==> nodes[i].marker is Some);
        }
    }
    assert forall|j: int| 0 <= j < nodes.len() implies ((#[trigger] nodes[j]).marker matches Some(m)
        ==> m.controller < agents.next_id) by {
        if nodes[j].marker is Some {
            lemma_registered_is_listed(agents, nodes[j].marker->Some_0.controller);
        }
    }
}

/// Asking one agent's controller changes no controller that another agent has
/// alone, and no child's that nobody can name.
proof fn lemma_others_stay<A>(
    nodes: Seq<Node>,
    first: WorldAgents<A>,
    before: WorldAgents<A>,
    after: WorldAgents<A>,
    i: int,
)
    requires
        first.well_formed(),
        before.well_formed(),
        0 <= i < nodes.len(),
        first.controllers@.len() <= before.controllers@.len() <= after.controllers@.len(),
        forall|k: int|
            0 <= k < first.controllers@.len() ==> (#[trigger] before.controllers@[k]).0
                == first.controllers@[k].0,
        forall|k: int|
            first.controllers@.len() <= k < before.controllers@.len() ==> (
            #[trigger] before.controllers@[k]).0 >= first.next_id,
        forall|k: int|
            0 <= k < before.controllers@.len() && (nodes[i].marker is None
                || before.controllers@[k].0 != nodes[i].marker->Some_0.controller)
                ==> #[trigger] after.controllers@[k] == before.controllers@[k],
    ensures
        forall|j: int|
            0 <= j < nodes.len() && j != i && #[trigger] sole(nodes, first, j) ==> {
                let p = first.place(nodes[j].marker->Some_0.controller)->Some_0;
                before.controllers@[p] == after.controllers@[p]
            },
        foreseen(nodes, first.next_id) ==> forall|k: int|
            first.controllers@.len() <= k < before.controllers@.len()
                ==> #[trigger] after.controllers@[k] == before.controllers@[k],
{
    assert forall|j: int| 0 <= j < nodes.len() && j != i && #[trigger] sole(nodes, first, j) implies {
        let p = first.place(nodes[j].marker->Some_0.controller)->Some_0;
        before.controllers@[p] == after.controllers@[p]
    } by {
        let id = nodes[j].marker->Some_0.controller;
        lemma_registered_is_listed(first, id);
        let p = first.place(id)->Some_0;
        assert(before.controllers@[p].0 == id);
        assert(nodes[i].marker matches Some(m) ==> m.controller != id);
        assert(after.controllers@[p] == before.controllers@[p]);
    }
    if foreseen(nodes, first.next_id) {
        assert forall|k: int|
            first.controllers@.len() <= k < before.controllers@.len() implies #[trigger] after.controllers@[k]
            == before.controllers@[k] by {
            assert(before.controllers@[k].0 >= first.next_id);
            assert(nodes[i].marker matches Some(m) ==> m.controller < first.next_id);
        }
    }
}

/// None of the first `n` agents that are due for a child has this controller.
pub open spec fn unasked(nodes: Seq<Node>, n: nat, id: u64) -> bool {
    forall|i: int|
        0 <= i < n && #[trigger] due(nodes[i]) ==> nodes[i].marker->Some_0.controller != id
}

/// Where the controller stands that is asked for the node's child: nowhere, if
/// the node is not due for one or its controller is not there.
pub open spec fn called<A>(node: Node, controllers: Seq<(u64, A)>) -> Option<int> {
    let id = node.marker->Some_0.controller;
    if due(node) && exists|k: int|
        0 <= k < controllers.len() && (#[trigger] controllers[k]).0 == id {
        Some(choose|k: int| 0 <= k < controllers.len() && (#[trigger] controllers[k]).0 == id)
    } else {
        None
    }
}

/// The controllers before each of `n` nodes had its turn, and after the last.
pub open spec fn traced<A>(
    states: Seq<Seq<(u64, A)>>,
    first: Seq<(u64, A)>,
    last: Seq<(u64, A)>,
    n: nat,
) -> bool {
    states.len() == n + 1 && states[0] == first && states[n as int] == last
}

/// Asks one agent's controller for a child, if the agent is due for one.
fn ask_for_child<A: Agent>(node: Node, controllers: &mut WorldAgents<A>, step: u64) -> (r: Option<
    u64,
>)
    requires
        old(controllers).well_formed(),
        old(controllers).next_id < u64::MAX,
    ensures
        final(controllers).well_formed(),
        match r {
            Some(id) => due(node) && id == old(controllers).next_id && final(controllers).next_id
                == old(controllers).next_id + 1,
            None => final(controllers).next_id == old(controllers).next_id,
        },
        match called(node, old(controllers).controllers@) {
            None => r is None && final(controllers).controllers@ == old(controllers).controllers@,
            Some(p) => {
                let seed = child_seed(node.node_rng->Some_0, step);
                let id = old(controllers).controllers@[p].0;
                exists|asked: &mut A, child: Option<A>| #[trigger]
                    call_ensures(A::spawn_child, (asked, seed), child)
                        && *asked == old(controllers).controllers@[p].1 && match (child, r) {
                        (Some(c), Some(new_id)) => exists|new: &mut A| #[trigger]
                            call_ensures(A::on_reset, (new, seed), ()) && *new == c
                                && final(controllers).controllers@
                                == old(controllers).controllers@.update(
                                p,
                                (id, *final(asked)),
                            ).push((new_id, *final(new))),
                        (None, None) => final(controllers).controllers@
                            == old(controllers).controllers@.update(p, (id, *final(asked))),
                        _ => false,
                    }
            },
        },
{
    match (node.marker, node.node_rng) {
        (Some(m), Some(r)) => {
            if due(node) {
                let ghost held = *controllers;
                let made: Option<u64> = controllers.spawn_child(m.controller, child_seed(r, step));
                proof {
                    lemma_called(node, held);
                    match held.place(m.controller) {
                        Some(p) => {
                            let a = controllers.controllers@;
                            match made {
                                Some(new_id) => {
                                    assert(a =~= held.controllers@.update(p, a[p]).push(
                                        a[held.controllers@.len() as int],
                                    ));
                                },
                                None => {
                                    assert(a =~= held.controllers@.update(p, a[p]));
                                },
                            }
                        },
                        None => {},
                    }
                }
                made
            } else {
                None
            }
        },
        _ => None,
    }
}

/// The controller that is called is the registered one.
proof fn lemma_called<A>(node: Node, agents: WorldAgents<A>)
    requires
        agents.well_formed(),
        due(node),
    ensures
        called(node, agents.controllers@) == agents.place(node.marker->Some_0.controller),
        called(node, agents.controllers@) matches Some(p) ==> 0 <= p < agents.controllers@.len()
            && agents.controllers@[p].0 == node.marker->Some_0.controller,
{
    match called(node, agents.controllers@) {
        Some(p) => {
            lemma_one_place(agents, p);
        },
        None => {},
    }
}

/// Asks the controllers of the agents that are due for a child, with the child's
/// seed. Each child's controller gets the next free identity.
fn ask_for_children<A: Agent>(
    nodes: &Vec<Node>,
    controllers: &mut WorldAgents<A>,
    step: u64,
) -> (r: Vec<Option<u64>>)
    requires
        old(controllers).well_formed(),
        old(controllers).next_id + nodes@.len() <= u64::MAX,
    ensures
        final(controllers).well_formed(),
        r@.len() == nodes@.len(),
        final(controllers).next_id == old(controllers).next_id + answered(r@, nodes@.len()),
        joined_by(
            final(controllers).controllers@,
            old(controllers).controllers@,
            old(controllers).next_id as int,
            answered(r@, nodes@.len()),
        ),
        forall|i: int|
            0 <= i < nodes@.len() && orphaned(
                old(controllers).controllers@,
                old(controllers).next_id,
                #[trigger] nodes@[i],
            ) ==> r@[i] is None,
        forall|i: int|
            0 <= i < nodes@.len() ==> match #[trigger] r@[i] {
                Some(id) => due(nodes@[i]) && id == old(controllers).next_id + answered(
                    r@,
                    i as nat,
                ),
                None => true,
            },
        forall|i: int|
            0 <= i < nodes@.len() && #[trigger] due(nodes@[i]) && sole(
                nodes@,
                *old(controllers),
                i,
            ) ==> {
                let seed = child_seed(nodes@[i].node_rng->Some_0, step);
                let n = old(controllers).controllers@.len() as int;
                let p = old(controllers).place(nodes@[i].marker->Some_0.controller)->Some_0;
                exists|asked: &mut A, child: Option<A>| #[trigger]
                    call_ensures(A::spawn_child, (asked, seed), child)
                        && *asked == old(controllers).controllers@[p].1
                        && *final(asked) == final(controllers).controllers@[p].1
                        && match (child, r@[i]) {
                        (Some(c), Some(_)) => exists|new: &mut A| #[trigger]
                            call_ensures(A::on_reset, (new, seed), ()) && *new == c && (foreseen(
                                nodes@,
                                old(controllers).next_id,
                            ) ==> *final(new) == final(controllers).controllers@[n + answered(
                                r@,
                                i as nat,
                            )].1),
                        (None, None) => true,
                        _ => false,
                    }
            },
        forall|k: int|
            0 <= k < old(controllers).controllers@.len() && unasked(
                nodes@,
                nodes@.len(),
                old(controllers).controllers@[k].0,
            ) ==> #[trigger] final(controllers).controllers@[k] == old(controllers).controllers@[k],
        exists|states: Seq<Seq<(u64, A)>>| #[trigger]
            traced(
                states,
                old(controllers).controllers@,
                final(controllers).controllers@,
                nodes@.len(),
            )
                && forall|i: int|
                    0 <= i < nodes@.len() ==> match #[trigger] called(nodes@[i], states[i]) {
                        None => r@[i] is None && states[i + 1] == states[i],
                        Some(p) => {
                            let seed = child_seed(nodes@[i].node_rng->Some_0, step);
                            let id = states[i][p].0;
                            exists|asked: &mut A, child: Option<A>| #[trigger]
                                call_ensures(A::spawn_child, (asked, seed), child)
                                    && *asked == states[i][p].1 && match (child, r@[i]) {
                                    (Some(c), Some(new_id)) => exists|new: &mut A| #[trigger]
                                        call_ensures(A::on_reset, (new, seed), ()) && *new == c
                                            && states[i + 1] == states[i].update(
                                            p,
                                            (id, *final(asked)),
                                        ).push((new_id, *final(new))),
                                    (None, None) => states[i + 1] == states[i].update(
                                        p,
                                        (id, *final(asked)),
                                    ),
                                    _ => false,
                                }
                        },
                    },
{
    let ghost first = controllers.next_id as int;
    let ghost mut states = seq![controllers.controllers@];
    let mut made: Vec<Option<u64>> = Vec::new();
    let mut i: usize = 0;
    while i < nodes.len()
        invariant
            i <= nodes@.len(),
            made@.len() == i,
            old(controllers).well_formed(),
            controllers.well_formed(),
            first + nodes@.len() <= u64::MAX,
            first == old(controllers).next_id,
            controllers.next_id == first + answered(made@, i as nat),
            answered(made@, i as nat) <= i,
            joined_by(
                controllers.controllers@,
                old(controllers).controllers@,
                first,
                answered(made@, i as nat),
            ),
            forall|j: int|
                0 <= j < i && orphaned(
                    old(controllers).controllers@,
                    old(controllers).next_id,
                    #[trigger] nodes@[j],
                ) ==> made@[j] is None,
            forall|j: int|
                0 <= j < i ==> match #[trigger] made@[j] {
                    Some(id) => due(nodes@[j]) && id == first + answered(made@, j as nat),
                    None => true,
                },
            forall|j: int|
                i <= j < nodes@.len() && #[trigger] sole(nodes@, *old(controllers), j) ==> {
                    let p = old(controllers).place(nodes@[j].marker->Some_0.controller)->Some_0;
                    controllers.controllers@[p] == old(controllers).controllers@[p]
                },
            forall|j: int|
                0 <= j < i && #[trigger] due(nodes@[j]) && sole(
                    nodes@,
                    *old(controllers),
                    j,
                ) ==> {
                    let seed = child_seed(nodes@[j].node_rng->Some_0, step);
                    let n = old(controllers).controllers@.len() as int;
                    let p = old(controllers).place(nodes@[j].marker->Some_0.controller)->Some_0;
                    exists|asked: &mut A, child: Option<A>| #[trigger]
                        call_ensures(A::spawn_child, (asked, seed), child)
                            && *asked == old(controllers).controllers@[p].1
                            && *final(asked) == controllers.controllers@[p].1
                            && match (child, made@[j]) {
                            (Some(c), Some(_)) => exists|new: &mut A| #[trigger]
                                call_ensures(A::on_reset, (new, seed), ()) && *new == c && (foreseen(
                                    nodes@,
                                    old(controllers).next_id,
                                ) ==> *final(new) == controllers.controllers@[n + answered(
                                    made@,
                                    j as nat,
                                )].1),
                            (None, None) => true,
                            _ => false,
                        }
                },
            forall|k: int|
                0 <= k < old(controllers).controllers@.len() && unasked(
                    nodes@,
                    i as nat,
                    old(controllers).controllers@[k].0,
                ) ==> #[trigger] controllers.controllers@[k] == old(controllers).controllers@[k],
            traced(states, old(controllers).controllers@, controllers.controllers@, i as nat),
            forall|j: int|
                0 <= j < i ==> match #[trigger] called(nodes@[j], states[j]) {
                    None => made@[j] is None && states[j + 1] == states[j],
                    Some(p) => {
                        let seed = child_seed(nodes@[j].node_rng->Some_0, step);
                        let id = states[j][p].0;
                        exists|asked: &mut A, child: Option<A>| #[trigger]
                            call_ensures(A::spawn_child, (asked, seed), child)
                                && *asked == states[j][p].1 && match (child, made@[j]) {
                                (Some(c), Some(new_id)) => exists|new: &mut A| #[trigger]
                                    call_ensures(A::on_reset, (new, seed), ()) && *new == c
                                        && states[j + 1] == states[j].update(
                                        p,
                                        (id, *final(asked)),
                                    ).push((new_id, *final(new))),
                                (None, None) => states[j + 1] == states[j].update(
                                    p,
                                    (id, *final(asked)),
                                ),
                                _ => false,
                            }
                    },
                },
        decreases nodes@.len() - i,
    {
        let node: Node = nodes[i];
        let ghost before = made@;
        let ghost held = *controllers;
        let ghost trail = states;
        let controller: Option<u64> = ask_for_child(node, controllers, step);
        proof {
            states = states.push(controllers.controllers@);
        }
        made.push(controller);
        proof {
            lemma_answered_prefix(before, made@, i as nat);
            assert forall|j: int| 0 <= j < i implies #[trigger] called(nodes@[j], states[j])
                == called(nodes@[j], trail[j]) && states[j] == trail[j] && states[j + 1] == trail[j
                + 1] && made@[j] == before[j] by {}
            assert forall|j: int| 0 <= j < i + 1 implies match #[trigger] made@[j] {
                Some(id) => due(nodes@[j]) && id == first + answered(made@, j as nat),
                None => true,
            } by {
                if j < i {
                    assert(made@[j] == before[j]);
                    lemma_answered_prefix(before, made@, j as nat);
                }
            }
            lemma_others_stay(nodes@, *old(controllers), held, *controllers, i as int);
            let n = old(controllers).controllers@.len() as int;
            if due(node) && sole(nodes@, *old(controllers), i as int) {
                let id = node.marker->Some_0.controller;
                lemma_registered_is_listed(*old(controllers), id);
                let p = old(controllers).place(id)->Some_0;
                assert(held.controllers@[p].0 == id);
                lemma_one_place(held, p);
                assert(held.controllers@[p] == old(controllers).controllers@[p]);
            }
            assert forall|j: int|
                0 <= j < i && #[trigger] due(nodes@[j]) && sole(
                    nodes@,
                    *old(controllers),
                    j,
                ) implies {
                let p = old(controllers).place(nodes@[j].marker->Some_0.controller)->Some_0;
                let q = n + answered(before, j as nat);
                &&& held.controllers@[p] == controllers.controllers@[p]
                &&& made@[j] is Some && foreseen(nodes@, old(controllers).next_id)
                    ==> held.controllers@[q] == controllers.controllers@[q]
                &&& answered(before, j as nat) == answered(made@, j as nat)
                &&& made@[j] == before[j]
            } by {
                lemma_answered_prefix(before, made@, j as nat);
                lemma_answered_grows(before, j + 1, i as nat);
            }
        }
        i += 1;
    }
    made
}

/// Lets every agent reproduce whose surplus lasted. Controllers are asked only
/// for births that are due, one after the other and with the child's seed; each
/// child's controller gets the next free identity, and every other controller
/// stays as it was. `draws` holds what chance decides, for each node.
pub fn reproduce_agents<A: Agent>(
    nodes: &mut Vec<Node>,
    controllers: &mut WorldAgents<A>,
    step: u64,
    draws: &[BirthDraw],
) -> (r: Births)
    requires
        old(controllers).well_formed(),
        old(controllers).next_id + old(nodes)@.len() <= u64::MAX,
        draws@.len() == old(nodes)@.len(),
    ensures
        final(controllers).well_formed(),
        r.controllers@.len() == old(nodes)@.len(),
        final(controllers).next_id == old(controllers).next_id + answered(
            r.controllers@,
            old(nodes)@.len(),
        ),
        joined_by(
            final(controllers).controllers@,
            old(controllers).controllers@,
            old(controllers).next_id as int,
            answered(r.controllers@, old(nodes)@.len()),
        ),
        forall|i: int|
            0 <= i < old(nodes)@.len() && orphaned(
                old(controllers).controllers@,
                old(controllers).next_id,
                #[trigger] old(nodes)@[i],
            ) ==> r.controllers@[i] is None,
        forall|i: int|
            0 <= i < old(nodes)@.len() ==> match #[trigger] r.controllers@[i] {
                Some(id) => due(old(nodes)@[i]) && id == old(controllers).next_id + answered(
                    r.controllers@,
                    i as nat,
                ),
                None => true,
            },
        forall|i: int|
            0 <= i < old(nodes)@.len() && #[trigger] due(old(nodes)@[i]) && sole(
                old(nodes)@,
                *old(controllers),
                i,
            ) ==> {
                let seed = child_seed(old(nodes)@[i].node_rng->Some_0, step);
                let n = old(controllers).controllers@.len() as int;
                let p = old(controllers).place(old(nodes)@[i].marker->Some_0.controller)->Some_0;
                exists|asked: &mut A, child: Option<A>| #[trigger]
                    call_ensures(A::spawn_child, (asked, seed), child)
                        && *asked == old(controllers).controllers@[p].1
                        && *final(asked) == final(controllers).controllers@[p].1
                        && match (child, r.controllers@[i]) {
                        (Some(c), Some(_)) => exists|new: &mut A| #[trigger]
                            call_ensures(A::on_reset, (new, seed), ()) && *new == c && (foreseen(
                                old(nodes)@,
                                old(controllers).next_id,
                            ) ==> *final(new) == final(controllers).controllers@[n + answered(
                                r.controllers@,
                                i as nat,
                            )].1),
                        (None, None) => true,
                        _ => false,
                    }
            },
        forall|k: int|
            0 <= k < old(controllers).controllers@.len() && unasked(
                old(nodes)@,
                old(nodes)@.len(),
                old(controllers).controllers@[k].0,
            ) ==> #[trigger] final(controllers).controllers@[k] == old(controllers).controllers@[k],
        exists|states: Seq<Seq<(u64, A)>>| #[trigger]
            traced(
                states,
                old(controllers).controllers@,
                final(controllers).controllers@,
                old(nodes)@.len(),
            )
                && forall|i: int|
                    0 <= i < old(nodes)@.len() ==> match #[trigger] called(
                        old(nodes)@[i],
                        states[i],
                    ) {
                        None => r.controllers@[i] is None && states[i + 1] == states[i],
                        Some(p) => {
                            let seed = child_seed(old(nodes)@[i].node_rng->Some_0, step);
                            let id = states[i][p].0;
                            exists|asked: &mut A, child: Option<A>| #[trigger]
                                call_ensures(A::spawn_child, (asked, seed), child)
                                    && *asked == states[i][p].1 && match (
                                    child,
                                    r.controllers@[i],
                                ) {
                                    (Some(c), Some(new_id)) => exists|new: &mut A| #[trigger]
                                        call_ensures(A::on_reset, (new, seed), ()) && *new == c
                                            && states[i + 1] == states[i].update(
                                            p,
                                            (id, *final(asked)),
                                        ).push((new_id, *final(new))),
                                    (None, None) => states[i + 1] == states[i].update(
                                        p,
                                        (id, *final(asked)),
                                    ),
                                    _ => false,
                                }
                        },
                    },
        final(nodes)@ == Seq::new(
            old(nodes)@.len(),
            |i: int| reproduced(old(nodes)@[i], step, r.controllers@[i], draws@[i]).0,
        ),
        r.children@ == children_of(
            old(nodes)@,
            step,
            r.controllers@,
            draws@,
            old(nodes)@.len(),
        ),
        steered(old(nodes)@, *old(controllers)) ==> steered(
            final(nodes)@ + r.children@,
            *final(controllers),
        ),
{
    let ghost start = nodes@;
    let ghost first = controllers.next_id as int;
    let made: Vec<Option<u64>> = ask_for_children(nodes, controllers, step);
    let ghost after = *controllers;
    let mut children: Vec<Node> = Vec::new();
    let mut i: usize = 0;
    proof {
        assert(nodes@ + children@ =~= nodes@);
        if steered(start, *old(controllers)) {
            lemma_same_identities_steer(start, *old(controllers), after);
            assert forall|j: int| 0 <= j < start.len() implies ((
            #[trigger] start[j]).marker matches Some(m) ==> m.controller < first) by {
                if start[j].marker is Some {
                    lemma_registered_is_listed(
                        *old(controllers),
                        start[j].marker->Some_0.controller,
                    );
                }
            }
        }
    }
    while i < nodes.len()
        invariant
            i <= nodes@.len(),
            nodes@.len() == start.len(),
            draws@.len() == start.len(),
            made@.len() == start.len(),
            *controllers == after,
            after.well_formed(),
            joined_by(
                after.controllers@,
                old(controllers).controllers@,
                first,
                answered(made@, start.len()),
            ),
            forall|j: int|
                0 <= j < start.len() ==> match #[trigger] made@[j] {
                    Some(id) => due(start[j]) && id == first + answered(made@, j as nat),
                    None => true,
                },
            forall|j: int|
                0 <= j < i ==> #[trigger] nodes@[j] == reproduced(
                    start[j],
                    step,
                    made@[j],
                    draws@[j],
                ).0,
            forall|j: int| i <= j < start.len() ==> #[trigger] nodes@[j] == start[j],
            children@ == children_of(start, step, made@, draws@, i as nat),
            steered(start, *old(controllers)) ==> steered(nodes@ + children@, after),
            steered(start, *old(controllers)) ==> steered_below(
                nodes@ + children@,
                first + answered(made@, i as nat),
            ),
        decreases nodes@.len() - i,
    {
        let mut node: Node = nodes[i];
        let ghost all = nodes@ + children@;
        let born: Option<Node> = reproduce_one(&mut node, step, made[i], draws[i]);
        nodes.set(i, node);
        match born {
            Some(c) => {
                children.push(c);
            },
            None => {},
        }
        proof {
            if steered(start, *old(controllers)) {
                let same = all.update(i as int, node);
                let bound = first + answered(made@, i as nat);
                lemma_fewer_agents_are_steered(all, same, after);
                assert forall|j: int| 0 <= j < same.len() implies ((
                #[trigger] same[j]).marker matches Some(m) ==> m.controller < bound) by {
                    assert(all[j].marker == same[j].marker);
                }
                match born {
                    Some(c) => {
                        lemma_answered_grows(made@, i + 1, start.len());
                        lemma_listed_is_registered(
                            after,
                            (old(controllers).controllers@.len() + answered(
                                made@,
                                i as nat,
                            )) as int,
                        );
                        assert(nodes@ + children@ =~= same.push(c));
                        lemma_newest_is_steered(same, after, bound, c);
                    },
                    None => {
                        assert(nodes@ + children@ =~= same);
                    },
                }
            }
        }
        i += 1;
    }
    assert(nodes@ =~= Seq::new(
        start.len(),
        |i: int| reproduced(start[i], step, made@[i], draws@[i]).0,
    ));
    Births { children, controllers: made }
}

/// No agent has a controller from this identity on.
spec fn steered_below(nodes: Seq<Node>, bound: int) -> bool {
    forall|j: int|
        0 <= j < nodes.len() ==> ((#[trigger] nodes[j]).marker matches Some(m) ==> m.controller
            < bound)
}

/// One more agent, with a controller newer than all others, is steered too.
proof fn lemma_newest_is_steered<A>(
    nodes: Seq<Node>,
    agents: WorldAgents<A>,
    bound: int,
    node: Node,
)
    requires
        steered(nodes, agents),
        steered_below(nodes, bound),
        node.marker matches Some(m) && m.controller >= bound && agents.place(m.controller) is Some,
    ensures
        steered(nodes.push(node), agents),
{
    let all = nodes.push(node);
    assert forall|i: int| 0 <= i < all.len() implies ((#[trigger] all[i]).marker matches Some(m)
        ==> agents.place(m.controller) is Some) by {
        if i < nodes.len() {
            assert(all[i] == nodes[i]);
        }
    }
    assert forall|i: int, j: int| 0 <= i < j < all.len() implies match (
        (#[trigger] all[i]).marker,
        (#[trigger] all[j]).marker,
    ) {
        (Some(a), Some(b)) => a.controller != b.controller,
        _ => true,
    } by {
        assert(all[i] == nodes[i]);
        if j < nodes.len() {
            assert(all[j] == nodes[j]);
        }
    }
}

/// More answers are at least as many.
proof fn lemma_answered_grows(controllers: Seq<Option<u64>>, a: int, b: nat)
    requires
        0 <= a <= b,
    ensures
        answered(controllers, a as nat) <= answered(controllers, b),
    decreases b,
{
    if a < b {
        lemma_answered_grows(controllers, a, (b - 1) as nat);
    }
}

/// Counting looks at what is counted only.
proof fn lemma_answered_prefix(a: Seq<Option<u64>>, b: Seq<Option<u64>>, n: nat)
    requires
        n <= a.len() <= b.len(),
        forall|i: int| 0 <= i < a.len() ==> #[trigger] a[i] == b[i],
    ensures
        answered(a, n) == answered(b, n),
    decreases n,
{
    if n > 0 {
        lemma_answered_prefix(a, b, (n - 1) as nat);
        assert(a[n - 1] == b[n - 1]);
    }
}

/// A birth moves mass and energy from parent to child, and makes none: the child
/// has exactly the cost, the parent has that much less, and the ledger says so.
/// What the parent has left and the child make up what the parent had. The child
/// is of the parent's lineage, one generation on, with a controller of its own.
pub proof fn lemma_birth_conserves(node: Node, step: u64, controller: Option<u64>, draw: BirthDraw)
    requires
        reproduced(node, step, controller, draw).1 is Some,
    ensures
        ({
            let (after, born) = reproduced(node, step, controller, draw);
            let young = born->Some_0;
            let paid = node.physical->Some_0;
            let left = after.physical->Some_0;
            &&& left.mass == paid.mass.minus(num(REPRODUCTION_MASS_COST))
            &&& left.energy == paid.energy.minus(num(REPRODUCTION_ENERGY_COST))
            &&& young.physical->Some_0.mass == num(REPRODUCTION_MASS_COST)
            &&& young.physical->Some_0.energy == num(REPRODUCTION_ENERGY_COST)
            &&& paid.mass.finite() ==> parts_make_up(paid.mass, num(REPRODUCTION_MASS_COST))
            &&& paid.energy.finite() ==> parts_make_up(paid.energy, num(REPRODUCTION_ENERGY_COST))
            &&& after.ledger->Some_0 == node.ledger->Some_0.recorded(
                EnergyFlow::Offspring,
                num(REPRODUCTION_ENERGY_COST),
            )
            &&& young.marker->Some_0.lineage == node.marker->Some_0.lineage
            &&& young.marker->Some_0.generation == next_generation(node.marker->Some_0.generation)
            &&& Some(young.marker->Some_0.controller) == controller
            &&& after.marker == node.marker
        }),
{
    let p = node.physical->Some_0;
    lemma_surplus_funds(p);
    assert(grid(0) == 0);
    lemma_grid_order(0, REPRODUCTION_ENERGY_COST as nat);
    lemma_grid_order(REPRODUCTION_ENERGY_COST as nat, REPRODUCTION_ENERGY_THRESHOLD as nat);
    lemma_grid_order(0, REPRODUCTION_MASS_COST as nat);
    lemma_grid_order(REPRODUCTION_MASS_COST as nat, PARENT_MASS as nat);
    if p.mass.finite() {
        lemma_parts_make_up(p.mass, num(REPRODUCTION_MASS_COST));
    }
    if p.energy.finite() {
        lemma_parts_make_up(p.energy, num(REPRODUCTION_ENERGY_COST));
    }
}

/// No agent has a child while it rests after a birth, or without a surplus.
pub proof fn lemma_birth_needs_surplus(
    node: Node,
    step: u64,
    controller: Option<u64>,
    draw: BirthDraw,
)
    requires
        reproduced(node, step, controller, draw).1 is Some,
    ensures
        num(REPRODUCTION_ENERGY_THRESHOLD).le(node.physical->Some_0.energy),
        num(PARENT_MASS).le(node.physical->Some_0.mass),
        rest_left(node.reproduction->Some_0).le(num(0)),
        !node.reproduction->Some_0.surplus_seconds.plus(num(FIXED_DT)).lt(
            num(REPRODUCTION_SURPLUS_SECONDS),
        ),
        controller is Some,
{
}

/// What the evaluator gets to see of an agent. None of it is a reward.
#[derive(Clone, Copy, Debug, Default, PartialEq, Eq, Structural)]
pub struct AgentSnapshot {
    pub alive: bool,
    pub entity: u64,
    pub generation: u32,
    pub lineage: u64,
    pub step: u32,
    pub harvested: Binary32,
    pub consumed_from_others: Binary32,
    pub vented: Binary32,
    pub born_step: u32,
}

/// The last that is known of a living agent.
#[derive(Clone, Copy, Debug, PartialEq, Eq, Structural)]
pub struct ActiveAgentRecord {
    pub entity: u64,
    pub marker: AgentMarker,
    pub ledger: EnergyLedger,
}

impl ActiveAgentRecord {
    pub open spec fn snapshot_spec(self, alive: bool, step: u32) -> AgentSnapshot {
        AgentSnapshot {
            alive,
            entity: self.entity,
            generation: self.marker.generation,
            lineage: self.marker.lineage,
            step,
            harvested: self.ledger.harvested,
            consumed_from_others: self.ledger.consumed_from_others,
            vented: self.ledger.vented,
            born_step: self.ledger.born_step,
        }
    }

    /// The record as the evaluator sees it.
    #[verifier::when_used_as_spec(snapshot_spec)]
    pub fn snapshot(self, alive: bool, step: u32) -> (r: AgentSnapshot)
        ensures
            r == self.snapshot_spec(alive, step),
    {
        AgentSnapshot {
            alive,
            entity: self.entity,
            generation: self.marker.generation,
            lineage: self.marker.lineage,
            step,
            harvested: self.ledger.harvested,
            consumed_from_others: self.ledger.consumed_from_others,
            vented: self.ledger.vented,
            born_step: self.ledger.born_step,
        }
    }
}

/// The outcomes of all agents, living and dead.
#[derive(Debug)]
pub struct AgentHistory {
    pub active: Vec<ActiveAgentRecord>,
    pub completed: Vec<AgentSnapshot>,
}

/// The records of the living agents, in table order.
pub open spec fn living(nodes: Seq<Node>) -> Seq<ActiveAgentRecord>
    decreases nodes.len(),
{
    if nodes.len() == 0 {
        Seq::empty()
    } else {
        let rest = living(nodes.drop_last());
        let node = nodes.last();
        match (node.marker, node.ledger) {
            (Some(marker), Some(ledger)) => rest.push(
                ActiveAgentRecord { entity: node.entity, marker, ledger },
            ),
            _ => rest,
        }
    }
}

/// Is the agent on the list?
pub open spec fn lives(list: Seq<ActiveAgentRecord>, entity: u64) -> bool {
    exists|i: int| 0 <= i < list.len() && (#[trigger] list[i]).entity == entity
}

/// The outcomes of those on the first list that are not on the second.
pub open spec fn departed(
    list: Seq<ActiveAgentRecord>,
    now: Seq<ActiveAgentRecord>,
    step: u32,
) -> Seq<AgentSnapshot>
    decreases list.len(),
{
    if list.len() == 0 {
        Seq::empty()
    } else {
        let rest = departed(list.drop_last(), now, step);
        if lives(now, list.last().entity) {
            rest
        } else {
            rest.push(list.last().snapshot(false, step))
        }
    }
}

/// Lists the living agents.
fn list_living(nodes: &Vec<Node>) -> (r: Vec<ActiveAgentRecord>)
    ensures
        r@ == living(nodes@),
{
    let mut out: Vec<ActiveAgentRecord> = Vec::new();
    let mut i: usize = 0;
    assert(nodes@.take(0) =~= Seq::<Node>::empty());
    while i < nodes.len()
        invariant
            i <= nodes@.len(),
            out@ == living(nodes@.take(i as int)),
        decreases nodes@.len() - i,
    {
        assert(nodes@.take(i + 1).drop_last() =~= nodes@.take(i as int));
        match (nodes[i].marker, nodes[i].ledger) {
            (Some(marker), Some(ledger)) => {
                out.push(ActiveAgentRecord { entity: nodes[i].entity, marker, ledger });
            },
            _ => {},
        }
        i += 1;
    }
    assert(nodes@.take(i as int) =~= nodes@);
    out
}

fn is_living(list: &Vec<ActiveAgentRecord>, entity: u64) -> (r: bool)
    ensures
        r == lives(list@, entity),
{
    let mut i: usize = 0;
    while i < list.len()
        invariant
            i <= list@.len(),
            forall|j: int| 0 <= j < i ==> (#[trigger] list@[j]).entity != entity,
        decreases list@.len() - i,
    {
        if list[i].entity == entity {
            return true;
        }
        i += 1;
    }
    false
}

impl AgentHistory {
    /// Nothing has happened yet.
    pub fn new() -> (r: AgentHistory)
        ensures
            r.active@ == Seq::<ActiveAgentRecord>::empty(),
            r.completed@ == Seq::<AgentSnapshot>::empty(),
    {
        AgentHistory { active: Vec::new(), completed: Vec::new() }
    }
}

/// Records the living agents, and the outcome of those that are gone since the
/// last step. Outcomes are only ever added.
pub fn record_agent_history(history: &mut AgentHistory, step: u64, nodes: &Vec<Node>)
    ensures
        final(history).active@ == living(nodes@),
        final(history).completed@ == old(history).completed@ + departed(
            old(history).active@,
            living(nodes@),
            short_step(step),
        ),
{
    let now: Vec<ActiveAgentRecord> = list_living(nodes);
    let at: u32 = short_step(step);
    let mut i: usize = 0;
    assert(history.active@.take(0) =~= Seq::<ActiveAgentRecord>::empty());
    assert(history.completed@ =~= old(history).completed@ + departed(
        history.active@.take(0),
        now@,
        at,
    ));
    while i < history.active.len()
        invariant
            i <= history.active@.len(),
            history.active@ == old(history).active@,
            history.completed@ == old(history).completed@ + departed(
                history.active@.take(i as int),
                now@,
                at,
            ),
        decreases history.active@.len() - i,
    {
        assert(history.active@.take(i + 1).drop_last() =~= history.active@.take(i as int));
        let record: ActiveAgentRecord = history.active[i];
        if !is_living(&now, record.entity) {
            history.completed.push(record.snapshot(false, at));
        }
        assert(history.completed@ =~= old(history).completed@ + departed(
            history.active@.take(i + 1),
            now@,
            at,
        ));
        i += 1;
    }
    assert(history.active@.take(i as int) =~= history.active@);
    history.active = now;
}

/// The outcomes so far, and the state of every living agent at `step`.
pub fn collect_competence(history: &AgentHistory, nodes: &Vec<Node>, step: u32) -> (r: Vec<
    AgentSnapshot,
>)
    ensures
        r@ == history.completed@ + living(nodes@).map_values(
            |a: ActiveAgentRecord| a.snapshot(true, step),
        ),
{
    let now: Vec<ActiveAgentRecord> = list_living(nodes);
    let ghost show = |a: ActiveAgentRecord| a.snapshot(true, step);
    let mut out: Vec<AgentSnapshot> = Vec::new();
    let mut k: usize = 0;
    while k < history.completed.len()
        invariant
            k <= history.completed@.len(),
            out@ == history.completed@.take(k as int),
        decreases history.completed@.len() - k,
    {
        out.push(history.completed[k]);
        assert(out@ =~= history.completed@.take(k + 1));
        k += 1;
    }
    assert(out@ =~= history.completed@ + now@.take(0).map_values(show));
    let mut i: usize = 0;
    while i < now.len()
        invariant
            i <= now@.len(),
            show == (|a: ActiveAgentRecord| a.snapshot(true, step)),
            out@ == history.completed@ + now@.take(i as int).map_values(show),
        decreases now@.len() - i,
    {
        out.push(now[i].snapshot(true, step));
        assert(out@ =~= history.completed@ + now@.take(i + 1).map_values(show));
        i += 1;
    }
    assert(now@.take(i as int) =~= now@);
    out
}

/// No agent is lost: whoever was alive at the last step is alive now, or has an
/// outcome among those that are added.
pub proof fn lemma_nobody_is_lost(
    list: Seq<ActiveAgentRecord>,
    now: Seq<ActiveAgentRecord>,
    step: u32,
    i: int,
)
    requires
        0 <= i < list.len(),
    ensures
        lives(now, list[i].entity) || departed(list, now, step).contains(
            list[i].snapshot(false, step),
        ),
    decreases list.len(),
{
    let rest = list.drop_last();
    let gone = departed(rest, now, step);
    let all = departed(list, now, step);
    if i < rest.len() {
        lemma_nobody_is_lost(rest, now, step, i);
        assert(rest[i] == list[i]);
        if !lives(now, list[i].entity) {
            let want = list[i].snapshot(false, step);
            let k = choose|k: int| 0 <= k < gone.len() && gone[k] == want;
            assert(all[k] == want);
        }
    } else if !lives(now, list.last().entity) {
        assert(all[gone.len() as int] == list.last().snapshot(false, step));
    }
}

} // verus!
