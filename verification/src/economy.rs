//! Thermodynamics and the energy economy. The world drains every node; agents
//! offset it by vents, by harvesting motion, by traps and by consuming what
//! fails. At zero energy a node dies and stays as inert matter.

use crate::agents::lemma_fewer_agents_are_steered;
use crate::agents::steered;
use crate::agents::WorldAgents;
use crate::binary32::bounds::lemma_one;
use crate::binary32::bounds::lemma_product_commutes;
use crate::binary32::bounds::lemma_product_finite;
use crate::binary32::bounds::lemma_product_monotone;
use crate::binary32::bounds::lemma_product_shrinks;
use crate::binary32::bounds::lemma_sign_of_units;
use crate::binary32::bounds::lemma_sum_monotone;
use crate::binary32::bounds::lemma_sum_not_negative;
use crate::binary32::model::grid;
use crate::binary32::model::lemma_grid_order;
use crate::binary32::num;
use crate::binary32::Binary32;
use crate::components::find;
use crate::components::is_listed;
use crate::components::lemma_place;
use crate::components::lemma_place_same;
use crate::components::lookup;
use crate::components::node_of;
use crate::components::place_of;
use crate::components::ClampJoint;
use crate::components::Conductivity;
use crate::components::EnergyFlow;
use crate::components::EnergyLedger;
use crate::components::Node;
use crate::components::Physical;
use crate::components::Tags;
use crate::fields::FieldSample;
use crate::fields::FieldSampler;
use crate::fields::Noise;
use crate::fragmentation::can_fragment;
use crate::fragmentation::queue_fragment;
use crate::fragmentation::Fracture;
use crate::fragmentation::FragmentQueue;
use crate::interface::observation::HALF;
use crate::interface::vector::Vec2Lite;
use crate::interface::vector::ONE;
use crate::interface::vector::TWO;
use crate::spatial_hash::reachable;
use crate::spatial_hash::SpatialHash;
use crate::tags::lemma_fragment_is_inert;
use crate::tags::TagMutation;
use crate::tags::AGENT;
use crate::tags::CLAMP_CAPABLE;
use crate::tags::ENERGY_CONVERTIBLE;
use crate::tags::SHELTER;
use crate::tags::THERMAL_VENT;
use crate::tags::VOLATILE_TRAP;
use vstd::prelude::*;

verus! {

/// Pattern of the fixed timestep, one sixtieth of a second.
pub const FIXED_DT: u32 = 0x3c88_8889;

/// Pattern of the drain per second before modifiers, 0.6.
pub const BASE_DRAIN: u32 = 0x3f19_999a;

/// Patterns of 0.4 and 0.6: the drain of inert material, and what full
/// conductivity adds to it.
pub const INERT_DRAIN: u32 = 0x3ecc_cccd;

pub const CONDUCTED_DRAIN: u32 = 0x3f19_999a;

/// Pattern of the stress of a vent per heat, 0.3.
pub const VENT_STRESS: u32 = 0x3e99_999a;

/// Pattern of the radius of a shelter, 2.5, and of its square.
pub const SHELTER_RADIUS: u32 = 0x4020_0000;

pub const SHELTER_RADIUS_SQUARED: u32 = 0x40c8_0000;

/// Pattern of the exposure under a shelter, one quarter.
pub const SHELTERED: u32 = 0x3e80_0000;

/// Pattern of the relative speed from which motion is harvested, 1.5.
pub const HARVEST_MIN_REL_SPEED: u32 = 0x3fc0_0000;

/// Pattern of the energy per second and relative speed, 1.5.
pub const HARVEST_RATE: u32 = 0x3fc0_0000;

/// Pattern of the range of harvesting, 4, and of its square.
pub const HARVEST_RANGE: u32 = 0x4080_0000;

pub const HARVEST_RANGE_SQUARED: u32 = 0x4180_0000;

/// Pattern of the range of a volatile trap, 8, and of its square.
pub const VOLATILE_TRAP_RANGE: u32 = 0x4100_0000;

pub const VOLATILE_TRAP_RANGE_SQUARED: u32 = 0x4280_0000;

/// Pattern of the share of its energy that a trap releases, one half.
pub const VOLATILE_TRAP_DRAIN_FRACTION: u32 = 0x3f00_0000;

/// Pattern of the smallest distance that counts for a trap, 0.1.
pub const TRAP_CLOSEST: u32 = 0x3dcc_cccd;

/// The nodes that are depleted in this step.
#[derive(Debug)]
pub struct DeathQueue {
    pub entities: Vec<u64>,
}

impl DeathQueue {
    /// An empty queue.
    pub fn new() -> (r: DeathQueue)
        ensures
            r.entities@ == Seq::<u64>::empty(),
    {
        DeathQueue { entities: Vec::new() }
    }
}

/// Does `other` shelter the node?
pub open spec fn shelters(nodes: Seq<Node>, node: Node, other: u64) -> bool {
    &&& other != node.entity
    &&& node_of(nodes, other) matches Some(o) && o.tagged(SHELTER) && o.position.distance_squared(
        node.position,
    ).le(num(SHELTER_RADIUS_SQUARED))
}

/// Does anything shelter the node?
pub open spec fn sheltered(nodes: Seq<Node>, hash: SpatialHash, node: Node) -> bool {
    exists|j: int|
        0 <= j < hash.found(node.position, num(SHELTER_RADIUS)).len() && shelters(
            nodes,
            node,
            #[trigger] hash.found(node.position, num(SHELTER_RADIUS))[j],
        )
}

pub open spec fn shelter_exposure_factor_spec(
    nodes: Seq<Node>,
    hash: SpatialHash,
    node: Node,
) -> Binary32 {
    if sheltered(nodes, hash, node) {
        num(SHELTERED)
    } else {
        num(ONE)
    }
}

/// How much of the thermal field reaches the node: a quarter under a shelter.
pub fn shelter_exposure_factor(nodes: &Vec<Node>, hash: &SpatialHash, node: Node) -> (r: Binary32)
    requires
        reachable(node.position, num(SHELTER_RADIUS)),
    ensures
        r == shelter_exposure_factor_spec(nodes@, *hash, node),
{
    let mut nearby: Vec<u64> = Vec::new();
    hash.query_radius(node.position, num(SHELTER_RADIUS), &mut nearby);
    let mut i: usize = 0;
    while i < nearby.len()
        invariant
            i <= nearby@.len(),
            nearby@ == hash.found(node.position, num(SHELTER_RADIUS)),
            forall|j: int| 0 <= j < i ==> !shelters(nodes@, node, #[trigger] nearby@[j]),
        decreases nearby@.len() - i,
    {
        let other: u64 = nearby[i];
        if other != node.entity {
            match lookup(nodes, other) {
                Some(o) => {
                    if o.tagged(SHELTER) && o.position.distance_squared(node.position).le(
                        num(SHELTER_RADIUS_SQUARED),
                    ) {
                        assert(shelters(
                            nodes@,
                            node,
                            hash.found(node.position, num(SHELTER_RADIUS))[i as int],
                        ));
                        return num(SHELTERED);
                    }
                },
                None => {},
            }
        }
        i += 1;
    }
    num(ONE)
}

pub open spec fn drain_rate_spec(
    thermal_load: Binary32,
    exposure: Binary32,
    conductivity: Binary32,
) -> Binary32 {
    num(BASE_DRAIN).times(num(ONE).plus(thermal_load.times(exposure))).times(
        num(INERT_DRAIN).plus(num(CONDUCTED_DRAIN).times(conductivity)),
    )
}

/// The drain per second under a heat load.
#[verifier::when_used_as_spec(drain_rate_spec)]
pub fn drain_rate(thermal_load: Binary32, exposure: Binary32, conductivity: Binary32) -> (r:
    Binary32)
    ensures
        r == drain_rate_spec(thermal_load, exposure, conductivity),
{
    num(BASE_DRAIN).times(num(ONE).plus(thermal_load.times(exposure))).times(
        num(INERT_DRAIN).plus(num(CONDUCTED_DRAIN).times(conductivity)),
    )
}

/// Does the drain reach the node? All but depleted ones.
pub open spec fn drains(node: Node) -> bool {
    &&& !node.dead
    &&& node.conductivity is Some
    &&& node.tags is Some
    &&& node.yield_thresh is Some
    &&& node.physical is Some
    &&& node.ledger is Some
}

/// A body and a ledger after one step of drain. Vents gain from the heat first,
/// and wear.
pub open spec fn drained(node: Node, field: FieldSample, exposure: Binary32) -> Node {
    let load = field.thermal.max(num(0));
    let rate = drain_rate(load, exposure, node.conductivity->Some_0.0);
    let ledger = node.ledger->Some_0;
    let physical = node.physical->Some_0;
    let (vented_ledger, vented) = if node.tagged(THERMAL_VENT) {
        let b = ledger.credited(
            physical,
            EnergyFlow::Vented,
            num(TWO).times(load).times(num(FIXED_DT)),
        );
        (
            b.ledger,
            Physical {
                structure: b.physical.structure.minus(
                    num(VENT_STRESS).times(load).times(num(FIXED_DT)),
                ),
                ..b.physical
            },
        )
    } else {
        (ledger, physical)
    };
    let last = vented_ledger.drained(vented, rate.times(num(FIXED_DT)));
    Node { ledger: Some(last.ledger), physical: Some(last.physical), ..node }
}

/// The table after one step of drain.
pub open spec fn drained_table(
    nodes: Seq<Node>,
    hash: SpatialHash,
    sampler: FieldSampler,
    noise: Seq<Noise>,
) -> Seq<Node> {
    Seq::new(
        nodes.len(),
        |i: int|
            if drains(nodes[i]) {
                drained(
                    nodes[i],
                    sampler.sample(noise[i]),
                    shelter_exposure_factor_spec(nodes, hash, nodes[i]),
                )
            } else {
                nodes[i]
            },
    )
}

/// Has the structure of the node failed, while it can still break?
pub open spec fn failed(node: Node) -> bool {
    let p = node.physical->Some_0;
    p.structure.le(num(0)) && num(0).lt(p.energy) && can_fragment(p, node.yield_thresh->Some_0)
}

/// The two queues after the first `n` nodes of the drained table were looked at.
pub open spec fn drain_queues(
    after: Seq<Node>,
    fragments: Seq<Fracture>,
    deaths: Seq<u64>,
    n: nat,
) -> (Seq<Fracture>, Seq<u64>)
    decreases n,
{
    if n == 0 {
        (fragments, deaths)
    } else {
        let (f, d) = drain_queues(after, fragments, deaths, (n - 1) as nat);
        let node = after[n - 1];
        if !drains(node) {
            (f, d)
        } else if failed(node) {
            (f.push(Fracture { victim: node.entity, killer: None, share: num(0) }), d)
        } else if node.physical->Some_0.energy.le(num(0)) && !d.contains(node.entity) {
            (f, d.push(node.entity))
        } else {
            (f, d)
        }
    }
}

/// Drains one node.
fn drain_node(node: Node, field: FieldSample, exposure: Binary32) -> (r: Node)
    requires
        drains(node),
    ensures
        r == drained(node, field, exposure),
        drains(r),
{
    let (conductivity, mut physical, mut ledger): (Conductivity, Physical, EnergyLedger) = match (
        node.conductivity,
        node.physical,
        node.ledger,
    ) {
        (Some(c), Some(p), Some(l)) => (c, p, l),
        _ => {
            return node;
        },
    };
    let load: Binary32 = field.thermal.max(num(0));
    let rate: Binary32 = drain_rate(load, exposure, conductivity.0);
    if node.tagged(THERMAL_VENT) {
        let gain: Binary32 = num(TWO).times(load);
        let _vented: Binary32 = ledger.credit(
            &mut physical,
            EnergyFlow::Vented,
            gain.times(num(FIXED_DT)),
        );
        physical.structure = physical.structure.minus(
            num(VENT_STRESS).times(load).times(num(FIXED_DT)),
        );
    }
    let _drained: Binary32 = ledger.drain(&mut physical, rate.times(num(FIXED_DT)));
    let mut after: Node = node;
    after.physical = Some(physical);
    after.ledger = Some(ledger);
    after
}

/// Drains every node that is not depleted, given the noise at each. Nodes whose
/// structure has failed are flagged for fragmentation, and depleted ones for
/// death.
pub fn thermodynamic_drain(
    nodes: &mut Vec<Node>,
    hash: &SpatialHash,
    sampler: FieldSampler,
    noise: &[Noise],
    fragments: &mut FragmentQueue,
    deaths: &mut DeathQueue,
)
    requires
        noise@.len() == old(nodes)@.len(),
        forall|i: int|
            0 <= i < old(nodes)@.len() ==> reachable(
                (#[trigger] old(nodes)@[i]).position,
                num(SHELTER_RADIUS),
            ),
    ensures
        final(nodes)@ == drained_table(old(nodes)@, *hash, sampler, noise@),
        (final(fragments).entities@, final(deaths).entities@) == drain_queues(
            final(nodes)@,
            old(fragments).entities@,
            old(deaths).entities@,
            final(nodes)@.len(),
        ),
{
    let ghost start = nodes@;
    let ghost goal = drained_table(start, *hash, sampler, noise@);
    let mut exposures: Vec<Binary32> = Vec::new();
    let mut i: usize = 0;
    while i < nodes.len()
        invariant
            i <= nodes@.len(),
            nodes@ == start,
            exposures@.len() == i,
            forall|i: int|
                0 <= i < start.len() ==> reachable(
                    (#[trigger] start[i]).position,
                    num(SHELTER_RADIUS),
                ),
            forall|j: int|
                0 <= j < i ==> #[trigger] exposures@[j] == shelter_exposure_factor_spec(
                    start,
                    *hash,
                    start[j],
                ),
        decreases nodes@.len() - i,
    {
        assert(reachable(start[i as int].position, num(SHELTER_RADIUS)));
        let factor: Binary32 = shelter_exposure_factor(nodes, hash, nodes[i]);
        exposures.push(factor);
        i += 1;
    }
    let mut k: usize = 0;
    assert(nodes@ =~= goal.take(0) + start.skip(0));
    while k < nodes.len()
        invariant
            k <= nodes@.len(),
            nodes@.len() == start.len(),
            goal == drained_table(start, *hash, sampler, noise@),
            noise@.len() == start.len(),
            exposures@.len() == start.len(),
            forall|j: int|
                0 <= j < start.len() ==> #[trigger] exposures@[j] == shelter_exposure_factor_spec(
                    start,
                    *hash,
                    start[j],
                ),
            nodes@ == goal.take(k as int) + start.skip(k as int),
            (fragments.entities@, deaths.entities@) == drain_queues(
                goal,
                old(fragments).entities@,
                old(deaths).entities@,
                k as nat,
            ),
        decreases nodes@.len() - k,
    {
        let node: Node = nodes[k];
        assert(node == start[k as int]);
        let reached: bool = !node.dead && node.conductivity.is_some() && node.tags.is_some()
            && node.yield_thresh.is_some() && node.physical.is_some() && node.ledger.is_some();
        assert(reached == drains(node));
        if reached {
            let after: Node = drain_node(node, sampler.sample(noise[k]), exposures[k]);
            nodes.set(k, after);
            assert(after == goal[k as int]);
            match (after.physical, after.yield_thresh) {
                (Some(p), Some(y)) => {
                    if p.structure.le(num(0)) && num(0).lt(p.energy) && can_fragment(p, y) {
                        queue_fragment(after.entity, None, fragments);
                    } else if p.energy.le(num(0)) && !is_listed(
                        deaths.entities.as_slice(),
                        after.entity,
                    ) {
                        deaths.entities.push(after.entity);
                    }
                },
                _ => {},
            }
        } else {
            assert(goal[k as int] == node);
        }
        assert(nodes@ =~= goal.take(k + 1) + start.skip(k + 1));
        k += 1;
    }
    assert(nodes@ =~= goal);
}

/// A depleted node: no agent any more, but still matter.
pub open spec fn inert(node: Node) -> Node {
    Node {
        tags: match node.tags {
            Some(t) => Some(Tags(t.0.without(AGENT).without(CLAMP_CAPABLE))),
            None => None,
        },
        marker: None,
        tuning: None,
        clamp: None,
        fabricate: None,
        reproduction: None,
        dead: true,
        ..node
    }
}

/// The joints that end at the node.
pub open spec fn joins(joint: ClampJoint, entity: u64) -> bool {
    joint.owner == entity || joint.target == entity
}

/// The joints cut when the node dies, on top of those cut before.
pub open spec fn cut(
    joints: Seq<(u64, ClampJoint)>,
    entity: u64,
    before: Seq<u64>,
    n: nat,
) -> Seq<u64>
    decreases n,
{
    if n == 0 {
        before
    } else {
        let rest = cut(joints, entity, before, (n - 1) as nat);
        let (joint, ends) = joints[n - 1];
        if joins(ends, entity) && !rest.contains(joint) {
            rest.push(joint)
        } else {
            rest
        }
    }
}

/// The table and the joints that were cut after the first `n` deaths.
pub open spec fn buried(
    nodes: Seq<Node>,
    joints: Seq<(u64, ClampJoint)>,
    queue: Seq<u64>,
    n: nat,
) -> (Seq<Node>, Seq<u64>)
    decreases n,
{
    if n == 0 {
        (nodes, Seq::empty())
    } else {
        let (before, gone) = buried(nodes, joints, queue, (n - 1) as nat);
        match place_of(before, queue[n - 1]) {
            Some(i) => (
                before.update(i, inert(before[i])),
                cut(joints, queue[n - 1], gone, joints.len()),
            ),
            None => (before, gone),
        }
    }
}

/// Ends the depleted agents. Their controllers and actuators go, their bodies
/// stay as inert matter. Returns the joints that must go. The queue is emptied.
pub fn run_deaths(
    nodes: &mut Vec<Node>,
    joints: &[(u64, ClampJoint)],
    deaths: &mut DeathQueue,
) -> (r: Vec<u64>)
    ensures
        final(deaths).entities@ == Seq::<u64>::empty(),
        (final(nodes)@, r@) == buried(
            old(nodes)@,
            joints@,
            old(deaths).entities@,
            old(deaths).entities@.len(),
        ),
{
    let mut gone: Vec<u64> = Vec::new();
    let mut k: usize = 0;
    while k < deaths.entities.len()
        invariant
            k <= deaths.entities@.len(),
            deaths.entities@ == old(deaths).entities@,
            (nodes@, gone@) == buried(old(nodes)@, joints@, deaths.entities@, k as nat),
        decreases deaths.entities@.len() - k,
    {
        let entity: u64 = deaths.entities[k];
        let ghost before = nodes@;
        match find(nodes, entity) {
            Some(i) => {
                let ghost start = gone@;
                let mut j: usize = 0;
                while j < joints.len()
                    invariant
                        j <= joints@.len(),
                        gone@ == cut(joints@, entity, start, j as nat),
                    decreases joints@.len() - j,
                {
                    let (joint, ends) = joints[j];
                    if (ends.owner == entity || ends.target == entity) && !is_listed(
                        gone.as_slice(),
                        joint,
                    ) {
                        gone.push(joint);
                    }
                    j += 1;
                }
                let mut node: Node = nodes[i];
                node.tags = match node.tags {
                    Some(t) => Some(Tags(t.0.without(AGENT).without(CLAMP_CAPABLE))),
                    None => None,
                };
                node.marker = None;
                node.tuning = None;
                node.clamp = None;
                node.fabricate = None;
                node.reproduction = None;
                node.dead = true;
                nodes.set(i, node);
                assert(nodes@ =~= before.update(i as int, inert(before[i as int])));
            },
            None => {},
        }
        k += 1;
    }
    deaths.entities.clear();
    gone
}

/// The numbers of the nodes with a flag, in table order.
pub open spec fn tagged_entities(nodes: Seq<Node>, flag: u64) -> Seq<u64>
    decreases nodes.len(),
{
    if nodes.len() == 0 {
        Seq::empty()
    } else {
        let rest = tagged_entities(nodes.drop_last(), flag);
        if nodes.last().tagged(flag) {
            rest.push(nodes.last().entity)
        } else {
            rest
        }
    }
}

fn collect_tagged(nodes: &Vec<Node>, flag: u64) -> (r: Vec<u64>)
    ensures
        r@ == tagged_entities(nodes@, flag),
{
    let mut out: Vec<u64> = Vec::new();
    let mut i: usize = 0;
    assert(nodes@.take(0) =~= Seq::<Node>::empty());
    while i < nodes.len()
        invariant
            i <= nodes@.len(),
            out@ == tagged_entities(nodes@.take(i as int), flag),
        decreases nodes@.len() - i,
    {
        assert(nodes@.take(i + 1).drop_last() =~= nodes@.take(i as int));
        if nodes[i].tagged(flag) {
            out.push(nodes[i].entity);
        }
        i += 1;
    }
    assert(nodes@.take(i as int) =~= nodes@);
    out
}

pub open spec fn harvest_rate_spec(rel_speed: Binary32) -> Binary32 {
    num(HARVEST_RATE).times(rel_speed.minus(num(HARVEST_MIN_REL_SPEED)).plus(num(ONE))).times(
        num(FIXED_DT),
    )
}

/// The energy that one step of relative motion moves.
#[verifier::when_used_as_spec(harvest_rate_spec)]
pub fn harvest_rate(rel_speed: Binary32) -> (r: Binary32)
    ensures
        r == harvest_rate_spec(rel_speed),
{
    num(HARVEST_RATE).times(rel_speed.minus(num(HARVEST_MIN_REL_SPEED)).plus(num(ONE))).times(
        num(FIXED_DT),
    )
}

/// Can an agent at `pos` with velocity `vel` harvest from the node? Only from
/// convertible bodies within range, and only above the threshold of relative
/// speed.
pub open spec fn harvestable(other: Node, pos: Vec2Lite, vel: Vec2Lite) -> bool {
    &&& other.tagged(ENERGY_CONVERTIBLE)
    &&& !num(HARVEST_RANGE_SQUARED).lt(other.position.distance_squared(pos))
    &&& !vel.minus(other.motion()).length().lt(num(HARVEST_MIN_REL_SPEED))
    &&& other.physical is Some
}

/// What an agent takes from the node: at most what the motion is worth, and at
/// most what there is.
pub open spec fn harvest_amount(other: Node, vel: Vec2Lite) -> Binary32 {
    harvest_rate(vel.minus(other.motion()).length()).min(other.energy().max(num(0)))
}

/// The table after an agent harvested from one other node.
pub open spec fn harvested(
    nodes: Seq<Node>,
    agent: u64,
    pos: Vec2Lite,
    vel: Vec2Lite,
    other: u64,
) -> Seq<Node> {
    match place_of(nodes, other) {
        Some(i) => {
            let amount = harvest_amount(nodes[i], vel);
            let (after, moved) = nodes[i].debited(EnergyFlow::Transferred, amount);
            if other != agent && harvestable(nodes[i], pos, vel) && !amount.le(num(0)) {
                let taken = nodes.update(i, after);
                match place_of(taken, agent) {
                    Some(j) if !moved.le(num(0)) => taken.update(
                        j,
                        taken[j].credited(EnergyFlow::Harvested, moved),
                    ),
                    _ => taken,
                }
            } else {
                nodes
            }
        },
        None => nodes,
    }
}

/// The table after an agent harvested from the first `n` of those nearby.
pub open spec fn harvest_round(
    nodes: Seq<Node>,
    agent: u64,
    pos: Vec2Lite,
    vel: Vec2Lite,
    near: Seq<u64>,
    n: nat,
) -> Seq<Node>
    decreases n,
{
    if n == 0 {
        nodes
    } else {
        harvested(
            harvest_round(nodes, agent, pos, vel, near, (n - 1) as nat),
            agent,
            pos,
            vel,
            near[n - 1],
        )
    }
}

/// The table after the first `n` agents harvested.
pub open spec fn harvest_all(
    nodes: Seq<Node>,
    hash: SpatialHash,
    agents: Seq<u64>,
    n: nat,
) -> Seq<Node>
    decreases n,
{
    if n == 0 {
        nodes
    } else {
        let before = harvest_all(nodes, hash, agents, (n - 1) as nat);
        match node_of(before, agents[n - 1]) {
            Some(a) => {
                let near = hash.found(a.position, num(HARVEST_RANGE));
                harvest_round(before, agents[n - 1], a.position, a.motion(), near, near.len())
            },
            None => before,
        }
    }
}

/// The table `b` has the places of `a`: the same numbers, positions, velocities
/// and masks.
pub open spec fn same_places(a: Seq<Node>, b: Seq<Node>) -> bool {
    &&& a.len() == b.len()
    &&& forall|i: int|
        #![trigger a[i]]
        #![trigger b[i]]
        0 <= i < a.len() ==> a[i].entity == b[i].entity && a[i].position == b[i].position
            && a[i].velocity == b[i].velocity && a[i].tags == b[i].tags
}

/// Lets one agent harvest from one other node.
fn harvest_one(nodes: &mut Vec<Node>, agent: u64, pos: Vec2Lite, vel: Vec2Lite, other: u64)
    ensures
        final(nodes)@ == harvested(old(nodes)@, agent, pos, vel, other),
        same_places(old(nodes)@, final(nodes)@),
{
    let i: usize = match find(nodes, other) {
        Some(i) => i,
        None => return ,
    };
    let mut node: Node = nodes[i];
    if other == agent || !node.tagged(ENERGY_CONVERTIBLE) || num(HARVEST_RANGE_SQUARED).lt(
        node.position.distance_squared(pos),
    ) {
        return;
    }
    let rel_speed: Binary32 = vel.minus(node.motion()).length();
    if rel_speed.lt(num(HARVEST_MIN_REL_SPEED)) || node.physical.is_none() {
        return;
    }
    let amount: Binary32 = harvest_rate(rel_speed).min(node.energy().max(num(0)));
    if amount.le(num(0)) {
        return;
    }
    let moved: Binary32 = node.debit(EnergyFlow::Transferred, amount);
    nodes.set(i, node);
    assert(nodes@ =~= old(nodes)@.update(i as int, node));
    let ghost taken = nodes@;
    if moved.le(num(0)) {
        return;
    }
    match find(nodes, agent) {
        Some(j) => {
            let mut hunter: Node = nodes[j];
            hunter.credit(EnergyFlow::Harvested, moved);
            nodes.set(j, hunter);
            assert(nodes@ =~= taken.update(j as int, hunter));
        },
        None => {},
    }
}

/// Kinetic harvesting: agents in relative motion against convertible nodes drain
/// energy from them into their own reserve.
pub fn kinetic_harvest(nodes: &mut Vec<Node>, hash: &SpatialHash)
    requires
        forall|i: int|
            0 <= i < old(nodes)@.len() ==> reachable(
                (#[trigger] old(nodes)@[i]).position,
                num(HARVEST_RANGE),
            ),
    ensures
        ({
            let agents = tagged_entities(old(nodes)@, AGENT);
            final(nodes)@ == harvest_all(old(nodes)@, *hash, agents, agents.len())
        }),
        same_places(old(nodes)@, final(nodes)@),
{
    let agents: Vec<u64> = collect_tagged(nodes, AGENT);
    let mut near: Vec<u64> = Vec::new();
    let mut k: usize = 0;
    while k < agents.len()
        invariant
            k <= agents@.len(),
            forall|i: int|
                0 <= i < old(nodes)@.len() ==> reachable(
                    (#[trigger] old(nodes)@[i]).position,
                    num(HARVEST_RANGE),
                ),
            same_places(old(nodes)@, nodes@),
            nodes@ == harvest_all(old(nodes)@, *hash, agents@, k as nat),
        decreases agents@.len() - k,
    {
        let agent: u64 = agents[k];
        match find(nodes, agent) {
            Some(a) => {
                let pos: Vec2Lite = nodes[a].position;
                let vel: Vec2Lite = nodes[a].motion();
                assert(reachable(old(nodes)@[a as int].position, num(HARVEST_RANGE)));
                hash.query_radius(pos, num(HARVEST_RANGE), &mut near);
                let ghost before = nodes@;
                let mut j: usize = 0;
                while j < near.len()
                    invariant
                        j <= near@.len(),
                        same_places(old(nodes)@, nodes@),
                        nodes@ == harvest_round(before, agent, pos, vel, near@, j as nat),
                    decreases near@.len() - j,
                {
                    let other: u64 = near[j];
                    harvest_one(nodes, agent, pos, vel, other);
                    j += 1;
                }
            },
            None => {},
        }
        k += 1;
    }
}

/// The weight of a target of a trap: the closer, the more.
pub open spec fn trap_weight(target: Node, pos: Vec2Lite) -> Binary32 {
    num(ONE).over(target.position.distance(pos).max(num(TRAP_CLOSEST)))
}

/// Is the node a target of the trap at `pos`? Agents within its range are.
pub open spec fn trap_target(nodes: Seq<Node>, trap: u64, pos: Vec2Lite, other: u64) -> bool {
    other != trap && (node_of(nodes, other) matches Some(o) && o.tagged(AGENT) && !num(
        VOLATILE_TRAP_RANGE_SQUARED,
    ).lt(o.position.distance_squared(pos)))
}

/// The targets among the first `n` of those nearby, with their weights.
pub open spec fn trap_weights(
    nodes: Seq<Node>,
    trap: u64,
    pos: Vec2Lite,
    near: Seq<u64>,
    n: nat,
) -> Seq<(u64, Binary32)>
    decreases n,
{
    if n == 0 {
        Seq::empty()
    } else {
        let rest = trap_weights(nodes, trap, pos, near, (n - 1) as nat);
        if trap_target(nodes, trap, pos, near[n - 1]) {
            rest.push((near[n - 1], trap_weight(node_of(nodes, near[n - 1])->Some_0, pos)))
        } else {
            rest
        }
    }
}

/// The sum of the weights, taken in order.
pub open spec fn total_weight(weights: Seq<(u64, Binary32)>) -> Binary32
    decreases weights.len(),
{
    if weights.len() == 0 {
        num(0)
    } else {
        total_weight(weights.drop_last()).plus(weights.last().1)
    }
}

/// The table after the first `n` targets got their shares.
pub open spec fn shared_out(
    nodes: Seq<Node>,
    weights: Seq<(u64, Binary32)>,
    released: Binary32,
    total: Binary32,
    n: nat,
) -> Seq<Node>
    decreases n,
{
    if n == 0 {
        nodes
    } else {
        let before = shared_out(nodes, weights, released, total, (n - 1) as nat);
        match place_of(before, weights[n - 1].0) {
            Some(i) => before.update(
                i,
                before[i].credited(
                    EnergyFlow::Harvested,
                    released.times(weights[n - 1].1.over(total)),
                ),
            ),
            None => before,
        }
    }
}

/// What a trap releases when it goes off.
pub open spec fn trap_release(trap: Node) -> Binary32 {
    match trap.physical {
        Some(p) => p.energy.max(num(0)).times(num(VOLATILE_TRAP_DRAIN_FRACTION)),
        None => num(0),
    }
}

/// The table after one trap went off.
pub open spec fn discharged(nodes: Seq<Node>, hash: SpatialHash, trap: u64) -> Seq<Node> {
    match place_of(nodes, trap) {
        Some(i) => {
            let pos = nodes[i].position;
            let near = hash.found(pos, num(VOLATILE_TRAP_RANGE));
            let weights = trap_weights(nodes, trap, pos, near, near.len());
            let total = total_weight(weights);
            let release = trap_release(nodes[i]);
            if total.le(num(0)) || release.le(num(0)) {
                nodes
            } else {
                let (after, released) = nodes[i].debited(EnergyFlow::Transferred, release);
                shared_out(nodes.update(i, after), weights, released, total, weights.len())
            }
        },
        None => nodes,
    }
}

/// The traps of the first `n` nodes whose place spikes.
pub open spec fn spiking_traps(
    nodes: Seq<Node>,
    sampler: FieldSampler,
    noise: Seq<Noise>,
    n: nat,
) -> Seq<u64>
    decreases n,
{
    if n == 0 {
        Seq::empty()
    } else {
        let rest = spiking_traps(nodes, sampler, noise, (n - 1) as nat);
        if nodes[n - 1].tagged(VOLATILE_TRAP) && sampler.is_em_spike(noise[n - 1]) {
            rest.push(nodes[n - 1].entity)
        } else {
            rest
        }
    }
}

/// The table after the first `n` of these traps went off.
pub open spec fn discharge_all(
    nodes: Seq<Node>,
    hash: SpatialHash,
    traps: Seq<u64>,
    n: nat,
) -> Seq<Node>
    decreases n,
{
    if n == 0 {
        nodes
    } else {
        discharged(discharge_all(nodes, hash, traps, (n - 1) as nat), hash, traps[n - 1])
    }
}

/// Sets one trap off.
fn discharge_one(nodes: &mut Vec<Node>, hash: &SpatialHash, trap: u64)
    requires
        forall|i: int|
            0 <= i < old(nodes)@.len() ==> reachable(
                (#[trigger] old(nodes)@[i]).position,
                num(VOLATILE_TRAP_RANGE),
            ),
    ensures
        final(nodes)@ == discharged(old(nodes)@, *hash, trap),
        same_places(old(nodes)@, final(nodes)@),
{
    let i: usize = match find(nodes, trap) {
        Some(i) => i,
        None => return ,
    };
    let pos: Vec2Lite = nodes[i].position;
    assert(reachable(old(nodes)@[i as int].position, num(VOLATILE_TRAP_RANGE)));
    let mut near: Vec<u64> = Vec::new();
    hash.query_radius(pos, num(VOLATILE_TRAP_RANGE), &mut near);
    let mut weights: Vec<(u64, Binary32)> = Vec::new();
    let mut total: Binary32 = num(0);
    let mut j: usize = 0;
    while j < near.len()
        invariant
            j <= near@.len(),
            nodes@ == old(nodes)@,
            weights@ == trap_weights(nodes@, trap, pos, near@, j as nat),
            total == total_weight(weights@),
        decreases near@.len() - j,
    {
        let other: u64 = near[j];
        if other != trap {
            match lookup(nodes, other) {
                Some(o) => {
                    if o.tagged(AGENT) && !num(VOLATILE_TRAP_RANGE_SQUARED).lt(
                        o.position.distance_squared(pos),
                    ) {
                        let w: Binary32 = num(ONE).over(
                            o.position.distance(pos).max(num(TRAP_CLOSEST)),
                        );
                        let ghost before = weights@;
                        total = total.plus(w);
                        weights.push((other, w));
                        assert(weights@.drop_last() =~= before);
                    }
                },
                None => {},
            }
        }
        j += 1;
    }
    let mut node: Node = nodes[i];
    let release: Binary32 = match node.physical {
        Some(p) => p.energy.max(num(0)).times(num(VOLATILE_TRAP_DRAIN_FRACTION)),
        None => num(0),
    };
    if total.le(num(0)) || release.le(num(0)) {
        return;
    }
    let released: Binary32 = node.debit(EnergyFlow::Transferred, release);
    nodes.set(i, node);
    let ghost start = old(nodes)@.update(i as int, node);
    assert(nodes@ =~= start);
    let mut k: usize = 0;
    while k < weights.len()
        invariant
            k <= weights@.len(),
            same_places(old(nodes)@, nodes@),
            nodes@ == shared_out(start, weights@, released, total, k as nat),
        decreases weights@.len() - k,
    {
        let (target, w) = weights[k];
        let ghost before = nodes@;
        match find(nodes, target) {
            Some(t) => {
                let mut fed: Node = nodes[t];
                fed.credit(EnergyFlow::Harvested, released.times(w.over(total)));
                nodes.set(t, fed);
                assert(nodes@ =~= before.update(t as int, fed));
            },
            None => {},
        }
        k += 1;
    }
}

/// Volatile traps: where the electromagnetic field spikes through one, a share
/// of its energy goes to the agents nearby, by inverse distance. The noise is
/// given at every node.
pub fn volatile_trap_discharge(
    nodes: &mut Vec<Node>,
    hash: &SpatialHash,
    sampler: FieldSampler,
    noise: &[Noise],
)
    requires
        noise@.len() == old(nodes)@.len(),
        forall|i: int|
            0 <= i < old(nodes)@.len() ==> reachable(
                (#[trigger] old(nodes)@[i]).position,
                num(VOLATILE_TRAP_RANGE),
            ),
    ensures
        ({
            let traps = spiking_traps(old(nodes)@, sampler, noise@, old(nodes)@.len());
            final(nodes)@ == discharge_all(old(nodes)@, *hash, traps, traps.len())
        }),
        same_places(old(nodes)@, final(nodes)@),
{
    let mut traps: Vec<u64> = Vec::new();
    let mut i: usize = 0;
    while i < nodes.len()
        invariant
            i <= nodes@.len(),
            nodes@ == old(nodes)@,
            noise@.len() == nodes@.len(),
            traps@ == spiking_traps(nodes@, sampler, noise@, i as nat),
        decreases nodes@.len() - i,
    {
        if nodes[i].tagged(VOLATILE_TRAP) && sampler.is_em_spike(noise[i]) {
            traps.push(nodes[i].entity);
        }
        i += 1;
    }
    let mut k: usize = 0;
    while k < traps.len()
        invariant
            k <= traps@.len(),
            forall|i: int|
                0 <= i < old(nodes)@.len() ==> reachable(
                    (#[trigger] old(nodes)@[i]).position,
                    num(VOLATILE_TRAP_RANGE),
                ),
            same_places(old(nodes)@, nodes@),
            nodes@ == discharge_all(old(nodes)@, *hash, traps@, k as nat),
        decreases traps@.len() - k,
    {
        assert forall|i: int| 0 <= i < nodes@.len() implies reachable(
            (#[trigger] nodes@[i]).position,
            num(VOLATILE_TRAP_RANGE),
        ) by {
            assert(reachable(old(nodes)@[i].position, num(VOLATILE_TRAP_RANGE)));
        }
        let trap: u64 = traps[k];
        discharge_one(nodes, hash, trap);
        k += 1;
    }
}

/// Moves half of the victim's energy to whoever consumes it. Returns the share.
pub fn transfer_energy(victim: &mut Physical, killer: &mut Physical) -> (r: Binary32)
    ensures
        r == old(victim).energy.times(num(HALF)),
        *final(victim) == (Physical { energy: old(victim).energy.minus(r), ..*old(victim) }),
        *final(killer) == (Physical { energy: old(killer).energy.plus(r), ..*old(killer) }),
{
    let share: Binary32 = victim.energy.times(num(HALF));
    victim.energy = victim.energy.minus(share);
    killer.energy = killer.energy.plus(share);
    share
}

/// A shelter never raises the drain, whatever the heat and the conductivity.
pub proof fn lemma_shelter_reduces_drain(load: Binary32, conductivity: Binary32)
    requires
        load.finite(),
        load.units() >= 0,
        conductivity.finite(),
        conductivity.units() >= 0,
        drain_rate(load, num(ONE), conductivity).finite(),
    ensures
        drain_rate(load, num(SHELTERED), conductivity).le(
            drain_rate(load, num(ONE), conductivity),
        ),
{
    let open = load.times(num(ONE));
    let closed = load.times(num(SHELTERED));
    let heat_open = num(ONE).plus(open);
    let heat_closed = num(ONE).plus(closed);
    let conducted = num(INERT_DRAIN).plus(num(CONDUCTED_DRAIN).times(conductivity));
    let base = num(BASE_DRAIN);
    lemma_product_finite(base.times(heat_open), conducted);
    lemma_product_finite(base, heat_open);
    lemma_grid_order(0, ONE as nat);
    lemma_grid_order(0, SHELTERED as nat);
    lemma_grid_order(SHELTERED as nat, ONE as nat);
    lemma_grid_order(0, BASE_DRAIN as nat);
    lemma_grid_order(0, INERT_DRAIN as nat);
    lemma_grid_order(0, CONDUCTED_DRAIN as nat);
    assert(grid(0) == 0);
    lemma_one();
    lemma_product_commutes(load, num(ONE));
    lemma_product_commutes(load, num(SHELTERED));
    lemma_product_monotone(num(SHELTERED), num(ONE), load);
    lemma_product_shrinks(load, num(ONE));
    lemma_product_shrinks(load, num(SHELTERED));
    lemma_sum_monotone(closed, open, num(ONE));
    lemma_finite_below(heat_closed, heat_open);
    lemma_product_commutes(base, heat_open);
    lemma_product_commutes(base, heat_closed);
    lemma_product_monotone(heat_closed, heat_open, base);
    lemma_finite_below(base.times(heat_closed), base.times(heat_open));
    assert(conducted.units() >= 0) by {
        lemma_product_monotone(num(0), conductivity, num(CONDUCTED_DRAIN));
        lemma_product_commutes(conductivity, num(CONDUCTED_DRAIN));
        let c = num(CONDUCTED_DRAIN).times(conductivity);
        lemma_sign_of_units(c);
        if c.finite() {
            lemma_sum_not_negative(num(INERT_DRAIN), c);
        }
    }
    lemma_product_monotone(base.times(heat_closed), base.times(heat_open), conducted);
}

/// What lies between zero and a finite number is finite.
proof fn lemma_finite_below(a: Binary32, b: Binary32)
    requires
        !a.nan(),
        b.finite(),
        0 <= a.units() <= b.units(),
    ensures
        a.finite(),
{
    lemma_sign_of_units(a);
    lemma_sign_of_units(b);
    lemma_grid_order(a.magnitude(), b.magnitude());
}

/// Nothing is harvested from slow motion, from afar, or from what is not
/// convertible.
pub proof fn lemma_slow_motion_yields_nothing(
    nodes: Seq<Node>,
    agent: u64,
    pos: Vec2Lite,
    vel: Vec2Lite,
    other: u64,
)
    requires
        node_of(nodes, other) matches Some(o) ==> {
            ||| vel.minus(o.motion()).length().lt(num(HARVEST_MIN_REL_SPEED))
            ||| num(HARVEST_RANGE_SQUARED).lt(o.position.distance_squared(pos))
            ||| !o.tagged(ENERGY_CONVERTIBLE)
        },
    ensures
        harvested(nodes, agent, pos, vel, other) == nodes,
{
}

/// Harvesting moves one amount from one node to one agent: what the node is
/// debited is what the agent is credited, and every other node stays as it was.
pub proof fn lemma_harvest_moves_one_amount(
    nodes: Seq<Node>,
    agent: u64,
    pos: Vec2Lite,
    vel: Vec2Lite,
    other: u64,
)
    requires
        node_of(nodes, agent) is Some,
        node_of(nodes, other) is Some,
        agent != other,
    ensures
        ({
            let i = place_of(nodes, other)->Some_0;
            let j = place_of(nodes, agent)->Some_0;
            let (after, moved) = nodes[i].debited(
                EnergyFlow::Transferred,
                harvest_amount(nodes[i], vel),
            );
            let result = harvested(nodes, agent, pos, vel, other);
            ||| result == nodes
            ||| moved.le(num(0)) && result == nodes.update(i, after)
            ||| i != j && result == nodes.update(i, after).update(
                j,
                nodes[j].credited(EnergyFlow::Harvested, moved),
            )
        }),
{
    lemma_place(nodes, agent);
    lemma_place(nodes, other);
    let i = place_of(nodes, other)->Some_0;
    let (after, moved) = nodes[i].debited(
        EnergyFlow::Transferred,
        harvest_amount(nodes[i], vel),
    );
    lemma_place_same(nodes, nodes.update(i, after), agent);
}

/// A failure of the environment has no attacker: every node that the drain flags
/// for fragmentation is flagged without a killer, and nothing is owed to anyone.
pub proof fn lemma_ambient_failure_has_no_attacker(
    after: Seq<Node>,
    fragments: Seq<Fracture>,
    deaths: Seq<u64>,
    n: nat,
    i: int,
)
    requires
        fragments.len() <= i < drain_queues(after, fragments, deaths, n).0.len(),
    ensures
        drain_queues(after, fragments, deaths, n).0[i].killer is None,
        drain_queues(after, fragments, deaths, n).0[i].share == num(0),
    decreases n,
{
    if n > 0 {
        let before = drain_queues(after, fragments, deaths, (n - 1) as nat).0;
        if i < before.len() {
            lemma_ambient_failure_has_no_attacker(after, fragments, deaths, (n - 1) as nat, i);
        }
    }
}

/// Everyone on the list of the dead is buried: a node of the table whose number is
/// on it is inert when the list is done, and was where it is before.
pub proof fn lemma_the_dead_are_buried(
    nodes: Seq<Node>,
    joints: Seq<(u64, ClampJoint)>,
    queue: Seq<u64>,
    n: nat,
    k: int,
)
    requires
        0 <= k < n <= queue.len(),
        node_of(nodes, queue[k]) is Some,
    ensures
        ({
            let i = place_of(nodes, queue[k])->Some_0;
            let table = buried(nodes, joints, queue, n).0;
            &&& place_of(table, queue[k]) == Some(i)
            &&& table[i] == inert(nodes[i])
        }),
    decreases n,
{
    let i = place_of(nodes, queue[k])->Some_0;
    let before = buried(nodes, joints, queue, (n - 1) as nat).0;
    lemma_burial_keeps_places(nodes, joints, queue, (n - 1) as nat);
    lemma_burial_keeps_places(nodes, joints, queue, n);
    lemma_place_same(nodes, before, queue[k]);
    lemma_place_same(nodes, before, queue[n - 1]);
    lemma_place_same(nodes, buried(nodes, joints, queue, n).0, queue[k]);
    lemma_place(nodes, queue[k]);
    lemma_place(nodes, queue[n - 1]);
    if k < n - 1 {
        lemma_the_dead_are_buried(nodes, joints, queue, (n - 1) as nat, k);
        lemma_inert_once(nodes[i]);
    } else {
        lemma_buried_is_inert_or_untouched(nodes, joints, queue, (n - 1) as nat, i);
        lemma_inert_once(nodes[i]);
    }
}

/// Burying the depleted keeps every other agent steered by a controller of its
/// own.
pub proof fn lemma_burial_keeps_agents_steered<A>(
    nodes: Seq<Node>,
    joints: Seq<(u64, ClampJoint)>,
    queue: Seq<u64>,
    agents: WorldAgents<A>,
)
    requires
        steered(nodes, agents),
    ensures
        steered(buried(nodes, joints, queue, queue.len()).0, agents),
{
    let after = buried(nodes, joints, queue, queue.len()).0;
    lemma_burial_keeps_places(nodes, joints, queue, queue.len());
    assert forall|i: int| 0 <= i < after.len() implies (#[trigger] after[i]).marker is None
        || after[i].marker == nodes[i].marker by {
        lemma_buried_is_inert_or_untouched(nodes, joints, queue, queue.len(), i);
    }
    lemma_fewer_agents_are_steered(nodes, after, agents);
}

/// Burying twice is burying once.
proof fn lemma_inert_once(node: Node)
    ensures
        inert(inert(node)) == inert(node),
{
    if node.tags is Some {
        let t = node.tags->Some_0.0.0;
        assert((t & !0x40u64 & !0x02u64) & !0x40u64 & !0x02u64 == t & !0x40u64 & !0x02u64)
            by (bit_vector);
    }
}

/// Burial changes no number and no place.
proof fn lemma_burial_keeps_places(
    nodes: Seq<Node>,
    joints: Seq<(u64, ClampJoint)>,
    queue: Seq<u64>,
    n: nat,
)
    requires
        n <= queue.len(),
    ensures
        buried(nodes, joints, queue, n).0.len() == nodes.len(),
        forall|j: int|
            0 <= j < nodes.len() ==> (#[trigger] nodes[j]).entity == buried(
                nodes,
                joints,
                queue,
                n,
            ).0[j].entity,
    decreases n,
{
    if n > 0 {
        lemma_burial_keeps_places(nodes, joints, queue, (n - 1) as nat);
        lemma_place(buried(nodes, joints, queue, (n - 1) as nat).0, queue[n - 1]);
    }
}

/// A node is buried or it is as it was.
proof fn lemma_buried_is_inert_or_untouched(
    nodes: Seq<Node>,
    joints: Seq<(u64, ClampJoint)>,
    queue: Seq<u64>,
    n: nat,
    i: int,
)
    requires
        n <= queue.len(),
        0 <= i < nodes.len(),
    ensures
        ({
            let after = buried(nodes, joints, queue, n).0[i];
            after == nodes[i] || after == inert(nodes[i])
        }),
    decreases n,
{
    if n > 0 {
        let before = buried(nodes, joints, queue, (n - 1) as nat).0;
        lemma_buried_is_inert_or_untouched(nodes, joints, queue, (n - 1) as nat, i);
        lemma_burial_keeps_places(nodes, joints, queue, (n - 1) as nat);
        lemma_place(before, queue[n - 1]);
        lemma_inert_once(nodes[i]);
    }
}

/// A depleted agent is an agent no more, while its matter stays where it is with
/// the mass and the structure it had. The drain leaves it alone from then on.
pub proof fn lemma_death_leaves_matter(node: Node)
    ensures
        !inert(node).tagged(AGENT),
        !inert(node).tagged(CLAMP_CAPABLE),
        inert(node).marker is None,
        inert(node).physical == node.physical,
        inert(node).position == node.position,
        inert(node).entity == node.entity,
        inert(node).ledger == node.ledger,
        !drains(inert(node)),
{
    if node.tags is Some {
        lemma_fragment_is_inert(
            node.tags->Some_0.0,
            TagMutation { happens: false, bit: 0, sets: false },
        );
    }
}

} // verus!
