//! Actuators. The world interprets and bounds every command; an agent only ever
//! emits numbers.
//!
//! - Clamp, above one half: join the nearest physical neighbor. Holding on costs
//!   energy, and release starts a cooldown.
//! - Fabricate, above one half: set a shelter next to the agent, for mass and
//!   energy, with a cooldown.
//! - Oscillator: drive the broadcast towards the commanded values, for energy.

use crate::binary32::model::grid;
use crate::binary32::model::lemma_grid_order;
use crate::binary32::num;
use crate::binary32::shares::lemma_parts_make_up;
use crate::binary32::shares::parts_make_up;
use crate::binary32::Binary32;
use crate::components::find;
use crate::components::is_listed;
use crate::components::lemma_place;
use crate::components::lemma_place_same;
use crate::components::lookup;
use crate::components::node_of;
use crate::components::place_of;
use crate::components::ClampJoint;
use crate::components::ClampState;
use crate::components::Conductivity;
use crate::components::EnergyFlow;
use crate::components::EnergyLedger;
use crate::components::FabricateCooldown;
use crate::components::ImpulseAccum;
use crate::components::Node;
use crate::components::NodeRng;
use crate::components::Oscillator;
use crate::components::Physical;
use crate::components::Tags;
use crate::components::Yield;
use crate::economy::FIXED_DT;
use crate::fragmentation::MIN_MASS;
use crate::fragmentation::SHELTER_CONDUCTIVITY;
use crate::interface::action::ActionTensor;
use crate::interface::observation::HALF;
use crate::interface::vector::Vec2Lite;
use crate::interface::vector::ONE;
use crate::spatial_hash::reachable;
use crate::spatial_hash::SpatialHash;
use crate::tags::CustomTags;
use crate::tags::SHELTER;
use vstd::prelude::*;

verus! {

/// Pattern of the energy per second of holding a clamp, 0.4.
pub const CLAMP_DRAIN: u32 = 0x3ecc_cccd;

/// Pattern of the seconds before a clamp can engage again, 1.5.
pub const CLAMP_COOLDOWN: u32 = 0x3fc0_0000;

/// Pattern of the energy of one fabrication, 3.
pub const FABRICATE_ENERGY_COST: u32 = 0x4040_0000;

/// Pattern of the mass of one fabrication, one half.
pub const FABRICATE_MASS_COST: u32 = 0x3f00_0000;

/// Pattern of the seconds between fabrications, 3.
pub const FABRICATE_COOLDOWN: u32 = 0x4040_0000;

/// Pattern of how quickly an oscillator follows, 4 per second.
pub const OSC_RESPONSE: u32 = 0x4080_0000;

/// Pattern of the energy per change of frequency, 0.005.
pub const OSC_COST: u32 = 0x3ba3_d70a;

/// Pattern of the reach of a clamp, 12, and of its square.
pub const CLAMP_REACH: u32 = 0x4140_0000;

pub const CLAMP_REACH_SQUARED: u32 = 0x4310_0000;

/// Pattern of the structure of a fabricated shelter, 12.
pub const SHELTER_STRUCTURE: u32 = 0x4140_0000;

/// What the engine is asked to do.
#[derive(Clone, Copy, Debug, PartialEq, Eq, Structural)]
pub enum Effect {
    /// Join two bodies; the joint has this number.
    Join(u64, ClampJoint),
    /// Remove a joint.
    Cut(u64),
    /// Add a node.
    Spawn(Node),
}

/// The joints among the first `n` that end at one of the bodies.
pub open spec fn joints_at(
    joints: Seq<(u64, ClampJoint)>,
    entities: Seq<u64>,
    n: nat,
) -> Seq<u64>
    decreases n,
{
    if n == 0 {
        Seq::empty()
    } else {
        let rest = joints_at(joints, entities, (n - 1) as nat);
        let (joint, ends) = joints[n - 1];
        if entities.contains(ends.owner) || entities.contains(ends.target) {
            rest.push(joint)
        } else {
            rest
        }
    }
}

/// The order in which bodies leave the world: every joint at one of them first,
/// then the bodies.
pub fn despawn_physical_entities(entities: &[u64], joints: &[(u64, ClampJoint)]) -> (r: Vec<u64>)
    ensures
        r@ == joints_at(joints@, entities@, joints@.len()) + entities@,
{
    let mut out: Vec<u64> = Vec::new();
    let mut i: usize = 0;
    while i < joints.len()
        invariant
            i <= joints@.len(),
            out@ == joints_at(joints@, entities@, i as nat),
        decreases joints@.len() - i,
    {
        let (joint, ends) = joints[i];
        if is_listed(entities, ends.owner) || is_listed(entities, ends.target) {
            out.push(joint);
        }
        i += 1;
    }
    out.extend_from_slice(entities);
    assert(out@ =~= joints_at(joints@, entities@, joints@.len()) + entities@);
    out
}

/// Is the node there, with a body?
pub open spec fn embodied(nodes: Seq<Node>, entity: u64) -> bool {
    node_of(nodes, entity) matches Some(n) && n.physical is Some
}

fn is_embodied(nodes: &Vec<Node>, entity: u64) -> (r: bool)
    ensures
        r == embodied(nodes@, entity),
{
    match lookup(nodes, entity) {
        Some(n) => n.physical.is_some(),
        None => false,
    }
}

/// Is the joint still held by its owner?
pub open spec fn held(nodes: Seq<Node>, joint: u64, ends: ClampJoint) -> bool {
    embodied(nodes, ends.owner) && (node_of(nodes, ends.owner)->Some_0.clamp matches Some(c)
        && c.joint == Some(joint))
}

/// The joints among the first `n` that nobody holds.
pub open spec fn orphans(nodes: Seq<Node>, joints: Seq<(u64, ClampJoint)>, n: nat) -> Seq<u64>
    decreases n,
{
    if n == 0 {
        Seq::empty()
    } else {
        let rest = orphans(nodes, joints, (n - 1) as nat);
        let (joint, ends) = joints[n - 1];
        if held(nodes, joint, ends) {
            rest
        } else {
            rest.push(joint)
        }
    }
}

/// Is there a joint with this number?
pub open spec fn joint_exists(joints: Seq<(u64, ClampJoint)>, joint: u64) -> bool {
    exists|i: int| 0 <= i < joints.len() && (#[trigger] joints[i]).0 == joint
}

fn has_joint(joints: &[(u64, ClampJoint)], joint: u64) -> (r: bool)
    ensures
        r == joint_exists(joints@, joint),
{
    let mut i: usize = 0;
    while i < joints.len()
        invariant
            i <= joints@.len(),
            forall|j: int| 0 <= j < i ==> (#[trigger] joints@[j]).0 != joint,
        decreases joints@.len() - i,
    {
        if joints[i].0 == joint {
            return true;
        }
        i += 1;
    }
    false
}

/// Has the clamp lost its target or its joint?
pub open spec fn torn(nodes: Seq<Node>, joints: Seq<(u64, ClampJoint)>, clamp: ClampState) -> bool {
    ||| clamp.target matches Some(t) && !embodied(nodes, t)
    ||| clamp.joint matches Some(j) && !joint_exists(joints, j)
}

/// A clamp that let go.
pub open spec fn let_go() -> ClampState {
    ClampState { target: None, joint: None, cooldown: num(CLAMP_COOLDOWN) }
}

/// Is the clamp of the node torn?
pub open spec fn torn_node(nodes: Seq<Node>, joints: Seq<(u64, ClampJoint)>, node: Node) -> bool {
    node.clamp matches Some(c) && torn(nodes, joints, c)
}

/// The joints that torn clamps among the first `n` nodes still name.
pub open spec fn loose_joints(
    nodes: Seq<Node>,
    joints: Seq<(u64, ClampJoint)>,
    n: nat,
) -> Seq<u64>
    decreases n,
{
    if n == 0 {
        Seq::empty()
    } else {
        let rest = loose_joints(nodes, joints, (n - 1) as nat);
        match nodes[n - 1].clamp {
            Some(c) if torn(nodes, joints, c) => match c.joint {
                Some(j) => rest.push(j),
                None => rest,
            },
            _ => rest,
        }
    }
}

/// The table with every torn clamp reset.
pub open spec fn mended(nodes: Seq<Node>, joints: Seq<(u64, ClampJoint)>) -> Seq<Node> {
    Seq::new(
        nodes.len(),
        |i: int|
            if torn_node(nodes, joints, nodes[i]) {
                Node { clamp: Some(let_go()), ..nodes[i] }
            } else {
                nodes[i]
            },
    )
}

/// Resets every clamp whose target or joint is gone, and returns the joints to
/// remove: those that nobody holds, then those that torn clamps name.
pub fn cleanup_clamp_joints(nodes: &mut Vec<Node>, joints: &[(u64, ClampJoint)]) -> (r: Vec<u64>)
    ensures
        r@ == orphans(old(nodes)@, joints@, joints@.len()) + loose_joints(
            old(nodes)@,
            joints@,
            old(nodes)@.len(),
        ),
        final(nodes)@ == mended(old(nodes)@, joints@),
{
    let ghost start = nodes@;
    let mut out: Vec<u64> = Vec::new();
    let mut i: usize = 0;
    while i < joints.len()
        invariant
            i <= joints@.len(),
            nodes@ == start,
            out@ == orphans(start, joints@, i as nat),
        decreases joints@.len() - i,
    {
        let (joint, ends) = joints[i];
        let kept: bool = match lookup(nodes, ends.owner) {
            Some(n) => n.physical.is_some() && (match n.clamp {
                Some(c) => match c.joint {
                    Some(j) => j == joint,
                    None => false,
                },
                None => false,
            }),
            None => false,
        };
        assert(kept == held(start, joint, ends));
        if !kept {
            out.push(joint);
        }
        i += 1;
    }
    let ghost head = out@;
    let mut lost: Vec<bool> = Vec::new();
    let mut k: usize = 0;
    assert(out@ =~= head + loose_joints(start, joints@, 0));
    while k < nodes.len()
        invariant
            k <= nodes@.len(),
            nodes@ == start,
            lost@.len() == k,
            forall|j: int| 0 <= j < k ==> #[trigger] lost@[j] == torn_node(start, joints@, start[j]),
            out@ == head + loose_joints(start, joints@, k as nat),
        decreases nodes@.len() - k,
    {
        let mut gone: bool = false;
        match nodes[k].clamp {
            Some(c) => {
                let target_gone: bool = match c.target {
                    Some(t) => !is_embodied(nodes, t),
                    None => false,
                };
                let joint_gone: bool = match c.joint {
                    Some(j) => !has_joint(joints, j),
                    None => false,
                };
                if target_gone || joint_gone {
                    gone = true;
                    match c.joint {
                        Some(j) => {
                            out.push(j);
                        },
                        None => {},
                    }
                }
            },
            None => {},
        }
        lost.push(gone);
        assert(out@ =~= head + loose_joints(start, joints@, (k + 1) as nat));
        k += 1;
    }
    let ghost goal = mended(start, joints@);
    let mut m: usize = 0;
    assert(nodes@ =~= goal.take(0) + start.skip(0));
    while m < nodes.len()
        invariant
            m <= nodes@.len(),
            nodes@.len() == start.len(),
            lost@.len() == start.len(),
            goal.len() == start.len(),
            forall|j: int|
                0 <= j < start.len() ==> #[trigger] lost@[j] == torn_node(start, joints@, start[j]),
            goal == mended(start, joints@),
            nodes@ == goal.take(m as int) + start.skip(m as int),
        decreases nodes@.len() - m,
    {
        assert(nodes@[m as int] == start[m as int]);
        if lost[m] {
            let mut node: Node = nodes[m];
            node.clamp = Some(
                ClampState { target: None, joint: None, cooldown: num(CLAMP_COOLDOWN) },
            );
            nodes.set(m, node);
        }
        assert(nodes@[m as int] == goal[m as int]);
        assert(nodes@ =~= goal.take(m + 1) + start.skip(m + 1));
        m += 1;
    }
    assert(nodes@ =~= goal);
    out
}

/// After the clean-up no clamp names a target without a body or a joint that was
/// not there.
pub proof fn lemma_no_clamp_stays_torn(
    nodes: Seq<Node>,
    joints: Seq<(u64, ClampJoint)>,
    i: int,
)
    requires
        0 <= i < nodes.len(),
    ensures
        !torn_node(mended(nodes, joints), joints, mended(nodes, joints)[i]),
{
    let after = mended(nodes, joints);
    match after[i].clamp {
        Some(c) => match c.target {
            Some(t) => {
                lemma_place_same(nodes, after, t);
                lemma_place(nodes, t);
            },
            None => {},
        },
        None => {},
    }
}

/// A joint goes as soon as either of its ends has no body, given that whoever
/// holds a joint holds what it joins.
pub proof fn lemma_orphaned_joint_goes(
    nodes: Seq<Node>,
    joints: Seq<(u64, ClampJoint)>,
    k: int,
)
    requires
        0 <= k < joints.len(),
        !embodied(nodes, joints[k].1.owner) || !embodied(nodes, joints[k].1.target),
        held(nodes, joints[k].0, joints[k].1) ==> node_of(
            nodes,
            joints[k].1.owner,
        )->Some_0.clamp->Some_0.target == Some(joints[k].1.target),
    ensures
        (orphans(nodes, joints, joints.len()) + loose_joints(nodes, joints, nodes.len())).contains(
            joints[k].0,
        ),
{
    let lone = orphans(nodes, joints, joints.len());
    let loose = loose_joints(nodes, joints, nodes.len());
    let joint = joints[k].0;
    if held(nodes, joint, joints[k].1) {
        lemma_place(nodes, joints[k].1.owner);
        let i = place_of(nodes, joints[k].1.owner)->Some_0;
        lemma_loose_is_listed(nodes, joints, i, nodes.len());
        let m = choose|m: int| 0 <= m < loose.len() && loose[m] == joint;
        assert((lone + loose)[lone.len() + m] == joint);
    } else {
        lemma_orphan_is_listed(nodes, joints, k, joints.len());
        let m = choose|m: int| 0 <= m < lone.len() && lone[m] == joint;
        assert((lone + loose)[m] == joint);
    }
}

/// A joint that nobody holds is among the orphans.
proof fn lemma_orphan_is_listed(
    nodes: Seq<Node>,
    joints: Seq<(u64, ClampJoint)>,
    k: int,
    n: nat,
)
    requires
        0 <= k < n <= joints.len(),
        !held(nodes, joints[k].0, joints[k].1),
    ensures
        orphans(nodes, joints, n).contains(joints[k].0),
    decreases n,
{
    let rest = orphans(nodes, joints, (n - 1) as nat);
    let all = orphans(nodes, joints, n);
    if k < n - 1 {
        lemma_orphan_is_listed(nodes, joints, k, (n - 1) as nat);
        let m = choose|m: int| 0 <= m < rest.len() && rest[m] == joints[k].0;
        assert(all[m] == joints[k].0);
    } else {
        assert(all[rest.len() as int] == joints[k].0);
    }
}

/// The joint that a torn clamp names is among the loose ones.
proof fn lemma_loose_is_listed(
    nodes: Seq<Node>,
    joints: Seq<(u64, ClampJoint)>,
    i: int,
    n: nat,
)
    requires
        0 <= i < n <= nodes.len(),
        torn_node(nodes, joints, nodes[i]),
        nodes[i].clamp->Some_0.joint is Some,
    ensures
        loose_joints(nodes, joints, n).contains(nodes[i].clamp->Some_0.joint->Some_0),
    decreases n,
{
    let joint = nodes[i].clamp->Some_0.joint->Some_0;
    let rest = loose_joints(nodes, joints, (n - 1) as nat);
    let all = loose_joints(nodes, joints, n);
    if i < n - 1 {
        lemma_loose_is_listed(nodes, joints, i, (n - 1) as nat);
        let m = choose|m: int| 0 <= m < rest.len() && rest[m] == joint;
        assert(all[m] == joint);
    } else {
        assert(all[rest.len() as int] == joint);
    }
}

/// Can the agent at `pos` clamp on to `other`? It must be another node, with a
/// mask, within reach.
pub open spec fn graspable(nodes: Seq<Node>, entity: u64, pos: Vec2Lite, other: u64) -> bool {
    &&& other != entity
    &&& node_of(nodes, other) matches Some(o) && o.tags is Some && !num(CLAMP_REACH_SQUARED).lt(
        o.position.distance_squared(pos),
    )
}

/// How far `other` is, squared.
pub open spec fn grasp_distance(nodes: Seq<Node>, pos: Vec2Lite, other: u64) -> Binary32 {
    node_of(nodes, other)->Some_0.position.distance_squared(pos)
}

/// The nearest of the first `n` of those nearby; the first of equally near ones.
pub open spec fn nearest_of(
    nodes: Seq<Node>,
    entity: u64,
    pos: Vec2Lite,
    near: Seq<u64>,
    n: nat,
) -> Option<(u64, Binary32)>
    decreases n,
{
    if n == 0 {
        None
    } else {
        let best = nearest_of(nodes, entity, pos, near, (n - 1) as nat);
        let other = near[n - 1];
        if graspable(nodes, entity, pos, other) {
            let d2 = grasp_distance(nodes, pos, other);
            match best {
                Some((_, bd)) if bd.le(d2) => best,
                _ => Some((other, d2)),
            }
        } else {
            best
        }
    }
}

/// The nearest neighbor that a clamp can reach.
pub open spec fn nearest_neighbor_spec(
    nodes: Seq<Node>,
    hash: SpatialHash,
    entity: u64,
    pos: Vec2Lite,
) -> Option<u64> {
    let near = hash.found(pos, num(CLAMP_REACH));
    match nearest_of(nodes, entity, pos, near, near.len()) {
        Some((other, _)) => Some(other),
        None => None,
    }
}

/// Finds the nearest neighbor that a clamp can reach.
pub fn nearest_neighbor(
    nodes: &Vec<Node>,
    hash: &SpatialHash,
    entity: u64,
    pos: Vec2Lite,
) -> (r: Option<u64>)
    requires
        reachable(pos, num(CLAMP_REACH)),
    ensures
        r == nearest_neighbor_spec(nodes@, *hash, entity, pos),
{
    let mut near: Vec<u64> = Vec::new();
    hash.query_radius(pos, num(CLAMP_REACH), &mut near);
    let mut best: Option<(u64, Binary32)> = None;
    let mut i: usize = 0;
    while i < near.len()
        invariant
            i <= near@.len(),
            best == nearest_of(nodes@, entity, pos, near@, i as nat),
        decreases near@.len() - i,
    {
        let other: u64 = near[i];
        if other != entity {
            match lookup(nodes, other) {
                Some(o) => {
                    let d2: Binary32 = o.position.distance_squared(pos);
                    if o.tags.is_some() && !num(CLAMP_REACH_SQUARED).lt(d2) {
                        let closer: bool = match best {
                            Some((_, bd)) => !bd.le(d2),
                            None => true,
                        };
                        if closer {
                            best = Some((other, d2));
                        }
                    }
                },
                None => {},
            }
        }
        i += 1;
    }
    match best {
        Some((other, _)) => Some(other),
        None => None,
    }
}

/// The clamp takes the nearest of those it can reach, as long as the distances
/// are numbers; and it finds one whenever there is one.
pub proof fn lemma_nearest_is_nearest(
    nodes: Seq<Node>,
    entity: u64,
    pos: Vec2Lite,
    near: Seq<u64>,
    n: nat,
)
    requires
        n <= near.len(),
        forall|j: int|
            0 <= j < n && graspable(nodes, entity, pos, #[trigger] near[j]) ==> !grasp_distance(
                nodes,
                pos,
                near[j],
            ).nan(),
    ensures
        match nearest_of(nodes, entity, pos, near, n) {
            Some((other, d2)) => {
                &&& graspable(nodes, entity, pos, other)
                &&& d2 == grasp_distance(nodes, pos, other)
                &&& forall|j: int|
                    0 <= j < n && graspable(nodes, entity, pos, #[trigger] near[j]) ==> d2.le(
                        grasp_distance(nodes, pos, near[j]),
                    )
            },
            None => forall|j: int|
                0 <= j < n ==> !graspable(nodes, entity, pos, #[trigger] near[j]),
        },
    decreases n,
{
    if n > 0 {
        lemma_nearest_is_nearest(nodes, entity, pos, near, (n - 1) as nat);
        let other = near[n - 1];
        if graspable(nodes, entity, pos, other) {
            assert(!grasp_distance(nodes, pos, near[n - 1]).nan());
        }
    }
}

/// What an oscillator's drive costs.
pub open spec fn drive_cost(osc: Oscillator, action: ActionTensor) -> Binary32 {
    action.osc_freq.minus(osc.freq).abs().times(num(OSC_COST))
}

/// How far an oscillator follows in one step.
pub open spec fn response() -> Binary32 {
    num(OSC_RESPONSE).times(num(FIXED_DT)).clamp(num(0), num(ONE))
}

/// The node after its oscillator was driven: only where the reserve funds it.
pub open spec fn driven(node: Node, action: ActionTensor) -> Node {
    match node.oscillator {
        None => node,
        Some(osc) => {
            let cost = drive_cost(osc, action);
            let moved = Oscillator {
                freq: osc.freq.plus(action.osc_freq.minus(osc.freq).times(response())),
                phase: action.osc_phase,
                baseline_freq: osc.baseline_freq,
            };
            match (node.physical, node.ledger) {
                (Some(p), Some(l)) => {
                    let b = l.debited_exact(p, EnergyFlow::Actuation, cost);
                    let paid = Node {
                        physical: Some(b.physical),
                        ledger: Some(b.ledger),
                        ..node
                    };
                    if EnergyLedger::funds(p, EnergyFlow::Actuation, cost) {
                        Node { oscillator: Some(moved), ..paid }
                    } else {
                        paid
                    }
                },
                _ => if cost.eq_num(num(0)) {
                    Node { oscillator: Some(moved), ..node }
                } else {
                    node
                },
            }
        },
    }
}

/// The band of the response is in order.
proof fn lemma_response_band()
    ensures
        num(0).le(num(ONE)),
{
    lemma_grid_order(0, ONE as nat);
    assert(grid(0) == 0);
}

/// Drives the oscillator of a node.
fn drive(node: &mut Node, action: ActionTensor)
    ensures
        *final(node) == driven(*old(node), action),
{
    proof {
        lemma_response_band();
    }
    match node.oscillator {
        None => {},
        Some(o) => {
            let mut osc: Oscillator = o;
            let k: Binary32 = num(OSC_RESPONSE).times(num(FIXED_DT)).clamp(num(0), num(ONE));
            let gap: Binary32 = action.osc_freq.minus(osc.freq);
            let cost: Binary32 = gap.abs().times(num(OSC_COST));
            let mut can_drive: bool = cost.eq_num(num(0));
            match (node.physical, node.ledger) {
                (Some(p), Some(l)) => {
                    let mut physical: Physical = p;
                    let mut ledger: EnergyLedger = l;
                    can_drive = ledger.debit_exact(&mut physical, EnergyFlow::Actuation, cost);
                    node.physical = Some(physical);
                    node.ledger = Some(ledger);
                },
                _ => {},
            }
            if can_drive {
                osc.freq = osc.freq.plus(gap.times(k));
                osc.phase = action.osc_phase;
                node.oscillator = Some(osc);
            }
        },
    }
}

/// The clamp after its command was heard: it counts its cooldown down, engages
/// the nearest neighbor, or lets go.
pub open spec fn commanded(
    clamp: ClampState,
    action: ActionTensor,
    nearest: Option<u64>,
    joint: u64,
) -> ClampState {
    let cooled = if num(0).lt(clamp.cooldown) {
        clamp.cooldown.minus(num(FIXED_DT))
    } else {
        clamp.cooldown
    };
    let ready = ClampState { cooldown: cooled, ..clamp };
    if num(HALF).lt(action.clamp) {
        if cooled.le(num(0)) && clamp.target is None && nearest is Some {
            ClampState { target: nearest, joint: Some(joint), cooldown: cooled }
        } else {
            ready
        }
    } else {
        ClampState {
            target: None,
            joint: None,
            cooldown: if clamp.joint is Some {
                num(CLAMP_COOLDOWN)
            } else {
                cooled
            },
        }
    }
}

/// Does the command engage the clamp?
pub open spec fn engages(clamp: ClampState, action: ActionTensor, nearest: Option<u64>) -> bool {
    let cooled = if num(0).lt(clamp.cooldown) {
        clamp.cooldown.minus(num(FIXED_DT))
    } else {
        clamp.cooldown
    };
    num(HALF).lt(action.clamp) && cooled.le(num(0)) && clamp.target is None && nearest is Some
}

/// What the command asks of the engine.
pub open spec fn command_effects(
    clamp: ClampState,
    action: ActionTensor,
    nearest: Option<u64>,
    entity: u64,
    joint: u64,
) -> Seq<Effect> {
    if engages(clamp, action, nearest) {
        seq![Effect::Join(joint, ClampJoint { owner: entity, target: nearest->Some_0 })]
    } else if !num(HALF).lt(action.clamp) && clamp.joint is Some {
        seq![Effect::Cut(clamp.joint->Some_0)]
    } else {
        Seq::empty()
    }
}

/// The joint that a clamp lets go of.
pub open spec fn cut_of(clamp: ClampState) -> Seq<Effect> {
    match clamp.joint {
        Some(j) => seq![Effect::Cut(j)],
        None => Seq::empty(),
    }
}

/// The node after it paid for an engaged clamp, and what that asks of the
/// engine. A clamp lets go of a target that is gone, and when the reserve is
/// empty.
pub open spec fn held_on(nodes: Seq<Node>, node: Node, clamp: ClampState) -> (Node, Seq<Effect>) {
    match clamp.target {
        None => (Node { clamp: Some(clamp), ..node }, Seq::empty()),
        Some(target) => if node_of(nodes, target) is None {
            (Node { clamp: Some(let_go()), ..node }, cut_of(clamp))
        } else {
            match (node.physical, node.ledger) {
                (Some(p), Some(l)) => {
                    let b = l.debited_available(
                        p,
                        EnergyFlow::Actuation,
                        num(CLAMP_DRAIN).times(num(FIXED_DT)),
                    );
                    let paid = Node { physical: Some(b.physical), ledger: Some(b.ledger), ..node };
                    if b.physical.energy.le(num(0)) {
                        (Node { clamp: Some(let_go()), ..paid }, cut_of(clamp))
                    } else {
                        (Node { clamp: Some(clamp), ..paid }, Seq::empty())
                    }
                },
                _ => (Node { clamp: Some(clamp), ..node }, Seq::empty()),
            }
        },
    }
}

/// The node after its clamp acted, and what that asks of the engine.
pub open spec fn clamped(
    nodes: Seq<Node>,
    hash: SpatialHash,
    node: Node,
    action: ActionTensor,
    joint: u64,
) -> (Node, Seq<Effect>) {
    match node.clamp {
        None => (node, Seq::empty()),
        Some(clamp) => {
            let nearest = nearest_neighbor_spec(nodes, hash, node.entity, node.position);
            let now = commanded(clamp, action, nearest, joint);
            let (after, last) = held_on(nodes, node, now);
            (after, command_effects(clamp, action, nearest, node.entity, joint) + last)
        },
    }
}

/// Pays for an engaged clamp, or lets go.
fn hold(nodes: &Vec<Node>, node: &mut Node, clamp: ClampState, effects: &mut Vec<Effect>)
    ensures
        *final(node) == held_on(nodes@, *old(node), clamp).0,
        final(effects)@ == old(effects)@ + held_on(nodes@, *old(node), clamp).1,
{
    let mut release: bool = false;
    match clamp.target {
        None => {},
        Some(target) => match find(nodes, target) {
            None => {
                release = true;
            },
            Some(_) => match (node.physical, node.ledger) {
                (Some(p), Some(l)) => {
                    let mut physical: Physical = p;
                    let mut ledger: EnergyLedger = l;
                    let _paid: Binary32 = ledger.debit_available(
                        &mut physical,
                        EnergyFlow::Actuation,
                        num(CLAMP_DRAIN).times(num(FIXED_DT)),
                    );
                    node.physical = Some(physical);
                    node.ledger = Some(ledger);
                    release = physical.energy.le(num(0));
                },
                _ => {},
            },
        },
    }
    if release {
        match clamp.joint {
            Some(j) => {
                effects.push(Effect::Cut(j));
            },
            None => {},
        }
        node.clamp = Some(
            ClampState { target: None, joint: None, cooldown: num(CLAMP_COOLDOWN) },
        );
    } else {
        node.clamp = Some(clamp);
    }
    assert(effects@ =~= old(effects)@ + held_on(nodes@, *old(node), clamp).1);
}

/// Lets the clamp of a node act.
fn act_clamp(
    nodes: &Vec<Node>,
    hash: &SpatialHash,
    node: &mut Node,
    action: ActionTensor,
    joint: u64,
    effects: &mut Vec<Effect>,
)
    requires
        reachable(old(node).position, num(CLAMP_REACH)),
    ensures
        *final(node) == clamped(nodes@, *hash, *old(node), action, joint).0,
        final(effects)@ == old(effects)@ + clamped(nodes@, *hash, *old(node), action, joint).1,
{
    let ghost nearest = nearest_neighbor_spec(nodes@, *hash, node.entity, node.position);
    match node.clamp {
        None => {
            assert(effects@ =~= old(effects)@ + clamped(
                nodes@,
                *hash,
                *old(node),
                action,
                joint,
            ).1);
        },
        Some(c) => {
            let mut clamp: ClampState = c;
            if num(0).lt(clamp.cooldown) {
                clamp.cooldown = clamp.cooldown.minus(num(FIXED_DT));
            }
            if num(HALF).lt(action.clamp) {
                if clamp.cooldown.le(num(0)) && clamp.target.is_none() {
                    match nearest_neighbor(nodes, hash, node.entity, node.position) {
                        Some(target) => {
                            clamp.target = Some(target);
                            clamp.joint = Some(joint);
                            effects.push(
                                Effect::Join(joint, ClampJoint { owner: node.entity, target }),
                            );
                        },
                        None => {},
                    }
                }
            } else {
                match clamp.joint {
                    Some(j) => {
                        effects.push(Effect::Cut(j));
                        clamp.cooldown = num(CLAMP_COOLDOWN);
                    },
                    None => {},
                }
                clamp.joint = None;
                clamp.target = None;
            }
            assert(clamp == commanded(c, action, nearest, joint));
            let ghost middle = effects@;
            assert(middle =~= old(effects)@ + command_effects(
                c,
                action,
                nearest,
                old(node).entity,
                joint,
            ));
            hold(nodes, node, clamp, effects);
            assert(effects@ =~= old(effects)@ + clamped(
                nodes@,
                *hash,
                *old(node),
                action,
                joint,
            ).1);
        },
    }
}

pub open spec fn spawn_structure_spec(pos: Vec2Lite, mass: Binary32, energy: Binary32) -> Node {
    Node {
        body_mass: Some(mass),
        physical: Some(Physical { mass, structure: num(SHELTER_STRUCTURE), energy }),
        yield_thresh: Some(Yield(num(SHELTER_STRUCTURE))),
        conductivity: Some(Conductivity(num(SHELTER_CONDUCTIVITY))),
        tags: Some(Tags(CustomTags::from_bits(SHELTER))),
        impulse: Some(ImpulseAccum { value: num(0), source: None }),
        ledger: Some(EnergyLedger::opened(0)),
        node_rng: Some(NodeRng(0)),
        ..Node::bare(0, pos)
    }
}

/// A fabricated shelter: inert material of low conductivity. Its number is given
/// by the engine.
#[verifier::when_used_as_spec(spawn_structure_spec)]
pub fn spawn_structure(pos: Vec2Lite, mass: Binary32, energy: Binary32) -> (r: Node)
    ensures
        r == spawn_structure_spec(pos, mass, energy),
{
    let mut node: Node = Node::bare(0, pos);
    node.body_mass = Some(mass);
    node.physical = Some(Physical { mass, structure: num(SHELTER_STRUCTURE), energy });
    node.yield_thresh = Some(Yield(num(SHELTER_STRUCTURE)));
    node.conductivity = Some(Conductivity(num(SHELTER_CONDUCTIVITY)));
    node.tags = Some(Tags(CustomTags::from_bits(SHELTER)));
    node.impulse = Some(ImpulseAccum { value: num(0), source: None });
    node.ledger = Some(EnergyLedger::opened(0));
    node.node_rng = Some(NodeRng(0));
    node
}

/// Can the node pay for a shelter?
pub open spec fn affords(physical: Physical) -> bool {
    num(FABRICATE_ENERGY_COST).le(physical.energy) && num(FABRICATE_MASS_COST).le(physical.mass)
}

/// The node after it paid for a shelter.
pub open spec fn built(node: Node, physical: Physical, ledger: EnergyLedger) -> Node {
    let b = ledger.debited_exact(physical, EnergyFlow::Fabrication, num(FABRICATE_ENERGY_COST));
    let mass = physical.mass.minus(num(FABRICATE_MASS_COST));
    Node {
        physical: Some(Physical { mass, ..b.physical }),
        ledger: Some(b.ledger),
        body_mass: match node.body_mass {
            Some(_) => Some(mass.max(num(MIN_MASS))),
            None => None,
        },
        fabricate: Some(FabricateCooldown { remaining: num(FABRICATE_COOLDOWN) }),
        ..node
    }
}

/// The node after its fabricator acted, and what that asks of the engine.
pub open spec fn fabricated(node: Node, action: ActionTensor) -> (Node, Seq<Effect>) {
    match node.fabricate {
        None => (node, Seq::empty()),
        Some(cd) => {
            let remaining = if num(0).lt(cd.remaining) {
                cd.remaining.minus(num(FIXED_DT))
            } else {
                cd.remaining
            };
            let cooled = Node { fabricate: Some(FabricateCooldown { remaining }), ..node };
            match (node.physical, node.ledger) {
                (Some(p), Some(l)) if num(HALF).lt(action.fabricate) && remaining.le(num(0))
                    && affords(p) => (
                    built(node, p, l),
                    seq![
                        Effect::Spawn(
                            spawn_structure(
                                node.position.plus(Vec2Lite { x: num(ONE), y: num(0) }),
                                num(FABRICATE_MASS_COST),
                                num(FABRICATE_ENERGY_COST),
                            ),
                        ),
                    ],
                ),
                _ => (cooled, Seq::empty()),
            }
        },
    }
}

/// A reserve that is not below the cost funds it.
proof fn lemma_affords_funds(physical: Physical)
    requires
        affords(physical),
    ensures
        EnergyLedger::funds(physical, EnergyFlow::Fabrication, num(FABRICATE_ENERGY_COST)),
{
    assert(grid(0) == 0);
    lemma_grid_order(0, FABRICATE_ENERGY_COST as nat);
}

/// Lets the fabricator of a node act.
fn fabricate(node: &mut Node, action: ActionTensor, effects: &mut Vec<Effect>)
    ensures
        *final(node) == fabricated(*old(node), action).0,
        final(effects)@ == old(effects)@ + fabricated(*old(node), action).1,
{
    match node.fabricate {
        None => {},
        Some(c) => {
            let mut cd: FabricateCooldown = c;
            if num(0).lt(cd.remaining) {
                cd.remaining = cd.remaining.minus(num(FIXED_DT));
            }
            node.fabricate = Some(cd);
            if num(HALF).lt(action.fabricate) && cd.remaining.le(num(0)) {
                match (node.physical, node.ledger) {
                    (Some(p), Some(l)) => {
                        if num(FABRICATE_ENERGY_COST).le(p.energy) && num(FABRICATE_MASS_COST).le(
                            p.mass,
                        ) {
                            let mut physical: Physical = p;
                            let mut ledger: EnergyLedger = l;
                            proof {
                                lemma_affords_funds(p);
                            }
                            let funded: bool = ledger.debit_exact(
                                &mut physical,
                                EnergyFlow::Fabrication,
                                num(FABRICATE_ENERGY_COST),
                            );
                            assert(funded);
                            physical.mass = physical.mass.minus(num(FABRICATE_MASS_COST));
                            node.physical = Some(physical);
                            node.ledger = Some(ledger);
                            if node.body_mass.is_some() {
                                node.body_mass = Some(physical.mass.max(num(MIN_MASS)));
                            }
                            cd.remaining = num(FABRICATE_COOLDOWN);
                            node.fabricate = Some(cd);
                            effects.push(
                                Effect::Spawn(
                                    spawn_structure(
                                        node.position.plus(Vec2Lite { x: num(ONE), y: num(0) }),
                                        num(FABRICATE_MASS_COST),
                                        num(FABRICATE_ENERGY_COST),
                                    ),
                                ),
                            );
                        }
                    },
                    _ => {},
                }
            }
        },
    }
    assert(effects@ =~= old(effects)@ + fabricated(*old(node), action).1);
}

/// The table after one agent's actuators acted, and what that asks of the
/// engine: the oscillator first, then the clamp, then the fabricator.
pub open spec fn acted(
    nodes: Seq<Node>,
    hash: SpatialHash,
    entity: u64,
    action: ActionTensor,
    joint: u64,
) -> (Seq<Node>, Seq<Effect>) {
    match place_of(nodes, entity) {
        Some(i) => {
            let (held, first) = clamped(nodes, hash, driven(nodes[i], action), action, joint);
            let (done, second) = fabricated(held, action);
            (nodes.update(i, done), first + second)
        },
        None => (nodes, Seq::empty()),
    }
}

/// Applies one agent's actuators. `joint` is the number of the joint that the
/// clamp may make.
pub fn apply_one(
    nodes: &mut Vec<Node>,
    hash: &SpatialHash,
    entity: u64,
    action: ActionTensor,
    joint: u64,
    effects: &mut Vec<Effect>,
)
    requires
        forall|i: int|
            0 <= i < old(nodes)@.len() ==> reachable(
                (#[trigger] old(nodes)@[i]).position,
                num(CLAMP_REACH),
            ),
    ensures
        final(nodes)@ == acted(old(nodes)@, *hash, entity, action, joint).0,
        final(effects)@ == old(effects)@ + acted(old(nodes)@, *hash, entity, action, joint).1,
        forall|i: int|
            0 <= i < final(nodes)@.len() ==> reachable(
                (#[trigger] final(nodes)@[i]).position,
                num(CLAMP_REACH),
            ),
{
    match find(nodes, entity) {
        Some(i) => {
            let mut node: Node = nodes[i];
            assert(reachable(nodes@[i as int].position, num(CLAMP_REACH)));
            drive(&mut node, action);
            let ghost first = node;
            act_clamp(nodes, hash, &mut node, action, joint, effects);
            let ghost middle = effects@;
            fabricate(&mut node, action, effects);
            assert(effects@ =~= old(effects)@ + acted(
                old(nodes)@,
                *hash,
                entity,
                action,
                joint,
            ).1);
            nodes.set(i, node);
            assert(nodes@ =~= acted(old(nodes)@, *hash, entity, action, joint).0);
            assert(node.position == old(nodes)@[i as int].position);
        },
        None => {
            assert(effects@ =~= old(effects)@ + acted(
                old(nodes)@,
                *hash,
                entity,
                action,
                joint,
            ).1);
        },
    }
}

/// The table and the effects after the first `n` pending actions.
pub open spec fn actuated(
    nodes: Seq<Node>,
    hash: SpatialHash,
    pending: Seq<(u64, ActionTensor)>,
    joints: Seq<u64>,
    n: nat,
) -> (Seq<Node>, Seq<Effect>)
    decreases n,
{
    if n == 0 {
        (nodes, Seq::empty())
    } else {
        let (before, effects) = actuated(nodes, hash, pending, joints, (n - 1) as nat);
        let (after, more) = acted(
            before,
            hash,
            pending[n - 1].0,
            pending[n - 1].1,
            joints[n - 1],
        );
        (after, effects + more)
    }
}

/// Applies the actuators of every pending action, in order. `joints` holds a
/// fresh number for each.
pub fn apply_actuators(
    nodes: &mut Vec<Node>,
    hash: &SpatialHash,
    pending: &[(u64, ActionTensor)],
    joints: &[u64],
) -> (r: Vec<Effect>)
    requires
        joints@.len() == pending@.len(),
        forall|i: int|
            0 <= i < old(nodes)@.len() ==> reachable(
                (#[trigger] old(nodes)@[i]).position,
                num(CLAMP_REACH),
            ),
    ensures
        (final(nodes)@, r@) == actuated(
            old(nodes)@,
            *hash,
            pending@,
            joints@,
            pending@.len(),
        ),
{
    let mut effects: Vec<Effect> = Vec::new();
    let mut k: usize = 0;
    while k < pending.len()
        invariant
            k <= pending@.len(),
            joints@.len() == pending@.len(),
            forall|i: int|
                0 <= i < nodes@.len() ==> reachable(
                    (#[trigger] nodes@[i]).position,
                    num(CLAMP_REACH),
                ),
            (nodes@, effects@) == actuated(old(nodes)@, *hash, pending@, joints@, k as nat),
        decreases pending@.len() - k,
    {
        let (entity, action) = pending[k];
        apply_one(nodes, hash, entity, action, joints[k], &mut effects);
        k += 1;
    }
    effects
}

/// Fabrication moves mass and energy into the shelter, and makes none: the
/// shelter has exactly the cost, the agent has that much less, and the ledger says
/// so. What the agent has left and the shelter make up what the agent had.
pub proof fn lemma_fabrication_transfers(node: Node, action: ActionTensor)
    requires
        fabricated(node, action).1.len() > 0,
    ensures
        ({
            let (after, effects) = fabricated(node, action);
            let paid = node.physical->Some_0;
            let left = after.physical->Some_0;
            &&& node.physical is Some
            &&& after.physical is Some
            &&& effects.len() == 1
            &&& effects[0] matches Effect::Spawn(shelter) && (shelter.physical matches Some(s)
                && s.mass == num(FABRICATE_MASS_COST) && s.energy == num(FABRICATE_ENERGY_COST))
            &&& left.mass == paid.mass.minus(num(FABRICATE_MASS_COST))
            &&& left.energy == paid.energy.minus(num(FABRICATE_ENERGY_COST))
            &&& left.structure == paid.structure
            &&& paid.mass.finite() ==> parts_make_up(paid.mass, num(FABRICATE_MASS_COST))
            &&& paid.energy.finite() ==> parts_make_up(paid.energy, num(FABRICATE_ENERGY_COST))
            &&& after.ledger->Some_0 == node.ledger->Some_0.recorded(
                EnergyFlow::Fabrication,
                num(FABRICATE_ENERGY_COST),
            )
        }),
{
    let p = node.physical->Some_0;
    assert(affords(p));
    lemma_affords_funds(p);
    assert(grid(0) == 0);
    lemma_grid_order(0, FABRICATE_ENERGY_COST as nat);
    lemma_grid_order(0, FABRICATE_MASS_COST as nat);
    if p.mass.finite() {
        lemma_parts_make_up(p.mass, num(FABRICATE_MASS_COST));
    }
    if p.energy.finite() {
        lemma_parts_make_up(p.energy, num(FABRICATE_ENERGY_COST));
    }
}

/// Letting go of an engaged clamp always removes its joint and starts the
/// cooldown, and no clamp can engage while it cools down.
pub proof fn lemma_clamp_release(
    clamp: ClampState,
    action: ActionTensor,
    nearest: Option<u64>,
    entity: u64,
    joint: u64,
)
    ensures
        !num(HALF).lt(action.clamp) && clamp.joint is Some ==> {
            &&& commanded(clamp, action, nearest, joint) == let_go()
            &&& command_effects(clamp, action, nearest, entity, joint) == seq![
                Effect::Cut(clamp.joint->Some_0),
            ]
        },
        num(0).lt(clamp.cooldown.minus(num(FIXED_DT))) && num(0).lt(clamp.cooldown) ==> !engages(
            clamp,
            action,
            nearest,
        ),
{
}

/// No actuator is free: an oscillator moves only where the whole cost of its
/// drive was taken from the reserve, and a clamp stays engaged only where the
/// step was paid for and left something.
pub proof fn lemma_no_actuator_is_free(
    nodes: Seq<Node>,
    node: Node,
    action: ActionTensor,
    clamp: ClampState,
)
    requires
        node.physical is Some,
        node.ledger is Some,
    ensures
        ({
            let (p, l) = (node.physical->Some_0, node.ledger->Some_0);
            let after = driven(node, action);
            after.oscillator != node.oscillator ==> {
                let cost = drive_cost(node.oscillator->Some_0, action);
                let b = l.debited_exact(p, EnergyFlow::Actuation, cost);
                &&& EnergyLedger::funds(p, EnergyFlow::Actuation, cost)
                &&& after.physical == Some(b.physical)
                &&& after.ledger == Some(b.ledger)
            }
        }),
        ({
            let (p, l) = (node.physical->Some_0, node.ledger->Some_0);
            let after = held_on(nodes, node, clamp).0;
            (after.clamp->Some_0).target is Some ==> {
                let b = l.debited_available(
                    p,
                    EnergyFlow::Actuation,
                    num(CLAMP_DRAIN).times(num(FIXED_DT)),
                );
                &&& after.physical == Some(b.physical)
                &&& after.ledger == Some(b.ledger)
                &&& !b.physical.energy.le(num(0))
            }
        }),
{
}

} // verus!
