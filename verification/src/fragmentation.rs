//! Structural failure. Impulses above a node's yield threshold damage it; a node
//! whose structure is gone breaks into daughters that share its mass and its
//! energy. Failure of an agent leaves inert rubble.

use crate::binary32::bounds::lemma_sign_of_units;
use crate::binary32::bounds::lemma_signed;
use crate::binary32::model::grid;
use crate::binary32::model::lemma_grid_order;
use crate::binary32::model::lemma_rounded_nearest;
use crate::binary32::model::rounded;
use crate::binary32::num;
use crate::binary32::shares::lemma_from_u32;
use crate::binary32::shares::lemma_half_exact;
use crate::binary32::shares::lemma_rounded_meets;
use crate::binary32::shares::lemma_share;
use crate::binary32::shares::lemma_shares_make_the_whole;
use crate::binary32::Binary32;
use crate::components::find;
use crate::components::lemma_place;
use crate::components::lemma_place_same;
use crate::components::lookup;
use crate::components::node_of;
use crate::components::place_of;
use crate::components::Conductivity;
use crate::components::EnergyFlow;
use crate::components::EnergyLedger;
use crate::components::ImpulseAccum;
use crate::components::Node;
use crate::components::NodeRng;
use crate::components::Oscillator;
use crate::components::Physical;
use crate::components::Tags;
use crate::components::Yield;
use crate::draws::draw_in_range;
use crate::draws::uniform_draw;
use crate::interface::action::TAU;
use crate::interface::observation::HALF;
use crate::interface::vector::Vec2Lite;
use crate::interface::vector::ONE;
use crate::tags::lemma_fragment_is_inert;
use crate::tags::CustomTags;
use crate::tags::TagMutation;
use crate::tags::AGENT;
use crate::tags::CLAMP_CAPABLE;
use crate::tags::SHELTER;
use vstd::prelude::*;

verus! {

/// Pattern of the smallest mass of a daughter, 0.05.
pub const MIN_MASS: u32 = 0x3d4c_cccd;

/// Pattern of the smallest structure of a daughter, one half.
pub const MIN_STRUCTURE: u32 = 0x3f00_0000;

/// Pattern of how far daughters are scattered, 0.8.
pub const SCATTER: u32 = 0x3f4c_cccd;

/// Pattern of what stress keeps from one step to the next, 0.92.
pub const STRESS_RETENTION: u32 = 0x3f6b_851f;

/// Pattern of the stress below which a node is at rest, 0.0001.
pub const STRESS_FLOOR: u32 = 0x38d1_b717;

/// Pattern of the damage per excess impulse, one quarter.
pub const DAMAGE_SCALE: u32 = 0x3e80_0000;

/// Patterns of the conductivity of shelter material and of the rest.
pub const SHELTER_CONDUCTIVITY: u32 = 0x3e4c_cccd;

pub const OPEN_CONDUCTIVITY: u32 = 0x3f19_999a;

/// A node that will break, who broke it, and the energy owed to them.
#[derive(Clone, Copy, Debug, PartialEq, Eq, Structural)]
pub struct Fracture {
    pub victim: u64,
    pub killer: Option<u64>,
    pub share: Binary32,
}

/// The nodes that break in this step.
#[derive(Debug)]
pub struct FragmentQueue {
    pub entities: Vec<Fracture>,
}

impl FragmentQueue {
    /// An empty queue.
    pub fn new() -> (r: FragmentQueue)
        ensures
            r.entities@ == Seq::<Fracture>::empty(),
    {
        FragmentQueue { entities: Vec::new() }
    }
}

/// Flags a node for fragmentation, with no energy owed to anyone.
pub fn queue_fragment(entity: u64, killer: Option<u64>, queue: &mut FragmentQueue)
    ensures
        final(queue).entities@ == old(queue).entities@.push(
            Fracture { victim: entity, killer, share: num(0) },
        ),
{
    queue.entities.push(Fracture { victim: entity, killer, share: num(0) });
}

/// Is the node flagged already?
pub open spec fn flagged(queue: Seq<Fracture>, entity: u64) -> bool {
    exists|i: int| 0 <= i < queue.len() && (#[trigger] queue[i]).victim == entity
}

/// The queue with the node flagged, unless it was already.
pub open spec fn flagged_once(queue: Seq<Fracture>, f: Fracture) -> Seq<Fracture> {
    if flagged(queue, f.victim) {
        queue
    } else {
        queue.push(f)
    }
}

/// Flags a node for fragmentation, with energy owed to whoever broke it. A node
/// that is flagged already stays as it is.
pub fn queue_fragment_with_share(
    entity: u64,
    killer: Option<u64>,
    share: Binary32,
    queue: &mut FragmentQueue,
)
    ensures
        final(queue).entities@ == flagged_once(
            old(queue).entities@,
            Fracture { victim: entity, killer, share },
        ),
{
    let mut i: usize = 0;
    while i < queue.entities.len()
        invariant
            i <= queue.entities@.len(),
            queue.entities@ == old(queue).entities@,
            forall|j: int| 0 <= j < i ==> (#[trigger] queue.entities@[j]).victim != entity,
        decreases queue.entities@.len() - i,
    {
        if queue.entities[i].victim == entity {
            return;
        }
        i += 1;
    }
    queue.entities.push(Fracture { victim: entity, killer, share });
}

pub open spec fn viable_spec(physical: Physical, threshold: Yield, n: u32) -> bool {
    let k = Binary32::from_u32(n);
    num(MIN_MASS).le(physical.mass.over(k)) && num(MIN_STRUCTURE).le(threshold.0.over(k))
}

/// Is there mass and structure for this many daughters?
#[verifier::when_used_as_spec(viable_spec)]
pub fn viable(physical: Physical, threshold: Yield, n: u32) -> (r: bool)
    requires
        n < 0x100_0000,
    ensures
        r == viable_spec(physical, threshold, n),
{
    let k: Binary32 = Binary32::from_u32(n);
    num(MIN_MASS).le(physical.mass.over(k)) && num(MIN_STRUCTURE).le(threshold.0.over(k))
}

pub open spec fn can_fragment_spec(physical: Physical, threshold: Yield) -> bool {
    viable(physical, threshold, 2)
}

/// Is there enough of the node for two daughters? One that is too small decays
/// instead.
#[verifier::when_used_as_spec(can_fragment_spec)]
pub fn can_fragment(physical: Physical, threshold: Yield) -> (r: bool)
    ensures
        r == can_fragment_spec(physical, threshold),
{
    viable(physical, threshold, 2)
}

/// Stress after one step without contact.
pub open spec fn relaxed(stress: ImpulseAccum) -> ImpulseAccum {
    let value = stress.value.times(num(STRESS_RETENTION));
    if value.lt(num(STRESS_FLOOR)) {
        ImpulseAccum { value: num(0), source: None }
    } else {
        ImpulseAccum { value, source: stress.source }
    }
}

/// Does the node take damage?
pub open spec fn breakable(node: Node) -> bool {
    node.physical is Some && node.yield_thresh is Some && node.impulse is Some
}

/// A node after one step without contact.
pub open spec fn rested(node: Node) -> Node {
    if breakable(node) {
        Node { impulse: Some(relaxed(node.impulse->Some_0)), ..node }
    } else {
        node
    }
}

/// A contact that the solver resolved in this step, and its total impulse.
#[derive(Clone, Copy, Debug, PartialEq, Eq, Structural)]
pub struct Contact {
    pub first: u64,
    pub second: u64,
    pub impulse: Binary32,
}

/// A node after an impulse from another.
pub open spec fn struck(node: Node, source: u64, impulse: Binary32) -> Node {
    let threshold = node.yield_thresh->Some_0.0;
    let physical = node.physical->Some_0;
    let value = node.impulse->Some_0.value.plus(impulse);
    if value.le(threshold) {
        Node { impulse: Some(ImpulseAccum { value, source: Some(source) }), ..node }
    } else {
        Node {
            impulse: Some(
                ImpulseAccum { value: threshold.times(num(HALF)), source: Some(source) },
            ),
            physical: Some(
                Physical {
                    structure: physical.structure.minus(
                        value.minus(threshold).times(num(DAMAGE_SCALE)),
                    ),
                    ..physical
                },
            ),
            ..node
        }
    }
}

/// Did this impulse break the node? Only one above the threshold can.
pub open spec fn broken(node: Node, impulse: Binary32) -> bool {
    let after = struck(node, 0, impulse).physical->Some_0;
    &&& !node.impulse->Some_0.value.plus(impulse).le(node.yield_thresh->Some_0.0)
    &&& after.structure.le(num(0))
    &&& num(0).lt(after.energy)
}

/// The entry of a node that an impulse from `source` broke. An agent is owed
/// half of the energy.
pub open spec fn fracture(nodes: Seq<Node>, node: Node, source: u64) -> Fracture {
    let killer = node_of(nodes, source) matches Some(s) && s.tagged(AGENT);
    Fracture {
        victim: node.entity,
        killer: if killer {
            Some(source)
        } else {
            None
        },
        share: if killer {
            node.physical->Some_0.energy.times(num(HALF))
        } else {
            num(0)
        },
    }
}

/// The table and the queue after an impulse on one node.
pub open spec fn hit(
    nodes: Seq<Node>,
    queue: Seq<Fracture>,
    victim: u64,
    source: u64,
    impulse: Binary32,
) -> (Seq<Node>, Seq<Fracture>) {
    match place_of(nodes, victim) {
        Some(i) => if breakable(nodes[i]) {
            let after = nodes.update(i, struck(nodes[i], source, impulse));
            (
                after,
                if broken(nodes[i], impulse) {
                    flagged_once(queue, fracture(after, nodes[i], source))
                } else {
                    queue
                },
            )
        } else {
            (nodes, queue)
        },
        None => (nodes, queue),
    }
}

/// The table and the queue after the first `n` contacts. Each acts both ways.
pub open spec fn battered(
    nodes: Seq<Node>,
    queue: Seq<Fracture>,
    contacts: Seq<Contact>,
    n: nat,
) -> (Seq<Node>, Seq<Fracture>)
    decreases n,
{
    if n == 0 {
        (nodes, queue)
    } else {
        let (before, flags) = battered(nodes, queue, contacts, (n - 1) as nat);
        let c = contacts[n - 1];
        if num(0).lt(c.impulse) {
            let (mid, mid_flags) = hit(before, flags, c.first, c.second, c.impulse);
            hit(mid, mid_flags, c.second, c.first, c.impulse)
        } else {
            (before, flags)
        }
    }
}

/// Applies an impulse to one node.
fn strike(
    nodes: &mut Vec<Node>,
    queue: &mut FragmentQueue,
    victim: u64,
    source: u64,
    impulse: Binary32,
)
    ensures
        (final(nodes)@, final(queue).entities@) == hit(
            old(nodes)@,
            old(queue).entities@,
            victim,
            source,
            impulse,
        ),
{
    let i: usize = match find(nodes, victim) {
        Some(i) => i,
        None => return ,
    };
    let mut node: Node = nodes[i];
    let (mut physical, threshold, mut stress): (Physical, Yield, ImpulseAccum) = match (
        node.physical,
        node.yield_thresh,
        node.impulse,
    ) {
        (Some(p), Some(y), Some(s)) => (p, y, s),
        _ => return ,
    };
    stress.value = stress.value.plus(impulse);
    stress.source = Some(source);
    if stress.value.le(threshold.0) {
        node.impulse = Some(stress);
        nodes.set(i, node);
        assert(nodes@ =~= old(nodes)@.update(i as int, node));
        return;
    }
    let excess: Binary32 = stress.value.minus(threshold.0);
    physical.structure = physical.structure.minus(excess.times(num(DAMAGE_SCALE)));
    stress.value = threshold.0.times(num(HALF));
    node.physical = Some(physical);
    node.impulse = Some(stress);
    nodes.set(i, node);
    assert(nodes@ =~= old(nodes)@.update(i as int, node));
    if physical.structure.le(num(0)) && num(0).lt(physical.energy) {
        let killer: bool = match lookup(nodes, source) {
            Some(s) => s.tagged(AGENT),
            None => false,
        };
        if killer {
            queue_fragment_with_share(
                victim,
                Some(source),
                physical.energy.times(num(HALF)),
                queue,
            );
        } else {
            queue_fragment_with_share(victim, None, num(0), queue);
        }
    }
}

/// Turns solved contact impulses into stress. Stress fades while contacts
/// subside; above the threshold it damages structure. Whoever breaks a node is
/// credited only for the very impulse that did.
pub fn accumulate_collision_damage(
    nodes: &mut Vec<Node>,
    contacts: &[Contact],
    queue: &mut FragmentQueue,
)
    ensures
        (final(nodes)@, final(queue).entities@) == battered(
            old(nodes)@.map_values(|n: Node| rested(n)),
            old(queue).entities@,
            contacts@,
            contacts@.len(),
        ),
{
    let ghost rest = |n: Node| rested(n);
    let ghost start = old(nodes)@.map_values(rest);
    let mut i: usize = 0;
    while i < nodes.len()
        invariant
            i <= nodes@.len(),
            nodes@.len() == old(nodes)@.len(),
            rest == (|n: Node| rested(n)),
            start == old(nodes)@.map_values(rest),
            nodes@ == start.take(i as int) + old(nodes)@.skip(i as int),
            queue.entities@ == old(queue).entities@,
        decreases nodes@.len() - i,
    {
        let mut node: Node = nodes[i];
        assert(node == old(nodes)@[i as int]);
        match (node.physical, node.yield_thresh, node.impulse) {
            (Some(_), Some(_), Some(s)) => {
                let mut stress: ImpulseAccum = s;
                stress.value = stress.value.times(num(STRESS_RETENTION));
                if stress.value.lt(num(STRESS_FLOOR)) {
                    stress.value = num(0);
                    stress.source = None;
                }
                node.impulse = Some(stress);
                nodes.set(i, node);
            },
            _ => {},
        }
        assert(nodes@ =~= start.take(i + 1) + old(nodes)@.skip(i + 1));
        i += 1;
    }
    assert(nodes@ =~= start);
    let mut k: usize = 0;
    while k < contacts.len()
        invariant
            k <= contacts@.len(),
            (nodes@, queue.entities@) == battered(
                start,
                old(queue).entities@,
                contacts@,
                k as nat,
            ),
        decreases contacts@.len() - k,
    {
        let c: Contact = contacts[k];
        if num(0).lt(c.impulse) {
            strike(nodes, queue, c.first, c.second, c.impulse);
            strike(nodes, queue, c.second, c.first, c.impulse);
        }
        k += 1;
    }
}

/// The killer after its share came in. A body without a ledger takes it too, and
/// a ledger without a body records it.
pub open spec fn fed(node: Node, share: Binary32) -> Node {
    match (node.physical, node.ledger) {
        (Some(_), Some(_)) => node.credited(EnergyFlow::Consumed, share),
        (Some(p), None) => Node {
            physical: Some(Physical { energy: p.energy.plus(share), ..p }),
            ..node
        },
        (None, Some(l)) => Node {
            ledger: Some(
                EnergyLedger {
                    consumed_from_others: l.consumed_from_others.plus(share),
                    ..l
                },
            ),
            ..node
        },
        _ => node,
    }
}

/// The table after the first `n` fractures paid their killers.
pub open spec fn paid(nodes: Seq<Node>, queue: Seq<Fracture>, n: nat) -> Seq<Node>
    decreases n,
{
    if n == 0 {
        nodes
    } else {
        let before = paid(nodes, queue, (n - 1) as nat);
        let f = queue[n - 1];
        match f.killer {
            Some(k) => match place_of(before, k) {
                Some(i) if !f.share.le(num(0)) => before.update(i, fed(before[i], f.share)),
                _ => before,
            },
            None => before,
        }
    }
}

/// Pays every killer the share that it is owed. Runs before the victims break.
pub fn transfer_to_killers(nodes: &mut Vec<Node>, queue: &FragmentQueue)
    ensures
        final(nodes)@ == paid(old(nodes)@, queue.entities@, queue.entities@.len()),
{
    let mut i: usize = 0;
    while i < queue.entities.len()
        invariant
            i <= queue.entities@.len(),
            nodes@ == paid(old(nodes)@, queue.entities@, i as nat),
        decreases queue.entities@.len() - i,
    {
        let f: Fracture = queue.entities[i];
        let ghost before = nodes@;
        match f.killer {
            Some(k) => {
                if !f.share.le(num(0)) {
                    match find(nodes, k) {
                        Some(j) => {
                            let mut node: Node = nodes[j];
                            match (node.physical, node.ledger) {
                                (Some(p), None) => {
                                    let mut physical: Physical = p;
                                    physical.energy = physical.energy.plus(f.share);
                                    node.physical = Some(physical);
                                },
                                (None, Some(l)) => {
                                    let mut ledger: EnergyLedger = l;
                                    ledger.consumed_from_others = ledger.consumed_from_others.plus(
                                        f.share,
                                    );
                                    node.ledger = Some(ledger);
                                },
                                _ => {
                                    node.credit(EnergyFlow::Consumed, f.share);
                                },
                            }
                            nodes.set(j, node);
                            assert(nodes@ =~= before.update(j as int, fed(before[j as int], f.share)));
                        },
                        None => {},
                    }
                }
            },
            None => {},
        }
        i += 1;
    }
}

/// What chance decides of one daughter.
#[derive(Clone, Copy, Debug, PartialEq, Eq, Structural)]
pub struct DaughterDraw {
    /// Cosine and sine of the angle at which it is scattered.
    pub direction: Vec2Lite,
    pub mutation: TagMutation,
}

pub open spec fn fracture_seed_spec(rng: NodeRng) -> u64 {
    rng.0 ^ 0x9E37_79B9
}

/// The seed of a node's fragmentation.
#[verifier::when_used_as_spec(fracture_seed_spec)]
pub fn fracture_seed(rng: NodeRng) -> (r: u64)
    ensures
        r == fracture_seed_spec(rng),
{
    rng.0 ^ 0x9E37_79B9
}

pub open spec fn limited_count_spec(physical: Physical, threshold: Yield, roll: i32) -> u32 {
    if roll == 3 && viable(physical, threshold, 3) {
        3
    } else {
        2
    }
}

/// How many daughters there are for a roll of two or three: no more than there
/// is mass and structure for.
#[verifier::when_used_as_spec(limited_count_spec)]
pub fn limited_count(physical: Physical, threshold: Yield, roll: i32) -> (r: u32)
    ensures
        r == limited_count_spec(physical, threshold, roll),
        r == 2 || r == 3,
{
    if roll == 3 && viable(physical, threshold, 3) {
        3
    } else {
        2
    }
}

pub open spec fn daughter_count_spec(physical: Physical, threshold: Yield, rng: NodeRng) -> u32 {
    limited_count(physical, threshold, uniform_draw(fracture_seed(rng), 2, 3))
}

/// How many daughters a node breaks into, by its seed.
#[verifier::when_used_as_spec(daughter_count_spec)]
pub fn daughter_count(physical: Physical, threshold: Yield, rng: NodeRng) -> (r: u32)
    ensures
        r == daughter_count_spec(physical, threshold, rng),
        r == 2 || r == 3,
{
    limited_count(physical, threshold, draw_in_range(fracture_seed(rng), 2, 3))
}

/// The angle of the `i`-th of `n` daughters: evenly around, and off by a draw
/// between zero and one.
pub fn scatter_angle(i: u32, n: u32, jitter: Binary32) -> (r: Binary32)
    requires
        i < 0x100_0000,
        n < 0x100_0000,
    ensures
        r == Binary32::from_u32(i).over(Binary32::from_u32(n)).times(num(TAU)).plus(jitter),
{
    Binary32::from_u32(i).over(Binary32::from_u32(n)).times(num(TAU)).plus(jitter)
}

/// Can the node be taken apart?
pub open spec fn fragmentable(node: Node) -> bool {
    &&& node.physical is Some
    &&& node.tags is Some
    &&& node.yield_thresh is Some
    &&& node.node_rng is Some
}

/// The energy that is left for the daughters once the killer is paid.
pub open spec fn left_for_daughters(node: Node, share: Binary32) -> Binary32 {
    node.physical->Some_0.energy.minus(share).max(num(0))
}

/// The `i`-th of `n` daughters. Its number is given by the engine.
pub open spec fn daughter(
    node: Node,
    share: Binary32,
    n: u32,
    i: u32,
    draw: DaughterDraw,
) -> Node {
    let k = Binary32::from_u32(n);
    let mass = node.physical->Some_0.mass.over(k);
    let structure = node.yield_thresh->Some_0.0.over(k);
    let tags = node.tags->Some_0.0.mutate(draw.mutation).without(AGENT).without(CLAMP_CAPABLE);
    Node {
        body_mass: Some(mass),
        physical: Some(
            Physical {
                mass,
                structure,
                energy: left_for_daughters(node, share).over(k).max(num(0)),
            },
        ),
        yield_thresh: Some(Yield(structure)),
        conductivity: Some(
            Conductivity(
                if tags.has(SHELTER) {
                    num(SHELTER_CONDUCTIVITY)
                } else {
                    num(OPEN_CONDUCTIVITY)
                },
            ),
        ),
        tags: Some(Tags(tags)),
        oscillator: Some(Oscillator { freq: num(ONE), phase: num(0), baseline_freq: num(ONE) }),
        impulse: Some(ImpulseAccum { value: num(0), source: None }),
        ledger: Some(
            EnergyLedger::opened(
                match node.ledger {
                    Some(l) => l.born_step,
                    None => 0,
                },
            ),
        ),
        node_rng: Some(NodeRng(node.node_rng->Some_0.0 ^ (i as u64).wrapping_mul(0x85EB_CA6B))),
        ..Node::bare(0, node.position.plus(draw.direction.scaled(num(SCATTER))))
    }
}

/// The first `m` of the `n` daughters.
pub open spec fn daughters(
    node: Node,
    share: Binary32,
    n: u32,
    draws: Seq<DaughterDraw>,
    m: nat,
) -> Seq<Node> {
    Seq::new(m, |i: int| daughter(node, share, n, i as u32, draws[i]))
}

/// All daughters of a node. A node too small for two decays without any.
pub open spec fn brood(node: Node, share: Binary32, draws: Seq<DaughterDraw>) -> Seq<Node> {
    if can_fragment(node.physical->Some_0, node.yield_thresh->Some_0) {
        let n = daughter_count(
            node.physical->Some_0,
            node.yield_thresh->Some_0,
            node.node_rng->Some_0,
        );
        daughters(node, share, n, draws, n as nat)
    } else {
        Seq::empty()
    }
}

/// What the first `n` fractures take out of the world and put into it.
pub open spec fn fragmented(
    nodes: Seq<Node>,
    queue: Seq<Fracture>,
    draws: Seq<Vec<DaughterDraw>>,
    n: nat,
) -> (Seq<u64>, Seq<Node>)
    decreases n,
{
    if n == 0 {
        (Seq::empty(), Seq::empty())
    } else {
        let (gone, born) = fragmented(nodes, queue, draws, (n - 1) as nat);
        let f = queue[n - 1];
        match node_of(nodes, f.victim) {
            Some(node) if fragmentable(node) => (
                gone.push(f.victim),
                born + brood(node, f.share, draws[n - 1]@),
            ),
            _ => (gone, born),
        }
    }
}

/// Builds one daughter.
fn build_daughter(node: Node, share: Binary32, n: u32, i: u32, draw: DaughterDraw) -> (r: Node)
    requires
        fragmentable(node),
        draw.mutation.bit < 64,
        n < 0x100_0000,
    ensures
        r == daughter(node, share, n, i, draw),
{
    let (physical, threshold, tags, rng): (Physical, Yield, Tags, NodeRng) = match (
        node.physical,
        node.yield_thresh,
        node.tags,
        node.node_rng,
    ) {
        (Some(p), Some(y), Some(t), Some(r)) => (p, y, t, r),
        _ => {
            return node;
        },
    };
    let k: Binary32 = Binary32::from_u32(n);
    let mass: Binary32 = physical.mass.over(k);
    let structure: Binary32 = threshold.0.over(k);
    let rest: Binary32 = physical.energy.minus(share).max(num(0));
    let mask: CustomTags = tags.0.mutate(draw.mutation).without(AGENT).without(CLAMP_CAPABLE);
    let born_step: u32 = match node.ledger {
        Some(l) => l.born_step,
        None => 0,
    };
    let mut child: Node = Node::bare(0, node.position.plus(draw.direction.scaled(num(SCATTER))));
    child.body_mass = Some(mass);
    child.physical = Some(Physical { mass, structure, energy: rest.over(k).max(num(0)) });
    child.yield_thresh = Some(Yield(structure));
    child.conductivity = Some(
        Conductivity(
            if mask.has(SHELTER) {
                num(SHELTER_CONDUCTIVITY)
            } else {
                num(OPEN_CONDUCTIVITY)
            },
        ),
    );
    child.tags = Some(Tags(mask));
    child.oscillator = Some(
        Oscillator { freq: num(ONE), phase: num(0), baseline_freq: num(ONE) },
    );
    child.impulse = Some(ImpulseAccum { value: num(0), source: None });
    child.ledger = Some(EnergyLedger::opened(born_step));
    child.node_rng = Some(NodeRng(rng.0 ^ (i as u64).wrapping_mul(0x85EB_CA6B)));
    child
}

/// Takes every flagged node apart: the numbers of those that go, and their
/// daughters. A flagged node that is too small for two decays, and goes without
/// any. `draws` holds what chance decides, for each fracture up to three
/// daughters. The queue is emptied.
pub fn run_fragmentation(
    nodes: &Vec<Node>,
    queue: &mut FragmentQueue,
    draws: &Vec<Vec<DaughterDraw>>,
) -> (r: (Vec<u64>, Vec<Node>))
    requires
        draws@.len() == old(queue).entities@.len(),
        forall|k: int| 0 <= k < draws@.len() ==> (#[trigger] draws@[k])@.len() >= 3,
        forall|k: int, i: int|
            0 <= k < draws@.len() && 0 <= i < draws@[k]@.len() ==> (
            #[trigger] draws@[k]@[i]).mutation.bit < 64,
    ensures
        final(queue).entities@ == Seq::<Fracture>::empty(),
        (r.0@, r.1@) == fragmented(
            nodes@,
            old(queue).entities@,
            draws@,
            old(queue).entities@.len(),
        ),
{
    let mut gone: Vec<u64> = Vec::new();
    let mut born: Vec<Node> = Vec::new();
    let mut k: usize = 0;
    while k < queue.entities.len()
        invariant
            k <= queue.entities@.len(),
            queue.entities@ == old(queue).entities@,
            draws@.len() == queue.entities@.len(),
            forall|k: int| 0 <= k < draws@.len() ==> (#[trigger] draws@[k])@.len() >= 3,
            forall|k: int, i: int|
                0 <= k < draws@.len() && 0 <= i < draws@[k]@.len() ==> (
                #[trigger] draws@[k]@[i]).mutation.bit < 64,
            (gone@, born@) == fragmented(nodes@, queue.entities@, draws@, k as nat),
        decreases queue.entities@.len() - k,
    {
        let f: Fracture = queue.entities[k];
        match lookup(nodes, f.victim) {
            Some(node) => match (node.physical, node.yield_thresh, node.tags, node.node_rng) {
                (Some(p), Some(y), Some(_), Some(r)) => {
                    if can_fragment(p, y) {
                        let n: u32 = daughter_count(p, y, r);
                        let ghost before = born@;
                        let ghost chance = draws@[k as int]@;
                        let mut i: u32 = 0;
                        assert(born@ =~= before + daughters(node, f.share, n, chance, 0));
                        while i < n
                            invariant
                                i <= n <= 3,
                                k < draws@.len(),
                                chance == draws@[k as int]@,
                                chance.len() >= 3,
                                forall|k: int, i: int|
                                    0 <= k < draws@.len() && 0 <= i < draws@[k]@.len() ==> (
                                    #[trigger] draws@[k]@[i]).mutation.bit < 64,
                                fragmentable(node),
                                born@ == before + daughters(node, f.share, n, chance, i as nat),
                            decreases n - i,
                        {
                            let draw: DaughterDraw = draws[k][i as usize];
                            assert(draws@[k as int]@[i as int].mutation.bit < 64);
                            born.push(build_daughter(node, f.share, n, i, draw));
                            assert(born@ =~= before + daughters(
                                node,
                                f.share,
                                n,
                                chance,
                                (i + 1) as nat,
                            ));
                            i += 1;
                        }
                    }
                    gone.push(f.victim);
                    assert(born@ =~= fragmented(
                        nodes@,
                        queue.entities@,
                        draws@,
                        (k + 1) as nat,
                    ).1);
                },
                _ => {},
            },
            None => {},
        }
        k += 1;
    }
    queue.entities.clear();
    (gone, born)
}

/// Only the blow that broke a node is credited: whoever is owed energy for a node
/// that contacts broke was in one of these contacts with it, and is an agent.
pub proof fn lemma_only_the_blow_is_credited(
    nodes: Seq<Node>,
    queue: Seq<Fracture>,
    contacts: Seq<Contact>,
    n: nat,
    i: int,
)
    requires
        n <= contacts.len(),
        queue.len() <= i < battered(nodes, queue, contacts, n).1.len(),
    ensures
        ({
            let f = battered(nodes, queue, contacts, n).1[i];
            &&& f.killer is None ==> f.share == num(0)
            &&& f.killer matches Some(k) ==> {
                &&& node_of(nodes, k) matches Some(killer) && killer.tagged(AGENT)
                &&& exists|c: int|
                    0 <= c < n && num(0).lt((#[trigger] contacts[c]).impulse) && met(
                        contacts[c],
                        f.victim,
                        k,
                    )
            }
        }),
    decreases n,
{
    if n > 0 {
        let (before, flags) = battered(nodes, queue, contacts, (n - 1) as nat);
        let c = contacts[n - 1];
        lemma_blows_keep_masks(nodes, queue, contacts, (n - 1) as nat);
        if i < flags.len() {
            lemma_only_the_blow_is_credited(nodes, queue, contacts, (n - 1) as nat, i);
            if num(0).lt(c.impulse) {
                let (mid, mid_flags) = hit(before, flags, c.first, c.second, c.impulse);
                assert(mid_flags[i] == flags[i]);
                assert(hit(mid, mid_flags, c.second, c.first, c.impulse).1[i] == mid_flags[i]);
            }
        } else {
            assert(num(0).lt(c.impulse));
            let (mid, mid_flags) = hit(before, flags, c.first, c.second, c.impulse);
            let (last, last_flags) = hit(mid, mid_flags, c.second, c.first, c.impulse);
            lemma_place(before, c.first);
            lemma_hit_keeps_masks(before, flags, c.first, c.second, c.impulse);
            lemma_hit_keeps_masks(mid, mid_flags, c.second, c.first, c.impulse);
            lemma_place(mid, c.second);
            lemma_same_mask(nodes, mid, c.second);
            lemma_same_mask(nodes, last, c.first);
            assert(contacts[n - 1] == c);
        }
    }
}

/// The contact was between these two.
pub open spec fn met(contact: Contact, a: u64, b: u64) -> bool {
    (contact.first == a && contact.second == b) || (contact.first == b && contact.second == a)
}

/// The same numbers and masks, in the same places.
pub open spec fn same_masks(a: Seq<Node>, b: Seq<Node>) -> bool {
    &&& a.len() == b.len()
    &&& forall|i: int|
        #![trigger a[i]]
        #![trigger b[i]]
        0 <= i < a.len() ==> a[i].entity == b[i].entity && a[i].tags == b[i].tags
}

/// Tables with the same masks say the same of a node's mask.
proof fn lemma_same_mask(a: Seq<Node>, b: Seq<Node>, entity: u64)
    requires
        same_masks(a, b),
    ensures
        match (node_of(a, entity), node_of(b, entity)) {
            (Some(x), Some(y)) => x.tags == y.tags,
            (None, None) => true,
            _ => false,
        },
{
    lemma_place_same(a, b, entity);
    lemma_place(a, entity);
}

/// An impulse changes no number and no mask.
proof fn lemma_hit_keeps_masks(
    nodes: Seq<Node>,
    queue: Seq<Fracture>,
    victim: u64,
    source: u64,
    impulse: Binary32,
)
    ensures
        same_masks(nodes, hit(nodes, queue, victim, source, impulse).0),
{
    lemma_place(nodes, victim);
}

/// No contact changes a number or a mask.
proof fn lemma_blows_keep_masks(
    nodes: Seq<Node>,
    queue: Seq<Fracture>,
    contacts: Seq<Contact>,
    n: nat,
)
    ensures
        same_masks(nodes, battered(nodes, queue, contacts, n).0),
    decreases n,
{
    if n > 0 {
        lemma_blows_keep_masks(nodes, queue, contacts, (n - 1) as nat);
        let (before, flags) = battered(nodes, queue, contacts, (n - 1) as nat);
        let c = contacts[n - 1];
        if num(0).lt(c.impulse) {
            let (mid, mid_flags) = hit(before, flags, c.first, c.second, c.impulse);
            lemma_hit_keeps_masks(before, flags, c.first, c.second, c.impulse);
            lemma_hit_keeps_masks(mid, mid_flags, c.second, c.first, c.impulse);
        }
    }
}

/// Rubble is inert: no daughter is an agent or can clamp.
pub proof fn lemma_daughters_are_inert(
    node: Node,
    share: Binary32,
    draws: Seq<DaughterDraw>,
    i: int,
)
    requires
        0 <= i < brood(node, share, draws).len(),
    ensures
        brood(node, share, draws)[i].marker is None,
        !brood(node, share, draws)[i].tagged(AGENT),
        !brood(node, share, draws)[i].tagged(CLAMP_CAPABLE),
{
    lemma_fragment_is_inert(node.tags->Some_0.0, draws[i].mutation);
}

/// Daughters are alike in mass and energy, none is undersized, and together they
/// weigh what the parent did and hold what was left for them, up to half a step
/// of the format each.
pub proof fn lemma_daughters_share_the_parent(
    node: Node,
    share: Binary32,
    draws: Seq<DaughterDraw>,
    i: int,
)
    requires
        fragmentable(node),
        node.physical->Some_0.mass.finite(),
        left_for_daughters(node, share).finite(),
        0 <= i < brood(node, share, draws).len(),
    ensures
        ({
            let n = brood(node, share, draws).len();
            let mass = node.physical->Some_0.mass;
            let left = left_for_daughters(node, share);
            let child = brood(node, share, draws)[i].physical->Some_0;
            let m = child.mass.magnitude();
            let e = child.energy.magnitude();
            &&& n == 2 || n == 3
            &&& num(MIN_MASS).le(child.mass)
            &&& (grid((m - 1) as nat) + grid(m)) * n <= 2 * mass.units()
            &&& 2 * mass.units() <= (grid(m) + grid(m + 1)) * n
            &&& child.energy.units() >= 0
            &&& e > 0 ==> (grid((e - 1) as nat) + grid(e)) * n <= 2 * left.units()
            &&& 2 * left.units() <= (grid(e) + grid(e + 1)) * n
        }),
{
    let physical = node.physical->Some_0;
    let n = daughter_count(physical, node.yield_thresh->Some_0, node.node_rng->Some_0);
    let k = Binary32::from_u32(n);
    lemma_from_u32(n);
    assert(grid(0) == 0);
    lemma_grid_order(0, MIN_MASS as nat);
    lemma_sign_of_units(physical.mass);
    lemma_share(physical.mass, n);
    lemma_rounded_nearest(physical.mass.size(), n as nat);
    lemma_signed(physical.mass.negative(), rounded(physical.mass.size(), n as nat));
    assert(!physical.mass.negative());
    lemma_shares_make_the_whole(physical.mass, n);
    let left = left_for_daughters(node, share);
    lemma_sign_of_units(left);
    if left.negative() {
        assert(left.units() == 0);
    } else {
        lemma_shares_make_the_whole(left, n);
    }
    lemma_share(left, n);
    lemma_rounded_meets_zero(n as nat);
    lemma_sign_of_units(left.over(k));
}

/// Nothing divides into nothing.
proof fn lemma_rounded_meets_zero(n: nat)
    requires
        n > 0,
    ensures
        rounded(0, n) == 0,
{
    assert(grid(0) == 0);
    assert(0 == grid(0) * n) by (nonlinear_arith)
        requires
            grid(0) == 0,
    ;
    lemma_rounded_meets(0, n, 0);
}

/// The killer's half and what is left for the daughters are the victim's energy,
/// to the last unit.
pub proof fn lemma_consumption_conserves(node: Node)
    requires
        node.physical is Some,
        node.physical->Some_0.energy.finite(),
        node.physical->Some_0.energy.units() >= 0,
        node.physical->Some_0.energy.size() % 2 == 0,
    ensures
        ({
            let energy = node.physical->Some_0.energy;
            let share = energy.times(num(HALF));
            share.units() + left_for_daughters(node, share).units() == energy.units()
        }),
{
    assert(grid(0) == 0);
    lemma_half_exact(node.physical->Some_0.energy);
}

} // verus!
