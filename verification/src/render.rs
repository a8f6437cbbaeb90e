//! What the observer sees, and what it may do: it reads the state, and at most
//! holds the whole simulation still. It never acts on the world.

use crate::agents::agent_node;
use crate::agents::BIRTH_ENERGY;
use crate::binary32::model::grid;
use crate::binary32::model::lemma_grid_order;
use crate::binary32::num;
use crate::binary32::Binary32;
use crate::components::lookup;
use crate::components::node_of;
use crate::components::AgentTuning;
use crate::components::Node;
use crate::components::Physical;
use crate::components::Yield;
use crate::interface::observation::HALF;
use crate::interface::vector::Vec2Lite;
use crate::interface::vector::ONE;
use crate::interface::vector::TWO;
use crate::tags::CustomTags;
use crate::tags::AGENT;
use crate::tags::THERMAL_VENT;
use crate::tags::VOLATILE_TRAP;
use vstd::prelude::*;

verus! {

/// Seed of the observed world.
pub const DEFAULT_SEED: u64 = 0xC0FFEE;

/// Pattern of how much structure adds to a ring at most, 0.4.
pub const RING_SPAN: u32 = 0x3ecc_cccd;

/// Pattern of the structure of a full ring, 10.
pub const FULL_STRUCTURE: u32 = 0x4120_0000;

/// Pattern of the length of a pip per unit of energy, 0.05.
pub const PIP_SCALE: u32 = 0x3d4c_cccd;

/// Pattern of the longest pip, 3.
pub const PIP_LIMIT: u32 = 0x4040_0000;

/// Pattern of how fast the camera moves, 20 per second.
pub const PAN_SPEED: u32 = 0x41a0_0000;

/// Patterns of the widest and the closest view, 8 and 0.2.
pub const WIDEST: u32 = 0x4100_0000;

pub const CLOSEST: u32 = 0x3e4c_cccd;

/// Pattern of the mass of an observed agent, 0.8.
pub const PARADE_MASS: u32 = 0x3f4c_cccd;

/// Pattern of the structure of an observed agent, 8.
pub const PARADE_STRUCTURE: u32 = 0x4100_0000;

/// Most bodies that the inspector lists.
pub const INSPECTED: usize = 64;

/// A color, as patterns of its three channels.
#[derive(Clone, Copy, Debug, PartialEq, Eq, Structural)]
pub struct Rgb {
    pub red: Binary32,
    pub green: Binary32,
    pub blue: Binary32,
}

/// A color from its patterns.
pub open spec fn rgb_spec(red: u32, green: u32, blue: u32) -> Rgb {
    Rgb { red: num(red), green: num(green), blue: num(blue) }
}

/// A color from its patterns.
#[verifier::when_used_as_spec(rgb_spec)]
pub fn rgb(red: u32, green: u32, blue: u32) -> (r: Rgb)
    ensures
        r == rgb_spec(red, green, blue),
{
    Rgb { red: num(red), green: num(green), blue: num(blue) }
}

/// The color of a node: agents are blue, vents orange, traps pink, and all else
/// is gray.
pub fn tag_color(tags: CustomTags) -> (r: Rgb)
    ensures
        r == if tags.has(AGENT) {
            rgb(0x3e99_999a, 0x3f19_999a, 0x3f80_0000)
        } else if tags.has(THERMAL_VENT) {
            rgb(0x3f80_0000, 0x3ecc_cccd, 0x3dcc_cccd)
        } else if tags.has(VOLATILE_TRAP) {
            rgb(0x3f80_0000, 0x3dcc_cccd, 0x3f19_999a)
        } else {
            rgb(0x3f19_999a, 0x3f19_999a, 0x3f19_999a)
        },
{
    if tags.has(AGENT) {
        rgb(0x3e99_999a, 0x3f19_999a, 0x3f80_0000)
    } else if tags.has(THERMAL_VENT) {
        rgb(0x3f80_0000, 0x3ecc_cccd, 0x3dcc_cccd)
    } else if tags.has(VOLATILE_TRAP) {
        rgb(0x3f80_0000, 0x3dcc_cccd, 0x3f19_999a)
    } else {
        rgb(0x3f19_999a, 0x3f19_999a, 0x3f19_999a)
    }
}

/// The bands of what is drawn are in order.
proof fn lemma_drawn_bands()
    ensures
        num(0).le(num(ONE)),
        num(0).le(num(PIP_LIMIT)),
{
    assert(grid(0) == 0);
    lemma_grid_order(0, ONE as nat);
    lemma_grid_order(0, PIP_LIMIT as nat);
}

/// The radius of a node's ring grows with its structure.
pub fn ring_radius(physical: Physical) -> (r: Binary32)
    ensures
        r == num(HALF).plus(
            num(RING_SPAN).times(
                physical.structure.max(num(0)).over(num(FULL_STRUCTURE)).clamp(num(0), num(ONE)),
            ),
        ),
{
    proof {
        lemma_drawn_bands();
    }
    num(HALF).plus(
        num(RING_SPAN).times(
            physical.structure.max(num(0)).over(num(FULL_STRUCTURE)).clamp(num(0), num(ONE)),
        ),
    )
}

/// The length of a node's pip grows with its energy.
pub fn pip_length(physical: Physical) -> (r: Binary32)
    ensures
        r == physical.energy.times(num(PIP_SCALE)).clamp(num(0), num(PIP_LIMIT)),
{
    proof {
        lemma_drawn_bands();
    }
    physical.energy.times(num(PIP_SCALE)).clamp(num(0), num(PIP_LIMIT))
}

/// How the observer holds the simulation.
#[derive(Clone, Copy, Debug, PartialEq, Eq, Structural)]
pub struct SimControl {
    pub paused: bool,
    pub step_once: bool,
    pub seed: u64,
}

impl SimControl {
    /// Running.
    pub fn new(seed: u64) -> (r: SimControl)
        ensures
            r == (SimControl { paused: false, step_once: false, seed }),
    {
        SimControl { paused: false, step_once: false, seed }
    }

    pub open spec fn should_simulate_spec(self) -> bool {
        !self.paused || self.step_once
    }

    /// Does the simulation take its next step?
    #[verifier::when_used_as_spec(should_simulate_spec)]
    pub fn should_simulate(self) -> (r: bool)
        ensures
            r == self.should_simulate_spec(),
    {
        !self.paused || self.step_once
    }

    /// Is a single step asked for?
    pub fn onestep_active(self) -> (r: bool)
        ensures
            r == self.step_once,
    {
        self.step_once
    }

    /// Asks for a single step, and stands still after it.
    pub fn request_step(&mut self)
        ensures
            *final(self) == (SimControl { paused: true, step_once: true, ..*old(self) }),
    {
        self.paused = true;
        self.step_once = true;
    }

    /// The single step was taken.
    pub fn consume_step(&mut self)
        ensures
            *final(self) == (SimControl { step_once: false, ..*old(self) }),
    {
        self.step_once = false;
    }
}

/// A single step is one step: it is taken, and then everything stands still.
pub proof fn lemma_single_step_is_one(before: SimControl)
    ensures
        ({
            let asked = SimControl { paused: true, step_once: true, ..before };
            let taken = SimControl { step_once: false, ..asked };
            asked.should_simulate() && !taken.should_simulate()
        }),
{
}

/// Which keys are down.
#[derive(Clone, Copy, Debug, Default, PartialEq, Eq, Structural)]
pub struct PanKeys {
    pub left: bool,
    pub right: bool,
    pub up: bool,
    pub down: bool,
}

/// One axis of a direction: opposite keys cancel.
pub open spec fn axis_spec(minus: bool, plus: bool) -> Binary32 {
    let low = if minus {
        num(0).minus(num(ONE))
    } else {
        num(0)
    };
    if plus {
        low.plus(num(ONE))
    } else {
        low
    }
}

#[verifier::when_used_as_spec(axis_spec)]
fn axis(minus: bool, plus: bool) -> (r: Binary32)
    ensures
        r == axis_spec(minus, plus),
{
    let low: Binary32 = if minus {
        num(0).minus(num(ONE))
    } else {
        num(0)
    };
    if plus {
        low.plus(num(ONE))
    } else {
        low
    }
}

/// Where the keys point.
pub open spec fn heading_spec(keys: PanKeys) -> Vec2Lite {
    Vec2Lite {
        x: axis_spec(keys.left, keys.right),
        y: if keys.down {
            (if keys.up {
                num(0).plus(num(ONE))
            } else {
                num(0)
            }).minus(num(ONE))
        } else if keys.up {
            num(0).plus(num(ONE))
        } else {
            num(0)
        },
    }
}

/// Where the keys point.
#[verifier::when_used_as_spec(heading_spec)]
pub fn heading(keys: PanKeys) -> (r: Vec2Lite)
    ensures
        r == heading_spec(keys),
{
    let mut y: Binary32 = num(0);
    if keys.up {
        y = y.plus(num(ONE));
    }
    if keys.down {
        y = y.minus(num(ONE));
    }
    Vec2Lite { x: axis(keys.left, keys.right), y }
}

/// Zooms out or in for `seconds`. Zooming out wins.
pub open spec fn zoom_spec(scale: Binary32, out: bool, within: bool, seconds: Binary32) -> Binary32 {
    if out {
        scale.times(num(ONE).plus(seconds)).min(num(WIDEST))
    } else if within {
        scale.times(num(ONE).minus(seconds.times(num(HALF)))).max(num(CLOSEST))
    } else {
        scale
    }
}

/// Zooms out or in for `seconds`. Zooming out wins.
#[verifier::when_used_as_spec(zoom_spec)]
pub fn zoom(scale: Binary32, out: bool, within: bool, seconds: Binary32) -> (r: Binary32)
    ensures
        r == zoom_spec(scale, out, within, seconds),
{
    if out {
        scale.times(num(ONE).plus(seconds)).min(num(WIDEST))
    } else if within {
        scale.times(num(ONE).minus(seconds.times(num(HALF)))).max(num(CLOSEST))
    } else {
        scale
    }
}

/// What the inspector calls a node.
pub fn kind_label(node: Node) -> (r: &'static str)
    ensures
        r@ == if node.marker is Some {
            "agent"@
        } else {
            "node"@
        },
{
    if node.marker.is_some() {
        "agent"
    } else {
        "node"
    }
}

/// The node that was picked, as long as it is there.
pub open spec fn inspected_spec(selected: Option<u64>, nodes: Seq<Node>) -> Option<Node> {
    match selected {
        Some(entity) => match node_of(nodes, entity) {
            Some(n) if displayed(n) => Some(n),
            _ => None,
        },
        None => None,
    }
}

/// What the inspector shows: the node that was picked, as long as it is there.
pub fn inspected(selected: Option<u64>, nodes: &Vec<Node>) -> (r: Option<Node>)
    ensures
        r == inspected_spec(selected, nodes@),
{
    match selected {
        Some(entity) => match lookup(nodes, entity) {
            Some(n) => if n.physical.is_some() && n.tags.is_some() {
                Some(n)
            } else {
                None
            },
            None => None,
        },
        None => None,
    }
}

/// Does the observer see the node? It draws and lists what has a body and a
/// mask.
pub open spec fn displayed(node: Node) -> bool {
    node.physical is Some && node.tags is Some
}

/// One line of the inspector.
#[derive(Clone, Copy, Debug, PartialEq, Eq, Structural)]
pub struct Row {
    pub entity: u64,
    pub agent: bool,
    pub energy: Binary32,
    /// This is the one that was picked.
    pub picked: bool,
}

/// The line of a node.
pub open spec fn row(node: Node, selected: Option<u64>) -> Row {
    Row {
        entity: node.entity,
        agent: node.marker is Some,
        energy: node.energy(),
        picked: selected == Some(node.entity),
    }
}

/// The lines of a table, in order, before the inspector cuts the list off.
pub open spec fn lines(nodes: Seq<Node>, selected: Option<u64>) -> Seq<Row>
    decreases nodes.len(),
{
    if nodes.len() == 0 {
        Seq::empty()
    } else {
        let rest = lines(nodes.drop_last(), selected);
        if displayed(nodes.last()) {
            rest.push(row(nodes.last(), selected))
        } else {
            rest
        }
    }
}

/// How many agents a table holds.
pub open spec fn census(nodes: Seq<Node>) -> nat
    decreases nodes.len(),
{
    if nodes.len() == 0 {
        0
    } else {
        census(nodes.drop_last()) + if nodes.last().marker is Some {
            1nat
        } else {
            0
        }
    }
}

/// The first lines of a list, as many as the inspector shows.
pub open spec fn cut_off(list: Seq<Row>) -> Seq<Row> {
    if list.len() <= INSPECTED {
        list
    } else {
        list.take(INSPECTED as int)
    }
}

/// What the observer is shown of a world.
#[derive(Debug)]
pub struct Panel {
    pub agents: usize,
    pub bodies: usize,
    pub rows: Vec<Row>,
    /// What stays picked: nothing where the node is gone.
    pub selected: Option<u64>,
    /// The node that was picked.
    pub detail: Option<Node>,
}

/// Makes up what the observer is shown: how many agents and bodies there are, the
/// first bodies, and the one that was picked.
pub fn panel(selected: Option<u64>, nodes: &Vec<Node>) -> (r: Panel)
    ensures
        r.agents == census(nodes@),
        r.bodies == lines(nodes@, selected).len(),
        r.rows@ == cut_off(lines(nodes@, selected)),
        r.detail == inspected_spec(selected, nodes@),
        r.selected == if r.detail is Some {
            selected
        } else {
            None
        },
{
    let mut agents: usize = 0;
    let mut bodies: usize = 0;
    let mut rows: Vec<Row> = Vec::new();
    let mut i: usize = 0;
    assert(nodes@.take(0) =~= Seq::<Node>::empty());
    while i < nodes.len()
        invariant
            i <= nodes@.len(),
            agents <= i,
            bodies <= i,
            agents == census(nodes@.take(i as int)),
            bodies == lines(nodes@.take(i as int), selected).len(),
            rows@ == cut_off(lines(nodes@.take(i as int), selected)),
        decreases nodes@.len() - i,
    {
        assert(nodes@.take(i + 1).drop_last() =~= nodes@.take(i as int));
        let node: Node = nodes[i];
        if node.marker.is_some() {
            agents += 1;
        }
        if node.physical.is_some() && node.tags.is_some() {
            if rows.len() < INSPECTED {
                let picked: bool = match selected {
                    Some(entity) => entity == node.entity,
                    None => false,
                };
                rows.push(
                    Row {
                        entity: node.entity,
                        agent: node.marker.is_some(),
                        energy: node.energy(),
                        picked,
                    },
                );
            }
            bodies += 1;
            assert(rows@ =~= cut_off(lines(nodes@.take(i + 1), selected)));
        }
        i += 1;
    }
    assert(nodes@.take(i as int) =~= nodes@);
    let detail: Option<Node> = inspected(selected, nodes);
    Panel {
        agents,
        bodies,
        rows,
        selected: if detail.is_some() {
            selected
        } else {
            None
        },
        detail,
    }
}

/// Where the `i`-th agent of the observed population stands.
pub fn parade_position(i: u32) -> (r: Vec2Lite)
    requires
        i < 0x100_0000,
    ensures
        r == (Vec2Lite {
            x: Binary32::from_u32(i).minus(num(0x4060_0000)).times(num(0x4040_0000)),
            y: Binary32::from_u32(i).rem(num(TWO)).times(num(TWO)),
        }),
{
    Vec2Lite {
        x: Binary32::from_u32(i).minus(num(0x4060_0000)).times(num(0x4040_0000)),
        y: Binary32::from_u32(i).rem(num(TWO)).times(num(TWO)),
    }
}

/// The body of an agent of the observed population: lighter than its structure.
pub open spec fn parade_agent_spec(controller: u64, pos: Vec2Lite) -> Node {
    Node {
        body_mass: Some(num(PARADE_MASS)),
        physical: Some(
            Physical {
                mass: num(PARADE_MASS),
                structure: num(PARADE_STRUCTURE),
                energy: num(BIRTH_ENERGY),
            },
        ),
        yield_thresh: Some(Yield(num(PARADE_STRUCTURE))),
        ..agent_node(
            controller,
            pos,
            AgentTuning::standard(),
            controller.wrapping_mul(0x9E37_79B1),
            0,
        )
    }
}

/// The body of an agent of the observed population: lighter than its structure.
#[verifier::when_used_as_spec(parade_agent_spec)]
pub fn parade_agent(controller: u64, pos: Vec2Lite) -> (r: Node)
    ensures
        r == parade_agent_spec(controller, pos),
{
    let mut node: Node = agent_node(
        controller,
        pos,
        AgentTuning::default(),
        controller.wrapping_mul(0x9E37_79B1),
        0,
    );
    node.body_mass = Some(num(PARADE_MASS));
    node.physical = Some(
        Physical {
            mass: num(PARADE_MASS),
            structure: num(PARADE_STRUCTURE),
            energy: num(BIRTH_ENERGY),
        },
    );
    node.yield_thresh = Some(Yield(num(PARADE_STRUCTURE)));
    node
}

/// How far the camera moves while keys are down for `seconds`.
pub fn pan(keys: PanKeys, seconds: Binary32) -> (r: Vec2Lite)
    ensures
        r == heading(keys).normalize_or_zero().scaled(num(PAN_SPEED)).scaled(seconds),
{
    heading(keys).normalize_or_zero().scaled(num(PAN_SPEED)).scaled(seconds)
}

} // verus!
