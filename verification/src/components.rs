//! What a node of the world is made of.

use crate::binary32::bounds::lemma_sign_of_units;
use crate::binary32::bounds::lemma_sum_between;
use crate::binary32::bounds::lemma_sum_not_negative;
use crate::binary32::model::grid;
use crate::binary32::num;
use crate::binary32::Binary32;
use crate::interface::vector::Rotation;
use crate::interface::vector::Vec2Lite;
use crate::interface::vector::ONE;
use crate::tags::CustomTags;
use vstd::prelude::*;

verus! {

/// Pattern of the default sensor radius, 12.
pub const TUNING_SENSOR_RADIUS: u32 = 0x4140_0000;

/// Pattern of the default yield threshold, 8.
pub const TUNING_YIELD: u32 = 0x4100_0000;

/// Physical properties shared by every node.
#[derive(Clone, Copy, Debug, Default, PartialEq, Eq, Structural)]
pub struct Physical {
    pub mass: Binary32,
    /// Structural integrity. The node fails at zero.
    pub structure: Binary32,
    /// Reserve energy. The node dies at zero.
    pub energy: Binary32,
}

/// Impulse above which a node is damaged.
#[derive(Clone, Copy, Debug, Default, PartialEq, Eq, Structural)]
pub struct Yield(pub Binary32);

/// Exposure to the thermal field: 0 for inert material, 1 for full exposure.
#[derive(Clone, Copy, Debug, Default, PartialEq, Eq, Structural)]
pub struct Conductivity(pub Binary32);

/// The relation mask of a node.
#[derive(Clone, Copy, Debug, Default, PartialEq, Eq, Structural)]
pub struct Tags(pub CustomTags);

/// Oscillator broadcast to nearby nodes.
#[derive(Clone, Copy, Debug, Default, PartialEq, Eq, Structural)]
pub struct Oscillator {
    pub freq: Binary32,
    pub phase: Binary32,
    /// Frequency inherited at birth.
    pub baseline_freq: Binary32,
}

/// Impulse accumulated since the last rest, and where it last came from.
#[derive(Clone, Copy, Debug, Default, PartialEq, Eq, Structural)]
pub struct ImpulseAccum {
    pub value: Binary32,
    pub source: Option<u64>,
}

/// How long a surplus has lasted, and the rest after a birth.
#[derive(Clone, Copy, Debug, Default, PartialEq, Eq, Structural)]
pub struct ReproductionState {
    pub surplus_seconds: Binary32,
    pub cooldown_seconds: Binary32,
}

/// Marks a node as an agent.
#[derive(Clone, Copy, Debug, Default, PartialEq, Eq, Structural)]
pub struct AgentMarker {
    /// 0 for the first agents, one more for each generation.
    pub generation: u32,
    /// Shared by an ancestor chain.
    pub lineage: u64,
    /// Identity of the controller.
    pub controller: u64,
}

/// Inherited shape of an agent's senses and body.
#[derive(Clone, Copy, Debug, PartialEq, Eq, Structural)]
pub struct AgentTuning {
    pub sensor_radius: Binary32,
    pub max_neighbors: usize,
    pub yield_threshold: Binary32,
    pub osc_baseline: Binary32,
}

impl AgentTuning {
    /// The tuning of an agent without parents.
    pub open spec fn standard() -> AgentTuning {
        AgentTuning {
            sensor_radius: num(TUNING_SENSOR_RADIUS),
            max_neighbors: 16,
            yield_threshold: num(TUNING_YIELD),
            osc_baseline: num(ONE),
        }
    }
}

impl Default for AgentTuning {
    fn default() -> (r: AgentTuning)
        ensures
            r == AgentTuning::standard(),
    {
        AgentTuning {
            sensor_radius: num(TUNING_SENSOR_RADIUS),
            max_neighbors: 16,
            yield_threshold: num(TUNING_YIELD),
            osc_baseline: num(ONE),
        }
    }
}

/// Clamp actuator. Holding a clamp costs energy on every step.
#[derive(Clone, Copy, Debug, Default, PartialEq, Eq, Structural)]
pub struct ClampState {
    pub target: Option<u64>,
    /// The joint between the two bodies.
    pub joint: Option<u64>,
    /// Seconds before the clamp can engage again.
    pub cooldown: Binary32,
}

/// A joint made by a clamp.
#[derive(Clone, Copy, Debug, PartialEq, Eq, Structural)]
pub struct ClampJoint {
    pub owner: u64,
    pub target: u64,
}

/// Seconds before an agent can fabricate again.
#[derive(Clone, Copy, Debug, Default, PartialEq, Eq, Structural)]
pub struct FabricateCooldown {
    pub remaining: Binary32,
}

/// Seed of a node's own mutations.
#[derive(Clone, Copy, Debug, Default, PartialEq, Eq, Structural)]
pub struct NodeRng(pub u64);

/// Durable public identity, independent of how entities are numbered.
#[derive(Clone, Copy, Debug, Default, PartialEq, Eq, Structural)]
pub struct StableId(pub u64);

/// Chunk that a terrain node came from. It stays, wherever the node drifts.
#[derive(Clone, Copy, Debug, PartialEq, Eq, Structural)]
pub struct ChunkOrigin {
    pub x: i32,
    pub y: i32,
}

/// Bookkeeping of the energy economy, for the external evaluator.
#[derive(Clone, Copy, Debug, Default, PartialEq, Eq, Structural)]
pub struct EnergyLedger {
    pub harvested: Binary32,
    pub consumed_from_others: Binary32,
    pub vented: Binary32,
    pub dissipated: Binary32,
    pub spent_on_actuation: Binary32,
    pub invested_in_fabrication: Binary32,
    pub invested_in_offspring: Binary32,
    pub transferred_out: Binary32,
    pub born_step: u32,
}

/// Source or sink of a transaction.
#[derive(Clone, Copy, Debug, PartialEq, Eq, Structural)]
pub enum EnergyFlow {
    Harvested,
    Consumed,
    Vented,
    Dissipated,
    Actuation,
    Fabrication,
    Offspring,
    Transferred,
}

pub open spec fn valid_energy_amount_spec(amount: Binary32) -> Binary32 {
    if amount.finite() {
        amount.max(num(0))
    } else {
        num(0)
    }
}

/// An amount that can be booked: finite and not negative.
#[verifier::when_used_as_spec(valid_energy_amount_spec)]
pub fn valid_energy_amount(amount: Binary32) -> (r: Binary32)
    ensures
        r == valid_energy_amount_spec(amount),
{
    if amount.is_finite() {
        amount.max(num(0))
    } else {
        num(0)
    }
}

pub open spec fn is_debit_spec(flow: EnergyFlow) -> bool {
    !is_credit(flow)
}

/// Does the flow take energy out of a node?
#[verifier::when_used_as_spec(is_debit_spec)]
pub fn is_debit(flow: EnergyFlow) -> (r: bool)
    ensures
        r == is_debit_spec(flow),
{
    match flow {
        EnergyFlow::Harvested => false,
        EnergyFlow::Consumed => false,
        EnergyFlow::Vented => false,
        _ => true,
    }
}

/// Does the flow bring energy into a node?
pub open spec fn is_credit(flow: EnergyFlow) -> bool {
    flow == EnergyFlow::Harvested || flow == EnergyFlow::Consumed || flow == EnergyFlow::Vented
}

/// A ledger and a body after a transaction, with the amount that moved.
#[derive(Clone, Copy)]
pub struct Booking {
    pub ledger: EnergyLedger,
    pub physical: Physical,
    pub amount: Binary32,
}

impl EnergyLedger {
    pub open spec fn opened_spec(born_step: u32) -> EnergyLedger {
        EnergyLedger {
            harvested: num(0),
            consumed_from_others: num(0),
            vented: num(0),
            dissipated: num(0),
            spent_on_actuation: num(0),
            invested_in_fabrication: num(0),
            invested_in_offspring: num(0),
            transferred_out: num(0),
            born_step,
        }
    }

    /// An empty ledger of a node born at this step.
    #[verifier::when_used_as_spec(opened_spec)]
    pub fn opened(born_step: u32) -> (r: EnergyLedger)
        ensures
            r == EnergyLedger::opened_spec(born_step),
    {
        EnergyLedger {
            harvested: num(0),
            consumed_from_others: num(0),
            vented: num(0),
            dissipated: num(0),
            spent_on_actuation: num(0),
            invested_in_fabrication: num(0),
            invested_in_offspring: num(0),
            transferred_out: num(0),
            born_step,
        }
    }

    /// The ledger with an amount booked under a flow.
    pub open spec fn recorded(self, flow: EnergyFlow, amount: Binary32) -> EnergyLedger {
        match flow {
            EnergyFlow::Harvested => EnergyLedger { harvested: self.harvested.plus(amount), ..self },
            EnergyFlow::Consumed => EnergyLedger {
                consumed_from_others: self.consumed_from_others.plus(amount),
                ..self
            },
            EnergyFlow::Vented => EnergyLedger { vented: self.vented.plus(amount), ..self },
            EnergyFlow::Dissipated => EnergyLedger {
                dissipated: self.dissipated.plus(amount),
                ..self
            },
            EnergyFlow::Actuation => EnergyLedger {
                spent_on_actuation: self.spent_on_actuation.plus(amount),
                ..self
            },
            EnergyFlow::Fabrication => EnergyLedger {
                invested_in_fabrication: self.invested_in_fabrication.plus(amount),
                ..self
            },
            EnergyFlow::Offspring => EnergyLedger {
                invested_in_offspring: self.invested_in_offspring.plus(amount),
                ..self
            },
            EnergyFlow::Transferred => EnergyLedger {
                transferred_out: self.transferred_out.plus(amount),
                ..self
            },
        }
    }

    fn record(&mut self, flow: EnergyFlow, amount: Binary32)
        ensures
            *final(self) == old(self).recorded(flow, amount),
    {
        match flow {
            EnergyFlow::Harvested => {
                self.harvested = self.harvested.plus(amount);
            },
            EnergyFlow::Consumed => {
                self.consumed_from_others = self.consumed_from_others.plus(amount);
            },
            EnergyFlow::Vented => {
                self.vented = self.vented.plus(amount);
            },
            EnergyFlow::Dissipated => {
                self.dissipated = self.dissipated.plus(amount);
            },
            EnergyFlow::Actuation => {
                self.spent_on_actuation = self.spent_on_actuation.plus(amount);
            },
            EnergyFlow::Fabrication => {
                self.invested_in_fabrication = self.invested_in_fabrication.plus(amount);
            },
            EnergyFlow::Offspring => {
                self.invested_in_offspring = self.invested_in_offspring.plus(amount);
            },
            EnergyFlow::Transferred => {
                self.transferred_out = self.transferred_out.plus(amount);
            },
        }
    }

    /// Energy brought in under a flow.
    pub open spec fn credited(
        self,
        physical: Physical,
        flow: EnergyFlow,
        amount: Binary32,
    ) -> Booking {
        let booked = valid_energy_amount(amount);
        if is_credit(flow) {
            Booking {
                ledger: self.recorded(flow, booked),
                physical: Physical { energy: physical.energy.plus(booked), ..physical },
                amount: booked,
            }
        } else {
            Booking { ledger: self, physical, amount: num(0) }
        }
    }

    /// Energy taken out under a flow.
    pub open spec fn taken(self, physical: Physical, flow: EnergyFlow, amount: Binary32) -> Booking {
        Booking {
            ledger: self.recorded(flow, amount),
            physical: Physical { energy: physical.energy.minus(amount), ..physical },
            amount,
        }
    }

    /// Can the reserve fund the amount?
    pub open spec fn funds(physical: Physical, flow: EnergyFlow, amount: Binary32) -> bool {
        is_debit(flow) && !physical.energy.lt(valid_energy_amount(amount))
    }

    /// The full amount taken, where the reserve can fund it.
    pub open spec fn debited_exact(
        self,
        physical: Physical,
        flow: EnergyFlow,
        amount: Binary32,
    ) -> Booking {
        if EnergyLedger::funds(physical, flow, amount) {
            self.taken(physical, flow, valid_energy_amount(amount))
        } else {
            Booking { ledger: self, physical, amount: num(0) }
        }
    }

    /// As much of the amount taken as there is.
    pub open spec fn debited_available(
        self,
        physical: Physical,
        flow: EnergyFlow,
        amount: Binary32,
    ) -> Booking {
        if is_debit(flow) {
            self.taken(
                physical,
                flow,
                valid_energy_amount(amount).min(physical.energy.max(num(0))),
            )
        } else {
            Booking { ledger: self, physical, amount: num(0) }
        }
    }

    /// The environment's share, whether or not there is enough.
    pub open spec fn drained(self, physical: Physical, amount: Binary32) -> Booking {
        self.taken(physical, EnergyFlow::Dissipated, valid_energy_amount(amount))
    }

    /// Credits a finite amount, not below zero, and records where it came from.
    pub fn credit(&mut self, physical: &mut Physical, flow: EnergyFlow, amount: Binary32) -> (r:
        Binary32)
        ensures
            (Booking { ledger: *final(self), physical: *final(physical), amount: r }) == old(
                self,
            ).credited(*old(physical), flow, amount),
    {
        if is_debit(flow) {
            return num(0);
        }
        let booked: Binary32 = valid_energy_amount(amount);
        physical.energy = physical.energy.plus(booked);
        self.record(flow, booked);
        booked
    }

    /// Debits the full amount, and only where the reserve can fund it.
    pub fn debit_exact(
        &mut self,
        physical: &mut Physical,
        flow: EnergyFlow,
        amount: Binary32,
    ) -> (r: bool)
        ensures
            r == EnergyLedger::funds(*old(physical), flow, amount),
            *final(self) == old(self).debited_exact(*old(physical), flow, amount).ledger,
            *final(physical) == old(self).debited_exact(*old(physical), flow, amount).physical,
    {
        let booked: Binary32 = valid_energy_amount(amount);
        if !is_debit(flow) || physical.energy.lt(booked) {
            return false;
        }
        physical.energy = physical.energy.minus(booked);
        self.record(flow, booked);
        true
    }

    /// Debits as much as remains available.
    pub fn debit_available(
        &mut self,
        physical: &mut Physical,
        flow: EnergyFlow,
        amount: Binary32,
    ) -> (r: Binary32)
        ensures
            (Booking { ledger: *final(self), physical: *final(physical), amount: r }) == old(
                self,
            ).debited_available(*old(physical), flow, amount),
    {
        if !is_debit(flow) {
            return num(0);
        }
        let booked: Binary32 = valid_energy_amount(amount).min(physical.energy.max(num(0)));
        physical.energy = physical.energy.minus(booked);
        self.record(flow, booked);
        booked
    }

    /// Applies an environmental drain. It may cross zero, so that depletion is
    /// seen in the same tick.
    pub fn drain(&mut self, physical: &mut Physical, amount: Binary32) -> (r: Binary32)
        ensures
            (Booking { ledger: *final(self), physical: *final(physical), amount: r }) == old(
                self,
            ).drained(*old(physical), amount),
    {
        let booked: Binary32 = valid_energy_amount(amount);
        physical.energy = physical.energy.minus(booked);
        self.record(EnergyFlow::Dissipated, booked);
        booked
    }
}

/// An amount that is booked is a finite number, not below zero.
pub proof fn lemma_amount_valid(amount: Binary32)
    ensures
        valid_energy_amount(amount).finite(),
        valid_energy_amount(amount).units() >= 0,
        !amount.finite() ==> valid_energy_amount(amount) == num(0),
        amount.finite() && amount.units() > 0 ==> valid_energy_amount(amount) == amount,
{
    assert(grid(0) == 0);
}

/// A difference of two numbers in order lies between zero and the first.
proof fn lemma_difference(a: Binary32, b: Binary32)
    requires
        a.finite(),
        b.finite(),
        0 <= b.units() <= a.units(),
    ensures
        a.minus(b).finite(),
        0 <= a.minus(b).units() <= a.units(),
{
    lemma_sign_of_units(b);
    assert(b.negated().units() == -b.units());
    assert(grid(0) == 0);
    lemma_sum_between(a, b.negated(), num(0), a);
}

/// No voluntary spend makes a reserve negative, whatever the amount.
pub proof fn lemma_debit_keeps_reserve(
    ledger: EnergyLedger,
    physical: Physical,
    flow: EnergyFlow,
    amount: Binary32,
)
    requires
        physical.energy.finite(),
        physical.energy.units() >= 0,
    ensures
        ({
            let after = ledger.debited_available(physical, flow, amount);
            &&& after.physical.energy.finite()
            &&& 0 <= after.physical.energy.units() <= physical.energy.units()
            &&& after.amount.units() <= physical.energy.units()
        }),
        ({
            let after = ledger.debited_exact(physical, flow, amount);
            &&& after.physical.energy.finite()
            &&& 0 <= after.physical.energy.units() <= physical.energy.units()
        }),
{
    assert(grid(0) == 0);
    let booked = valid_energy_amount(amount);
    lemma_amount_valid(amount);
    let limited = booked.min(physical.energy.max(num(0)));
    lemma_sign_of_units(physical.energy);
    assert(physical.energy.max(num(0)).units() == physical.energy.units());
    assert(0 <= limited.units() <= physical.energy.units());
    lemma_difference(physical.energy, limited);
    if EnergyLedger::funds(physical, flow, amount) {
        lemma_difference(physical.energy, booked);
    }
}

/// A transaction touches the reserve and one column of the ledger. What it moves
/// is what it records, and nothing else of the body or the ledger changes.
pub proof fn lemma_transaction_is_recorded(
    ledger: EnergyLedger,
    physical: Physical,
    flow: EnergyFlow,
    amount: Binary32,
)
    ensures
        ({
            let b = ledger.credited(physical, flow, amount);
            &&& b.physical.mass == physical.mass && b.physical.structure == physical.structure
            &&& is_credit(flow) ==> b.physical.energy == physical.energy.plus(b.amount) && b.ledger
                == ledger.recorded(flow, b.amount)
            &&& !is_credit(flow) ==> b.physical == physical && b.ledger == ledger
        }),
        ({
            let b = ledger.debited_available(physical, flow, amount);
            &&& b.physical.mass == physical.mass && b.physical.structure == physical.structure
            &&& is_debit(flow) ==> b.physical.energy == physical.energy.minus(b.amount) && b.ledger
                == ledger.recorded(flow, b.amount)
            &&& !is_debit(flow) ==> b.physical == physical && b.ledger == ledger
        }),
{
}

/// After one credit and one debit the reserve is what it was, plus the one and
/// minus the other, and it is not negative.
pub proof fn lemma_transactions_match_the_ledger(
    physical: Physical,
    incoming: Binary32,
    requested: Binary32,
)
    requires
        physical.energy.finite(),
        physical.energy.units() >= 0,
        physical.energy.plus(valid_energy_amount(incoming)).finite(),
    ensures
        ({
            let first = EnergyLedger::opened(0).credited(physical, EnergyFlow::Harvested, incoming);
            let second = first.ledger.debited_available(
                first.physical,
                EnergyFlow::Actuation,
                requested,
            );
            &&& second.ledger.harvested == num(0).plus(first.amount)
            &&& second.ledger.spent_on_actuation == num(0).plus(second.amount)
            &&& second.physical.energy == physical.energy.plus(first.amount).minus(second.amount)
            &&& second.physical.energy.units() >= 0
        }),
{
    let first = EnergyLedger::opened(0).credited(physical, EnergyFlow::Harvested, incoming);
    lemma_amount_valid(incoming);
    lemma_sum_not_negative(physical.energy, first.amount);
    lemma_debit_keeps_reserve(
        first.ledger,
        first.physical,
        EnergyFlow::Actuation,
        requested,
    );
}

/// A node of the world, with the components that it has.
#[derive(Clone, Copy, Debug, PartialEq, Eq, Structural)]
pub struct Node {
    /// The number by which the engine knows the node.
    pub entity: u64,
    pub position: Vec2Lite,
    pub rotation: Rotation,
    pub velocity: Option<Vec2Lite>,
    pub spin: Option<Binary32>,
    /// The mass that the physics engine uses.
    pub body_mass: Option<Binary32>,
    pub physical: Option<Physical>,
    pub yield_thresh: Option<Yield>,
    pub conductivity: Option<Conductivity>,
    pub tags: Option<Tags>,
    pub oscillator: Option<Oscillator>,
    pub impulse: Option<ImpulseAccum>,
    pub ledger: Option<EnergyLedger>,
    pub marker: Option<AgentMarker>,
    pub tuning: Option<AgentTuning>,
    pub clamp: Option<ClampState>,
    pub fabricate: Option<FabricateCooldown>,
    pub reproduction: Option<ReproductionState>,
    pub node_rng: Option<NodeRng>,
    pub stable_id: Option<StableId>,
    pub chunk_origin: Option<ChunkOrigin>,
    /// Depleted: inert matter whose controller is gone.
    pub dead: bool,
}

impl Node {
    pub open spec fn bare_spec(entity: u64, position: Vec2Lite) -> Node {
        Node {
            entity,
            position,
            rotation: Rotation { x: num(0), y: num(0), z: num(0), w: num(ONE) },
            velocity: None,
            spin: None,
            body_mass: None,
            physical: None,
            yield_thresh: None,
            conductivity: None,
            tags: None,
            oscillator: None,
            impulse: None,
            ledger: None,
            marker: None,
            tuning: None,
            clamp: None,
            fabricate: None,
            reproduction: None,
            node_rng: None,
            stable_id: None,
            chunk_origin: None,
            dead: false,
        }
    }

    /// A place in the world and nothing else.
    #[verifier::when_used_as_spec(bare_spec)]
    pub fn bare(entity: u64, position: Vec2Lite) -> (r: Node)
        ensures
            r == Node::bare_spec(entity, position),
    {
        Node {
            entity,
            position,
            rotation: Rotation { x: num(0), y: num(0), z: num(0), w: num(ONE) },
            velocity: None,
            spin: None,
            body_mass: None,
            physical: None,
            yield_thresh: None,
            conductivity: None,
            tags: None,
            oscillator: None,
            impulse: None,
            ledger: None,
            marker: None,
            tuning: None,
            clamp: None,
            fabricate: None,
            reproduction: None,
            node_rng: None,
            stable_id: None,
            chunk_origin: None,
            dead: false,
        }
    }

    pub open spec fn tagged_spec(self, flag: u64) -> bool {
        self.tags matches Some(t) && t.0.has(flag)
    }

    /// Does the node carry one of these flags?
    #[verifier::when_used_as_spec(tagged_spec)]
    pub fn tagged(self, flag: u64) -> (r: bool)
        ensures
            r == self.tagged_spec(flag),
    {
        match self.tags {
            Some(t) => t.0.has(flag),
            None => false,
        }
    }

    pub open spec fn motion_spec(self) -> Vec2Lite {
        match self.velocity {
            Some(v) => v,
            None => Vec2Lite::zero(),
        }
    }

    /// The velocity; a node without one is at rest.
    #[verifier::when_used_as_spec(motion_spec)]
    pub fn motion(self) -> (r: Vec2Lite)
        ensures
            r == self.motion_spec(),
    {
        match self.velocity {
            Some(v) => v,
            None => Vec2Lite::zero(),
        }
    }

    pub open spec fn energy_spec(self) -> Binary32 {
        match self.physical {
            Some(p) => p.energy,
            None => num(0),
        }
    }

    /// The reserve; a node without a body has none.
    #[verifier::when_used_as_spec(energy_spec)]
    pub fn energy(self) -> (r: Binary32)
        ensures
            r == self.energy_spec(),
    {
        match self.physical {
            Some(p) => p.energy,
            None => num(0),
        }
    }

    /// The node after energy came in, where it has a body and a ledger.
    pub open spec fn credited(self, flow: EnergyFlow, amount: Binary32) -> Node {
        match (self.physical, self.ledger) {
            (Some(p), Some(l)) => {
                let b = l.credited(p, flow, amount);
                Node { physical: Some(b.physical), ledger: Some(b.ledger), ..self }
            },
            _ => self,
        }
    }

    /// The node after energy went out, and how much did.
    pub open spec fn debited(self, flow: EnergyFlow, amount: Binary32) -> (Node, Binary32) {
        match (self.physical, self.ledger) {
            (Some(p), Some(l)) => {
                let b = l.debited_available(p, flow, amount);
                (Node { physical: Some(b.physical), ledger: Some(b.ledger), ..self }, b.amount)
            },
            _ => (self, num(0)),
        }
    }

    /// Credits the node.
    pub fn credit(&mut self, flow: EnergyFlow, amount: Binary32)
        ensures
            *final(self) == old(self).credited(flow, amount),
    {
        match (self.physical, self.ledger) {
            (Some(p), Some(l)) => {
                let mut physical: Physical = p;
                let mut ledger: EnergyLedger = l;
                let _booked: Binary32 = ledger.credit(&mut physical, flow, amount);
                self.physical = Some(physical);
                self.ledger = Some(ledger);
            },
            _ => {},
        }
    }

    /// Debits the node by as much as it has.
    pub fn debit(&mut self, flow: EnergyFlow, amount: Binary32) -> (r: Binary32)
        ensures
            (*final(self), r) == old(self).debited(flow, amount),
    {
        match (self.physical, self.ledger) {
            (Some(p), Some(l)) => {
                let mut physical: Physical = p;
                let mut ledger: EnergyLedger = l;
                let booked: Binary32 = ledger.debit_available(&mut physical, flow, amount);
                self.physical = Some(physical);
                self.ledger = Some(ledger);
                booked
            },
            _ => num(0),
        }
    }
}

/// Where the table holds the node, if it does: the first with that number.
pub open spec fn place_of(nodes: Seq<Node>, entity: u64) -> Option<int>
    decreases nodes.len(),
{
    if nodes.len() == 0 {
        None
    } else {
        match place_of(nodes.drop_last(), entity) {
            Some(i) => Some(i),
            None => if nodes.last().entity == entity {
                Some(nodes.len() - 1)
            } else {
                None
            },
        }
    }
}

/// The place is in the table, holds the node, and is the first that does.
pub proof fn lemma_place(nodes: Seq<Node>, entity: u64)
    ensures
        match place_of(nodes, entity) {
            Some(i) => {
                &&& 0 <= i < nodes.len()
                &&& nodes[i].entity == entity
                &&& forall|j: int| 0 <= j < i ==> (#[trigger] nodes[j]).entity != entity
            },
            None => forall|j: int| 0 <= j < nodes.len() ==> (#[trigger] nodes[j]).entity != entity,
        },
    decreases nodes.len(),
{
    if nodes.len() > 0 {
        lemma_place(nodes.drop_last(), entity);
        assert forall|j: int| 0 <= j < nodes.len() - 1 implies nodes.drop_last()[j]
            == #[trigger] nodes[j] by {}
    }
}

/// A place that holds the node, with none before it that does, is its place.
pub proof fn lemma_place_is(nodes: Seq<Node>, entity: u64, i: int)
    requires
        0 <= i < nodes.len(),
        nodes[i].entity == entity,
        forall|j: int| 0 <= j < i ==> (#[trigger] nodes[j]).entity != entity,
    ensures
        place_of(nodes, entity) == Some(i),
{
    lemma_place(nodes, entity);
}

/// Two tables that hold the same numbers hold each node in the same place.
pub proof fn lemma_place_same(a: Seq<Node>, b: Seq<Node>, entity: u64)
    requires
        a.len() == b.len(),
        forall|i: int| 0 <= i < a.len() ==> (#[trigger] a[i]).entity == b[i].entity,
    ensures
        place_of(a, entity) == place_of(b, entity),
{
    lemma_place(a, entity);
    lemma_place(b, entity);
    assert forall|i: int| 0 <= i < b.len() implies (#[trigger] b[i]).entity == a[i].entity by {}
}

/// Is the number on the list?
pub fn is_listed(list: &[u64], number: u64) -> (r: bool)
    ensures
        r == list@.contains(number),
{
    let mut i: usize = 0;
    while i < list.len()
        invariant
            i <= list@.len(),
            forall|j: int| 0 <= j < i ==> list@[j] != number,
        decreases list@.len() - i,
    {
        if list[i] == number {
            return true;
        }
        i += 1;
    }
    false
}

/// Finds a node.
pub fn find(nodes: &Vec<Node>, entity: u64) -> (r: Option<usize>)
    ensures
        match r {
            Some(i) => place_of(nodes@, entity) == Some(i as int) && i < nodes@.len()
                && nodes@[i as int].entity == entity,
            None => place_of(nodes@, entity) is None,
        },
{
    let mut i: usize = 0;
    while i < nodes.len()
        invariant
            i <= nodes@.len(),
            forall|j: int| 0 <= j < i ==> (#[trigger] nodes@[j]).entity != entity,
        decreases nodes@.len() - i,
    {
        if nodes[i].entity == entity {
            proof {
                lemma_place_is(nodes@, entity, i as int);
            }
            return Some(i);
        }
        i += 1;
    }
    proof {
        lemma_place(nodes@, entity);
    }
    None
}

/// What the table says of a node.
pub open spec fn node_of(nodes: Seq<Node>, entity: u64) -> Option<Node> {
    match place_of(nodes, entity) {
        Some(i) => Some(nodes[i]),
        None => None,
    }
}

/// Reads a node.
pub fn lookup(nodes: &Vec<Node>, entity: u64) -> (r: Option<Node>)
    ensures
        r == node_of(nodes@, entity),
{
    match find(nodes, entity) {
        Some(i) => Some(nodes[i]),
        None => None,
    }
}

} // verus!
