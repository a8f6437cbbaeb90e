//! The order of one fixed step. Everything of a step, the physics engine
//! included, happens in this order or, while an observer holds the simulation,
//! not at all.

use vstd::prelude::*;

verus! {

/// A part of one fixed step.
#[derive(Clone, Copy, Debug, PartialEq, Eq, Structural)]
pub enum Phase {
    /// Advance the clock of the fields and their drift.
    AdvanceFields,
    /// Rebuild the spatial index from the bodies.
    RebuildSpatialHash,
    /// Remove clamp joints that nobody holds.
    CleanupClampJoints,
    /// Show the world to the controllers and collect their actions.
    GatherAgentActions,
    /// Pay for force and torque, and apply them.
    ApplyAgentActions,
    /// Clamp, fabricate and tune oscillators.
    ApplyActuators,
    /// Apply drag and magnetic forces.
    ApplyFieldForces,
    /// Drain stored energy.
    ThermodynamicDrain,
    /// Harvest from fast contacts.
    KineticHarvest,
    /// Set off volatile traps.
    VolatileTrapDischarge,
    /// Let agents with a lasting surplus reproduce.
    ReproduceAgents,
    /// Let the physics engine find contacts, solve them and write back.
    Physics,
    /// Turn solved impulses into stress and damage.
    AccumulateCollisionDamage,
    /// Credit finishing blows.
    TransferToKillers,
    /// Break failed nodes up.
    RunFragmentation,
    /// Turn depleted agents into matter.
    RunDeaths,
    /// Load and unload chunks around the agents.
    StreamChunks,
    /// Count the step.
    AdvanceSimClock,
    /// Record who lives and who died.
    RecordAgentHistory,
}

impl Phase {
    /// The place of the phase in the step.
    pub open spec fn place(self) -> nat {
        match self {
            Phase::AdvanceFields => 0,
            Phase::RebuildSpatialHash => 1,
            Phase::CleanupClampJoints => 2,
            Phase::GatherAgentActions => 3,
            Phase::ApplyAgentActions => 4,
            Phase::ApplyActuators => 5,
            Phase::ApplyFieldForces => 6,
            Phase::ThermodynamicDrain => 7,
            Phase::KineticHarvest => 8,
            Phase::VolatileTrapDischarge => 9,
            Phase::ReproduceAgents => 10,
            Phase::Physics => 11,
            Phase::AccumulateCollisionDamage => 12,
            Phase::TransferToKillers => 13,
            Phase::RunFragmentation => 14,
            Phase::RunDeaths => 15,
            Phase::StreamChunks => 16,
            Phase::AdvanceSimClock => 17,
            Phase::RecordAgentHistory => 18,
        }
    }

    /// The phase that follows, or none after the last.
    pub fn next(self) -> (r: Option<Phase>)
        ensures
            match r {
                Some(p) => p.place() == self.place() + 1,
                None => self.place() == 18,
            },
    {
        match self {
            Phase::AdvanceFields => Some(Phase::RebuildSpatialHash),
            Phase::RebuildSpatialHash => Some(Phase::CleanupClampJoints),
            Phase::CleanupClampJoints => Some(Phase::GatherAgentActions),
            Phase::GatherAgentActions => Some(Phase::ApplyAgentActions),
            Phase::ApplyAgentActions => Some(Phase::ApplyActuators),
            Phase::ApplyActuators => Some(Phase::ApplyFieldForces),
            Phase::ApplyFieldForces => Some(Phase::ThermodynamicDrain),
            Phase::ThermodynamicDrain => Some(Phase::KineticHarvest),
            Phase::KineticHarvest => Some(Phase::VolatileTrapDischarge),
            Phase::VolatileTrapDischarge => Some(Phase::ReproduceAgents),
            Phase::ReproduceAgents => Some(Phase::Physics),
            Phase::Physics => Some(Phase::AccumulateCollisionDamage),
            Phase::AccumulateCollisionDamage => Some(Phase::TransferToKillers),
            Phase::TransferToKillers => Some(Phase::RunFragmentation),
            Phase::RunFragmentation => Some(Phase::RunDeaths),
            Phase::RunDeaths => Some(Phase::StreamChunks),
            Phase::StreamChunks => Some(Phase::AdvanceSimClock),
            Phase::AdvanceSimClock => Some(Phase::RecordAgentHistory),
            Phase::RecordAgentHistory => None,
        }
    }
}

/// The phases of one step: all of them in order where the simulation runs, and
/// none where it is held. `running` is what the observer allows.
pub fn schedule(running: bool) -> (r: Vec<Phase>)
    ensures
        !running ==> r@.len() == 0,
        running ==> r@.len() == 19 && forall|i: int|
            0 <= i < 19 ==> (#[trigger] r@[i]).place() == i,
{
    let mut out: Vec<Phase> = Vec::new();
    let mut phase: Option<Phase> = if running {
        Some(Phase::AdvanceFields)
    } else {
        None
    };
    while phase.is_some()
        invariant
            !running ==> phase is None && out@.len() == 0,
            out@.len() <= 19,
            running && phase is None ==> out@.len() == 19,
            forall|i: int| 0 <= i < out@.len() ==> (#[trigger] out@[i]).place() == i,
            phase matches Some(p) ==> p.place() == out@.len(),
        decreases 19 - out@.len(),
    {
        match phase {
            Some(p) => {
                out.push(p);
                phase = p.next();
            },
            None => {},
        }
    }
    out
}

/// Each phase has a place of its own.
pub proof fn lemma_places_differ(a: Phase, b: Phase)
    ensures
        a.place() == b.place() <==> a == b,
{
}

} // verus!
