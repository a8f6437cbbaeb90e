//! What a session tells its client besides the tensors.

use crate::binary32::Binary32;
use vstd::prelude::*;

verus! {

/// How a component of the action acts while it is held.
#[derive(Clone, Copy, Debug, PartialEq, Eq, Structural)]
pub enum TriggerSemantics {
    /// Applied on every tick.
    Continuous,
    /// On while above its threshold.
    Level,
    /// Pulsed once per decision.
    Edge,
    /// A value to approach.
    Target,
}

/// Who waits for whom.
#[derive(Clone, Copy, Debug, PartialEq, Eq, Structural)]
pub enum TransportMode {
    /// The world never waits.
    RealTime,
    /// The world waits at every decision.
    Lockstep,
}

/// What happened to an entity or to the session. None of these is a reward.
#[derive(Clone, Copy, Debug, PartialEq, Eq, Structural)]
pub enum LifecycleKind {
    EntityAlive,
    EntityDied,
    EntityReproduced,
    EntityReplaced,
    WorldTerminated,
    SessionAttached,
    SessionDetached,
}

/// One event of a session.
#[derive(Debug)]
pub struct LifecycleEvent {
    pub sequence: u64,
    pub world_tick: u64,
    pub kind: LifecycleKind,
    pub subject_id: u64,
    pub related_id: Option<u64>,
    pub lineage_id: Option<u64>,
    pub generation: Option<u32>,
    pub reason: Option<String>,
}

/// An event with its text as characters.
#[verifier::ext_equal]
pub struct LifecycleEventView {
    pub sequence: u64,
    pub world_tick: u64,
    pub kind: LifecycleKind,
    pub subject_id: u64,
    pub related_id: Option<u64>,
    pub lineage_id: Option<u64>,
    pub generation: Option<u32>,
    pub reason: Option<Seq<char>>,
}

/// A text as characters.
pub open spec fn text(reason: Option<String>) -> Option<Seq<char>> {
    match reason {
        Some(s) => Some(s@),
        None => None,
    }
}

impl View for LifecycleEvent {
    type V = LifecycleEventView;

    open spec fn view(&self) -> LifecycleEventView {
        LifecycleEventView {
            sequence: self.sequence,
            world_tick: self.world_tick,
            kind: self.kind,
            subject_id: self.subject_id,
            related_id: self.related_id,
            lineage_id: self.lineage_id,
            generation: self.generation,
            reason: text(self.reason),
        }
    }
}

impl LifecycleEvent {
    /// The same event once more.
    pub fn copy(&self) -> (r: LifecycleEvent)
        ensures
            r@ == self@,
    {
        let reason: Option<String> = match &self.reason {
            Some(s) => Some(s.clone()),
            None => None,
        };
        LifecycleEvent {
            sequence: self.sequence,
            world_tick: self.world_tick,
            kind: self.kind,
            subject_id: self.subject_id,
            related_id: self.related_id,
            lineage_id: self.lineage_id,
            generation: self.generation,
            reason,
        }
    }
}

/// Change of the body between two decisions.
#[derive(Clone, Copy, Debug, PartialEq, Eq, Structural)]
pub struct PhysicalDelta {
    pub energy: Binary32,
    pub structure: Binary32,
    pub mass: Binary32,
}

/// Everything that a client must know before its first decision.
#[derive(Debug)]
pub struct ProtocolMetadata {
    pub protocol_version: u8,
    pub schema_version: u16,
    pub fixed_timestep_seconds: Binary32,
    pub physics_ticks_per_decision: u32,
    pub observation_floats: usize,
    pub action_floats: usize,
    pub self_stride: usize,
    pub neighbor_stride: usize,
    pub field_count: usize,
    pub max_neighbors: usize,
    pub field_samples: usize,
    pub field_channels: usize,
    pub sensor_radius: Binary32,
    pub action_min: [Binary32; 7],
    pub action_max: [Binary32; 7],
    pub action_semantics: [TriggerSemantics; 7],
    pub transport_mode: TransportMode,
    pub world_seed: u64,
    pub world_tick: u64,
    pub world_id: u128,
    pub session_id: u128,
    pub resume_token: String,
    pub stable_agent_id: u64,
    pub snapshot_schema_version: u16,
    pub capabilities: Vec<String>,
}

/// The texts of a list of strings.
pub open spec fn texts(list: Seq<String>) -> Seq<Seq<char>> {
    list.map_values(|s: String| s@)
}

} // verus!
