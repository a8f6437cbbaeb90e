//! Slow agents: the world waits at every decision, holds the action for a number
//! of ticks, and survives the loss of the connection.

use crate::binary32::num;
use crate::binary32::Binary32;
use crate::components::is_listed;
use crate::draws::blake3_hex;
use crate::draws::digest;
use crate::economy::FIXED_DT;
use crate::interface::action::ActionTensor;
use crate::interface::action::ACTION_STRIDE;
use crate::interface::action::MINUS_ONE;
use crate::interface::action::MINUS_OSC_LIMIT;
use crate::interface::action::OSC_LIMIT;
use crate::interface::action::TAU;
use crate::interface::config::InterfaceConfig;
use crate::interface::config::FIELD_COUNT;
use crate::interface::config::NEIGHBOR_STRIDE;
use crate::interface::config::SELF_STRIDE;
use crate::interface::header::low_word;
use crate::interface::header::wire_header;
use crate::interface::header::WireHeader;
use crate::interface::header::FRAME_RESUME;
use crate::interface::header::WIRE_MAGIC;
use crate::interface::observation::ObservationTensor;
use crate::interface::session::text;
use crate::interface::session::texts;
use crate::interface::session::LifecycleEvent;
use crate::interface::session::LifecycleEventView;
use crate::interface::session::LifecycleKind;
use crate::interface::session::PhysicalDelta;
use crate::interface::session::ProtocolMetadata;
use crate::interface::session::TransportMode;
use crate::interface::session::TriggerSemantics;
use crate::interface::vector::ONE;
use crate::server::wire::action_of;
use crate::server::wire::announced_length;
use crate::server::wire::bytes_words;
use crate::server::wire::decode_action;
use crate::server::wire::decode_header;
use crate::server::wire::encode_header;
use crate::server::wire::lemma_words_return;
use crate::server::wire::words_bytes;
use crate::server::wire::FrameError;
use crate::server::wire::HEADER_BYTES;
use crate::server::wire::MAX_FRAME_BYTES;
use crate::snapshot::SNAPSHOT_SCHEMA_VERSION;
use crate::PROTOCOL_VERSION;
use vstd::prelude::*;

verus! {

/// How a session is set up.
#[derive(Clone, Debug)]
pub struct LockstepConfig {
    pub physics_ticks_per_decision: u32,
    pub world_seed: u64,
    pub world_id: u128,
    pub session_id: u128,
    pub stable_agent_id: u64,
    pub resume_token: String,
    pub deltas: bool,
    pub interface_config: InterfaceConfig,
}

pub open spec fn at_least_one(ticks: u32) -> u32 {
    if ticks == 0 {
        1
    } else {
        ticks
    }
}

/// What a session can do, by name.
pub open spec fn capability_names() -> Seq<Seq<char>> {
    seq![
        "lockstep"@,
        "action_hold"@,
        "lifecycle_events"@,
        "reconnect_resume"@,
        "canonical_snapshots"@,
        "physical_deltas"@,
    ]
}

/// The smallest value of each component of an action.
pub open spec fn action_floor() -> Seq<Binary32> {
    seq![
        num(MINUS_ONE),
        num(MINUS_ONE),
        num(MINUS_ONE),
        num(0),
        num(0),
        num(MINUS_OSC_LIMIT),
        num(0),
    ]
}

/// The largest value of each component of an action.
pub open spec fn action_ceiling() -> Seq<Binary32> {
    seq![num(ONE), num(ONE), num(ONE), num(ONE), num(ONE), num(OSC_LIMIT), num(TAU)]
}

/// How each component of an action is held.
pub open spec fn action_triggers() -> Seq<TriggerSemantics> {
    seq![
        TriggerSemantics::Continuous,
        TriggerSemantics::Continuous,
        TriggerSemantics::Continuous,
        TriggerSemantics::Level,
        TriggerSemantics::Edge,
        TriggerSemantics::Target,
        TriggerSemantics::Target,
    ]
}

impl LockstepConfig {
    /// `m` describes the session at `world_tick`.
    pub open spec fn described_by(self, m: ProtocolMetadata, world_tick: u64) -> bool {
        let interface = self.interface_config;
        &&& m.protocol_version == PROTOCOL_VERSION
        &&& m.schema_version == 1
        &&& m.fixed_timestep_seconds == num(FIXED_DT)
        &&& m.physics_ticks_per_decision == at_least_one(self.physics_ticks_per_decision)
        &&& m.observation_floats == interface.observation_len_spec()
        &&& m.action_floats == ACTION_STRIDE
        &&& m.self_stride == SELF_STRIDE
        &&& m.neighbor_stride == NEIGHBOR_STRIDE
        &&& m.field_count == FIELD_COUNT
        &&& m.max_neighbors == interface.max_neighbors
        &&& m.field_samples == interface.field_samples
        &&& m.field_channels == interface.field_channels
        &&& m.sensor_radius == interface.sensor_radius
        &&& m.action_min@ == action_floor()
        &&& m.action_max@ == action_ceiling()
        &&& m.action_semantics@ == action_triggers()
        &&& m.transport_mode == TransportMode::Lockstep
        &&& m.world_seed == self.world_seed
        &&& m.world_tick == world_tick
        &&& m.world_id == self.world_id
        &&& m.session_id == self.session_id
        &&& m.resume_token@ == self.resume_token@
        &&& m.stable_agent_id == self.stable_agent_id
        &&& m.snapshot_schema_version == SNAPSHOT_SCHEMA_VERSION
        &&& texts(m.capabilities@) == capability_names()
    }

    /// What the client is told of the session.
    pub fn metadata(&self, world_tick: u64) -> (r: ProtocolMetadata)
        requires
            self.interface_config.countable(),
        ensures
            self.described_by(r, world_tick),
    {
        let interface: InterfaceConfig = self.interface_config;
        let action_min: [Binary32; 7] = [
            num(MINUS_ONE),
            num(MINUS_ONE),
            num(MINUS_ONE),
            num(0),
            num(0),
            num(MINUS_OSC_LIMIT),
            num(0),
        ];
        let action_max: [Binary32; 7] = [
            num(ONE),
            num(ONE),
            num(ONE),
            num(ONE),
            num(ONE),
            num(OSC_LIMIT),
            num(TAU),
        ];
        let action_semantics: [TriggerSemantics; 7] = [
            TriggerSemantics::Continuous,
            TriggerSemantics::Continuous,
            TriggerSemantics::Continuous,
            TriggerSemantics::Level,
            TriggerSemantics::Edge,
            TriggerSemantics::Target,
            TriggerSemantics::Target,
        ];
        let mut capabilities: Vec<String> = Vec::new();
        capabilities.push("lockstep".to_owned());
        capabilities.push("action_hold".to_owned());
        capabilities.push("lifecycle_events".to_owned());
        capabilities.push("reconnect_resume".to_owned());
        capabilities.push("canonical_snapshots".to_owned());
        capabilities.push("physical_deltas".to_owned());
        assert(texts(capabilities@) =~= capability_names());
        assert(action_min@ =~= action_floor());
        assert(action_max@ =~= action_ceiling());
        assert(action_semantics@ =~= action_triggers());
        ProtocolMetadata {
            protocol_version: PROTOCOL_VERSION,
            schema_version: 1,
            fixed_timestep_seconds: num(FIXED_DT),
            physics_ticks_per_decision: if self.physics_ticks_per_decision == 0 {
                1
            } else {
                self.physics_ticks_per_decision
            },
            observation_floats: interface.observation_len(),
            action_floats: ACTION_STRIDE,
            self_stride: SELF_STRIDE,
            neighbor_stride: NEIGHBOR_STRIDE,
            field_count: FIELD_COUNT,
            max_neighbors: interface.max_neighbors,
            field_samples: interface.field_samples,
            field_channels: interface.field_channels,
            sensor_radius: interface.sensor_radius,
            action_min,
            action_max,
            action_semantics,
            transport_mode: TransportMode::Lockstep,
            world_seed: self.world_seed,
            world_tick,
            world_id: self.world_id,
            session_id: self.session_id,
            resume_token: self.resume_token.clone(),
            stable_agent_id: self.stable_agent_id,
            snapshot_schema_version: SNAPSHOT_SCHEMA_VERSION,
            capabilities,
        }
    }
}

/// What a client sends to take its session up again.
#[derive(Clone, Debug)]
pub struct ResumeRequest {
    pub session_id: u128,
    pub resume_token: String,
}

/// What follows the observation of a decision.
#[derive(Clone, Copy, Debug, PartialEq, Eq, Structural)]
pub struct ObservationExtension {
    pub decision_sequence: u64,
    pub delta: Option<PhysicalDelta>,
}

/// How a transport fails.
#[derive(Clone, Copy, Debug, PartialEq, Eq, Structural)]
pub enum IoKind {
    BrokenPipe,
    ConnectionAborted,
    ConnectionReset,
    UnexpectedEof,
    InvalidData,
    Other,
}

/// The failures that mean that the client has gone.
pub open spec fn disconnected(kind: IoKind) -> bool {
    kind == IoKind::BrokenPipe || kind == IoKind::ConnectionAborted || kind
        == IoKind::ConnectionReset || kind == IoKind::UnexpectedEof
}

/// Has the client gone?
pub fn is_disconnect(kind: IoKind) -> (r: bool)
    ensures
        r == disconnected(kind),
{
    match kind {
        IoKind::BrokenPipe => true,
        IoKind::ConnectionAborted => true,
        IoKind::ConnectionReset => true,
        IoKind::UnexpectedEof => true,
        IoKind::InvalidData => false,
        IoKind::Other => false,
    }
}

/// The failure of a session whose lock is poisoned: none that a new connection
/// could mend.
pub fn poisoned() -> (r: IoKind)
    ensures
        r == IoKind::Other,
        !disconnected(r),
{
    IoKind::Other
}

/// That failure in words.
pub fn poisoned_message() -> (r: &'static str)
    ensures
        r@ == "lockstep session mutex poisoned"@,
{
    "lockstep session mutex poisoned"
}

/// The header of a frame with text behind it.
pub open spec fn json_header(kind: u32, step: u64, entity_id: u64, payload: nat) -> WireHeader {
    WireHeader {
        version: PROTOCOL_VERSION,
        frame_kind: kind,
        frame_bytes: low_word((HEADER_BYTES + payload) as u64),
        step,
        entity_id,
        max_neighbors: 0,
        neighbor_count: 0,
        field_samples: 0,
        field_channels: 0,
        payload_floats: 0,
    }
}

/// A frame of metadata, of an event, of a resume request or of an extension:
/// the header, then the text as it is.
pub fn write_json_frame(kind: u32, step: u64, entity_id: u64, payload: &[u8]) -> (r: Vec<u8>)
    requires
        HEADER_BYTES + payload@.len() <= usize::MAX,
    ensures
        r@ == words_bytes(json_header(kind, step, entity_id, payload@.len()).words()) + payload@,
{
    let length: usize = HEADER_BYTES + payload.len();
    let mut bytes: Vec<u8> = encode_header(
        wire_header(
            WireHeader {
                version: PROTOCOL_VERSION,
                frame_kind: kind,
                frame_bytes: (length as u64 % 0x1_0000_0000) as u32,
                step,
                entity_id,
                max_neighbors: 0,
                neighbor_count: 0,
                field_samples: 0,
                field_channels: 0,
                payload_floats: 0,
            },
        ),
    );
    bytes.extend_from_slice(payload);
    assert(bytes@ =~= words_bytes(
        json_header(kind, step, entity_id, payload@.len()).words(),
    ) + payload@);
    bytes
}

/// The session, apart from its sockets.
#[derive(Debug)]
pub struct LockstepSession {
    pub config: LockstepConfig,
    /// A client is attached.
    pub connected: bool,
    pub lifecycle_sequence: u64,
    /// Events that no client has been told yet.
    pub pending_lifecycle: Vec<LifecycleEvent>,
}

/// The events of a list.
pub open spec fn events(list: Seq<LifecycleEvent>) -> Seq<LifecycleEventView> {
    list.map_values(|e: LifecycleEvent| e@)
}

/// The number after this one; the last is its own successor.
pub open spec fn next_sequence(sequence: u64) -> u64 {
    if sequence == u64::MAX {
        u64::MAX
    } else {
        (sequence + 1) as u64
    }
}

/// How writing the frames of an attachment went.
#[derive(Clone, Copy, Debug, PartialEq, Eq, Structural)]
pub enum AttachOutcome {
    /// The metadata could not be written.
    MetadataFailed,
    /// One of the pending events could not be written.
    EventsFailed,
    Written,
}

/// What to do about one attempt at a decision.
#[derive(Clone, Copy, Debug, PartialEq, Eq, Structural)]
pub enum Verdict {
    /// The client's action.
    Deliver(ActionTensor),
    /// Try again, on a new connection where there is none.
    Retry,
    /// Give the decision up.
    Fail(IoKind),
}

impl LockstepSession {
    /// The event with the next number.
    pub open spec fn next_event(
        self,
        world_tick: u64,
        kind: LifecycleKind,
        related_id: Option<u64>,
        reason: Option<Seq<char>>,
    ) -> LifecycleEventView {
        LifecycleEventView {
            sequence: next_sequence(self.lifecycle_sequence),
            world_tick,
            kind,
            subject_id: self.config.stable_agent_id,
            related_id,
            lineage_id: None,
            generation: None,
            reason,
        }
    }

    /// A session without a client and an agent that has decided nothing.
    pub fn new(config: LockstepConfig) -> (r: (LockstepSession, LockstepAgent))
        ensures
            r.0.config == config,
            !r.0.connected,
            r.0.lifecycle_sequence == 0,
            r.0.pending_lifecycle@ == Seq::<LifecycleEvent>::empty(),
            r.1 == LockstepAgent::idle(),
    {
        (
            LockstepSession {
                config,
                connected: false,
                lifecycle_sequence: 0,
                pending_lifecycle: Vec::new(),
            },
            LockstepAgent {
                held_action: ActionTensor::noop(),
                remaining_ticks: 0,
                decision_sequence: 0,
                previous_physical: None,
            },
        )
    }

    /// What to write to a new client, in this order: the metadata, then every
    /// event that is still pending.
    pub fn attach(&self, world_tick: u64) -> (r: (ProtocolMetadata, Vec<LifecycleEvent>))
        requires
            self.config.interface_config.countable(),
        ensures
            self.config.described_by(r.0, world_tick),
            events(r.1@) == events(self.pending_lifecycle@),
    {
        let metadata: ProtocolMetadata = self.config.metadata(world_tick);
        let mut list: Vec<LifecycleEvent> = Vec::new();
        let mut i: usize = 0;
        while i < self.pending_lifecycle.len()
            invariant
                i <= self.pending_lifecycle@.len(),
                events(list@) == events(self.pending_lifecycle@.take(i as int)),
            decreases self.pending_lifecycle@.len() - i,
        {
            let ghost before = list@;
            list.push(self.pending_lifecycle[i].copy());
            assert(events(list@) =~= events(before).push(list@.last()@));
            assert(events(self.pending_lifecycle@.take(i + 1)) =~= events(
                self.pending_lifecycle@.take(i as int),
            ).push(self.pending_lifecycle@[i as int]@));
            i += 1;
        }
        assert(self.pending_lifecycle@.take(i as int) =~= self.pending_lifecycle@);
        (metadata, list)
    }

    /// Settles an attachment. Once all was written, the client is attached, and
    /// is owed the event that says so.
    pub fn attached(&mut self, world_tick: u64, outcome: AttachOutcome) -> (r: Option<
        LifecycleEvent,
    >)
        ensures
            final(self).config == old(self).config,
            match outcome {
                AttachOutcome::MetadataFailed => *final(self) == *old(self) && r is None,
                AttachOutcome::EventsFailed => {
                    &&& r is None
                    &&& final(self).pending_lifecycle@ == Seq::<LifecycleEvent>::empty()
                    &&& final(self).connected == old(self).connected
                    &&& final(self).lifecycle_sequence == old(self).lifecycle_sequence
                },
                AttachOutcome::Written => {
                    &&& r matches Some(event) && event@ == old(self).next_event(
                        world_tick,
                        LifecycleKind::SessionAttached,
                        None,
                        Some("session attached"@),
                    )
                    &&& final(self).pending_lifecycle@ == Seq::<LifecycleEvent>::empty()
                    &&& final(self).connected
                    &&& final(self).lifecycle_sequence == next_sequence(
                        old(self).lifecycle_sequence,
                    )
                },
            },
    {
        match outcome {
            AttachOutcome::MetadataFailed => None,
            AttachOutcome::EventsFailed => {
                self.pending_lifecycle = Vec::new();
                None
            },
            AttachOutcome::Written => {
                self.pending_lifecycle = Vec::new();
                self.connected = true;
                self.emit(
                    world_tick,
                    LifecycleKind::SessionAttached,
                    None,
                    Some("session attached".to_owned()),
                )
            },
        }
    }

    /// Numbers an event. It is handed out to be written where a client is
    /// attached, and kept for the next one otherwise.
    pub fn emit(
        &mut self,
        world_tick: u64,
        kind: LifecycleKind,
        related_id: Option<u64>,
        reason: Option<String>,
    ) -> (r: Option<LifecycleEvent>)
        ensures
            final(self).config == old(self).config,
            final(self).connected == old(self).connected,
            final(self).lifecycle_sequence == next_sequence(old(self).lifecycle_sequence),
            r is Some <==> old(self).connected,
            r matches Some(event) ==> {
                &&& event@ == old(self).next_event(world_tick, kind, related_id, text(reason))
                &&& final(self).pending_lifecycle@ == old(self).pending_lifecycle@
            },
            r is None ==> events(final(self).pending_lifecycle@) == events(
                old(self).pending_lifecycle@,
            ).push(old(self).next_event(world_tick, kind, related_id, text(reason))),
    {
        self.lifecycle_sequence = self.lifecycle_sequence.saturating_add(1);
        let event: LifecycleEvent = LifecycleEvent {
            sequence: self.lifecycle_sequence,
            world_tick,
            kind,
            subject_id: self.config.stable_agent_id,
            related_id,
            lineage_id: None,
            generation: None,
            reason,
        };
        if self.connected {
            Some(event)
        } else {
            self.pending_lifecycle.push(event);
            assert(events(self.pending_lifecycle@) =~= events(
                old(self).pending_lifecycle@,
            ).push(event@));
            None
        }
    }

    /// May this client take the session up again? Only with the session's number
    /// and its token.
    pub open spec fn admits(self, request: ResumeRequest) -> bool {
        request.session_id == self.config.session_id && request.resume_token@
            == self.config.resume_token@
    }

    /// Judges a resume request.
    pub fn accept_resume(&self, request: &ResumeRequest) -> (r: bool)
        ensures
            r == self.admits(*request),
    {
        request.session_id == self.config.session_id && request.resume_token
            == self.config.resume_token
    }

    /// Judges one attempt at a decision. A lost client leaves the session
    /// detached, with that event pending; a malformed answer is asked for again.
    pub fn exchange(&mut self, world_tick: u64, attempt: Result<ActionTensor, IoKind>) -> (r:
        Verdict)
        ensures
            final(self).config == old(self).config,
            match attempt {
                Ok(action) => r == Verdict::Deliver(action) && *final(self) == *old(self),
                Err(kind) => if disconnected(kind) {
                    &&& r == Verdict::Retry
                    &&& !final(self).connected
                    &&& final(self).lifecycle_sequence == next_sequence(
                        old(self).lifecycle_sequence,
                    )
                    &&& events(final(self).pending_lifecycle@) == events(
                        old(self).pending_lifecycle@,
                    ).push(
                        old(self).next_event(
                            world_tick,
                            LifecycleKind::SessionDetached,
                            None,
                            Some("transport disconnected; world paused"@),
                        ),
                    )
                } else if kind == IoKind::InvalidData {
                    r == Verdict::Retry && *final(self) == *old(self)
                } else {
                    r == Verdict::Fail(kind) && *final(self) == *old(self)
                },
            },
    {
        match attempt {
            Ok(action) => Verdict::Deliver(action),
            Err(kind) => {
                if is_disconnect(kind) {
                    self.connected = false;
                    let queued: Option<LifecycleEvent> = self.emit(
                        world_tick,
                        LifecycleKind::SessionDetached,
                        None,
                        Some("transport disconnected; world paused".to_owned()),
                    );
                    assert(queued is None);
                    Verdict::Retry
                } else if kind == IoKind::InvalidData {
                    Verdict::Retry
                } else {
                    Verdict::Fail(kind)
                }
            },
        }
    }
}

/// The text of a resume frame, and nothing where the frame is of another kind.
pub fn resume_payload(frame: &[u8]) -> (r: Option<Vec<u8>>)
    requires
        frame@.len() >= HEADER_BYTES,
    ensures
        r is Some <==> bytes_words(frame@)[2] == FRAME_RESUME,
        r matches Some(payload) ==> payload@ == frame@.skip(HEADER_BYTES as int),
{
    let (head, payload) = frame.split_at(HEADER_BYTES);
    match decode_header(head) {
        Some(words) => {
            assert(bytes_words(head@)[2] == bytes_words(frame@)[2]);
            if words[2] == FRAME_RESUME {
                let mut bytes: Vec<u8> = Vec::new();
                bytes.extend_from_slice(payload);
                assert(bytes@ =~= frame@.skip(HEADER_BYTES as int));
                Some(bytes)
            } else {
                None
            }
        },
        None => None,
    }
}

/// A frame with text behind it announces the length that it has, as long as it is
/// no longer than a frame may be; and a resume frame gives back the text that it
/// was written from.
pub proof fn lemma_text_returns(kind: u32, step: u64, entity_id: u64, payload: Seq<u8>)
    requires
        HEADER_BYTES + payload.len() <= MAX_FRAME_BYTES,
    ensures
        ({
            let frame = words_bytes(
                json_header(kind, step, entity_id, payload.len()).words(),
            ) + payload;
            &&& frame.len() == HEADER_BYTES + payload.len()
            &&& announced_length(frame.take(HEADER_BYTES as int)) == Ok::<usize, FrameError>(
                frame.len() as usize,
            )
            &&& bytes_words(frame)[2] == kind
            &&& frame.skip(HEADER_BYTES as int) == payload
        }),
{
    let header = json_header(kind, step, entity_id, payload.len());
    let words = header.words();
    assert(header.frame_bytes == HEADER_BYTES + payload.len());
    assert(words.len() == 14 && words[0] == WIRE_MAGIC && words[2] == kind && words[3]
        == header.frame_bytes);
    lemma_head_stays(words, payload);
    lemma_head_announces(words);
    assert(bytes_words(words_bytes(words) + payload)[2] == words[2]);
}

/// What follows a header leaves it as it was, and stays as it was.
proof fn lemma_head_stays(words: Seq<u32>, rest: Seq<u8>)
    requires
        words.len() == 14,
    ensures
        (words_bytes(words) + rest).len() == HEADER_BYTES + rest.len(),
        (words_bytes(words) + rest).take(HEADER_BYTES as int) == words_bytes(words),
        (words_bytes(words) + rest).skip(HEADER_BYTES as int) == rest,
        forall|i: int|
            0 <= i < 14 ==> #[trigger] bytes_words(words_bytes(words) + rest)[i] == words[i],
{
    let head = words_bytes(words);
    let all = head + rest;
    lemma_words_return(words);
    assert(all.take(HEADER_BYTES as int) =~= head);
    assert(all.skip(HEADER_BYTES as int) =~= rest);
    assert forall|i: int| 0 <= i < 14 implies #[trigger] bytes_words(all)[i] == words[i] by {
        lemma_word_stays(head, rest, i);
        assert(bytes_words(head)[i] == words[i]);
    }
}

/// A whole word before the rest is read as it was.
proof fn lemma_word_stays(head: Seq<u8>, rest: Seq<u8>, i: int)
    requires
        0 <= i,
        4 * i + 4 <= head.len(),
    ensures
        bytes_words(head + rest)[i] == bytes_words(head)[i],
{
    let all = head + rest;
    assert(all[4 * i] == head[4 * i]);
    assert(all[4 * i + 1] == head[4 * i + 1]);
    assert(all[4 * i + 2] == head[4 * i + 2]);
    assert(all[4 * i + 3] == head[4 * i + 3]);
}

/// A header announces the length that stands in it.
proof fn lemma_head_announces(words: Seq<u32>)
    requires
        words.len() == 14,
        words[0] == WIRE_MAGIC,
        HEADER_BYTES <= words[3] <= MAX_FRAME_BYTES,
    ensures
        announced_length(words_bytes(words)) == Ok::<usize, FrameError>(words[3] as usize),
{
    lemma_words_return(words);
}

/// The action that a frame answers an observation with: it must be an action
/// frame for exactly that step and that entity.
pub open spec fn answer(step: u64, entity_id: u64, frame: Seq<u8>) -> Result<ActionTensor, IoKind> {
    match action_of(frame) {
        Some((s, e, action)) if s == step && e == entity_id => Ok(action),
        _ => Err(IoKind::InvalidData),
    }
}

/// Reads the answer to an observation.
pub fn matching_action(observation: &ObservationTensor, frame: &[u8]) -> (r: Result<
    ActionTensor,
    IoKind,
>)
    ensures
        r == answer(observation.step, observation.entity_id, frame@),
{
    match decode_action(frame) {
        Some((step, entity, action)) => {
            if step == observation.step && entity == observation.entity_id {
                Ok(action)
            } else {
                Err(IoKind::InvalidData)
            }
        },
        None => Err(IoKind::InvalidData),
    }
}

/// What a decision compares the body with.
#[derive(Clone, Copy, Debug, PartialEq, Eq, Structural)]
pub struct BodyState {
    pub energy: Binary32,
    pub structure: Binary32,
    pub mass: Binary32,
}

/// The controller of a lockstep session.
#[derive(Clone, Copy, Debug, PartialEq, Eq, Structural)]
pub struct LockstepAgent {
    pub held_action: ActionTensor,
    /// Ticks for which the action is still held.
    pub remaining_ticks: u32,
    pub decision_sequence: u64,
    /// The body at the last decision.
    pub previous_physical: Option<BodyState>,
}

/// What a tick asks for.
#[derive(Clone, Copy, Debug, PartialEq, Eq, Structural)]
pub enum Turn {
    /// The held action goes on.
    Held(ActionTensor),
    /// A decision is due; this goes out behind the observation.
    Decide(ObservationExtension),
}

impl LockstepAgent {
    /// An agent that has decided nothing.
    pub open spec fn idle() -> LockstepAgent {
        LockstepAgent {
            held_action: ActionTensor::noop(),
            remaining_ticks: 0,
            decision_sequence: 0,
            previous_physical: None,
        }
    }

    /// The held action as it acts after its first tick: what is pulsed is off.
    pub open spec fn held(self) -> ActionTensor {
        ActionTensor { fabricate: num(0), ..self.held_action }
    }

    /// Energy, structure and mass as the agent sees them.
    pub open spec fn physical(state: Seq<Binary32>) -> BodyState {
        BodyState { energy: state[4], structure: state[3], mass: state[2] }
    }

    /// The change since the last decision.
    pub open spec fn delta(self, now: BodyState) -> Option<PhysicalDelta> {
        match self.previous_physical {
            Some(then) => Some(
                PhysicalDelta {
                    energy: now.energy.minus(then.energy),
                    structure: now.structure.minus(then.structure),
                    mass: now.mass.minus(then.mass),
                },
            ),
            None => None,
        }
    }

    /// A tick begins.
    pub open spec fn begun(self, state: Seq<Binary32>, deltas: bool) -> (LockstepAgent, Turn) {
        if self.remaining_ticks > 0 {
            (
                LockstepAgent { remaining_ticks: (self.remaining_ticks - 1) as u32, ..self },
                Turn::Held(self.held()),
            )
        } else {
            let now = LockstepAgent::physical(state);
            let sequence = next_sequence(self.decision_sequence);
            (
                LockstepAgent {
                    decision_sequence: sequence,
                    previous_physical: Some(now),
                    ..self
                },
                Turn::Decide(
                    ObservationExtension {
                        decision_sequence: sequence,
                        delta: if deltas {
                            self.delta(now)
                        } else {
                            None
                        },
                    },
                ),
            )
        }
    }

    /// A decision is taken, or given up.
    pub open spec fn decided(self, reply: Option<ActionTensor>, ticks: u32) -> (
        LockstepAgent,
        ActionTensor,
    ) {
        let action = match reply {
            Some(a) => a,
            None => ActionTensor::noop(),
        };
        (
            LockstepAgent {
                held_action: action,
                remaining_ticks: (at_least_one(ticks) - 1) as u32,
                ..self
            },
            action,
        )
    }

    /// Begins a tick: the held action goes on, or a decision is due.
    pub fn begin(&mut self, observation: &ObservationTensor, deltas: bool) -> (r: Turn)
        ensures
            (*final(self), r) == old(self).begun(observation.self_state@, deltas),
    {
        if self.remaining_ticks > 0 {
            self.remaining_ticks = self.remaining_ticks - 1;
            let mut held: ActionTensor = self.held_action;
            held.fabricate = num(0);
            return Turn::Held(held);
        }
        let now: BodyState = BodyState {
            energy: observation.self_state[4],
            structure: observation.self_state[3],
            mass: observation.self_state[2],
        };
        let delta: Option<PhysicalDelta> = match self.previous_physical {
            Some(then) => Some(
                PhysicalDelta {
                    energy: now.energy.minus(then.energy),
                    structure: now.structure.minus(then.structure),
                    mass: now.mass.minus(then.mass),
                },
            ),
            None => None,
        };
        self.previous_physical = Some(now);
        self.decision_sequence = self.decision_sequence.saturating_add(1);
        Turn::Decide(
            ObservationExtension {
                decision_sequence: self.decision_sequence,
                delta: if deltas {
                    delta
                } else {
                    None
                },
            },
        )
    }

    /// Takes the decision: the client's action, or none where the exchange
    /// failed. It is held for `ticks` ticks, this one included.
    pub fn decide(&mut self, reply: Option<ActionTensor>, ticks: u32) -> (r: ActionTensor)
        ensures
            (*final(self), r) == old(self).decided(reply, ticks),
    {
        let action: ActionTensor = match reply {
            Some(a) => a,
            None => ActionTensor::noop(),
        };
        self.held_action = action;
        let ticks: u32 = if ticks == 0 {
            1
        } else {
            ticks
        };
        self.remaining_ticks = ticks - 1;
        action
    }

    /// The agent after `n` more ticks without a decision.
    pub open spec fn after_holding(self, n: nat) -> LockstepAgent {
        LockstepAgent { remaining_ticks: (self.remaining_ticks - n) as u32, ..self }
    }
}

/// A decision for `ticks` ticks acts in full on its first tick. On each of the
/// others it acts with fabrication off. Then the next decision is due.
pub proof fn lemma_decision_is_held(
    agent: LockstepAgent,
    reply: Option<ActionTensor>,
    ticks: u32,
    n: nat,
    state: Seq<Binary32>,
    deltas: bool,
)
    requires
        ticks > 0,
        n < ticks,
    ensures
        ({
            let (decided, action) = agent.decided(reply, ticks);
            let (next, turn) = decided.after_holding(n).begun(state, deltas);
            if n + 1 < ticks {
                &&& turn == Turn::Held(ActionTensor { fabricate: num(0), ..action })
                &&& next == decided.after_holding(n + 1)
            } else {
                turn is Decide
            }
        }),
{
}

/// An action for another step or another entity never answers an observation.
pub proof fn lemma_answer_matches(step: u64, entity_id: u64, frame: Seq<u8>)
    requires
        answer(step, entity_id, frame) is Ok,
    ensures
        action_of(frame) == Some((step, entity_id, answer(step, entity_id, frame)->Ok_0)),
{
}

/// Ticks in a run: decisions times ticks per decision, as far as a counter goes.
pub fn total_ticks(decisions: u32, ticks_per_decision: u32) -> (r: u32)
    ensures
        r == if decisions * ticks_per_decision > u32::MAX {
            u32::MAX as int
        } else {
            decisions * ticks_per_decision
        },
{
    match decisions.checked_mul(ticks_per_decision) {
        Some(n) => n,
        None => u32::MAX,
    }
}

/// The agents that were born since `known` was taken, in the order of `current`:
/// those that were not known and have a parent.
pub open spec fn newborn_ids(known: Seq<u64>, current: Seq<(u64, u32)>) -> Seq<u64> {
    current.filter(|a: (u64, u32)| !known.contains(a.0) && a.1 > 0).map_values(|a: (u64, u32)| a.0)
}

/// The agents born in the last tick, given as identity and generation.
pub fn newborns(known: &Vec<u64>, current: &[(u64, u32)]) -> (r: Vec<u64>)
    ensures
        r@ == newborn_ids(known@, current@),
{
    let mut out: Vec<u64> = Vec::new();
    let mut i: usize = 0;
    let ghost keep = |a: (u64, u32)| !known@.contains(a.0) && a.1 > 0;
    let ghost id = |a: (u64, u32)| a.0;
    proof {
        reveal(Seq::filter);
        assert(out@ =~= current@.take(0).filter(keep).map_values(id));
    }
    while i < current.len()
        invariant
            i <= current@.len(),
            keep == (|a: (u64, u32)| !known@.contains(a.0) && a.1 > 0),
            id == (|a: (u64, u32)| a.0),
            out@ == current@.take(i as int).filter(keep).map_values(id),
        decreases current@.len() - i,
    {
        proof {
            reveal(Seq::filter);
            assert(current@.take(i + 1).drop_last() =~= current@.take(i as int));
        }
        let (agent, generation) = current[i];
        let ghost before = current@.take(i as int).filter(keep);
        if !is_listed(known.as_slice(), agent) && generation > 0 {
            out.push(agent);
            assert(out@ =~= before.push(current@[i as int]).map_values(id));
        }
        i += 1;
    }
    assert(current@.take(i as int) =~= current@);
    out
}

/// An identity of 128 bits, from two draws of 64.
pub fn random_u128(high: u64, low: u64) -> (r: u128)
    ensures
        r == high * 0x1_0000_0000_0000_0000 + low,
{
    high as u128 * 0x1_0000_0000_0000_0000 + low as u128
}

/// The token of a session, from what the operating system drew for it.
pub fn resume_token(material: &[u8]) -> (r: String)
    ensures
        r@ == blake3_hex(material@),
        r@.len() == 64,
{
    digest(material)
}

} // verus!
