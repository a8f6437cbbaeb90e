//! Frames, the remote controller and the lockstep session.

use ertw::binary32::Binary32;
use ertw::interface::action::ActionTensor;
use ertw::interface::action::ACTION_STRIDE;
use ertw::interface::config::InterfaceConfig;
use ertw::interface::header::wire_header;
use ertw::interface::header::WireHeader;
use ertw::interface::header::FRAME_LIFECYCLE;
use ertw::interface::header::FRAME_METADATA;
use ertw::interface::header::FRAME_OBSERVATION;
use ertw::interface::header::FRAME_OBSERVATION_EXTENSION;
use ertw::interface::header::FRAME_RESUME;
use ertw::interface::header::WIRE_HEADER_LEN;
use ertw::interface::observation::NeighborView;
use ertw::interface::observation::ObservationTensor;
use ertw::interface::session::LifecycleKind;
use ertw::interface::vector::Vec2Lite;
use ertw::server::arguments::parse_next;
use ertw::server::arguments::parse_number;
use ertw::server::lockstep::is_disconnect;
use ertw::server::lockstep::matching_action;
use ertw::server::lockstep::newborns;
use ertw::server::lockstep::poisoned;
use ertw::server::lockstep::poisoned_message;
use ertw::server::lockstep::random_u128;
use ertw::server::lockstep::resume_payload;
use ertw::server::lockstep::resume_token;
use ertw::server::lockstep::total_ticks;
use ertw::server::lockstep::write_json_frame;
use ertw::server::lockstep::AttachOutcome;
use ertw::server::lockstep::IoKind;
use ertw::server::lockstep::LockstepConfig;
use ertw::server::lockstep::LockstepSession;
use ertw::server::lockstep::ResumeRequest;
use ertw::server::lockstep::Turn;
use ertw::server::lockstep::Verdict;
use ertw::server::remote::RemoteAgent;
use ertw::server::wire::decode_action;
use ertw::server::wire::decode_header;
use ertw::server::wire::encode_action;
use ertw::server::wire::encode_hello;
use ertw::server::wire::encode_observation;
use ertw::server::wire::frame_length;
use ertw::server::wire::FrameError;
use ertw::server::wire::HEADER_BYTES;
use ertw::PROTOCOL_VERSION;

fn n(x: f32) -> Binary32 {
    Binary32 { bits: x.to_bits() }
}

fn f(x: Binary32) -> f32 {
    f32::from_bits(x.bits)
}

fn vec2(x: f32, y: f32) -> Vec2Lite {
    Vec2Lite { x: n(x), y: n(y) }
}

#[test]
fn action_frame_round_trips_with_full_ids() {
    let action = ActionTensor {
        force: vec2(0.25, -0.5),
        torque: n(0.75),
        clamp: n(1.0),
        fabricate: n(0.0),
        osc_freq: n(3.0),
        osc_phase: n(1.5),
    };
    let bytes =
        encode_action(PROTOCOL_VERSION, 0x1234_5678_9ABC_DEF0, 0xFEDC_BA98_7654_3210, action);
    let (step, entity, decoded) = decode_action(&bytes).expect("valid action frame");
    assert_eq!(step, 0x1234_5678_9ABC_DEF0);
    assert_eq!(entity, 0xFEDC_BA98_7654_3210);
    assert_eq!(decoded.to_f32(), action.to_f32());
}

#[test]
fn malformed_action_frames_are_rejected() {
    let valid = encode_action(PROTOCOL_VERSION, 1, 2, ActionTensor::noop());
    assert!(decode_action(&valid[..valid.len() - 1]).is_none());
    let mut bad_magic = valid.clone();
    bad_magic[0] ^= 0xFF;
    assert!(decode_action(&bad_magic).is_none());
    let mut bad_kind = valid.clone();
    bad_kind[8..12].copy_from_slice(&FRAME_OBSERVATION.to_le_bytes());
    assert!(decode_action(&bad_kind).is_none());
    let mut bad_version = valid.clone();
    bad_version[4] = PROTOCOL_VERSION + 1;
    assert!(decode_action(&bad_version).is_none());
    let mut bad_length = valid.clone();
    bad_length[12] += 1;
    assert!(decode_action(&bad_length).is_none());
    let mut bad_count = valid;
    bad_count[48] = 6;
    assert!(decode_action(&bad_count).is_none());
    assert!(decode_action(&[]).is_none());
}

#[test]
fn remote_agent_drops_backpressure_and_rejects_stale_actions() {
    let mut remote = RemoteAgent::new();
    let mut observation = ObservationTensor::new(InterfaceConfig::default());
    observation.step = 10;
    observation.entity_id = 7;
    let requested = ActionTensor { force: vec2(0.5, -0.25), ..ActionTensor::noop() };

    let (frame, action) = remote.act(&observation, &[(7, 7, requested)]);
    assert_eq!(action.to_f32(), ActionTensor::noop().to_f32());
    assert_eq!(frame, encode_observation(PROTOCOL_VERSION, &observation));

    let (_, action) = remote.act(&observation, &[(8, 7, requested)]);
    assert_eq!(action.to_f32(), requested.to_f32());

    // Nothing arrived since: the body does not wait, and the action is fresh.
    let (_, action) = remote.act(&observation, &[]);
    assert_eq!(action.to_f32(), requested.to_f32());
}

#[test]
fn remote_agent_ignores_foreign_and_future_actions() {
    let mut remote = RemoteAgent::new();
    let mut observation = ObservationTensor::new(InterfaceConfig::default());
    observation.step = 10;
    observation.entity_id = 7;
    let requested = ActionTensor { torque: n(0.5), ..ActionTensor::noop() };
    let arrived = [(9, 8, requested), (11, 7, requested)];
    let (_, action) = remote.act(&observation, &arrived);
    assert_eq!(action, ActionTensor::noop());
    assert_eq!(remote.last_action, None);
}

fn config() -> LockstepConfig {
    LockstepConfig {
        physics_ticks_per_decision: 2,
        world_seed: 9,
        world_id: 10,
        session_id: 11,
        stable_agent_id: 12,
        resume_token: "resume-secret".to_string(),
        deltas: true,
        interface_config: InterfaceConfig::default(),
    }
}

/// What one connected client has received, and what it answers with.
struct Client {
    frames: Vec<Vec<u8>>,
    answers: Vec<Vec<u8>>,
}

fn kind_of(frame: &[u8]) -> u32 {
    decode_header(&frame[..HEADER_BYTES]).expect("header")[2]
}

/// Attaches a client as a server does.
fn attach(session: &mut LockstepSession, client: &mut Client, tick: u64) {
    let (metadata, pending) = session.attach(tick);
    let text = format!("{}", metadata.world_seed).into_bytes();
    client.frames.push(write_json_frame(FRAME_METADATA, tick, 12, &text));
    for event in pending {
        let text = format!("{}", event.sequence).into_bytes();
        client.frames.push(write_json_frame(
            FRAME_LIFECYCLE,
            event.world_tick,
            event.subject_id,
            &text,
        ));
    }
    let event = session.attached(tick, AttachOutcome::Written).expect("attached");
    assert_eq!(event.kind, LifecycleKind::SessionAttached);
    client.frames.push(write_json_frame(FRAME_LIFECYCLE, tick, 12, b"attached"));
}

/// One attempt at a decision: what the client got, and what came of its answer.
fn attempt(
    client: &mut Client,
    observation: &ObservationTensor,
) -> Result<ActionTensor, IoKind> {
    client.frames.push(encode_observation(PROTOCOL_VERSION, observation));
    client.frames.push(write_json_frame(
        FRAME_OBSERVATION_EXTENSION,
        observation.step,
        12,
        b"extension",
    ));
    if client.answers.is_empty() {
        return Err(IoKind::UnexpectedEof);
    }
    let frame = client.answers.remove(0);
    matching_action(observation, &frame)
}

#[test]
fn action_hold_pulses_edges_and_session_resumes() {
    let (mut session, mut agent) = LockstepSession::new(config());
    let requested = ActionTensor {
        force: vec2(0.5, 0.0),
        fabricate: n(1.0),
        ..ActionTensor::noop()
    };
    let mut first = Client {
        frames: Vec::new(),
        answers: vec![encode_action(PROTOCOL_VERSION, 0, 99, requested)],
    };
    attach(&mut session, &mut first, 0);
    assert_eq!(kind_of(&first.frames[0]), FRAME_METADATA);
    assert_eq!(kind_of(&first.frames[1]), FRAME_LIFECYCLE);

    let mut observation = ObservationTensor::new(InterfaceConfig::default());
    observation.entity_id = 99;
    let turn = agent.begin(&observation, true);
    assert!(matches!(turn, Turn::Decide(extension) if extension.decision_sequence == 1));
    let reply = attempt(&mut first, &observation);
    let verdict = session.exchange(observation.step, reply);
    let delivered = match verdict {
        Verdict::Deliver(action) => action,
        _ => panic!("the answer is delivered"),
    };
    let acted = agent.decide(Some(delivered), 2);
    assert_eq!(f(acted.force.x), 0.5);
    assert_eq!(f(acted.fabricate), 1.0);
    assert_eq!(kind_of(&first.frames[2]), FRAME_OBSERVATION);
    assert_eq!(kind_of(&first.frames[3]), FRAME_OBSERVATION_EXTENSION);

    observation.step = 1;
    let held = match agent.begin(&observation, true) {
        Turn::Held(action) => action,
        Turn::Decide(_) => panic!("the action is held"),
    };
    assert_eq!(f(held.force.x), 0.5);
    assert_eq!(f(held.fabricate), 0.0);

    observation.step = 2;
    assert!(matches!(agent.begin(&observation, true), Turn::Decide(_)));
    let lost = attempt(&mut first, &observation);
    assert_eq!(session.exchange(2, lost), Verdict::Retry);
    assert!(!session.connected);
    assert_eq!(session.pending_lifecycle.len(), 1);
    assert_eq!(session.pending_lifecycle[0].kind, LifecycleKind::SessionDetached);

    let mut resumed = Client {
        frames: Vec::new(),
        answers: vec![encode_action(PROTOCOL_VERSION, 2, 99, ActionTensor::noop())],
    };
    let request = ResumeRequest { session_id: 11, resume_token: "resume-secret".to_string() };
    let frame = write_json_frame(FRAME_RESUME, 2, 12, b"request");
    assert_eq!(resume_payload(&frame), Some(b"request".to_vec()));
    assert!(session.accept_resume(&request));
    attach(&mut session, &mut resumed, 2);
    assert_eq!(kind_of(&resumed.frames[0]), FRAME_METADATA);
    assert_eq!(kind_of(&resumed.frames[1]), FRAME_LIFECYCLE);
    assert_eq!(resumed.frames.len(), 3);
    let reply = attempt(&mut resumed, &observation);
    let verdict = session.exchange(2, reply);
    let delivered = match verdict {
        Verdict::Deliver(action) => action,
        _ => panic!("the answer is delivered"),
    };
    let acted = agent.decide(Some(delivered), 2);
    assert_eq!(acted.to_f32(), ActionTensor::noop().to_f32());
}

#[test]
fn resumption_needs_the_session_and_its_token() {
    let (session, _) = LockstepSession::new(config());
    let wrong_token = ResumeRequest { session_id: 11, resume_token: "other".to_string() };
    let wrong_session =
        ResumeRequest { session_id: 12, resume_token: "resume-secret".to_string() };
    assert!(!session.accept_resume(&wrong_token));
    assert!(!session.accept_resume(&wrong_session));
    assert_eq!(resume_payload(&encode_hello(PROTOCOL_VERSION, InterfaceConfig::default())), None);
}

#[test]
fn resume_frames_give_their_text_back() {
    let frame = write_json_frame(FRAME_RESUME, 5, 9, b"{\"session_id\":11}");
    assert_eq!(frame_length(&frame[..HEADER_BYTES]), Ok(frame.len()));
    assert_eq!(resume_payload(&frame), Some(b"{\"session_id\":11}".to_vec()));
    let other = write_json_frame(FRAME_METADATA, 5, 9, b"{}");
    assert_eq!(resume_payload(&other), None);
}

#[test]
fn decisions_are_given_up_only_on_other_failures() {
    let (mut session, mut agent) = LockstepSession::new(config());
    assert_eq!(session.exchange(3, Err(IoKind::InvalidData)), Verdict::Retry);
    assert_eq!(session.exchange(3, Err(IoKind::Other)), Verdict::Fail(IoKind::Other));
    assert_eq!(agent.decide(None, 0), ActionTensor::noop());
    assert_eq!(agent.remaining_ticks, 0);
    for kind in [
        IoKind::BrokenPipe,
        IoKind::ConnectionAborted,
        IoKind::ConnectionReset,
        IoKind::UnexpectedEof,
    ] {
        assert!(is_disconnect(kind));
    }
    assert!(!is_disconnect(IoKind::InvalidData));
    assert_eq!(poisoned(), IoKind::Other);
    assert_eq!(poisoned_message(), "lockstep session mutex poisoned");
}

#[test]
fn failed_attachments_leave_no_client() {
    let (mut session, _) = LockstepSession::new(config());
    assert!(session.emit(4, LifecycleKind::EntityAlive, None, None).is_none());
    assert_eq!(session.pending_lifecycle.len(), 1);
    assert!(session.attached(4, AttachOutcome::MetadataFailed).is_none());
    assert_eq!(session.pending_lifecycle.len(), 1);
    assert!(session.attached(4, AttachOutcome::EventsFailed).is_none());
    assert_eq!(session.pending_lifecycle.len(), 0);
    assert!(!session.connected);
    assert_eq!(session.lifecycle_sequence, 1);
}

#[test]
fn deltas_compare_with_the_last_decision() {
    let (_, mut agent) = LockstepSession::new(config());
    let mut observation = ObservationTensor::new(InterfaceConfig::default());
    observation.self_state[4] = n(20.0);
    observation.self_state[3] = n(8.0);
    observation.self_state[2] = n(8.0);
    match agent.begin(&observation, true) {
        Turn::Decide(extension) => assert!(extension.delta.is_none()),
        Turn::Held(_) => panic!("a decision is due"),
    }
    agent.decide(None, 1);
    observation.self_state[4] = n(19.5);
    observation.self_state[2] = n(7.5);
    match agent.begin(&observation, true) {
        Turn::Decide(extension) => {
            let delta = extension.delta.expect("a delta");
            assert_eq!(f(delta.energy), -0.5);
            assert_eq!(f(delta.structure), 0.0);
            assert_eq!(f(delta.mass), -0.5);
            assert_eq!(extension.decision_sequence, 2);
        }
        Turn::Held(_) => panic!("a decision is due"),
    }
}

#[test]
fn metadata_describes_the_session() {
    let metadata = config().metadata(40);
    assert_eq!(metadata.protocol_version, PROTOCOL_VERSION);
    assert_eq!(metadata.schema_version, 1);
    assert_eq!(metadata.world_tick, 40);
    assert_eq!(metadata.session_id, 11);
    assert_eq!(metadata.resume_token, "resume-secret");
    assert_eq!(metadata.observation_floats, 8 + 3 * 4 * 3 + 16 * 15);
    assert_eq!(metadata.action_floats, 7);
    assert_eq!(metadata.snapshot_schema_version, 2);
    assert_eq!(metadata.capabilities.len(), 6);
    assert_eq!(metadata.capabilities[0], "lockstep");
    let mut never = config();
    never.physics_ticks_per_decision = 0;
    assert_eq!(never.metadata(0).physics_ticks_per_decision, 1);
}

#[test]
fn observation_roundtrips_through_wire_encoding() {
    let mut obs = ObservationTensor::new(InterfaceConfig::default());
    obs.neighbors[0] = NeighborView {
        rel_pos: vec2(1.0, 2.0),
        rel_vel: vec2(3.0, 4.0),
        mass: n(5.0),
        structure: n(6.0),
        energy: n(7.0),
        tags: 0xFFFF_FFFF_0000_0001,
        conductivity: n(0.2),
        osc_freq: n(1.25),
        osc_phase: n(std::f32::consts::PI),
        valid: true,
    };
    obs.neighbors[1] = NeighborView {
        tags: 0xDEAD_BEEF_CAFE_BABE,
        valid: false,
        ..NeighborView::padding()
    };

    let flat = obs.to_f32_vec();
    let neighbor_count = obs.neighbors.iter().filter(|neighbor| neighbor.valid).count() as u32;
    let header = wire_header(WireHeader {
        version: PROTOCOL_VERSION,
        frame_kind: FRAME_OBSERVATION,
        frame_bytes: (WIRE_HEADER_LEN * 4 + flat.len() * 4) as u32,
        step: obs.step,
        entity_id: obs.entity_id,
        max_neighbors: obs.config.max_neighbors as u32,
        neighbor_count,
        field_samples: obs.config.field_samples as u32,
        field_channels: obs.config.field_channels as u32,
        payload_floats: flat.len() as u32,
    });
    let mut bytes = Vec::with_capacity(WIRE_HEADER_LEN * 4 + flat.len() * 4);
    for h in header {
        bytes.extend_from_slice(&h.to_le_bytes());
    }
    for value in &flat {
        bytes.extend_from_slice(&f(*value).to_le_bytes());
    }
    assert_eq!(bytes, encode_observation(PROTOCOL_VERSION, &obs));

    let payload = &bytes[WIRE_HEADER_LEN * 4..];
    assert_eq!(payload.len(), obs.len() * 4);
    let mut slice = vec![n(0.0); obs.len()];
    for (i, s) in slice.iter_mut().enumerate() {
        let b = &payload[i * 4..i * 4 + 4];
        *s = n(f32::from_le_bytes([b[0], b[1], b[2], b[3]]));
    }
    let back = ObservationTensor::from_f32_slice(&slice, obs.config);

    assert!(back.neighbors[0].valid, "valid flag must survive the wire roundtrip");
    assert_eq!(f(back.neighbors[0].conductivity), 0.2);
    assert_eq!(f(back.neighbors[0].osc_freq), 1.25);
    assert!((f(back.neighbors[0].osc_phase) - std::f32::consts::PI).abs() < 1e-5);
    assert!(!back.neighbors[1].valid, "ghost must remain a ghost after roundtrip");
    assert_eq!(back.neighbors[0].tags, 0xFFFF_FFFF_0000_0001);
    assert_eq!(PROTOCOL_VERSION, 3);
    assert_eq!(ACTION_STRIDE, 7);
}

#[test]
fn frames_announce_their_length() {
    let hello = encode_hello(PROTOCOL_VERSION, InterfaceConfig::default());
    assert_eq!(hello.len(), HEADER_BYTES);
    assert_eq!(frame_length(&hello), Ok(56));
    assert_eq!(frame_length(&hello[..55]), Err(FrameError::Header));
    let mut large = hello.clone();
    large[12..16].copy_from_slice(&(16 * 1024 * 1024 + 1u32).to_le_bytes());
    assert_eq!(frame_length(&large), Err(FrameError::SizeOrMagic));
    large[12..16].copy_from_slice(&(16 * 1024 * 1024u32).to_le_bytes());
    assert_eq!(frame_length(&large), Ok(16 * 1024 * 1024));
    let mut small = hello.clone();
    small[12] = 55;
    assert_eq!(frame_length(&small), Err(FrameError::SizeOrMagic));
    let mut foreign = hello;
    foreign[0] = 0;
    assert_eq!(frame_length(&foreign), Err(FrameError::SizeOrMagic));
}

#[test]
fn arguments_fall_back_to_their_defaults() {
    assert_eq!(parse_next(None, 600, u32::MAX as u64), 600);
    assert_eq!(parse_next(Some("12"), 600, u32::MAX as u64), 12);
    assert_eq!(parse_next(Some("+12"), 600, u32::MAX as u64), 12);
    assert_eq!(parse_next(Some("-1"), 600, u32::MAX as u64), 600);
    assert_eq!(parse_next(Some("4294967296"), 600, u32::MAX as u64), 600);
    assert_eq!(parse_next(Some(""), 7, u64::MAX), 7);
    assert_eq!(parse_number(b"18446744073709551615", u64::MAX), Some(u64::MAX));
    assert_eq!(parse_number(b"18446744073709551616", u64::MAX), None);
}

#[test]
fn runs_and_births_are_counted() {
    assert_eq!(total_ticks(600, 4), 2400);
    assert_eq!(total_ticks(u32::MAX, 2), u32::MAX);
    assert_eq!(newborns(&vec![1, 2], &[(1, 0), (2, 1), (3, 1), (4, 0), (5, 2)]), vec![3, 5]);
}

#[test]
fn session_secrets_come_from_their_draws() {
    assert_eq!(random_u128(1, 2), (1u128 << 64) | 2);
    assert_eq!(random_u128(u64::MAX, u64::MAX), u128::MAX);
    let token = resume_token(&[]);
    assert_eq!(token, "af1349b9f5f9a1a6a0404dea36dcc9499bcb25c9adc112b7cc9a93cae41f3262");
    assert_ne!(resume_token(&[0u8; 32]), resume_token(&[1u8; 32]));
}
