//! The tensors and the frame header.

use ertw::binary32::Binary32;
use ertw::interface::config::VALID;
use ertw::interface::header::FRAME_OBSERVATION;
use ertw::interface::wire_header;
use ertw::interface::ActionTensor;
use ertw::interface::InterfaceConfig;
use ertw::interface::NeighborView;
use ertw::interface::ObservationTensor;
use ertw::interface::Vec2Lite;
use ertw::interface::WireHeader;
use ertw::interface::FIELD_COUNT;
use ertw::interface::NEIGHBOR_STRIDE;
use ertw::interface::SELF_STRIDE;
use ertw::interface::WIRE_HEADER_LEN;
use ertw::interface::WIRE_MAGIC;

fn n(x: f32) -> Binary32 {
    Binary32::from_bits(x.to_bits())
}

fn f(x: Binary32) -> f32 {
    f32::from_bits(x.to_bits())
}

fn vec2(x: f32, y: f32) -> Vec2Lite {
    Vec2Lite::new(n(x), n(y))
}

fn cfg() -> InterfaceConfig {
    InterfaceConfig {
        max_neighbors: 4,
        sensor_radius: n(10.0),
        field_samples: 3,
        field_channels: 3,
    }
}

#[test]
fn observation_len_matches_layout() {
    let c = cfg();
    let expected = SELF_STRIDE
        + FIELD_COUNT * c.field_samples * c.field_channels
        + c.max_neighbors * NEIGHBOR_STRIDE;
    let obs = ObservationTensor::new(c);
    assert_eq!(obs.len(), expected);
    assert_eq!(obs.to_f32_vec().len(), expected);
}

#[test]
fn padding_neighbors_are_ghosts() {
    let obs = ObservationTensor::new(cfg());
    assert_eq!(obs.neighbors.len(), cfg().max_neighbors);
    assert!(obs.neighbors.iter().all(|n| !n.valid));
    let flat = obs.to_f32_vec();
    let base = SELF_STRIDE + FIELD_COUNT * cfg().field_samples * cfg().field_channels;
    for i in 0..cfg().max_neighbors {
        assert_eq!(f(flat[base + i * NEIGHBOR_STRIDE + VALID]), 0.0);
    }
}

#[test]
fn roundtrip_preserves_all_neighbor_fields() {
    let mut obs = ObservationTensor::new(cfg());
    obs.neighbors[0] = NeighborView {
        rel_pos: vec2(1.5, -2.25),
        rel_vel: vec2(0.7, 1.3),
        mass: n(2.5),
        structure: n(7.0),
        energy: n(11.5),
        tags: 0xFEDC_BA98_7654_3210,
        conductivity: n(0.2),
        osc_freq: n(1.75),
        osc_phase: n(4.2),
        valid: true,
    };
    let flat = obs.to_f32_vec();
    let back = ObservationTensor::from_f32_slice(&flat, obs.config);
    let a = &obs.neighbors[0];
    let b = &back.neighbors[0];
    assert_eq!(a.rel_pos, b.rel_pos);
    assert_eq!(a.rel_vel, b.rel_vel);
    assert_eq!(a.mass, b.mass);
    assert_eq!(a.structure, b.structure);
    assert_eq!(a.energy, b.energy);
    assert_eq!(a.tags, b.tags);
    assert_eq!(a.conductivity, b.conductivity);
    assert_eq!(a.osc_freq, b.osc_freq);
    assert_eq!(a.osc_phase, b.osc_phase);
    assert_eq!(a.valid, b.valid);
}

#[test]
fn arbitrary_tags_and_valid_flags_roundtrip_exactly() {
    let mut obs = ObservationTensor::new(cfg());
    obs.neighbors[0] = NeighborView {
        tags: 0xFFFF_FFFF_0000_0001,
        conductivity: n(0.5),
        osc_freq: n(0.0),
        osc_phase: n(0.0),
        valid: true,
        ..Default::default()
    };
    obs.neighbors[1] = NeighborView {
        tags: 0xFFFF_FFFF_DEAD_BEEF,
        valid: false,
        ..Default::default()
    };
    let back = ObservationTensor::from_f32_slice(&obs.to_f32_vec(), obs.config);
    assert!(
        back.neighbors[0].valid,
        "real neighbor with high tag bits must roundtrip as valid"
    );
    assert!(
        !back.neighbors[1].valid,
        "ghost neighbor must roundtrip as invalid"
    );
    assert_eq!(back.neighbors[0].tags, 0xFFFF_FFFF_0000_0001);
    assert_eq!(back.neighbors[1].tags, 0xFFFF_FFFF_DEAD_BEEF);
}

#[test]
fn action_sanitize_nan_inf() {
    let mut a = ActionTensor {
        force: vec2(f32::NAN, f32::INFINITY),
        torque: n(f32::NAN),
        clamp: n(f32::NAN),
        fabricate: n(f32::NAN),
        osc_freq: n(f32::NAN),
        osc_phase: n(f32::NAN),
    };
    a.sanitize();
    assert_eq!(a.force, Vec2Lite::zero());
    assert_eq!(f(a.torque), 0.0);
    assert_eq!(f(a.clamp), 0.0);
    assert_eq!(f(a.fabricate), 0.0);
    assert_eq!(f(a.osc_freq), 0.0);
    assert_eq!(f(a.osc_phase), 0.0);
}

#[test]
fn action_sanitize_clamps_out_of_band() {
    let mut a = ActionTensor {
        force: vec2(10.0, 0.0),
        torque: n(5.0),
        clamp: n(2.0),
        fabricate: n(-1.0),
        osc_freq: n(99.0),
        osc_phase: n(-99.0),
    };
    a.sanitize();
    assert!(
        f(a.force.length()) <= 1.0 + 1e-5,
        "force must be length-clamped to 1.0"
    );
    assert_eq!(f(a.torque), 1.0);
    assert_eq!(f(a.clamp), 1.0);
    assert_eq!(f(a.fabricate), 0.0);
    assert_eq!(f(a.osc_freq), 16.0);
    assert!(f(a.osc_phase) >= 0.0 && f(a.osc_phase) <= std::f32::consts::TAU);
}

#[test]
fn action_roundtrip_preserves_values() {
    let a = ActionTensor {
        force: vec2(0.3, -0.4),
        torque: n(-0.7),
        clamp: n(0.5),
        fabricate: n(0.0),
        osc_freq: n(2.5),
        osc_phase: n(1.2),
    };
    let flat = a.to_f32();
    let b = ActionTensor::from_f32(&flat);
    assert_eq!(a.force, b.force);
    assert_eq!(a.torque, b.torque);
    assert_eq!(a.clamp, b.clamp);
    assert_eq!(a.fabricate, b.fabricate);
    assert_eq!(a.osc_freq, b.osc_freq);
    assert_eq!(a.osc_phase, b.osc_phase);
}

#[test]
fn wire_header_is_stable() {
    let h = wire_header(WireHeader {
        version: 3,
        frame_kind: FRAME_OBSERVATION,
        frame_bytes: 1024,
        step: 0x1234_5678_9ABC_DEF0,
        entity_id: 0xFEDC_BA98_7654_3210,
        max_neighbors: 16,
        neighbor_count: 3,
        field_samples: 4,
        field_channels: 3,
        payload_floats: 280,
    });
    assert_eq!(h[0], WIRE_MAGIC);
    assert_eq!(h[1], 3);
    assert_eq!(h[2], FRAME_OBSERVATION);
    assert_eq!(h[3], 1024);
    assert_eq!(h[4], 0x9ABC_DEF0);
    assert_eq!(h[5], 0x1234_5678);
    assert_eq!(h[6], 0x7654_3210);
    assert_eq!(h[7], 0xFEDC_BA98);
    assert_eq!(WIRE_HEADER_LEN, 14);
}

#[test]
fn relation_mask_encoding_is_exact_for_many_values() {
    let mut state = 0x1234_5678_9ABC_DEF0u64;
    for _ in 0..4096 {
        state ^= state << 13;
        state ^= state >> 7;
        state ^= state << 17;
        let mut observation = ObservationTensor::new(cfg());
        observation.neighbors[0] = NeighborView {
            tags: state,
            valid: true,
            ..Default::default()
        };
        let decoded =
            ObservationTensor::from_f32_slice(&observation.to_f32_vec(), observation.config);
        assert_eq!(decoded.neighbors[0].tags, state);
    }
}

#[test]
fn header_words_follow_the_documented_order() {
    let h = wire_header(WireHeader {
        version: 3,
        frame_kind: 2,
        frame_bytes: 100,
        step: 5,
        entity_id: 6,
        max_neighbors: 7,
        neighbor_count: 8,
        field_samples: 9,
        field_channels: 10,
        payload_floats: 11,
    });
    assert_eq!(h, [u32::from_le_bytes(*b"ERTW"), 3, 2, 100, 5, 0, 6, 0, 7, 8, 9, 10, 11, 0]);
}

#[test]
fn sanitize_bounds_hold_at_the_edges() {
    let mut a = ActionTensor {
        force: vec2(3.0, 4.0),
        torque: n(-7.0),
        clamp: n(-0.5),
        fabricate: n(1.0),
        osc_freq: n(-16.5),
        osc_phase: n(-1.0e-9),
    };
    a.sanitize();
    assert_eq!(f(a.force.x), 3.0f32 * (1.0f32 / 5.0f32));
    assert_eq!(f(a.force.y), 4.0f32 * (1.0f32 / 5.0f32));
    assert_eq!(f(a.torque), -1.0);
    assert_eq!(f(a.clamp), 0.0);
    assert_eq!(f(a.fabricate), 1.0);
    assert_eq!(f(a.osc_freq), -16.0);
    assert_eq!(f(a.osc_phase), (-1.0e-9f32).rem_euclid(std::f32::consts::TAU));
}

#[test]
fn default_configuration_is_the_documented_one() {
    let c = InterfaceConfig::default();
    assert_eq!(c.max_neighbors, 16);
    assert_eq!(f(c.sensor_radius), 12.0);
    assert_eq!(c.field_samples, 4);
    assert_eq!(c.field_channels, 3);
    assert_eq!(c.observation_len(), 8 + 3 * 4 * 3 + 16 * 15);
    assert_eq!(c.action_len(), 7);
    assert!(!ObservationTensor::new(c).is_empty());
}
