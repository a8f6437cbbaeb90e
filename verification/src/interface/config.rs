//! The shape of the tensors.

use crate::binary32::num;
use crate::binary32::Binary32;
use crate::interface::action::ACTION_STRIDE;
use vstd::prelude::*;

verus! {

/// Offsets into the block of one neighbor.
pub const REL_X: usize = 0;

pub const REL_Y: usize = 1;

pub const REL_VX: usize = 2;

pub const REL_VY: usize = 3;

pub const MASS: usize = 4;

pub const STRUCTURE: usize = 5;

pub const ENERGY: usize = 6;

pub const TAG_0: usize = 7;

pub const TAG_1: usize = 8;

pub const TAG_2: usize = 9;

pub const TAG_3: usize = 10;

pub const CONDUCTIVITY: usize = 11;

pub const OSC_FREQ: usize = 12;

pub const OSC_PHASE: usize = 13;

pub const VALID: usize = 14;

/// Numbers that describe one neighbor.
pub const NEIGHBOR_STRIDE: usize = 15;

/// Scalar fields reported: kinetic, thermal, electromagnetic.
pub const FIELD_COUNT: usize = 3;

/// Numbers that describe the agent itself: local velocity, mass, structure,
/// energy, oscillator frequency and phase, and energy surplus. The absolute
/// position is not among them.
pub const SELF_STRIDE: usize = 8;

/// Pattern of the default sensor radius, 12.
pub const DEFAULT_SENSOR_RADIUS: u32 = 0x4140_0000;

/// Per-agent configuration that shapes the observation tensor.
#[derive(Clone, Copy, Debug, PartialEq, Eq, Structural)]
pub struct InterfaceConfig {
    /// How many neighbors are reported, ghosts included. Greater than zero.
    pub max_neighbors: usize,
    /// Radius within which neighbors and fields are sensed.
    pub sensor_radius: Binary32,
    /// Probes per field.
    pub field_samples: usize,
    /// Channels per probe.
    pub field_channels: usize,
}

impl InterfaceConfig {
    /// Numbers in the field block.
    pub open spec fn field_len_spec(self) -> nat {
        FIELD_COUNT as nat * self.field_samples as nat * self.field_channels as nat
    }

    /// Numbers in the whole tensor.
    pub open spec fn observation_len_spec(self) -> nat {
        SELF_STRIDE as nat + self.field_len_spec() + self.max_neighbors as nat
            * NEIGHBOR_STRIDE as nat
    }

    /// The tensor's length can be counted.
    pub open spec fn countable(self) -> bool {
        self.observation_len_spec() <= usize::MAX
    }

    /// Numbers in the field block.
    pub fn field_len(&self) -> (r: usize)
        requires
            self.countable(),
        ensures
            r == self.field_len_spec(),
    {
        proof {
            let s = self.field_samples as int;
            let c = self.field_channels as int;
            assert(3 * s * c == (3 * s) * c) by (nonlinear_arith);
            if c > 0 {
                assert(3 * s <= 3 * s * c) by (nonlinear_arith)
                    requires
                        c > 0,
                        s >= 0,
                ;
            } else {
                assert(3 * s * c == 0) by (nonlinear_arith)
                    requires
                        c == 0,
                ;
            }
            assert(self.max_neighbors * NEIGHBOR_STRIDE >= 0);
        }
        if self.field_channels == 0 {
            0
        } else {
            FIELD_COUNT * self.field_samples * self.field_channels
        }
    }

    /// Length of the flattened observation tensor.
    pub fn observation_len(&self) -> (r: usize)
        requires
            self.countable(),
        ensures
            r == self.observation_len_spec(),
    {
        SELF_STRIDE + self.field_len() + self.max_neighbors * NEIGHBOR_STRIDE
    }

    /// Length of the flattened action tensor.
    pub fn action_len(&self) -> (r: usize)
        ensures
            r == ACTION_STRIDE,
    {
        ACTION_STRIDE
    }

    pub open spec fn default_spec() -> InterfaceConfig {
        InterfaceConfig {
            max_neighbors: 16,
            sensor_radius: num(DEFAULT_SENSOR_RADIUS),
            field_samples: 4,
            field_channels: 3,
        }
    }
}

impl Default for InterfaceConfig {
    fn default() -> (r: InterfaceConfig)
        ensures
            r == InterfaceConfig::default_spec(),
    {
        InterfaceConfig {
            max_neighbors: 16,
            sensor_radius: num(DEFAULT_SENSOR_RADIUS),
            field_samples: 4,
            field_channels: 3,
        }
    }
}

} // verus!
