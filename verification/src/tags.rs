//! The relation mask: 64 bits of emergent interaction flags. Objects are no
//! hardcoded classes; they are mixtures of physical properties with these bits.

use vstd::prelude::*;

verus! {

/// Energy is released under sustained relative motion.
pub const ENERGY_CONVERTIBLE: u64 = 0x01;

/// Can clamp onto other nodes to combine kinetic forces.
pub const CLAMP_CAPABLE: u64 = 0x02;

/// Low-conductivity material that resists the thermal drain.
pub const SHELTER: u64 = 0x04;

/// Converts ambient heat into reserve energy, at structural risk.
pub const THERMAL_VENT: u64 = 0x08;

/// Releases energy when the electromagnetic field spikes.
pub const VOLATILE_TRAP: u64 = 0x10;

/// Couples to other such nodes through the electromagnetic field.
pub const MAGNETIC: u64 = 0x20;

/// A controllable agent rather than inert terrain.
pub const AGENT: u64 = 0x40;

/// Holds an active oscillator broadcast.
pub const OSCILLATOR: u64 = 0x80;

/// The flags of every agent: an agent that can clamp and oscillates.
pub const AGENT_MASK: u64 = 0xc2;

/// A relation mask.
#[derive(Clone, Copy, Debug, Default, PartialEq, Eq, Structural)]
pub struct CustomTags(pub u64);

/// The draws that decide a mutation.
#[derive(Clone, Copy, Debug, PartialEq, Eq, Structural)]
pub struct TagMutation {
    /// Does one happen at all? One time in twenty.
    pub happens: bool,
    /// Which bit it meets.
    pub bit: u32,
    /// Whether it sets or clears the bit.
    pub sets: bool,
}

impl CustomTags {
    pub open spec fn has_spec(self, flag: u64) -> bool {
        self.0 & flag != 0
    }

    /// Is one of these flags set?
    #[verifier::when_used_as_spec(has_spec)]
    pub fn has(self, flag: u64) -> (r: bool)
        ensures
            r == self.has_spec(flag),
    {
        self.0 & flag != 0
    }

    pub open spec fn from_bits_spec(bits: u64) -> CustomTags {
        CustomTags(bits)
    }

    /// The mask with these bits.
    #[verifier::when_used_as_spec(from_bits_spec)]
    pub fn from_bits(bits: u64) -> (r: CustomTags)
        ensures
            r == CustomTags::from_bits_spec(bits),
    {
        CustomTags(bits)
    }

    pub open spec fn with_spec(self, flag: u64) -> CustomTags {
        CustomTags(self.0 | flag)
    }

    /// The mask with the flags set.
    #[verifier::when_used_as_spec(with_spec)]
    pub fn with(self, flag: u64) -> (r: CustomTags)
        ensures
            r == self.with_spec(flag),
    {
        CustomTags(self.0 | flag)
    }

    pub open spec fn without_spec(self, flag: u64) -> CustomTags {
        CustomTags(self.0 & !flag)
    }

    /// The mask with the flags cleared.
    #[verifier::when_used_as_spec(without_spec)]
    pub fn without(self, flag: u64) -> (r: CustomTags)
        ensures
            r == self.without_spec(flag),
    {
        CustomTags(self.0 & !flag)
    }

    pub open spec fn mutate_spec(self, draw: TagMutation) -> CustomTags {
        if !draw.happens {
            self
        } else if draw.sets {
            self.with(1u64 << draw.bit)
        } else {
            self.without(1u64 << draw.bit)
        }
    }

    /// The mask of a fragment: the parent's, with at most one bit changed.
    #[verifier::when_used_as_spec(mutate_spec)]
    pub fn mutate(self, draw: TagMutation) -> (r: CustomTags)
        requires
            draw.bit < 64,
        ensures
            r == self.mutate_spec(draw),
    {
        if !draw.happens {
            self
        } else if draw.sets {
            self.with(1u64 << draw.bit)
        } else {
            self.without(1u64 << draw.bit)
        }
    }
}

/// A flag that was set is there, and one that was cleared is not; other bits
/// stay as they were.
pub proof fn lemma_flags(tags: CustomTags, flag: u64, other: u64)
    requires
        flag != 0,
        flag & other == 0,
    ensures
        tags.with(flag).has(flag),
        !tags.without(flag).has(flag),
        tags.with(flag).has(other) == tags.has(other),
        tags.without(flag).has(other) == tags.has(other),
{
    let t = tags.0;
    assert((t | flag) & flag != 0) by (bit_vector)
        requires
            flag != 0,
    ;
    assert((t & !flag) & flag == 0) by (bit_vector);
    assert((t | flag) & other == t & other) by (bit_vector)
        requires
            flag & other == 0,
    ;
    assert((t & !flag) & other == t & other) by (bit_vector)
        requires
            flag & other == 0,
    ;
}

/// A fragment is never an agent and cannot clamp, whatever its mutation.
pub proof fn lemma_fragment_is_inert(tags: CustomTags, draw: TagMutation)
    ensures
        !tags.mutate(draw).without(AGENT).without(CLAMP_CAPABLE).has(AGENT),
        !tags.mutate(draw).without(AGENT).without(CLAMP_CAPABLE).has(CLAMP_CAPABLE),
{
    let t = tags.mutate(draw).0;
    assert((t & !0x40u64 & !0x02u64) & 0x40u64 == 0) by (bit_vector);
    assert((t & !0x40u64 & !0x02u64) & 0x02u64 == 0) by (bit_vector);
}

} // verus!
