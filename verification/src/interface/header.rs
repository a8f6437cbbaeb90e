//! The header in front of every frame.

use vstd::prelude::*;

verus! {

/// The first word of every frame: `ERTW`, little-endian.
pub const WIRE_MAGIC: u32 = 0x5754_5245;

pub const FRAME_HELLO: u32 = 1;

pub const FRAME_OBSERVATION: u32 = 2;

pub const FRAME_ACTION: u32 = 3;

pub const FRAME_METADATA: u32 = 4;

pub const FRAME_LIFECYCLE: u32 = 5;

pub const FRAME_RESUME: u32 = 6;

pub const FRAME_SNAPSHOT: u32 = 7;

pub const FRAME_OBSERVATION_EXTENSION: u32 = 8;

/// Words in the header.
pub const WIRE_HEADER_LEN: usize = 14;

/// What a header says.
#[derive(Clone, Copy, Debug, Default, PartialEq, Eq, Structural)]
pub struct WireHeader {
    pub version: u8,
    pub frame_kind: u32,
    pub frame_bytes: u32,
    pub step: u64,
    pub entity_id: u64,
    pub max_neighbors: u32,
    pub neighbor_count: u32,
    pub field_samples: u32,
    pub field_channels: u32,
    pub payload_floats: u32,
}

/// The lower 32 bits.
pub open spec fn low_word(x: u64) -> u32 {
    (x % 0x1_0000_0000) as u32
}

/// The upper 32 bits.
pub open spec fn high_word(x: u64) -> u32 {
    (x / 0x1_0000_0000) as u32
}

/// The number with these two halves.
pub open spec fn joined_words(low: u32, high: u32) -> u64 {
    (low + high * 0x1_0000_0000) as u64
}

/// Two halves make the number they were taken from.
pub proof fn lemma_words_join(x: u64)
    ensures
        joined_words(low_word(x), high_word(x)) == x,
{
}

/// The number with these two halves.
pub fn join_words(low: u32, high: u32) -> (r: u64)
    ensures
        r == joined_words(low, high),
{
    low as u64 + high as u64 * 0x1_0000_0000
}

impl WireHeader {
    /// The words of the header.
    pub open spec fn words(self) -> Seq<u32> {
        seq![
            WIRE_MAGIC,
            self.version as u32,
            self.frame_kind,
            self.frame_bytes,
            low_word(self.step),
            high_word(self.step),
            low_word(self.entity_id),
            high_word(self.entity_id),
            self.max_neighbors,
            self.neighbor_count,
            self.field_samples,
            self.field_channels,
            self.payload_floats,
            0u32,
        ]
    }
}

/// Lays the header out as words: magic, version, kind, length, step and entity
/// (low word first), the tensor's shape, the payload's length, and a reserved
/// zero.
pub fn wire_header(header: WireHeader) -> (r: [u32; 14])
    ensures
        r@ == header.words(),
{
    let r: [u32; 14] = [
        WIRE_MAGIC,
        header.version as u32,
        header.frame_kind,
        header.frame_bytes,
        (header.step % 0x1_0000_0000) as u32,
        (header.step / 0x1_0000_0000) as u32,
        (header.entity_id % 0x1_0000_0000) as u32,
        (header.entity_id / 0x1_0000_0000) as u32,
        header.max_neighbors,
        header.neighbor_count,
        header.field_samples,
        header.field_channels,
        header.payload_floats,
        0,
    ];
    assert(r@ =~= header.words());
    r
}

} // verus!
