//! Frames as bytes: words in little-endian order, the header first.

use crate::binary32::num;
use crate::binary32::Binary32;
use crate::interface::action::ActionTensor;
use crate::interface::action::ACTION_STRIDE;
use crate::interface::config::InterfaceConfig;
use crate::interface::header::join_words;
use crate::interface::header::joined_words;
use crate::interface::header::lemma_words_join;
use crate::interface::header::low_word;
use crate::interface::header::wire_header;
use crate::interface::header::WireHeader;
use crate::interface::header::FRAME_ACTION;
use crate::interface::header::FRAME_HELLO;
use crate::interface::header::FRAME_OBSERVATION;
use crate::interface::header::WIRE_MAGIC;
use crate::interface::observation::valid_count;
use crate::interface::observation::NeighborView;
use crate::interface::observation::ObservationTensor;
use crate::PROTOCOL_VERSION;
use vstd::prelude::*;

verus! {

/// Bytes in the header: fourteen words.
pub const HEADER_BYTES: usize = 56;

/// The longest frame that is read: 16 MiB.
pub const MAX_FRAME_BYTES: usize = 16_777_216;

/// Bytes in an action frame.
pub const ACTION_FRAME_BYTES: usize = 84;

/// Byte `k` of a word, the lowest first.
pub open spec fn word_byte(w: u32, k: int) -> u8 {
    if k == 0 {
        (w % 0x100) as u8
    } else if k == 1 {
        (w / 0x100 % 0x100) as u8
    } else if k == 2 {
        (w / 0x1_0000 % 0x100) as u8
    } else {
        (w / 0x100_0000) as u8
    }
}

/// The bytes of a sequence of words.
pub open spec fn words_bytes(words: Seq<u32>) -> Seq<u8> {
    Seq::new(4 * words.len(), |i: int| word_byte(words[i / 4], i % 4))
}

/// The word that four bytes make.
pub open spec fn joined_bytes(a: u8, b: u8, c: u8, d: u8) -> u32 {
    (a + b * 0x100 + c * 0x1_0000 + d * 0x100_0000) as u32
}

/// The words of a sequence of bytes.
pub open spec fn bytes_words(bytes: Seq<u8>) -> Seq<u32> {
    Seq::new(
        bytes.len() / 4,
        |i: int|
            joined_bytes(bytes[4 * i], bytes[4 * i + 1], bytes[4 * i + 2], bytes[4 * i + 3]),
    )
}

/// The bit patterns of numbers.
pub open spec fn patterns(values: Seq<Binary32>) -> Seq<u32> {
    values.map_values(|v: Binary32| v.bits)
}

/// Bytes read back as the words they were written from.
pub proof fn lemma_words_return(words: Seq<u32>)
    ensures
        bytes_words(words_bytes(words)) == words,
{
    let b = words_bytes(words);
    assert forall|i: int| 0 <= i < words.len() implies #[trigger] bytes_words(b)[i] == words[i] by {
        let w = words[i];
        assert((4 * i) / 4 == i && (4 * i) % 4 == 0);
        assert((4 * i + 1) / 4 == i && (4 * i + 1) % 4 == 1);
        assert((4 * i + 2) / 4 == i && (4 * i + 2) % 4 == 2);
        assert((4 * i + 3) / 4 == i && (4 * i + 3) % 4 == 3);
        assert(b[4 * i] == word_byte(w, 0));
        assert(b[4 * i + 1] == word_byte(w, 1));
        assert(b[4 * i + 2] == word_byte(w, 2));
        assert(b[4 * i + 3] == word_byte(w, 3));
    }
    assert(bytes_words(b) =~= words);
}

/// One word more is four bytes more.
proof fn lemma_words_push(words: Seq<u32>, w: u32)
    ensures
        words_bytes(words.push(w)) == words_bytes(words).push(word_byte(w, 0)).push(
            word_byte(w, 1),
        ).push(word_byte(w, 2)).push(word_byte(w, 3)),
{
    let n = words.len() as int;
    assert((4 * n) / 4 == n && (4 * n) % 4 == 0);
    assert((4 * n + 1) / 4 == n && (4 * n + 1) % 4 == 1);
    assert((4 * n + 2) / 4 == n && (4 * n + 2) % 4 == 2);
    assert((4 * n + 3) / 4 == n && (4 * n + 3) % 4 == 3);
    assert(words_bytes(words.push(w)) =~= words_bytes(words).push(word_byte(w, 0)).push(
        word_byte(w, 1),
    ).push(word_byte(w, 2)).push(word_byte(w, 3)));
}

/// Writes one word.
fn push_word(bytes: &mut Vec<u8>, words: Ghost<Seq<u32>>, w: u32)
    requires
        old(bytes)@ == words_bytes(words@),
    ensures
        final(bytes)@ == words_bytes(words@.push(w)),
{
    proof {
        lemma_words_push(words@, w);
    }
    bytes.push((w % 0x100) as u8);
    bytes.push((w / 0x100 % 0x100) as u8);
    bytes.push((w / 0x1_0000 % 0x100) as u8);
    bytes.push((w / 0x100_0000) as u8);
}

/// Reads word `i`.
fn word_at(bytes: &[u8], i: usize) -> (r: u32)
    requires
        4 * i + 4 <= bytes@.len(),
    ensures
        r == bytes_words(bytes@)[i as int],
{
    assert(bytes@.len() <= usize::MAX) by {
        let n = bytes.len();
    }
    let at: usize = 4 * i;
    bytes[at] as u32 + bytes[at + 1] as u32 * 0x100 + bytes[at + 2] as u32 * 0x1_0000
        + bytes[at + 3] as u32 * 0x100_0000
}

/// Writes numbers behind what is there.
fn push_values(bytes: &mut Vec<u8>, words: Ghost<Seq<u32>>, values: &[Binary32])
    requires
        old(bytes)@ == words_bytes(words@),
    ensures
        final(bytes)@ == words_bytes(words@ + patterns(values@)),
{
    let mut i: usize = 0;
    assert(words@ + patterns(values@.take(0)) =~= words@);
    while i < values.len()
        invariant
            i <= values@.len(),
            bytes@ == words_bytes(words@ + patterns(values@.take(i as int))),
        decreases values@.len() - i,
    {
        let ghost before = words@ + patterns(values@.take(i as int));
        push_word(bytes, Ghost(before), values[i].bits);
        assert(words@ + patterns(values@.take(i + 1)) =~= before.push(values@[i as int].bits));
        i += 1;
    }
    assert(values@.take(i as int) =~= values@);
}

/// The header as bytes.
pub fn encode_header(header: [u32; 14]) -> (r: Vec<u8>)
    ensures
        r@ == words_bytes(header@),
{
    let mut bytes: Vec<u8> = Vec::with_capacity(HEADER_BYTES);
    let mut i: usize = 0;
    assert(words_bytes(header@.take(0)) =~= Seq::<u8>::empty());
    while i < 14
        invariant
            i <= 14,
            bytes@ == words_bytes(header@.take(i as int)),
        decreases 14 - i,
    {
        push_word(&mut bytes, Ghost(header@.take(i as int)), header[i]);
        assert(header@.take(i + 1) =~= header@.take(i as int).push(header@[i as int]));
        i += 1;
    }
    assert(header@.take(14) =~= header@);
    bytes
}

/// The words of a header, where the length is that of one.
pub fn decode_header(bytes: &[u8]) -> (r: Option<[u32; 14]>)
    ensures
        r is Some <==> bytes@.len() == HEADER_BYTES,
        r matches Some(words) ==> words@ == bytes_words(bytes@),
{
    if bytes.len() != HEADER_BYTES {
        return None;
    }
    let words: [u32; 14] = [
        word_at(bytes, 0),
        word_at(bytes, 1),
        word_at(bytes, 2),
        word_at(bytes, 3),
        word_at(bytes, 4),
        word_at(bytes, 5),
        word_at(bytes, 6),
        word_at(bytes, 7),
        word_at(bytes, 8),
        word_at(bytes, 9),
        word_at(bytes, 10),
        word_at(bytes, 11),
        word_at(bytes, 12),
        word_at(bytes, 13),
    ];
    assert(words@ =~= bytes_words(bytes@));
    Some(words)
}

/// The lower 32 bits of a count.
fn count_word(n: usize) -> (r: u32)
    ensures
        r == low_word(n as u64),
{
    (n as u64 % 0x1_0000_0000) as u32
}

/// The header of a greeting.
pub open spec fn hello_header(version: u8, config: InterfaceConfig) -> WireHeader {
    WireHeader {
        version,
        frame_kind: FRAME_HELLO,
        frame_bytes: HEADER_BYTES as u32,
        step: 0,
        entity_id: 0,
        max_neighbors: low_word(config.max_neighbors as u64),
        neighbor_count: 0,
        field_samples: low_word(config.field_samples as u64),
        field_channels: low_word(config.field_channels as u64),
        payload_floats: 0,
    }
}

/// The frame that a connection starts with: a header alone, with the tensor's
/// shape.
pub fn encode_hello(version: u8, config: InterfaceConfig) -> (r: Vec<u8>)
    ensures
        r@ == words_bytes(hello_header(version, config).words()),
{
    encode_header(
        wire_header(
            WireHeader {
                version,
                frame_kind: FRAME_HELLO,
                frame_bytes: HEADER_BYTES as u32,
                step: 0,
                entity_id: 0,
                max_neighbors: count_word(config.max_neighbors),
                neighbor_count: 0,
                field_samples: count_word(config.field_samples),
                field_channels: count_word(config.field_channels),
                payload_floats: 0,
            },
        ),
    )
}

/// The header of an observation.
pub open spec fn observation_header(version: u8, obs: ObservationTensor) -> WireHeader {
    let floats = obs.flat().len();
    WireHeader {
        version,
        frame_kind: FRAME_OBSERVATION,
        frame_bytes: low_word((HEADER_BYTES + 4 * floats) as u64),
        step: obs.step,
        entity_id: obs.entity_id,
        max_neighbors: low_word(obs.config.max_neighbors as u64),
        neighbor_count: low_word(valid_count(obs.neighbors@) as u64),
        field_samples: low_word(obs.config.field_samples as u64),
        field_channels: low_word(obs.config.field_channels as u64),
        payload_floats: low_word(floats as u64),
    }
}

/// How many neighbors are no ghosts.
fn count_valid(neighbors: &Vec<NeighborView>) -> (r: usize)
    ensures
        r == valid_count(neighbors@),
{
    let mut n: usize = 0;
    let mut i: usize = 0;
    while i < neighbors.len()
        invariant
            n <= i <= neighbors@.len(),
            n == valid_count(neighbors@.take(i as int)),
        decreases neighbors@.len() - i,
    {
        assert(neighbors@.take(i + 1).drop_last() =~= neighbors@.take(i as int));
        if neighbors[i].valid {
            n += 1;
        }
        i += 1;
    }
    assert(neighbors@.take(i as int) =~= neighbors@);
    n
}

/// The frame of an observation: its header, then the tensor.
pub fn encode_observation(version: u8, obs: &ObservationTensor) -> (r: Vec<u8>)
    requires
        HEADER_BYTES + 4 * obs.flat().len() <= usize::MAX,
    ensures
        r@ == words_bytes(observation_header(version, *obs).words() + patterns(obs.flat())),
{
    let payload: Vec<Binary32> = obs.to_f32_vec();
    let frame_bytes: usize = HEADER_BYTES + 4 * payload.len();
    let header: WireHeader = WireHeader {
        version,
        frame_kind: FRAME_OBSERVATION,
        frame_bytes: count_word(frame_bytes),
        step: obs.step,
        entity_id: obs.entity_id,
        max_neighbors: count_word(obs.config.max_neighbors),
        neighbor_count: count_word(count_valid(&obs.neighbors)),
        field_samples: count_word(obs.config.field_samples),
        field_channels: count_word(obs.config.field_channels),
        payload_floats: count_word(payload.len()),
    };
    assert(header == observation_header(version, *obs));
    let mut bytes: Vec<u8> = encode_header(wire_header(header));
    push_values(&mut bytes, Ghost(header.words()), payload.as_slice());
    bytes
}

/// The header of an action.
pub open spec fn action_header(version: u8, step: u64, entity_id: u64) -> WireHeader {
    WireHeader {
        version,
        frame_kind: FRAME_ACTION,
        frame_bytes: ACTION_FRAME_BYTES as u32,
        step,
        entity_id,
        max_neighbors: 0,
        neighbor_count: 0,
        field_samples: 0,
        field_channels: 0,
        payload_floats: ACTION_STRIDE as u32,
    }
}

/// The bytes of an action frame.
pub open spec fn action_bytes(
    version: u8,
    step: u64,
    entity_id: u64,
    action: ActionTensor,
) -> Seq<u8> {
    words_bytes(action_header(version, step, entity_id).words() + patterns(action.flat()))
}

/// The frame of an action: its header, then seven numbers.
pub fn encode_action(version: u8, step: u64, entity_id: u64, action: ActionTensor) -> (r: Vec<u8>)
    ensures
        r@ == action_bytes(version, step, entity_id, action),
{
    let header: WireHeader = WireHeader {
        version,
        frame_kind: FRAME_ACTION,
        frame_bytes: ACTION_FRAME_BYTES as u32,
        step,
        entity_id,
        max_neighbors: 0,
        neighbor_count: 0,
        field_samples: 0,
        field_channels: 0,
        payload_floats: ACTION_STRIDE as u32,
    };
    let mut bytes: Vec<u8> = encode_header(wire_header(header));
    let values: [Binary32; 7] = action.to_f32();
    push_values(&mut bytes, Ghost(header.words()), &values);
    bytes
}

/// What an action frame says: the step, the entity and the bounded action.
/// Nothing, where magic, version, kind or one of the lengths is wrong.
pub open spec fn action_of(bytes: Seq<u8>) -> Option<(u64, u64, ActionTensor)> {
    let w = bytes_words(bytes);
    if bytes.len() == ACTION_FRAME_BYTES && w[0] == WIRE_MAGIC && w[1] == PROTOCOL_VERSION && w[2]
        == FRAME_ACTION && w[3] == ACTION_FRAME_BYTES && w[12] == ACTION_STRIDE {
        Some(
            (
                joined_words(w[4], w[5]),
                joined_words(w[6], w[7]),
                ActionTensor::unflat(
                    Seq::new(ACTION_STRIDE as nat, |i: int| num(w[14 + i])),
                ).sanitized(),
            ),
        )
    } else {
        None
    }
}

/// Reads an action frame.
pub fn decode_action(bytes: &[u8]) -> (r: Option<(u64, u64, ActionTensor)>)
    ensures
        r == action_of(bytes@),
{
    if bytes.len() != ACTION_FRAME_BYTES || word_at(bytes, 0) != WIRE_MAGIC || word_at(bytes, 1)
        != PROTOCOL_VERSION as u32 || word_at(bytes, 2) != FRAME_ACTION || word_at(bytes, 3)
        != ACTION_FRAME_BYTES as u32 || word_at(bytes, 12) != ACTION_STRIDE as u32 {
        return None;
    }
    let step: u64 = join_words(word_at(bytes, 4), word_at(bytes, 5));
    let entity: u64 = join_words(word_at(bytes, 6), word_at(bytes, 7));
    let values: [Binary32; 7] = [
        num(word_at(bytes, 14)),
        num(word_at(bytes, 15)),
        num(word_at(bytes, 16)),
        num(word_at(bytes, 17)),
        num(word_at(bytes, 18)),
        num(word_at(bytes, 19)),
        num(word_at(bytes, 20)),
    ];
    assert(values@ =~= Seq::new(
        ACTION_STRIDE as nat,
        |i: int| num(bytes_words(bytes@)[14 + i]),
    ));
    Some((step, entity, ActionTensor::from_f32(&values)))
}

/// Why a frame is not read on.
#[derive(Clone, Copy, Debug, PartialEq, Eq, Structural)]
pub enum FrameError {
    /// The header has the wrong length.
    Header,
    /// The magic or the announced length is wrong.
    SizeOrMagic,
}

/// The length that a header announces, the header included.
pub open spec fn announced_length(header: Seq<u8>) -> Result<usize, FrameError> {
    let w = bytes_words(header);
    if header.len() != HEADER_BYTES {
        Err(FrameError::Header)
    } else if w[0] != WIRE_MAGIC || w[3] < HEADER_BYTES || w[3] > MAX_FRAME_BYTES {
        Err(FrameError::SizeOrMagic)
    } else {
        Ok(w[3] as usize)
    }
}

/// How long the frame behind a header is. Refuses a wrong magic, a length under
/// that of the header, and one over 16 MiB.
pub fn frame_length(header: &[u8]) -> (r: Result<usize, FrameError>)
    ensures
        r == announced_length(header@),
{
    match decode_header(header) {
        None => Err(FrameError::Header),
        Some(words) => {
            let n: u32 = words[3];
            if words[0] != WIRE_MAGIC || n < HEADER_BYTES as u32 || n > MAX_FRAME_BYTES as u32 {
                Err(FrameError::SizeOrMagic)
            } else {
                Ok(n as usize)
            }
        },
    }
}

/// An action frame of the current version reads back as the step, the entity
/// and the bounded action it was written from.
pub proof fn lemma_action_returns(step: u64, entity_id: u64, action: ActionTensor)
    ensures
        action_of(action_bytes(PROTOCOL_VERSION, step, entity_id, action)) == Some(
            (step, entity_id, action.sanitized()),
        ),
{
    let words = action_header(PROTOCOL_VERSION, step, entity_id).words() + patterns(action.flat());
    let bytes = words_bytes(words);
    lemma_words_return(words);
    lemma_words_join(step);
    lemma_words_join(entity_id);
    assert(bytes.len() == ACTION_FRAME_BYTES);
    assert(Seq::new(ACTION_STRIDE as nat, |i: int| num(words[14 + i])) =~= action.flat());
}

/// No frame is read as an action unless it is exactly as long as one, whatever
/// it announces.
pub proof fn lemma_action_length(bytes: Seq<u8>)
    requires
        action_of(bytes) is Some,
    ensures
        bytes.len() == ACTION_FRAME_BYTES,
        bytes.len() >= HEADER_BYTES,
        announced_length(bytes.take(HEADER_BYTES as int)) == Ok::<usize, FrameError>(
            ACTION_FRAME_BYTES,
        ),
{
    let head = bytes.take(HEADER_BYTES as int);
    assert(bytes_words(head)[0] == bytes_words(bytes)[0]);
    assert(bytes_words(head)[3] == bytes_words(bytes)[3]);
}

/// An observation frame announces the length that it has, as long as that fits
/// in a word.
pub proof fn lemma_observation_announced(version: u8, obs: ObservationTensor)
    requires
        HEADER_BYTES + 4 * obs.flat().len() <= MAX_FRAME_BYTES,
    ensures
        ({
            let bytes = words_bytes(
                observation_header(version, obs).words() + patterns(obs.flat()),
            );
            announced_length(bytes.take(HEADER_BYTES as int)) == Ok::<usize, FrameError>(
                bytes.len() as usize,
            )
        }),
{
    let words = observation_header(version, obs).words() + patterns(obs.flat());
    let bytes = words_bytes(words);
    lemma_words_return(words);
    let head = bytes.take(HEADER_BYTES as int);
    assert(bytes_words(head)[0] == bytes_words(bytes)[0]);
    assert(bytes_words(head)[3] == bytes_words(bytes)[3]);
}

} // verus!
