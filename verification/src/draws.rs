//! Values drawn from seeded generators, and digests. What the generators and the
//! hash compute is not stated here: each result has a name, and the same
//! arguments give the same result.

use rand::Rng;
use rand::SeedableRng;
use vstd::prelude::*;

verus! {

/// The first three 64-bit values of the ChaCha8 generator with this seed.
pub uninterp spec fn chacha_triple(seed: u64) -> (u64, u64, u64);

/// Calls `rand_chacha::ChaCha8Rng::seed_from_u64`, and `rand::Rng::gen` for a
/// `u64` three times. Claimed: the three values are fixed by the seed.
#[verifier::external_body]
pub(crate) fn draw_triple(seed: u64) -> (r: (u64, u64, u64))
    ensures
        r == chacha_triple(seed),
{
    let mut rng = rand_chacha::ChaCha8Rng::seed_from_u64(seed);
    (rng.gen(), rng.gen(), rng.gen())
}

/// The first 32-bit value of the ChaCha8 generator with this seed.
pub uninterp spec fn chacha_word(seed: u64) -> u32;

/// Calls `rand_chacha::ChaCha8Rng::seed_from_u64`, and `rand::Rng::gen` for a
/// `u32` once. Claimed: the value is fixed by the seed.
#[verifier::external_body]
pub(crate) fn draw_word(seed: u64) -> (r: u32)
    ensures
        r == chacha_word(seed),
{
    rand_chacha::ChaCha8Rng::seed_from_u64(seed).gen()
}

/// The first value that the standard generator with this seed draws from a range
/// of integers, both ends included.
pub uninterp spec fn uniform_draw(seed: u64, low: i32, high: i32) -> i32;

/// Calls `rand::rngs::StdRng::seed_from_u64` and `rand::Rng::gen_range` once.
/// Claimed: the value lies in the range and is fixed by the seed and the range.
/// An empty range, on which the call panics, is left out.
#[verifier::external_body]
pub(crate) fn draw_in_range(seed: u64, low: i32, high: i32) -> (r: i32)
    requires
        low <= high,
    ensures
        r == uniform_draw(seed, low, high),
        low <= r <= high,
{
    rand::rngs::StdRng::seed_from_u64(seed).gen_range(low..=high)
}

/// The BLAKE3 digest of these bytes in lowercase hexadecimal.
pub uninterp spec fn blake3_hex(bytes: Seq<u8>) -> Seq<char>;

/// Calls `blake3::hash` and `blake3::Hash::to_hex`. Claimed: the text is fixed by
/// the bytes and has 64 characters.
#[verifier::external_body]
pub(crate) fn digest(bytes: &[u8]) -> (r: String)
    ensures
        r@ == blake3_hex(bytes@),
        r@.len() == 64,
{
    blake3::hash(bytes).to_hex().to_string()
}

} // verus!
