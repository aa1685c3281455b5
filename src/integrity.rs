//! Chunk integrity: a fast non-cryptographic checksum over a chunk's bytes,
//! and the receiver's fault hook that spoils some computed checksums so that
//! the retry path is exercised.
use vstd::prelude::*;

verus! {

/// The 64-bit XXH3 digest of a byte sequence.
pub uninterp spec fn xxh3_of(b: Seq<u8>) -> u64;

/// Relies on xxhash_rust::xxh3::xxh3_64: a digest of the bytes alone.
#[verifier::external_body]
pub(crate) fn xxh3_64(b: &[u8]) -> (r: u64)
    ensures
        r == xxh3_of(b@),
{
    xxhash_rust::xxh3::xxh3_64(b)
}

/// Relies on rand::random_range: a uniformly drawn value of the range `0..100`.
#[verifier::external_body]
fn draw_percent() -> (r: u8)
    ensures
        r < 100,
{
    rand::random_range(0u8..100)
}

/// Whether `expected` is the checksum of `b`.
pub open spec fn verifies(b: Seq<u8>, expected: u64) -> bool {
    xxh3_of(b) == expected
}

/// The checksum that protects a chunk's bytes.
pub fn checksum(b: &[u8]) -> (r: u64)
    ensures
        r == xxh3_of(b@),
{
    xxh3_64(b)
}

/// Checks a chunk's bytes against the checksum that came with them.
pub fn verify(b: &[u8], expected: u64) -> (r: bool)
    ensures
        r == verifies(b@, expected),
{
    checksum(b) == expected
}

/// A chunk's bytes always verify against their own checksum.
pub proof fn lemma_checksum_verifies(b: Seq<u8>)
    ensures
        verifies(b, xxh3_of(b)),
{
}

/// The checksum that the fault hook reports for `b`, given a percentage
/// `draw` and the chance, in percent, of spoiling it.
pub open spec fn hooked_checksum(b: Seq<u8>, draw: u8, error_chance: u8) -> u64 {
    if draw < error_chance {
        0
    } else {
        xxh3_of(b)
    }
}

/// The fault hook for a given draw: zero, which no honest comparison is
/// expected to match, when the draw falls under the chance; else the true
/// checksum.
pub fn checksum_with_draw(b: &[u8], draw: u8, error_chance: u8) -> (r: u64)
    ensures
        r == hooked_checksum(b@, draw, error_chance),
{
    if draw < error_chance {
        0
    } else {
        checksum(b)
    }
}

/// The fault hook with a fresh uniform draw: the true checksum of `b`, or
/// zero with a chance of `error_chance` percent.
pub fn calculate_hash(b: &[u8], error_chance: u8) -> (r: u64)
    ensures
        exists|draw: u8| draw < 100 && r == hooked_checksum(b@, draw, error_chance),
        error_chance == 0 ==> r == xxh3_of(b@),
{
    let draw = draw_percent();
    checksum_with_draw(b, draw, error_chance)
}

} // verus!
