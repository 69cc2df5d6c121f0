//! The process-wide table of random 64-bit position keys.
//!
//! The table holds one key per (square, piece kind, side): 64 squares of
//! 12 entries each (6 kinds for each of the 2 sides). Hashing a position
//! XORs together the keys of every occupied square.

use vstd::prelude::*;

verus! {

/// Number of squares times the 12 (kind, side) classes.
pub const ZOBRIST_LEN: usize = 768;

/// Relies on rand's `Rng::gen_range` over `0..u64::MAX`: it returns a
/// uniformly sampled value within the given half-open range. Nothing more
/// is assumed of the sample.
#[verifier::external_body]
fn random_key() -> (r: u64)
    ensures
        r < u64::MAX,
{
    rand::Rng::gen_range(&mut rand::thread_rng(), 0..u64::MAX)
}

/// Generate a fresh table of 768 random position keys.
///
/// Callers that persist the table between runs serialize this vector and
/// hand it back through [`crate::board::Board::with_keys`].
pub fn create_zobrist_keys() -> (r: Vec<u64>)
    ensures
        r@.len() == ZOBRIST_LEN,
        forall|i: int| 0 <= i < r@.len() ==> #[trigger] r@[i] < u64::MAX,
{
    let mut keys: Vec<u64> = Vec::new();
    let mut i: usize = 0;
    while i < ZOBRIST_LEN
        invariant
            keys@.len() == i,
            i <= ZOBRIST_LEN,
            forall|j: int| 0 <= j < keys@.len() ==> #[trigger] keys@[j] < u64::MAX,
        decreases ZOBRIST_LEN - i,
    {
        keys.push(random_key());
        i = i + 1;
    }
    keys
}

} // verus!
