//! Random words.
use rand::rngs::SmallRng;
use rand::{Rng, SeedableRng};
use vstd::prelude::*;

verus! {

/// The first `count` words of rand's small generator, started with `seed` on a machine whose
/// addresses have `bits` bits.
pub uninterp spec fn small_rng_words(bits: u32, seed: u64, count: nat) -> Seq<u64>;

/// Starts a `rand::rngs::SmallRng` with `SeedableRng::seed_from_u64` and takes `count` words from
/// its `Rng::random_iter`.
///
/// There are as many words as were asked for, and they depend on the seed, on their number and on
/// the width of an address, by which the generator picks its algorithm.
#[verifier::external_body]
pub(crate) fn seeded_words(seed: u64, count: usize) -> (r: Vec<u64>)
    ensures
        r@.len() == count,
        r@ == small_rng_words(usize::BITS, seed, count as nat),
{
    SmallRng::seed_from_u64(seed).random_iter().take(count).collect()
}

} // verus!
