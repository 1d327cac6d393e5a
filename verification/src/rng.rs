//! The random-number generator that the protocols draw their challenges from.
use vstd::prelude::*;

use crate::field::KoalaBear;

verus! {

/// `rand::rngs::SmallRng`, carried through the library opaquely.
#[verifier::external_type_specification]
#[verifier::external_body]
pub struct ExSmallRng(rand::rngs::SmallRng);

/// Calls `rand::Rng::random::<u32>` on `rng`: the next uniformly drawn `u32`.
/// Nothing is stated of the value, which depends on the generator's state.
#[verifier::external_body]
pub(crate) fn next_u32(rng: &mut rand::rngs::SmallRng) -> u32 {
    rand::Rng::random::<u32>(rng)
}

/// Calls `rand::Rng::random_range` on `rng` with the range `0..bound`; as that
/// method documents, the result lies in the range (which must be non-empty).
#[verifier::external_body]
pub(crate) fn random_index_below(rng: &mut rand::rngs::SmallRng, bound: usize) -> (r: usize)
    requires
        bound > 0,
    ensures
        r < bound,
{
    rand::Rng::random_range(rng, 0..bound)
}

/// `rand_xoshiro::Xoshiro256PlusPlus`, the generator behind rand 0.8's
/// `SmallRng` on 64-bit targets, which drives the shuffles of
/// [`crate::EraCode::encode_rip`]; carried opaquely.
#[verifier::external_type_specification]
#[verifier::external_body]
pub struct ExXoshiro256PlusPlus(rand_xoshiro::Xoshiro256PlusPlus);

/// Calls `rand_chacha::ChaCha8Rng::seed_from_u64` and reads the seed back with
/// `get_seed`: the 32 seed bytes that rand_core 0.6's default `seed_from_u64`
/// derives from `seed` (the derivation rand 0.8's `SmallRng` uses).  Nothing
/// is stated of the bytes.
#[verifier::external_body]
fn default_seed_bytes(seed: u64) -> [u8; 32] {
    <rand_chacha::ChaCha8Rng as rand_chacha::rand_core::SeedableRng>::seed_from_u64(seed).get_seed()
}

/// Calls `rand_xoshiro::Xoshiro256PlusPlus::from_seed` on `bytes`.  Nothing is
/// stated of the generator, which is carried opaquely.
#[verifier::external_body]
fn xoshiro_from_seed(bytes: [u8; 32]) -> rand_xoshiro::Xoshiro256PlusPlus {
    <rand_xoshiro::Xoshiro256PlusPlus as rand_xoshiro::rand_core::SeedableRng>::from_seed(bytes)
}

/// The shuffle generator of [`crate::EraCode::encode_rip`] for `seed`: the
/// generator rand 0.8's `SmallRng::seed_from_u64(seed)` builds on 64-bit
/// targets, a xoshiro256++ seeded with rand_core's default seed bytes.
pub fn seeded_shuffle_rng(seed: u64) -> rand_xoshiro::Xoshiro256PlusPlus {
    xoshiro_from_seed(default_seed_bytes(seed))
}

/// Calls `rip_shuffle::RipShuffleSequential::seq_shuffle` on the entries of
/// `v`.  As that method documents, it rearranges them in a permutation drawn
/// from `rng`: what `v` holds is unchanged as a multiset.  Which permutation is
/// drawn is not stated.
#[verifier::external_body]
pub(crate) fn rip_shuffle_in_place(v: &mut Vec<KoalaBear>, rng: &mut rand_xoshiro::Xoshiro256PlusPlus)
    ensures
        final(v)@.len() == old(v)@.len(),
        final(v)@.to_multiset() == old(v)@.to_multiset(),
{
    rip_shuffle::RipShuffleSequential::seq_shuffle(v.as_mut_slice(), rng)
}

} // verus!
