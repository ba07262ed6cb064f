//! The source of randomness: the calls into `rand` that the library makes.
//!
//! Nothing in this file is proved. Each item states what the library takes
//! for granted about `rand`.

use rand::rngs::OsRng;
use rand::rngs::StdRng;
use rand::seq::SliceRandom;
use rand::SeedableRng;
use vstd::prelude::*;

verus! {

/// `rand::rngs::StdRng`, the generator that a run draws from. Its state is
/// hidden from the proofs: nothing is known about what it will produce.
#[verifier::external_type_specification]
#[verifier::external_body]
pub struct ExStdRng(rand::rngs::StdRng);

/// `StdRng::seed_from_u64`: a generator whose stream is fixed by `seed`.
/// Nothing is claimed about the stream.
#[verifier::external_body]
pub(crate) fn seeded(seed: u64) -> StdRng {
    StdRng::seed_from_u64(seed)
}

/// `StdRng::from_rng` on `OsRng`: a generator seeded by the operating system,
/// or nothing when the system has no entropy to give. Nothing is claimed
/// about which of the two comes back.
#[verifier::external_body]
pub(crate) fn from_system() -> Option<StdRng> {
    StdRng::from_rng(OsRng).ok()
}

/// `SliceRandom::choose` on a slice of indices: one element of `items`, or
/// nothing when `items` is empty. Which element comes back is not stated.
#[verifier::external_body]
pub(crate) fn pick(rng: &mut StdRng, items: &Vec<usize>) -> (picked: Option<usize>)
    ensures
        picked is None <==> items@.len() == 0,
        picked matches Some(item) ==> items@.contains(item),
{
    items.choose(rng).copied()
}

} // verus!
