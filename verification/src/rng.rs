//! The random choices of a rollout, made by `rand`.

use rand::rngs::StdRng;
use rand::{Rng, SeedableRng};
use vstd::prelude::*;

verus! {

/// `rand::rngs::StdRng`, the generator that rollouts draw from. Opaque: what
/// it will yield is not known.
#[verifier::external_type_specification]
#[verifier::external_body]
pub struct ExStdRng(StdRng);

/// Calls `StdRng::from_entropy`: a generator seeded by the operating system.
/// Nothing is claimed of the generator. (The call panics if the operating
/// system has no entropy to give.)
#[verifier::external_body]
pub(crate) fn entropy_rng() -> (rng: StdRng) {
    StdRng::from_entropy()
}

/// Calls `Rng::gen_range` on `0..bound`, which panics on an empty range and
/// otherwise yields a number of the range.
#[verifier::external_body]
pub(crate) fn pick_below(rng: &mut StdRng, bound: usize) -> (pick: usize)
    requires
        bound > 0,
    ensures
        pick < bound,
{
    rng.gen_range(0..bound)
}

} // verus!
