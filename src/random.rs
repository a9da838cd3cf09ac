//! The seeded random source used to place obstacle gaps.

use vstd::prelude::*;
use rand::rngs::StdRng;
use rand::Rng;
use rand::SeedableRng;

verus! {

#[verifier::external_type_specification]
#[verifier::external_body]
pub struct ExStdRng(StdRng);

/// Relies on rand's `SeedableRng::seed_from_u64` for `StdRng`: a generator
/// whose draws are fixed by the seed.
#[verifier::external_body]
pub(crate) fn seeded_rng(seed: u64) -> StdRng {
    StdRng::seed_from_u64(seed)
}

/// Relies on rand's `Rng::gen_range` over `0..bound`: a value of that
/// half-open range (the call panics on an empty range).
#[verifier::external_body]
pub(crate) fn draw_below(rng: &mut StdRng, bound: u64) -> (r: u64)
    requires
        0 < bound,
    ensures
        r < bound,
{
    rng.gen_range(0..bound)
}

} // verus!
