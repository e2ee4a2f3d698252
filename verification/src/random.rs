//! The seeded random stream world generation and tile rasters draw from.

use vstd::prelude::*;
use rand::rngs::StdRng;
use rand::{Rng, SeedableRng};

verus! {

#[verifier::external_type_specification]
#[verifier::external_body]
pub struct ExStdRng(StdRng);

/// `StdRng::seed_from_u64`: a generator whose stream is fixed by `seed`.
#[verifier::external_body]
pub(crate) fn seeded_rng(seed: u64) -> StdRng {
    StdRng::seed_from_u64(seed)
}

/// `Rng::random_range(lo..=hi)` on `i32`: a draw from the inclusive range.
/// `random_range` panics on an empty range, hence `lo <= hi`.
#[verifier::external_body]
pub(crate) fn random_i32_in(rng: &mut StdRng, lo: i32, hi: i32) -> (r: i32)
    requires
        lo <= hi,
    ensures
        lo <= r <= hi,
{
    rng.random_range(lo..=hi)
}

/// `Rng::random_range(lo..hi)` on `usize`: a draw from the half-open range.
/// `random_range` panics on an empty range, hence `lo < hi`.
#[verifier::external_body]
pub(crate) fn random_usize_below(rng: &mut StdRng, lo: usize, hi: usize) -> (r: usize)
    requires
        lo < hi,
    ensures
        lo <= r < hi,
{
    rng.random_range(lo..hi)
}

/// `Rng::random::<bool>()`: a fair coin. Either outcome is possible.
#[verifier::external_body]
pub(crate) fn random_bool(rng: &mut StdRng) -> bool {
    rng.random::<bool>()
}

} // verus!
