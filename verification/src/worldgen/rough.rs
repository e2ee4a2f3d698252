//! Rough-terrain origins: blue-noise spaced stroke origins on dry steppe.

use vstd::prelude::*;
use rand::rngs::StdRng;
use crate::river::lake::{lake_positions, best_candidate_picks};

verus! {

/// Mitchell's best-candidate: `min(count, candidates)` blue-noise-spaced
/// stroke origins. The first is a random candidate; every further one is, of
/// `samples` (at least one) random candidates, the first that lies farthest
/// from its nearest earlier origin.
pub fn place_origins(candidates: &[usize], count: usize, samples: usize, width: usize, rng: &mut StdRng) -> (chosen: Vec<usize>)
    requires
        width > 0,
        forall|k: int| 0 <= k < candidates.len() ==> #[trigger] candidates[k] <= isize::MAX,
    ensures
        best_candidate_picks(chosen@, candidates@, count, samples, width as int, Seq::empty()),
{
    let none: Vec<usize> = Vec::new();
    let chosen = lake_positions(candidates, count, samples, width, none.as_slice(), rng);
    assert(none@ =~= Seq::<usize>::empty());
    chosen
}

} // verus!
