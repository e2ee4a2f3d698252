//! River authoring knobs that stay on the lattice.

use vstd::prelude::*;
use rand::rngs::StdRng;
use crate::random::random_usize_below;

verus! {

/// The direction a river runs across the map; carving charges a penalty for
/// steps against it.
pub enum Heading {
    Down,
}

/// The tributary knobs of a watershed, as plain values: confluences every
/// `spacing` cells along a main channel's interior, sources `length` cells to
/// one side (and half that upstream), stamped with `radius` and `core`;
/// `wets` says whether a stamp leaves water at all (its depth is positive).
pub struct TributarySpec {
    pub spacing: usize,
    pub length: isize,
    pub radius: isize,
    pub core: isize,
    pub wets: bool,
}

/// A random confluence: one `(child, parent)` river pair with
/// `parent < child < count`, so the parent is carved before the child seeks
/// it; no pair when fewer than two rivers exist.
pub fn random_confluences(count: usize, rng: &mut StdRng) -> (pairs: Vec<(usize, usize)>)
    ensures
        count < 2 ==> pairs.len() == 0,
        count >= 2 ==> pairs.len() == 1,
        forall|i: int| 0 <= i < pairs.len() ==> #[trigger] pairs[i].1 < pairs[i].0 && pairs[i].0 < count,
{
    if count < 2 {
        return Vec::new();
    }
    let child = random_usize_below(rng, 1, count);
    let parent = random_usize_below(rng, 0, child);
    let mut pairs: Vec<(usize, usize)> = Vec::new();
    pairs.push((child, parent));
    pairs
}

} // verus!
