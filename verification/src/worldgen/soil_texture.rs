//! The distance-to-rough field that weights the soil speckle apron.

use vstd::prelude::*;
use crate::wave::{ring_distances, ring_field, wave_fits};

verus! {

/// Ring distance (4-connected) from every rough cell: 0 on rough, rising
/// outward, `UNREACHED` where no rough is reachable.
pub fn dist_to_rough(rough: &[bool], width: usize, height: usize) -> (dist: Vec<u32>)
    requires
        wave_fits(width as int, height as int),
        rough.len() == width * height,
    ensures
        ring_field(dist@, rough@, width as int, height as int, false),
{
    ring_distances(rough, width, height, false)
}

} // verus!
