//! Water-proximity rings: each cell's ring distance to water and the bank
//! reach of the water body whose ring got there first, lakes tapering sooner
//! than river channels.

use vstd::prelude::*;
use crate::wave::{marked_cells, wavefront, ring_field, wave_linked, wave_fits, walk_between, first_at, lemma_first_at, UNREACHED};

verus! {

/// Ring distances to water, the water cell each ring spread from, and the
/// bank reach carried from it (`0` where no ring arrives).
pub struct WaterRings {
    pub dist: Vec<u32>,
    pub origin: Vec<usize>,
    pub reach: Vec<u32>,
}

/// Rings out from every water cell (4-connected, water cells in index order
/// first, so of the water cells at a cell's ring distance the lowest index
/// claims it); each reached cell carries `lake_reach` when its ring spread from a
/// lake cell and `reach` otherwise.
pub fn water_rings(water: &[bool], lake: &[bool], width: usize, height: usize, reach: u32, lake_reach: u32) -> (r: WaterRings)
    requires
        wave_fits(width as int, height as int),
        water.len() == width * height,
        lake.len() == width * height,
    ensures
        ring_field(r.dist@, water@, width as int, height as int, false),
        wave_linked(r.dist@, r.origin@, width as int, height as int, false),
        r.origin.len() == width * height,
        r.reach.len() == width * height,
        forall|c: int| 0 <= c < width * height && r.dist[c] != UNREACHED ==> #[trigger] r.origin[c] < width * height
            && water[r.origin[c] as int],
        forall|c: int| 0 <= c < width * height && r.dist[c] == 0 ==> #[trigger] r.origin[c] == c,
        forall|c: int, w: int|
            #![trigger water[w], r.dist[c]]
            0 <= c < width * height && r.dist[c] != UNREACHED && 0 <= w < r.origin[c] && water[w] ==> !walk_between(
                w,
                c,
                r.dist[c] as int,
                width as int,
                height as int,
                false,
            ),
        forall|c: int| 0 <= c < width * height ==> #[trigger] r.reach[c] == (if r.dist[c] == UNREACHED {
            0
        } else if lake[r.origin[c] as int] {
            lake_reach
        } else {
            reach
        }),
{
    let n = width * height;
    let seeds = marked_cells(water);
    let (dist, origin) = wavefront(width, height, &seeds, false);
    proof {
        assert forall|c: int| 0 <= c < n implies (dist[c] == 0 <==> water@[c]) by {
            if water@[c] {
                assert(seeds@.contains(c as usize));
                let i = choose|i: int| 0 <= i < seeds.len() && seeds[i] == c as usize;
                assert(dist[seeds[i] as int] == 0);
            }
            if dist[c] == 0 {
                assert(seeds@.contains(c as usize));
                let i = choose|i: int| 0 <= i < seeds.len() && seeds[i] == c as usize;
                assert(water[seeds[i] as int]);
            }
        }
        assert forall|c: int| 0 <= c < n && dist[c] != UNREACHED implies #[trigger] origin[c] < n && water[origin[c] as int] by {
            assert(seeds@.contains(origin[c]));
            let i = choose|i: int| 0 <= i < seeds.len() && seeds[i] == origin[c];
        }
        assert forall|c: int| 0 <= c < n && dist[c] != UNREACHED && dist[c] > 0 implies exists|p: int, k: int|
            0 <= p < n && 0 <= k < crate::wave::n_offsets(false)
                && #[trigger] crate::wave::nbr(p, k, width as int, height as int, false) == Some(c)
                && dist[p] + 1 == dist[c] by {
            let (p, k) = choose|p: int, k: int|
                0 <= p < n && 0 <= k < crate::wave::n_offsets(false)
                    && #[trigger] crate::wave::nbr(p, k, width as int, height as int, false) == Some(c)
                    && dist[p] + 1 == dist[c] && origin[p] == origin[c];
        }
        assert forall|c: int, w: int|
            #![trigger water[w], dist[c]]
            0 <= c < n && dist[c] != UNREACHED && 0 <= w < origin[c] && water[w] implies !walk_between(
                w,
                c,
                dist[c] as int,
                width as int,
                height as int,
                false,
            ) by {
            assert(seeds@.contains(w as usize));
            let i = choose|i: int| 0 <= i < seeds.len() && seeds[i] == w as usize;
            lemma_first_at(seeds@, origin[c]);
            let j = first_at(seeds@, origin[c]);
            assert(seeds[j] == origin[c]);
            if j <= i {
                if j < i {
                    assert(seeds[j] < seeds[i]);
                }
            }
            assert(i < j);
            assert(dist@[c] == dist[c]);
        }
    }
    let mut src_reach: Vec<u32> = Vec::new();
    let mut i: usize = 0;
    while i < n
        invariant
            n == width * height,
            i <= n,
            dist.len() == n,
            origin.len() == n,
            lake.len() == n,
            water.len() == n,
            src_reach.len() == i,
            forall|c: int| 0 <= c < n && dist[c] != UNREACHED ==> #[trigger] origin[c] < n && water[origin[c] as int],
            forall|c: int| 0 <= c < i ==> #[trigger] src_reach[c] == (if dist[c] == UNREACHED {
                0
            } else if lake[origin[c] as int] {
                lake_reach
            } else {
                reach
            }),
        decreases n - i,
    {
        let r = if dist[i] == UNREACHED {
            0
        } else if lake[origin[i]] {
            lake_reach
        } else {
            reach
        };
        src_reach.push(r);
        i += 1;
    }
    WaterRings { dist, origin, reach: src_reach }
}

} // verus!
