//! Voronoi east/west classification: a wave from every main-river centerline
//! cell assigns each cell to its nearest main; cells strictly east of that
//! main's column are tagged east.

use vstd::prelude::*;
use crate::grid::Grid;
use crate::wave::{wavefront, wave_shape, wave_first_origin, wave_fits, UNREACHED};

verus! {

pub open spec fn is_east_spec(cell_col: int, river_col: int) -> bool {
    cell_col > river_col
}

/// Strictly east of the river's column.
pub fn is_east(cell_col: usize, river_col: usize) -> (b: bool)
    ensures
        b == is_east_spec(cell_col as int, river_col as int),
{
    cell_col > river_col
}

/// All centerline cells of all mains, in order.
pub open spec fn main_cells(mains: Seq<Vec<usize>>) -> Seq<usize> {
    mains.map_values(|v: Vec<usize>| v@).flatten()
}

fn flatten_mains(mains: &[Vec<usize>]) -> (out: Vec<usize>)
    ensures
        out@ == main_cells(mains@),
{
    let mut out: Vec<usize> = Vec::new();
    let mut i: usize = 0;
    while i < mains.len()
        invariant
            i <= mains.len(),
            out@ == main_cells(mains@.take(i as int)),
        decreases mains.len() - i,
    {
        let ghost before = out@;
        let mut j: usize = 0;
        while j < mains[i].len()
            invariant
                i < mains.len(),
                j <= mains[i as int].len(),
                out@ == before + mains[i as int]@.take(j as int),
            decreases mains[i as int].len() - j,
        {
            out.push(mains[i][j]);
            assert(mains[i as int]@.take(j + 1) =~= mains[i as int]@.take(j as int).push(mains[i as int]@[j as int]));
            j += 1;
        }
        proof {
            let f = |v: Vec<usize>| v@;
            assert(mains@.take(i + 1).map_values(f) =~= mains@.take(i as int).map_values(f).push(mains@[i as int]@));
            mains@.take(i as int).map_values(f).lemma_flatten_push(mains@[i as int]@);
            assert(mains[i as int]@.take(j as int) =~= mains[i as int]@);
        }
        i += 1;
    }
    assert(mains@.take(mains.len() as int) =~= mains@);
    out
}

/// Tag every cell east or west of its nearest main river. Returns the wave's
/// `(dist, origin)`: ring distance to the nearest centerline cell (`UNREACHED`
/// where no main is reachable) and the centerline cell that reached it first.
/// A cell is east when it is reached and its column is strictly greater than
/// its origin's column. Where centerline cells of several mains lie at the same
/// distance, the one listed first (mains in order, each from its first cell)
/// claims the cell.
pub fn seed_river_side(grid: &mut Grid, mains: &[Vec<usize>]) -> (res: (Vec<u32>, Vec<usize>))
    requires
        old(grid).wf(),
        wave_fits(old(grid).spec_width(), old(grid).spec_height()),
        forall|i: int| 0 <= i < main_cells(mains@).len() ==> main_cells(mains@)[i] < old(grid).spec_width() * old(grid).spec_height(),
    ensures
        final(grid).wf(),
        final(grid).spec_width() == old(grid).spec_width(),
        final(grid).spec_height() == old(grid).spec_height(),
        final(grid).fords() == old(grid).fords(),
        final(grid).lakes() == old(grid).lakes(),
        final(grid).flowers() == old(grid).flowers(),
        final(grid).tints() == old(grid).tints(),
        wave_shape(res.0@, res.1@, main_cells(mains@), old(grid).spec_width(), old(grid).spec_height(), false),
        wave_first_origin(res.0@, res.1@, main_cells(mains@), old(grid).spec_width(), old(grid).spec_height(), false),
        forall|c: int| 0 <= c < old(grid).spec_width() * old(grid).spec_height() ==> #[trigger] final(grid).easts()[c] == (res.0[c] != UNREACHED
            && is_east_spec(c % old(grid).spec_width(), (res.1[c] as int) % old(grid).spec_width())),
        final(grid).easts().len() == old(grid).spec_width() * old(grid).spec_height(),
{
    let width = grid.width();
    let height = grid.height();
    let seeds = flatten_mains(mains);
    let (dist, origin) = wavefront(width, height, &seeds, false);
    let n = grid.len();
    proof { grid.lemma_layers(); }
    let mut i: usize = 0;
    while i < n
        invariant
            grid.wf(),
            n == width * height,
            width == grid.spec_width(),
            height == grid.spec_height(),
            width == old(grid).spec_width(),
            height == old(grid).spec_height(),
            grid.fords() == old(grid).fords(),
            grid.lakes() == old(grid).lakes(),
            grid.flowers() == old(grid).flowers(),
            grid.tints() == old(grid).tints(),
            grid.easts().len() == n,
            dist.len() == n,
            origin.len() == n,
            i <= n,
            forall|c: int| 0 <= c < i ==> #[trigger] grid.easts()[c] == (dist[c] != UNREACHED
                && is_east_spec(c % (width as int), (origin[c] as int) % (width as int))),
        decreases n - i,
    {
        let east = if dist[i] == UNREACHED {
            false
        } else {
            is_east(i % width, origin[i] % width)
        };
        grid.set_east_of_river(i, east);
        proof { grid.lemma_layers(); }
        i += 1;
    }
    (dist, origin)
}

} // verus!
