//! Features layered on the main channels: oxbow pools at dry cost basins, and
//! tributaries carved from sources beside a channel to confluences on it.

use vstd::prelude::*;
use crate::field::{step, col_of, row_of, lemma_cell_at, lemma_cell_split};
use crate::wave::{nbr, offset, wave_fits, lemma_fits_step};
use crate::river::lake::lake_site_spec;
use crate::river::{every_nth, ford_indices};
use crate::river::cost::{carve, cheapest_steps, first_best_steps, least_cost_path, lemma_carved_on_lattice, positive};
use crate::river::spec::TributarySpec;
use crate::grid::Grid;
use crate::random::{random_bool, random_usize_below};
use rand::rngs::StdRng;

verus! {

/// A dry cell with no water beside it that is also a local minimum of the cost
/// field over its edge neighbours.
pub open spec fn dry_basin_spec(water: Seq<bool>, cost: Seq<u32>, width: int, height: int, i: int) -> bool {
    &&& lake_site_spec(water, width, height, i)
    &&& forall|k: int| 0 <= k < 4 && #[trigger] nbr(i, k, width, height, false) is Some ==> cost[nbr(i, k, width, height, false)->0] >= cost[i]
}

/// Whether cell `i` is a dry basin: no water on it or beside it, and no edge
/// neighbour cheaper than it.
pub fn is_dry_basin(water: &[bool], cost: &[u32], width: usize, height: usize, i: usize) -> (b: bool)
    requires
        wave_fits(width as int, height as int),
        water.len() == width * height,
        cost.len() == width * height,
        i < width * height,
    ensures
        b == dry_basin_spec(water@, cost@, width as int, height as int, i as int),
{
    if !crate::river::lake::is_lake_site(water, width, height, i) {
        return false;
    }
    let mut k: usize = 0;
    while k < 4
        invariant
            wave_fits(width as int, height as int),
            cost.len() == width * height,
            i < width * height,
            k <= 4,
            forall|j: int| 0 <= j < k && #[trigger] nbr(i as int, j, width as int, height as int, false) is Some
                ==> cost[nbr(i as int, j, width as int, height as int, false)->0] >= cost[i as int],
        decreases 4 - k,
    {
        proof {
            lemma_fits_step(i as int, k as int, width as int, height as int, false);
        }
        let (dx, dy) = offset(k, false);
        match step(i, dx, dy, width, height) {
            Some(n) => {
                proof {
                    crate::field::lemma_step_in_bounds(i as int, dx as int, dy as int, width as int, height as int);
                }
                assert(nbr(i as int, k as int, width as int, height as int, false) == Some(n as int));
                if cost[n] < cost[i] {
                    return false;
                }
            },
            None => {},
        }
        k += 1;
    }
    true
}

/// Whether stamping a channel cell wets the cell `(dx, dy)` away from it:
/// inside the stamp's square, and within the core or strictly within
/// `radius + 1` of the centre.
pub open spec fn in_stamp(dx: int, dy: int, radius: int, core: int) -> bool {
    &&& -radius <= dx <= radius
    &&& -radius <= dy <= radius
    &&& (core >= 0 && dx * dx + dy * dy <= core * core) || dx * dx + dy * dy < (radius + 1) * (radius + 1)
}

/// Stamping channel cell `c` wets cell `i`.
pub open spec fn stamp_reaches(c: int, i: int, width: int, radius: int, core: int) -> bool {
    in_stamp(col_of(i, width) - col_of(c, width), row_of(i, width) - row_of(c, width), radius, core)
}

/// Stamping every cell of `path` wets cell `i`.
pub open spec fn path_reaches(path: Seq<usize>, i: int, width: int, radius: int, core: int) -> bool {
    exists|k: int| 0 <= k < path.len() && #[trigger] stamp_reaches(path[k] as int, i, width, radius, core)
}

/// Marks wet every cell a stamp centred on `center` wets.
#[verifier::rlimit(40)]
fn stamp_wet(wet: &mut Vec<bool>, center: usize, radius: isize, core: isize, width: usize, height: usize)
    requires
        old(wet).len() == width * height,
        width * height <= isize::MAX,
        center < width * height,
    ensures
        final(wet).len() == width * height,
        forall|i: int| 0 <= i < width * height ==> #[trigger] final(wet)[i] == (old(wet)[i] || stamp_reaches(
            center as int,
            i,
            width as int,
            radius as int,
            core as int,
        )),
{
    let ghost w = width as int;
    let ghost h = height as int;
    let ghost n = w * h;
    proof {
        lemma_cell_split(center as int, w, h);
        assert(w <= n && h <= n) by (nonlinear_arith)
            requires n == w * h, w > 0, h > 0;
    }
    if radius < 0 {
        return;
    }
    let c0 = center % width;
    let r0 = center / width;
    let rad = radius as usize;
    let lo_row = if r0 >= rad { r0 - rad } else { 0 };
    let hi_row = if rad <= height - 1 - r0 { r0 + rad } else { height - 1 };
    let lo_col = if c0 >= rad { c0 - rad } else { 0 };
    let hi_col = if rad <= width - 1 - c0 { c0 + rad } else { width - 1 };
    let mut row = lo_row;
    while row <= hi_row
        invariant
            wet.len() == n,
            n == w * h,
            w == width,
            h == height,
            w > 0,
            w <= isize::MAX,
            h <= isize::MAX,
            0 <= c0 < w,
            0 <= r0 < h,
            c0 == col_of(center as int, w),
            r0 == row_of(center as int, w),
            rad == radius,
            lo_row <= row <= hi_row + 1,
            hi_row < h,
            lo_col <= hi_col < w,
            lo_row == (if r0 >= rad { r0 - rad } else { 0 }),
            hi_row == (if rad <= h - 1 - r0 { r0 + rad } else { h - 1 }),
            lo_col == (if c0 >= rad { c0 - rad } else { 0 }),
            hi_col == (if rad <= w - 1 - c0 { c0 + rad } else { w - 1 }),
            forall|i: int| 0 <= i < n ==> #[trigger] wet[i] == (old(wet)[i] || (stamp_reaches(center as int, i, w, radius as int, core as int)
                && row_of(i, w) < row)),
        decreases hi_row + 1 - row,
    {
        let mut col = lo_col;
        while col <= hi_col
            invariant
                wet.len() == n,
                n == w * h,
                w == width,
                w > 0,
                w <= isize::MAX,
                h <= isize::MAX,
                0 <= c0 < w,
                0 <= r0 < h,
                c0 == col_of(center as int, w),
                r0 == row_of(center as int, w),
                rad == radius,
                lo_row <= row <= hi_row,
                hi_row < h,
                lo_col <= col <= hi_col + 1,
                hi_col < w,
                lo_row == (if r0 >= rad { r0 - rad } else { 0 }),
                hi_row == (if rad <= h - 1 - r0 { r0 + rad } else { h - 1 }),
                h == height,
                lo_col == (if c0 >= rad { c0 - rad } else { 0 }),
                hi_col == (if rad <= w - 1 - c0 { c0 + rad } else { w - 1 }),
                forall|i: int| 0 <= i < n ==> #[trigger] wet[i] == (old(wet)[i] || (stamp_reaches(center as int, i, w, radius as int, core as int)
                    && (row_of(i, w) < row || (row_of(i, w) == row && col_of(i, w) < col)))),
            decreases hi_col + 1 - col,
        {
            let dx: i128 = col as i128 - c0 as i128;
            let dy: i128 = row as i128 - r0 as i128;
            assert(0 <= dx * dx < 0x4000_0000_0000_0000_0000_0000_0000_0000) by (nonlinear_arith)
                requires
                    -0x8000_0000_0000_0000 < dx < 0x8000_0000_0000_0000;
            assert(0 <= dy * dy < 0x4000_0000_0000_0000_0000_0000_0000_0000) by (nonlinear_arith)
                requires
                    -0x8000_0000_0000_0000 < dy < 0x8000_0000_0000_0000;
            let k2: i128 = dx * dx + dy * dy;
            let r1: i128 = radius as i128 + 1;
            let c1: i128 = core as i128;
            assert(0 <= c1 * c1 <= 0x4000_0000_0000_0000_0000_0000_0000_0000) by (nonlinear_arith)
                requires
                    -0x8000_0000_0000_0000 <= c1 < 0x8000_0000_0000_0000;
            assert(0 <= r1 * r1 <= 0x4000_0000_0000_0000_0000_0000_0000_0000) by (nonlinear_arith)
                requires
                    0 <= r1 <= 0x8000_0000_0000_0000;
            let inside = (core >= 0 && k2 <= c1 * c1) || k2 < r1 * r1;
            proof {
                lemma_cell_at(row as int, col as int, w, h);
            }
            let idx = row * width + col;
            let ghost before = wet@;
            if inside {
                wet.set(idx, true);
            }
            proof {
                assert(col_of(idx as int, w) == col && row_of(idx as int, w) == row);
                assert(-(radius as int) <= dx <= radius && -(radius as int) <= dy <= radius);
                assert(k2 == dx * dx + dy * dy);
                assert(inside == in_stamp(dx as int, dy as int, radius as int, core as int));
                assert(inside == stamp_reaches(center as int, idx as int, w, radius as int, core as int));
                assert forall|i: int| 0 <= i < n implies #[trigger] wet[i] == (old(wet)[i] || (stamp_reaches(center as int, i, w, radius as int, core as int)
                    && (row_of(i, w) < row || (row_of(i, w) == row && col_of(i, w) < col + 1)))) by {
                    lemma_cell_split(i, w, h);
                    if i != idx {
                        assert(before[i] == wet[i]);
                        if row_of(i, w) == row && col_of(i, w) == col {
                            assert(i == row * w + col);
                        }
                    }
                }
            }
            col += 1;
        }
        proof {
            assert forall|i: int| 0 <= i < n implies #[trigger] wet[i] == (old(wet)[i] || (stamp_reaches(center as int, i, w, radius as int, core as int)
                && row_of(i, w) < row + 1)) by {
                lemma_cell_split(i, w, h);
            }
        }
        row += 1;
    }
    proof {
        assert forall|i: int| 0 <= i < n implies #[trigger] wet[i] == (old(wet)[i] || stamp_reaches(center as int, i, w, radius as int, core as int)) by {
            lemma_cell_split(i, w, h);
        }
    }
}

/// Marks wet every cell the stamps along `path` wet.
fn stamp_path(wet: &mut Vec<bool>, path: &Vec<usize>, radius: isize, core: isize, width: usize, height: usize)
    requires
        old(wet).len() == width * height,
        width * height <= isize::MAX,
        forall|k: int| 0 <= k < path.len() ==> path[k] < width * height,
    ensures
        final(wet).len() == width * height,
        forall|i: int| 0 <= i < width * height ==> #[trigger] final(wet)[i] == (old(wet)[i] || path_reaches(
            path@,
            i,
            width as int,
            radius as int,
            core as int,
        )),
{
    let ghost n = width * height;
    let mut k: usize = 0;
    while k < path.len()
        invariant
            wet.len() == n,
            n == width * height,
            n <= isize::MAX,
            k <= path.len(),
            forall|q: int| 0 <= q < path.len() ==> path[q] < n,
            forall|i: int| 0 <= i < n ==> #[trigger] wet[i] == (old(wet)[i] || path_reaches(
                path@.subrange(0, k as int),
                i,
                width as int,
                radius as int,
                core as int,
            )),
        decreases path.len() - k,
    {
        let ghost before = wet@;
        stamp_wet(wet, path[k], radius, core, width, height);
        proof {
            let head = path@.subrange(0, k as int);
            let next = path@.subrange(0, k + 1);
            assert forall|i: int| 0 <= i < n implies #[trigger] wet[i] == (old(wet)[i] || path_reaches(
                next,
                i,
                width as int,
                radius as int,
                core as int,
            )) by {
                assert(before[i] == (old(wet)[i] || path_reaches(head, i, width as int, radius as int, core as int)));
                if path_reaches(head, i, width as int, radius as int, core as int) {
                    let q = choose|q: int| 0 <= q < head.len() && #[trigger] stamp_reaches(head[q] as int, i, width as int, radius as int, core as int);
                    assert(next[q] == head[q]);
                }
                if stamp_reaches(path[k as int] as int, i, width as int, radius as int, core as int) {
                    assert(next[k as int] == path[k as int]);
                }
                if path_reaches(next, i, width as int, radius as int, core as int) {
                    let q = choose|q: int| 0 <= q < next.len() && #[trigger] stamp_reaches(next[q] as int, i, width as int, radius as int, core as int);
                    if q < k {
                        assert(head[q] == next[q]);
                    }
                }
            }
        }
        k += 1;
    }
    proof {
        assert(path@.subrange(0, path.len() as int) =~= path@);
    }
}

/// A tenth of a main channel (at least one cell) at each end feeds no tributary.
pub open spec fn trib_skip(len: int) -> int {
    if len / 10 >= 1 {
        len / 10
    } else {
        1
    }
}

/// The confluence cells of a main channel: every `spacing`-th cell of its
/// interior, from the first.
pub open spec fn confluences(main: Seq<usize>, spacing: int) -> Seq<usize> {
    every_nth(main.subrange(trib_skip(main.len() as int), main.len() - trib_skip(main.len() as int)), spacing)
}

/// Half of `v`, rounded toward zero as integer division does.
pub open spec fn half_toward_zero(v: int) -> int {
    if v >= 0 { v / 2 } else { -((-v) / 2) }
}

/// The row of a tributary source for a confluence at `conf`: half of
/// `length` rows upstream (rounded toward zero), clamped to the grid.
pub open spec fn trib_row(conf: int, length: int, width: int, height: int) -> int {
    let up = row_of(conf, width) - half_toward_zero(length);
    if up < 0 {
        0
    } else if up > height - 1 {
        height - 1
    } else {
        up
    }
}

/// Whichever side is preferred, the source found for a confluence at `conf`
/// is a cell of the grid. A length of at least zero always keeps it there; a
/// negative one needs room for `-length` columns on the near side of the
/// confluence's column, and a far-side source (which runs on into the rows
/// below) that still lies before the end of the grid.
pub open spec fn source_on_grid(conf: int, length: int, width: int, height: int) -> bool {
    length >= 0 || {
        &&& col_of(conf, width) + length >= 0
        &&& trib_row(conf, length, width, height) * width + col_of(conf, width) - length < width * height
    }
}

/// The source cell of a tributary meeting a channel at `conf`: half of
/// `length` rows upstream (rounded toward zero, clamped to the grid) and
/// `length` columns to the preferred side, or to the other side when the
/// preferred one is off the grid; `None` when both are. A negative length
/// swaps the sides and moves the source downstream.
pub open spec fn trib_source(conf: int, length: int, prefer_left: bool, width: int, height: int) -> Option<int> {
    let col = col_of(conf, width);
    let row = trib_row(conf, length, width, height);
    let left = col - length;
    let right = col + length;
    let side = if prefer_left {
        if left >= 0 {
            Some(left)
        } else if right < width {
            Some(right)
        } else {
            None
        }
    } else {
        if right < width {
            Some(right)
        } else if left >= 0 {
            Some(left)
        } else {
            None
        }
    };
    match side {
        Some(c) => Some(row * width + c),
        None => None,
    }
}

/// Cell `i` is wet before a tributary is carved: wet at the start, or wetted
/// by the stamps of the tributaries carved before it.
pub open spec fn wet_before(wet: Seq<bool>, earlier: Seq<Vec<usize>>, spec: TributarySpec, width: int, i: int) -> bool {
    wet[i] || (spec.wets && exists|q: int| 0 <= q < earlier.len() && #[trigger] path_reaches(
        earlier[q]@,
        i,
        width,
        spec.radius as int,
        spec.core as int,
    ))
}

/// Confluences are at least one cell apart.
pub open spec fn stride(spacing: usize) -> int {
    if spacing >= 1 {
        spacing as int
    } else {
        1
    }
}

/// The `q`-th tributary as carved: it meets a main channel at one of that
/// channel's confluences, its source lies beside the confluence on ground that
/// was dry when it was carved, and it is the least-cost path (unbiased) from
/// the source to the confluence, taking the first of the best entries at
/// every step when every cost is positive.
pub open spec fn carved_tributary(
    tribs: Seq<Vec<usize>>,
    q: int,
    mains: Seq<Vec<usize>>,
    wet: Seq<bool>,
    cost: Seq<u32>,
    spec: TributarySpec,
    width: int,
    height: int,
) -> bool {
    let t = tribs[q]@;
    let spacing = stride(spec.spacing);
    exists|m: int, j: int, left: bool|
        #![trigger confluences(mains[m]@, spacing)[j], trib_source(t[0] as int, spec.length as int, left, width, height)]
        {
            let src = trib_source(t[0] as int, spec.length as int, left, width, height);
            &&& 0 <= m < mains.len()
            &&& 0 <= j < confluences(mains[m]@, spacing).len()
            &&& t[0] == confluences(mains[m]@, spacing)[j]
            &&& src is Some
            &&& !wet_before(wet, tribs.subrange(0, q), spec, width, src->0)
            &&& least_cost_path(t, cost, 0, width, height, src->0, t[0] as int)
            &&& cheapest_steps(t, cost, 0, width, height, src->0)
            &&& (positive(cost) ==> first_best_steps(t, cost, 0, width, height, src->0))
        }
}

/// The confluences of all the mains, channel by channel, in order.
pub open spec fn all_confluences(mains: Seq<Vec<usize>>, spacing: int) -> Seq<usize>
    decreases mains.len(),
{
    if mains.len() == 0 {
        Seq::empty()
    } else {
        all_confluences(mains.drop_last(), spacing) + confluences(mains.last()@, spacing)
    }
}

/// Visiting the confluences `confs` in order, with `sides[k]` the side
/// preferred at the `k`-th, carves exactly `tribs`: a confluence whose source
/// is on the grid and dry (given the tributaries carved before it) adds the
/// next tributary, a least-cost path from that source to it (at every step
/// the cheapest of the best entries, and the first of them when every cost is
/// positive); any other adds nothing.
pub open spec fn trib_trace(
    tribs: Seq<Vec<usize>>,
    confs: Seq<usize>,
    sides: Seq<bool>,
    wet: Seq<bool>,
    cost: Seq<u32>,
    spec: TributarySpec,
    width: int,
    height: int,
) -> bool
    decreases confs.len(),
{
    if confs.len() == 0 {
        tribs.len() == 0
    } else {
        let k = confs.len() - 1;
        let src = trib_source(confs[k] as int, spec.length as int, sides[k], width, height);
        ||| {
            &&& src is Some
            &&& tribs.len() > 0
            &&& !wet_before(wet, tribs.drop_last(), spec, width, src->0)
            &&& tribs.last()@[0] == confs[k]
            &&& least_cost_path(tribs.last()@, cost, 0, width, height, src->0, confs[k] as int)
            &&& cheapest_steps(tribs.last()@, cost, 0, width, height, src->0)
            &&& (positive(cost) ==> first_best_steps(tribs.last()@, cost, 0, width, height, src->0))
            &&& trib_trace(tribs.drop_last(), confs.drop_last(), sides.drop_last(), wet, cost, spec, width, height)
        }
        ||| {
            &&& (src is None || wet_before(wet, tribs, spec, width, src->0))
            &&& trib_trace(tribs, confs.drop_last(), sides.drop_last(), wet, cost, spec, width, height)
        }
    }
}

/// Every tributary joins a main channel: its first cell is a cell of one of
/// the mains, away from that channel's ends.
pub proof fn lemma_tributary_meets_its_main(
    tribs: Seq<Vec<usize>>,
    q: int,
    mains: Seq<Vec<usize>>,
    wet: Seq<bool>,
    cost: Seq<u32>,
    spec: TributarySpec,
    width: int,
    height: int,
)
    requires
        0 <= q < tribs.len(),
        carved_tributary(tribs, q, mains, wet, cost, spec, width, height),
        forall|m: int| 0 <= m < mains.len() ==> (#[trigger] mains[m]).len() >= 2,
    ensures
        exists|m: int, k: int|
            0 <= m < mains.len() && trib_skip(mains[m]@.len() as int) <= k < mains[m]@.len() - trib_skip(mains[m]@.len() as int)
                && #[trigger] mains[m]@[k] == tribs[q]@[0],
{
    let t = tribs[q]@;
    let spacing = stride(spec.spacing);
    let (m, j, left) = choose|m: int, j: int, left: bool|
        #![trigger confluences(mains[m]@, spacing)[j], trib_source(t[0] as int, spec.length as int, left, width, height)]
        {
            let src = trib_source(t[0] as int, spec.length as int, left, width, height);
            &&& 0 <= m < mains.len()
            &&& 0 <= j < confluences(mains[m]@, spacing).len()
            &&& t[0] == confluences(mains[m]@, spacing)[j]
            &&& src is Some
            &&& !wet_before(wet, tribs.subrange(0, q), spec, width, src->0)
            &&& least_cost_path(t, cost, 0, width, height, src->0, t[0] as int)
            &&& cheapest_steps(t, cost, 0, width, height, src->0)
            &&& (positive(cost) ==> first_best_steps(t, cost, 0, width, height, src->0))
        };
    let main = mains[m]@;
    let skip = trib_skip(main.len() as int);
    let interior = main.subrange(skip, main.len() - skip);
    crate::river::lemma_every_nth_index(interior, spacing, j);
    let k = skip + j * spacing;
    assert(mains[m].len() >= 2);
    assert(0 <= skip <= main.len() - skip);
    assert(main[k] == interior[j * spacing]);
    assert(mains[m]@[k] == tribs[q]@[0]);
}

/// The source row for a confluence at `conf`, as `trib_row` gives it.
fn source_row(conf: usize, length: isize, width: usize, height: usize) -> (row: usize)
    requires
        conf < width * height,
    ensures
        row == trib_row(conf as int, length as int, width as int, height as int),
        row < height,
{
    proof {
        lemma_cell_split(conf as int, width as int, height as int);
    }
    let conf_row = conf / width;
    let len: i128 = length as i128;
    let mag: u128 = if len >= 0 {
        len as u128
    } else {
        (-len) as u128
    };
    let half: i128 = if len >= 0 {
        (mag / 2) as i128
    } else {
        -((mag / 2) as i128)
    };
    assert(half == half_toward_zero(length as int));
    let up: i128 = conf_row as i128 - half;
    if up < 0 {
        0
    } else if up > (height - 1) as i128 {
        height - 1
    } else {
        up as usize
    }
}

/// Whether every confluence of `mains` has its source on the grid, whichever
/// side is preferred (see `source_on_grid`): the condition under which
/// `carve_tributaries` can run on these channels.
pub fn sources_on_grid(mains: &[Vec<usize>], spec: &TributarySpec, width: usize, height: usize) -> (ok: bool)
    requires
        width * height <= isize::MAX,
        forall|m: int| 0 <= m < mains.len() ==> (#[trigger] mains[m]).len() >= 2,
        forall|m: int, k: int| 0 <= m < mains.len() && 0 <= k < mains[m].len() ==> #[trigger] mains[m][k]
            < width * height,
    ensures
        ok == forall|m: int, k: int|
            0 <= m < mains.len() && 0 <= k < confluences(mains[m]@, stride(spec.spacing)).len() ==> source_on_grid(
                #[trigger] confluences(mains[m]@, stride(spec.spacing))[k] as int,
                spec.length as int,
                width as int,
                height as int,
            ),
{
    let ghost w = width as int;
    let ghost h = height as int;
    let spacing: usize = if spec.spacing >= 1 {
        spec.spacing
    } else {
        1
    };
    let len: i128 = spec.length as i128;
    let mut m: usize = 0;
    while m < mains.len()
        invariant
            w == width,
            h == height,
            w * h <= isize::MAX,
            spacing == stride(spec.spacing),
            len == spec.length,
            m <= mains.len(),
            forall|mm: int| 0 <= mm < mains.len() ==> (#[trigger] mains[mm]).len() >= 2,
            forall|mm: int, k: int| 0 <= mm < mains.len() && 0 <= k < mains[mm].len() ==> #[trigger] mains[mm][k] < w * h,
            forall|mm: int, k: int|
                0 <= mm < m && 0 <= k < confluences(mains[mm]@, spacing as int).len() ==> source_on_grid(
                    #[trigger] confluences(mains[mm]@, spacing as int)[k] as int,
                    spec.length as int,
                    w,
                    h,
                ),
        decreases mains.len() - m,
    {
        let main = &mains[m];
        let main_len = main.len();
        let skip = if main_len / 10 >= 1 {
            main_len / 10
        } else {
            1
        };
        let interior = vstd::slice::slice_subrange(main.as_slice(), skip, main_len - skip);
        let confs = ford_indices(interior, spacing);
        assert(confs@ == confluences(mains[m as int]@, spacing as int));
        assert forall|k: int| 0 <= k < confs.len() implies #[trigger] confs[k] < w * h by {
            crate::river::lemma_every_nth_index(interior@, spacing as int, k);
            assert(interior@[k * spacing] == mains[m as int][skip + k * spacing]);
        }
        let mut j: usize = 0;
        while j < confs.len()
            invariant
                w == width,
                h == height,
                w * h <= isize::MAX,
                len == spec.length,
                spacing == stride(spec.spacing),
                m < mains.len(),
                confs@ == confluences(mains[m as int]@, spacing as int),
                j <= confs.len(),
                forall|k: int| 0 <= k < confs.len() ==> #[trigger] confs[k] < w * h,
                forall|k: int| 0 <= k < j ==> source_on_grid(#[trigger] confs[k] as int, spec.length as int, w, h),
            decreases confs.len() - j,
        {
            let conf = confs[j];
            proof {
                lemma_cell_split(conf as int, w, h);
            }
            let col = conf % width;
            let row = source_row(conf, spec.length, width, height);
            proof {
                lemma_cell_at(row as int, 0, w, h);
            }
            let fits = len >= 0 || (col as i128 + len >= 0 && (row * width) as i128 + col as i128 - len < (width
                * height) as i128);
            if !fits {
                proof {
                    assert(!source_on_grid(confs[j as int] as int, spec.length as int, w, h));
                    assert(confs[j as int] == confluences(mains[m as int]@, stride(spec.spacing))[j as int]);
                }
                return false;
            }
            j += 1;
        }
        proof {
            assert forall|mm: int, k: int|
                0 <= mm < m + 1 && 0 <= k < confluences(mains[mm]@, spacing as int).len() implies source_on_grid(
                    #[trigger] confluences(mains[mm]@, spacing as int)[k] as int,
                    spec.length as int,
                    w,
                    h,
                ) by {
                if mm == m {
                    assert(confs[k] == confluences(mains[mm]@, spacing as int)[k]);
                }
            }
        }
        m += 1;
    }
    true
}

/// The source column chosen for a confluence in column `col`: `length`
/// columns to the preferred side, else to the other side, else none.
fn source_side(col: usize, length: isize, prefer_left: bool, width: usize) -> (side: Option<usize>)
    requires
        col < width,
        col <= isize::MAX,
    ensures
        side == (if prefer_left {
            if col - length >= 0 {
                Some((col - length) as usize)
            } else if col + length < width {
                Some((col + length) as usize)
            } else {
                None::<usize>
            }
        } else {
            if col + length < width {
                Some((col + length) as usize)
            } else if col - length >= 0 {
                Some((col - length) as usize)
            } else {
                None::<usize>
            }
        }),
{
    let left: i128 = col as i128 - length as i128;
    let right: i128 = col as i128 + length as i128;
    if prefer_left {
        if left >= 0 {
            Some(left as usize)
        } else if right < width as i128 {
            Some(right as usize)
        } else {
            None
        }
    } else {
        if right < width as i128 {
            Some(right as usize)
        } else if left >= 0 {
            Some(left as usize)
        } else {
            None
        }
    }
}

/// Appending one more carved tributary keeps the record of tributaries and
/// of the wet cells.
#[verifier::rlimit(60)]
proof fn lemma_tribs_grow(
    tribs0: Seq<Vec<usize>>,
    tribs1: Seq<Vec<usize>>,
    wet0: Seq<bool>,
    wet1: Seq<bool>,
    mains: Seq<Vec<usize>>,
    wet: Seq<bool>,
    cost: Seq<u32>,
    spec: TributarySpec,
    w: int,
    h: int,
    m: int,
    j: int,
    spacing: int,
    left: bool,
    source: int,
)
    requires
        spacing == stride(spec.spacing),
        0 <= m < mains.len(),
        0 <= j < confluences(mains[m]@, spacing).len(),
        tribs1.len() == tribs0.len() + 1,
        tribs1.drop_last() == tribs0,
        tribs1.last()@[0] == confluences(mains[m]@, spacing)[j],
        trib_source(tribs1.last()@[0] as int, spec.length as int, left, w, h) == Some(source),
        0 <= source < w * h,
        !wet0[source],
        least_cost_path(tribs1.last()@, cost, 0, w, h, source, tribs1.last()@[0] as int),
        cheapest_steps(tribs1.last()@, cost, 0, w, h, source),
        positive(cost) ==> first_best_steps(tribs1.last()@, cost, 0, w, h, source),
        forall|q: int| 0 <= q < tribs0.len() ==> carved_tributary(tribs0, q, mains, wet, cost, spec, w, h),
        wet0.len() == w * h,
        wet1.len() == w * h,
        forall|i: int| 0 <= i < w * h ==> #[trigger] wet0[i] == wet_before(wet, tribs0, spec, w, i),
        forall|i: int| 0 <= i < w * h ==> #[trigger] wet1[i] == (wet0[i] || (spec.wets && path_reaches(
            tribs1.last()@,
            i,
            w,
            spec.radius as int,
            spec.core as int,
        ))),
    ensures
        forall|q: int| 0 <= q < tribs1.len() ==> carved_tributary(tribs1, q, mains, wet, cost, spec, w, h),
        forall|i: int| 0 <= i < w * h ==> #[trigger] wet1[i] == wet_before(wet, tribs1, spec, w, i),
{
    let q0 = tribs0.len() as int;
    assert forall|q: int| 0 <= q < tribs1.len() implies carved_tributary(tribs1, q, mains, wet, cost, spec, w, h) by {
        if q < q0 {
            assert(carved_tributary(tribs0, q, mains, wet, cost, spec, w, h));
            assert(tribs1[q] == tribs0[q]);
            assert(tribs1.subrange(0, q) =~= tribs0.subrange(0, q));
            let t = tribs0[q]@;
            let (mm, jj, ll) = choose|mm: int, jj: int, ll: bool|
                #![trigger confluences(mains[mm]@, spacing)[jj], trib_source(t[0] as int, spec.length as int, ll, w, h)]
                {
                    let src = trib_source(t[0] as int, spec.length as int, ll, w, h);
                    &&& 0 <= mm < mains.len()
                    &&& 0 <= jj < confluences(mains[mm]@, spacing).len()
                    &&& t[0] == confluences(mains[mm]@, spacing)[jj]
                    &&& src is Some
                    &&& !wet_before(wet, tribs0.subrange(0, q), spec, w, src->0)
                    &&& least_cost_path(t, cost, 0, w, h, src->0, t[0] as int)
                    &&& cheapest_steps(t, cost, 0, w, h, src->0)
                    &&& (positive(cost) ==> first_best_steps(t, cost, 0, w, h, src->0))
                };
            let src = trib_source(t[0] as int, spec.length as int, ll, w, h);
            assert(tribs1[q]@ == t);
            assert(0 <= mm < mains.len() && 0 <= jj < confluences(mains[mm]@, spacing).len()
                && t[0] == confluences(mains[mm]@, spacing)[jj] && src is Some
                && !wet_before(wet, tribs1.subrange(0, q), spec, w, src->0)
                && least_cost_path(t, cost, 0, w, h, src->0, t[0] as int)
                && cheapest_steps(t, cost, 0, w, h, src->0)
                && (positive(cost) ==> first_best_steps(t, cost, 0, w, h, src->0)));
        } else {
            assert(tribs1.subrange(0, q) =~= tribs0);
            assert(!wet_before(wet, tribs0, spec, w, source));
            let t = tribs1[q]@;
            assert(t == tribs1.last()@);
            let src = trib_source(t[0] as int, spec.length as int, left, w, h);
            assert(0 <= m < mains.len() && 0 <= j < confluences(mains[m]@, spacing).len()
                && t[0] == confluences(mains[m]@, spacing)[j] && src is Some
                && !wet_before(wet, tribs1.subrange(0, q), spec, w, src->0)
                && least_cost_path(t, cost, 0, w, h, src->0, t[0] as int)
                && cheapest_steps(t, cost, 0, w, h, src->0)
                && (positive(cost) ==> first_best_steps(t, cost, 0, w, h, src->0)));
        }
    }
    assert forall|i: int| 0 <= i < w * h implies #[trigger] wet1[i] == wet_before(wet, tribs1, spec, w, i) by {
        let r = spec.radius as int;
        let c = spec.core as int;
        if spec.wets {
            if exists|q: int| 0 <= q < tribs0.len() && #[trigger] path_reaches(tribs0[q]@, i, w, r, c) {
                let q = choose|q: int| 0 <= q < tribs0.len() && #[trigger] path_reaches(tribs0[q]@, i, w, r, c);
                assert(tribs1[q] == tribs0[q]);
            }
            if path_reaches(tribs1.last()@, i, w, r, c) {
                assert(path_reaches(tribs1[q0]@, i, w, r, c));
            }
            if exists|q: int| 0 <= q < tribs1.len() && #[trigger] path_reaches(tribs1[q]@, i, w, r, c) {
                let q = choose|q: int| 0 <= q < tribs1.len() && #[trigger] path_reaches(tribs1[q]@, i, w, r, c);
                if q < q0 {
                    assert(tribs1[q] == tribs0[q]);
                }
            }
        }
    }
}

/// Carves short tributaries into each main channel. Along every channel's
/// interior (a tenth of it, at least one cell, skipped at each end) every
/// `spacing`-th cell is a confluence; its source lies `length` cells to a
/// randomly preferred side (the other side when that one is off the grid)
/// and half of `length` rows upstream (a negative length swaps the sides and
/// moves the source downstream). A source already wet is skipped; otherwise
/// the least-cost path from it to the confluence is carved and, when stamps
/// leave water, the cells its stamps reach turn wet. Returns the tributaries
/// in the order carved.
#[verifier::rlimit(100)]
#[verifier::spinoff_prover]
pub fn carve_tributaries(
    grid: &Grid,
    wet: &mut Vec<bool>,
    cost: &[u32],
    rng: &mut StdRng,
    spec: &TributarySpec,
    mains: &[Vec<usize>],
) -> (tribs: Vec<Vec<usize>>)
    requires
        grid.wf(),
        grid.spec_width() * grid.spec_height() <= isize::MAX,
        cost.len() == grid.spec_width() * grid.spec_height(),
        old(wet).len() == grid.spec_width() * grid.spec_height(),
        forall|m: int, k: int|
            0 <= m < mains.len() && 0 <= k < confluences(mains[m]@, stride(spec.spacing)).len() ==> source_on_grid(
                #[trigger] confluences(mains[m]@, stride(spec.spacing))[k] as int,
                spec.length as int,
                grid.spec_width(),
                grid.spec_height(),
            ),
        forall|m: int| 0 <= m < mains.len() ==> (#[trigger] mains[m]).len() >= 2,
        forall|m: int, k: int| 0 <= m < mains.len() && 0 <= k < mains[m].len() ==> #[trigger] mains[m][k]
            < grid.spec_width() * grid.spec_height(),
    ensures
        final(wet).len() == grid.spec_width() * grid.spec_height(),
        forall|q: int| 0 <= q < tribs.len() ==> carved_tributary(
            tribs@,
            q,
            mains@,
            old(wet)@,
            cost@,
            *spec,
            grid.spec_width(),
            grid.spec_height(),
        ),
        forall|i: int| 0 <= i < grid.spec_width() * grid.spec_height() ==> #[trigger] final(wet)[i] == wet_before(
            old(wet)@,
            tribs@,
            *spec,
            grid.spec_width(),
            i,
        ),
        exists|sides: Seq<bool>|
            sides.len() == all_confluences(mains@, stride(spec.spacing)).len() && #[trigger] trib_trace(
                tribs@,
                all_confluences(mains@, stride(spec.spacing)),
                sides,
                old(wet)@,
                cost@,
                *spec,
                grid.spec_width(),
                grid.spec_height(),
            ),
{
    let width = grid.width();
    let height = grid.height();
    let ghost w = width as int;
    let ghost h = height as int;
    let ghost n = w * h;
    let mut tribs: Vec<Vec<usize>> = Vec::new();
    let ghost mut sides = Seq::<bool>::empty();
    if mains.len() == 0 {
        proof {
            assert forall|i: int| 0 <= i < n implies #[trigger] wet[i] == wet_before(old(wet)@, tribs@, *spec, w, i) by {}
            assert(all_confluences(mains@, stride(spec.spacing)).len() == 0);
            assert(trib_trace(tribs@, all_confluences(mains@, stride(spec.spacing)), sides, old(wet)@, cost@, *spec, w, h));
        }
        return tribs;
    }
    let spacing: usize = if spec.spacing >= 1 {
        spec.spacing
    } else {
        1
    };
    assert(spacing == stride(spec.spacing));
    assert forall|mm: int, k: int|
        0 <= mm < mains.len() && 0 <= k < confluences(mains[mm]@, spacing as int).len() implies source_on_grid(
            #[trigger] confluences(mains[mm]@, spacing as int)[k] as int,
            spec.length as int,
            w,
            h,
        ) by {
        assert(confluences(mains[mm]@, stride(spec.spacing))[k] == confluences(mains[mm]@, spacing as int)[k]);
    }
    let mut m: usize = 0;
    while m < mains.len()
        invariant
            w == grid.spec_width(),
            h == grid.spec_height(),
            w == width,
            h == height,
            n == w * h,
            n <= isize::MAX,
            grid.wf(),
            cost.len() == n,
            wet.len() == n,
            spacing == stride(spec.spacing),
            m <= mains.len(),
            forall|mm: int| 0 <= mm < mains.len() ==> (#[trigger] mains[mm]).len() >= 2,
            forall|mm: int, k: int| 0 <= mm < mains.len() && 0 <= k < mains[mm].len() ==> #[trigger] mains[mm][k] < n,
            forall|mm: int, k: int|
                0 <= mm < mains.len() && 0 <= k < confluences(mains[mm]@, spacing as int).len() ==> source_on_grid(
                    #[trigger] confluences(mains[mm]@, spacing as int)[k] as int,
                    spec.length as int,
                    w,
                    h,
                ),
            forall|q: int| 0 <= q < tribs.len() ==> carved_tributary(tribs@, q, mains@, old(wet)@, cost@, *spec, w, h),
            forall|i: int| 0 <= i < n ==> #[trigger] wet[i] == wet_before(old(wet)@, tribs@, *spec, w, i),
            sides.len() == all_confluences(mains@.take(m as int), spacing as int).len(),
            trib_trace(tribs@, all_confluences(mains@.take(m as int), spacing as int), sides, old(wet)@, cost@, *spec, w, h),
        decreases mains.len() - m,
    {
        proof {
            assert(mains@.take(m + 1).drop_last() =~= mains@.take(m as int));
            assert(mains@.take(m + 1).last() == mains@[m as int]);
        }
        let ghost before = all_confluences(mains@.take(m as int), spacing as int);
        let main = &mains[m];
        let main_len = main.len();
        let skip = if main_len / 10 >= 1 {
            main_len / 10
        } else {
            1
        };
        let end = main_len - skip;
        let interior = vstd::slice::slice_subrange(main.as_slice(), skip, end);
        if interior.len() == 0 {
            proof {
                assert(confluences(mains[m as int]@, spacing as int).len() == 0) by {
                    assert((0 + spacing as int - 1) / (spacing as int) == 0) by (nonlinear_arith)
                        requires spacing >= 1;
                }
                assert(all_confluences(mains@.take(m + 1), spacing as int) =~= before);
            }
            m += 1;
            continue;
        }
        let confs = ford_indices(interior, spacing);
        assert(confs@ == confluences(mains[m as int]@, spacing as int));
        assert forall|k: int| 0 <= k < confs.len() implies source_on_grid(#[trigger] confs[k] as int, spec.length as int, w, h) by {
            assert(confs[k] == confluences(mains[m as int]@, spacing as int)[k]);
        }
        assert(before + confs@.take(0) =~= before);
        assert(all_confluences(mains@.take(m + 1), spacing as int) == before + confs@);
        assert forall|k: int| 0 <= k < confs.len() implies #[trigger] confs[k] < n by {
            crate::river::lemma_every_nth_index(interior@, spacing as int, k);
            assert(interior@[k * spacing] == mains[m as int][skip + k * spacing]);
        }
        let mut j: usize = 0;
        while j < confs.len()
            invariant
                w == grid.spec_width(),
                h == grid.spec_height(),
                w == width,
                h == height,
                n == w * h,
                n <= isize::MAX,
                grid.wf(),
                cost.len() == n,
                wet.len() == n,
                    spacing == stride(spec.spacing),
                m < mains.len(),
                j <= confs.len(),
                confs@ == confluences(mains[m as int]@, spacing as int),
                forall|k: int| 0 <= k < confs.len() ==> #[trigger] confs[k] < n,
                forall|k: int| 0 <= k < confs.len() ==> source_on_grid(#[trigger] confs[k] as int, spec.length as int, w, h),
                forall|q: int| 0 <= q < tribs.len() ==> carved_tributary(tribs@, q, mains@, old(wet)@, cost@, *spec, w, h),
                forall|i: int| 0 <= i < n ==> #[trigger] wet[i] == wet_before(old(wet)@, tribs@, *spec, w, i),
                before == all_confluences(mains@.take(m as int), spacing as int),
                all_confluences(mains@.take(m + 1), spacing as int) == before + confs@,
                sides.len() == before.len() + j,
                trib_trace(tribs@, before + confs@.take(j as int), sides, old(wet)@, cost@, *spec, w, h),
            decreases confs.len() - j,
        {
            let ghost done = before + confs@.take(j as int);
            let ghost tribs_at = tribs@;
            let conf = confs[j];
            proof {
                lemma_cell_split(conf as int, w, h);
            }
            let conf_col = conf % width;
            proof {
                vstd::arithmetic::div_mod::lemma_mod_decreases(conf as nat, width as nat);
            }
            let src_row = source_row(conf, spec.length, width, height);
            let prefer_left = random_bool(rng);
            let ghost sides_at = sides;
            proof {
                sides = sides.push(prefer_left);
                assert((before + confs@.take(j + 1)).drop_last() =~= done);
                assert((before + confs@.take(j + 1)).last() == conf);
                assert(sides.drop_last() =~= sides_at);
            }
            match source_side(conf_col, spec.length, prefer_left, width) {
                None => {
                    assert(trib_source(conf as int, spec.length as int, prefer_left, w, h) is None);
                    proof {
                        let nd = before + confs@.take(j + 1);
                        assert(nd.drop_last() =~= done);
                        assert(trib_trace(tribs@, nd, sides, old(wet)@, cost@, *spec, w, h));
                    }
                },
                Some(src_col) => {
                    proof {
                        assert(source_on_grid(confs[j as int] as int, spec.length as int, w, h));
                        assert(src_row == trib_row(conf as int, spec.length as int, w, h));
                        assert(0 <= src_row * w) by (nonlinear_arith)
                            requires 0 <= src_row, 0 <= w;
                        if src_col < width {
                            lemma_cell_at(src_row as int, src_col as int, w, h);
                        }
                    }
                    let source = src_row * width + src_col;
                    assert(trib_source(conf as int, spec.length as int, prefer_left, w, h) == Some(source as int));
                    if !wet[source] {
                        let tcl = carve(grid, cost, source, conf, None);
                        proof {
                            lemma_carved_on_lattice(tcl@, cost@, 0, w, h, source as int, conf as int);
                        }
                        let ghost wet0 = wet@;
                        let ghost tribs0 = tribs@;
                        if spec.wets {
                            stamp_path(wet, &tcl, spec.radius, spec.core, width, height);
                        }
                        tribs.push(tcl);
                        proof {
                            assert(tribs@.drop_last() =~= tribs0);
                            lemma_tribs_grow(tribs0, tribs@, wet0, wet@, mains@, old(wet)@, cost@, *spec, w, h, m as int,
                                j as int, spacing as int, prefer_left, source as int);
                            assert(!wet_before(old(wet)@, tribs_at, *spec, w, source as int));
                            assert(tribs@.last() == tcl);
                            let nd = before + confs@.take(j + 1);
                            assert(nd.drop_last() =~= done);
                            assert(tribs@.drop_last() =~= tribs_at);
                            assert(trib_trace(tribs@, nd, sides, old(wet)@, cost@, *spec, w, h));
                        }
                    } else {
                        assert(wet_before(old(wet)@, tribs_at, *spec, w, source as int));
                        proof {
                            let nd = before + confs@.take(j + 1);
                            assert(nd.drop_last() =~= done);
                            assert(trib_trace(tribs@, nd, sides, old(wet)@, cost@, *spec, w, h));
                        }
                    }
                },
            }
            j += 1;
        }
        proof {
            assert(confs@.take(confs.len() as int) =~= confs@);
        }
        m += 1;
    }
    proof {
        assert(mains@.take(mains.len() as int) =~= mains@);
    }
    tribs
}

/// Every dry basin of the lattice.
pub open spec fn dry_basin_set(water: Seq<bool>, cost: Seq<u32>, width: int, height: int) -> Set<int> {
    Set::new(|i: int| 0 <= i < width * height && dry_basin_spec(water, cost, width, height, i))
}

/// The dry basins of the lattice in ascending order.
pub fn dry_basins(water: &[bool], cost: &[u32], width: usize, height: usize) -> (r: Vec<usize>)
    requires
        wave_fits(width as int, height as int),
        water.len() == width * height,
        cost.len() == width * height,
    ensures
        forall|a: int, b: int| 0 <= a < b < r.len() ==> r[a] < r[b],
        forall|k: int| 0 <= k < r.len() ==> dry_basin_set(water@, cost@, width as int, height as int).contains(
            #[trigger] r[k] as int,
        ),
        forall|i: int| #[trigger] dry_basin_set(water@, cost@, width as int, height as int).contains(i) ==> r@.contains(
            i as usize,
        ),
{
    let n = width * height;
    let mut r: Vec<usize> = Vec::new();
    let mut i: usize = 0;
    while i < n
        invariant
            wave_fits(width as int, height as int),
            water.len() == width * height,
            cost.len() == width * height,
            n == width * height,
            i <= n,
            forall|a: int, b: int| 0 <= a < b < r.len() ==> r[a] < r[b],
            forall|k: int| 0 <= k < r.len() ==> r[k] < i,
            forall|k: int| 0 <= k < r.len() ==> dry_basin_set(water@, cost@, width as int, height as int).contains(
                #[trigger] r[k] as int,
            ),
            forall|j: int| 0 <= j < i && dry_basin_spec(water@, cost@, width as int, height as int, j) ==> r@.contains(
                j as usize,
            ),
        decreases n - i,
    {
        if is_dry_basin(water, cost, width, height, i) {
            let ghost r0 = r@;
            r.push(i);
            proof {
                assert forall|j: int| 0 <= j < i + 1 && dry_basin_spec(water@, cost@, width as int, height as int, j)
                    implies r@.contains(j as usize) by {
                    if j < i {
                        let k = choose|k: int| 0 <= k < r0.len() && r0[k] == j as usize;
                        assert(r@[k] == j as usize);
                    } else {
                        assert(r@[r0.len() as int] == i);
                    }
                }
            }
        }
        i += 1;
    }
    r
}

/// Oxbow pools: `min(count, basins)` distinct dry basins, drawn at random
/// without replacement from all the dry basins of the lattice.
#[verifier::rlimit(40)]
pub fn place_oxbows(water: &[bool], cost: &[u32], width: usize, height: usize, count: usize, rng: &mut StdRng) -> (centers: Vec<usize>)
    requires
        wave_fits(width as int, height as int),
        water.len() == width * height,
        cost.len() == width * height,
    ensures
        centers.len() == (if count <= dry_basin_set(water@, cost@, width as int, height as int).len() {
            count as int
        } else {
            dry_basin_set(water@, cost@, width as int, height as int).len() as int
        }),
        centers@.no_duplicates(),
        forall|k: int| 0 <= k < centers.len() ==> dry_basin_set(water@, cost@, width as int, height as int).contains(
            #[trigger] centers[k] as int,
        ),
{
    let ghost basins = dry_basin_set(water@, cost@, width as int, height as int);
    let mut cands = dry_basins(water, cost, width, height);
    proof {
        assert(cands@.no_duplicates()) by {
            assert forall|a: int, b: int| 0 <= a < cands.len() && 0 <= b < cands.len() && a != b implies cands[a] != cands[b] by {
                if a < b {
                    assert(cands[a] < cands[b]);
                } else {
                    assert(cands[b] < cands[a]);
                }
            }
        }
        let as_ints = cands@.map_values(|x: usize| x as int);
        assert(as_ints.to_set() =~= basins) by {
            assert forall|i: int| #[trigger] basins.contains(i) implies as_ints.to_set().contains(i) by {
                assert(cands@.contains(i as usize));
                let k = choose|k: int| 0 <= k < cands.len() && cands[k] == i as usize;
                assert(as_ints[k] == i);
            }
            assert forall|i: int| #[trigger] as_ints.to_set().contains(i) implies basins.contains(i) by {
                let k = choose|k: int| 0 <= k < as_ints.len() && as_ints[k] == i;
                assert(basins.contains(cands[k] as int));
            }
        }
        assert(as_ints.no_duplicates()) by {
            assert forall|a: int, b: int| 0 <= a < as_ints.len() && 0 <= b < as_ints.len() && a != b implies as_ints[a] != as_ints[b] by {
                assert(cands[a] != cands[b]);
            }
        }
        as_ints.unique_seq_to_set();
    }
    let total = if count <= cands.len() {
        count
    } else {
        cands.len()
    };
    let mut centers: Vec<usize> = Vec::new();
    while centers.len() < total
        invariant
            total <= count,
            centers.len() <= total,
            cands.len() + centers.len() == basins.len(),
            total == count || total == basins.len(),
            total <= basins.len(),
            cands@.no_duplicates(),
            centers@.no_duplicates(),
            forall|x: usize| centers@.contains(x) ==> !cands@.contains(x),
            forall|k: int| 0 <= k < cands.len() ==> basins.contains(#[trigger] cands[k] as int),
            forall|k: int| 0 <= k < centers.len() ==> basins.contains(#[trigger] centers[k] as int),
        decreases total - centers.len(),
    {
        let ci = random_usize_below(rng, 0, cands.len());
        let ghost c0 = cands@;
        let ghost s0 = centers@;
        let center = cands.swap_remove(ci);
        centers.push(center);
        proof {
            let last = c0.len() - 1;
            assert forall|y: usize| cands@.contains(y) implies c0.contains(y) && y != center by {
                let k = choose|k: int| 0 <= k < cands.len() && cands@[k] == y;
                if k == ci {
                    assert(y == c0[last]);
                    assert(last != ci);
                } else {
                    assert(y == c0[k]);
                }
            }
            assert forall|a: int, b: int| 0 <= a < cands.len() && 0 <= b < cands.len() && a != b implies cands@[a] != cands@[b] by {
                let ia = if a == ci { last } else { a };
                let ib = if b == ci { last } else { b };
                assert(cands@[a] == c0[ia]);
                assert(cands@[b] == c0[ib]);
            }
            assert forall|a: int, b: int| 0 <= a < centers.len() && 0 <= b < centers.len() && a != b implies centers@[a] != centers@[b] by {
                if a < s0.len() && b < s0.len() {
                    assert(s0[a] != s0[b]);
                } else if a < s0.len() {
                    assert(s0.contains(centers@[a]));
                    assert(c0.contains(center));
                } else if b < s0.len() {
                    assert(s0.contains(centers@[b]));
                    assert(c0.contains(center));
                }
            }
            assert forall|x: usize| centers@.contains(x) implies !cands@.contains(x) by {
                let k = choose|k: int| 0 <= k < centers.len() && centers@[k] == x;
                if k < s0.len() {
                    assert(s0.contains(x));
                }
            }
            assert forall|k: int| 0 <= k < cands.len() implies basins.contains(#[trigger] cands[k] as int) by {
                let ik = if k == ci { last } else { k };
                assert(cands@[k] == c0[ik]);
            }
        }
    }
    centers
}

} // verus!
