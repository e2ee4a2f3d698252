//! Lake siting on the discrete lattice: the grid edge treated as a shore,
//! distance to water, and the dry cells a lake may be centred on.

use vstd::prelude::*;
use crate::field::step;
use crate::wave::{nbr, offset, ring_distances, ring_field, wave_fits, lemma_fits_step};
use crate::field::{col_of, row_of, lemma_cell_split};
use crate::random::random_usize_below;
use rand::rngs::StdRng;

verus! {

pub open spec fn min4(a: int, b: int, c: int, d: int) -> int {
    let ab = if a <= b { a } else { b };
    let abc = if ab <= c { ab } else { c };
    if abc <= d { abc } else { d }
}

/// Steps from `(col, row)` to the nearest edge of a `width × height` grid, so
/// basins seat far enough from the border not to be clipped.
pub fn edge_dist(col: usize, row: usize, width: usize, height: usize) -> (d: u32)
    requires
        col < width,
        row < height,
    ensures
        d == min4(col as int, row as int, width - 1 - col, height - 1 - row) as u32,
{
    let a = if col <= row { col } else { row };
    let b = if a <= width - 1 - col { a } else { width - 1 - col };
    let c = if b <= height - 1 - row { b } else { height - 1 - row };
    c as u32
}

/// Uncapped ring distance to water (4-connected): 0 on water, rising outward,
/// `UNREACHED` where no water is reachable.
pub fn dist_to_water(water: &[bool], width: usize, height: usize) -> (dist: Vec<u32>)
    requires
        wave_fits(width as int, height as int),
        water.len() == width * height,
    ensures
        ring_field(dist@, water@, width as int, height as int, false),
{
    ring_distances(water, width, height, false)
}

/// A dry cell whose edge neighbours on the grid are all dry.
pub open spec fn lake_site_spec(water: Seq<bool>, width: int, height: int, i: int) -> bool {
    &&& !water[i]
    &&& forall|k: int| 0 <= k < 4 && #[trigger] nbr(i, k, width, height, false) is Some ==> !water[nbr(i, k, width, height, false)->0]
}

/// Whether cell `i` holds no water and touches none.
pub fn is_lake_site(water: &[bool], width: usize, height: usize, i: usize) -> (b: bool)
    requires
        wave_fits(width as int, height as int),
        water.len() == width * height,
        i < width * height,
    ensures
        b == lake_site_spec(water@, width as int, height as int, i as int),
{
    if water[i] {
        return false;
    }
    let mut k: usize = 0;
    while k < 4
        invariant
            wave_fits(width as int, height as int),
            water.len() == width * height,
            i < width * height,
            !water[i as int],
            k <= 4,
            forall|j: int| 0 <= j < k && #[trigger] nbr(i as int, j, width as int, height as int, false) is Some
                ==> !water[nbr(i as int, j, width as int, height as int, false)->0],
        decreases 4 - k,
    {
        proof {
            lemma_fits_step(i as int, k as int, width as int, height as int, false);
        }
        let (dx, dy) = offset(k, false);
        match step(i, dx, dy, width, height) {
            Some(n) => {
                proof {
                    crate::field::lemma_step_in_bounds(i as int, dx as int, dy as int, width as int, height as int);
                }
                assert(nbr(i as int, k as int, width as int, height as int, false) == Some(n as int));
                if water[n] {
                    return false;
                }
            },
            None => {},
        }
        k += 1;
    }
    true
}

/// Squared distance between the positions of cells `a` and `b`.
pub open spec fn dist2(a: int, b: int, width: int) -> int {
    let dx = col_of(a, width) - col_of(b, width);
    let dy = row_of(a, width) - row_of(b, width);
    dx * dx + dy * dy
}

/// Squared distance from cell `c` to the nearest of the (non-empty) `reps`.
pub open spec fn nearest2(reps: Seq<usize>, c: int, width: int) -> int
    decreases reps.len(),
{
    if reps.len() <= 1 {
        dist2(reps[0] as int, c, width)
    } else {
        let rest = nearest2(reps.drop_last(), c, width);
        let d = dist2(reps.last() as int, c, width);
        if d < rest {
            d
        } else {
            rest
        }
    }
}

/// The first of the sampled cells `s` that lies farthest from its nearest
/// repeller.
pub open spec fn best_of(s: Seq<usize>, reps: Seq<usize>, width: int) -> usize
    decreases s.len(),
{
    if s.len() <= 1 {
        s[0]
    } else {
        let b = best_of(s.drop_last(), reps, width);
        if nearest2(reps, s.last() as int, width) > nearest2(reps, b as int, width) {
            s.last()
        } else {
            b
        }
    }
}

/// The `k`-th chosen cell is the best of some `samples` (at least one)
/// candidates, against the repellers and the cells chosen before it.
pub open spec fn best_of_samples(
    chosen: Seq<usize>,
    k: int,
    candidates: Seq<usize>,
    preseed: Seq<usize>,
    samples: usize,
    width: int,
) -> bool {
    exists|s: Seq<usize>|
        {
            &&& s.len() == (if samples >= 1 { samples as int } else { 1 })
            &&& forall|i: int| 0 <= i < s.len() ==> candidates.contains(#[trigger] s[i])
            &&& chosen[k] == #[trigger] best_of(s, preseed + chosen.take(k), width)
        }
}

/// What Mitchell's best-candidate placement returns: `min(count, candidates)`
/// candidates (none when either is zero); without repellers the first is any
/// candidate, and every other is the best of some `samples` candidates.
pub open spec fn best_candidate_picks(
    chosen: Seq<usize>,
    candidates: Seq<usize>,
    count: usize,
    samples: usize,
    width: int,
    preseed: Seq<usize>,
) -> bool {
    &&& chosen.len() == (if candidates.len() == 0 || count == 0 {
        0
    } else if count <= candidates.len() {
        count as int
    } else {
        candidates.len() as int
    })
    &&& forall|k: int| 0 <= k < chosen.len() ==> candidates.contains(#[trigger] chosen[k])
    &&& forall|k: int| (if preseed.len() == 0 { 1int } else { 0int }) <= k < chosen.len() ==> #[trigger] best_of_samples(
        chosen,
        k,
        candidates,
        preseed,
        samples,
        width,
    )
}

fn dist2_exec(a: usize, b: usize, width: usize) -> (d: i128)
    requires
        width > 0,
        a <= isize::MAX,
        b <= isize::MAX,
    ensures
        d == dist2(a as int, b as int, width as int),
        d >= 0,
{
    proof {
        lemma_dist2_bounds(a as int, b as int, width as int);
    }
    let dx: i128 = (a % width) as i128 - (b % width) as i128;
    let dy: i128 = (a / width) as i128 - (b / width) as i128;
    dx * dx + dy * dy
}

proof fn lemma_dist2_bounds(a: int, b: int, width: int)
    requires
        width > 0,
        0 <= a <= isize::MAX,
        0 <= b <= isize::MAX,
    ensures
        0 <= (col_of(a, width) - col_of(b, width)) * (col_of(a, width) - col_of(b, width))
            < 0x4000_0000_0000_0000_0000_0000_0000_0000,
        0 <= (row_of(a, width) - row_of(b, width)) * (row_of(a, width) - row_of(b, width))
            < 0x4000_0000_0000_0000_0000_0000_0000_0000,
        0 <= dist2(a, b, width) < 0x8000_0000_0000_0000_0000_0000_0000_0000,
{
    lemma_coords_below(a, width);
    lemma_coords_below(b, width);
    let dx = col_of(a, width) - col_of(b, width);
    let dy = row_of(a, width) - row_of(b, width);
    assert(0 <= dx * dx < 0x4000_0000_0000_0000_0000_0000_0000_0000) by (nonlinear_arith)
        requires -0x8000_0000_0000_0000 < dx < 0x8000_0000_0000_0000;
    assert(0 <= dy * dy < 0x4000_0000_0000_0000_0000_0000_0000_0000) by (nonlinear_arith)
        requires -0x8000_0000_0000_0000 < dy < 0x8000_0000_0000_0000;
}

/// A cell's column and row never exceed its index.
proof fn lemma_coords_below(a: int, width: int)
    requires
        width > 0,
        a >= 0,
    ensures
        0 <= col_of(a, width) <= a,
        0 <= row_of(a, width) <= a,
{
    vstd::arithmetic::div_mod::lemma_fundamental_div_mod(a, width);
    vstd::arithmetic::div_mod::lemma_mod_pos_bound(a, width);
    vstd::arithmetic::div_mod::lemma_div_pos_is_pos(a, width);
    let q = a / width;
    let r = a % width;
    assert(r <= a && q <= a) by (nonlinear_arith)
        requires a == width * q + r, 0 <= r < width, q >= 0, width > 0;
}

/// Squared distance from `cand` to the nearest cell of `preseed` then `chosen`.
fn nearest2_exec(preseed: &[usize], chosen: &Vec<usize>, cand: usize, width: usize) -> (d: i128)
    requires
        width > 0,
        preseed.len() + chosen.len() > 0,
        cand <= isize::MAX,
        forall|k: int| 0 <= k < preseed.len() ==> #[trigger] preseed[k] <= isize::MAX,
        forall|k: int| 0 <= k < chosen.len() ==> #[trigger] chosen[k] <= isize::MAX,
    ensures
        d == nearest2(preseed@ + chosen@, cand as int, width as int),
{
    let ghost all = preseed@ + chosen@;
    let first = if preseed.len() > 0 { preseed[0] } else { chosen[0] };
    assert(first == all[0]);
    let mut d = dist2_exec(first, cand, width);
    assert(all.take(1).len() == 1);
    let mut i: usize = 1;
    while i < preseed.len()
        invariant
            width > 0,
            cand <= isize::MAX,
            all == preseed@ + chosen@,
            1 <= i,
            i <= preseed.len() || (preseed.len() == 0 && i == 1),
            forall|k: int| 0 <= k < preseed.len() ==> #[trigger] preseed[k] <= isize::MAX,
            d == nearest2(all.take(i as int), cand as int, width as int),
        decreases preseed.len() - i,
    {
        let p = preseed[i];
        assert(p == all[i as int]);
        let e = dist2_exec(p, cand, width);
        assert(all.take(i + 1).drop_last() =~= all.take(i as int));
        if e < d {
            d = e;
        }
        i += 1;
    }
    let start: usize = if preseed.len() == 0 { 1 } else { 0 };
    let mut j: usize = start;
    while j < chosen.len()
        invariant
            width > 0,
            cand <= isize::MAX,
            all == preseed@ + chosen@,
            start <= j <= chosen.len() || (chosen.len() == 0 && j == 0),
            start == (if preseed.len() == 0 { 1int } else { 0int }),
            preseed.len() + j >= 1,
            forall|k: int| 0 <= k < chosen.len() ==> #[trigger] chosen[k] <= isize::MAX,
            d == nearest2(all.take(preseed.len() + j), cand as int, width as int),
        decreases chosen.len() - j,
    {
        let p = chosen[j];
        assert(p == all[preseed.len() + j]);
        let e = dist2_exec(p, cand, width);
        assert(all.take(preseed.len() + j + 1).drop_last() =~= all.take(preseed.len() + j));
        if e < d {
            d = e;
        }
        j += 1;
    }
    assert(all.take(all.len() as int) =~= all);
    d
}

/// Mitchell's best-candidate placement of up to `count` blue-noise-spaced
/// cells from `candidates`. Without `preseed` repellers the first cell is a
/// random candidate; every further cell is, of `samples` (at least one) random
/// candidates, the first that lies farthest from its nearest repeller among
/// `preseed` and the cells chosen so far.
#[verifier::rlimit(60)]
pub fn lake_positions(
    candidates: &[usize],
    count: usize,
    samples: usize,
    width: usize,
    preseed: &[usize],
    rng: &mut StdRng,
) -> (chosen: Vec<usize>)
    requires
        width > 0,
        forall|k: int| 0 <= k < candidates.len() ==> #[trigger] candidates[k] <= isize::MAX,
        forall|k: int| 0 <= k < preseed.len() ==> #[trigger] preseed[k] <= isize::MAX,
    ensures
        best_candidate_picks(chosen@, candidates@, count, samples, width as int, preseed@),
{
    let mut chosen: Vec<usize> = Vec::new();
    if candidates.len() == 0 || count == 0 {
        return chosen;
    }
    let limit = if count <= candidates.len() { count } else { candidates.len() };
    let first: usize = if preseed.len() == 0 { 1 } else { 0 };
    if preseed.len() == 0 {
        let pick = random_usize_below(rng, 0, candidates.len());
        chosen.push(candidates[pick]);
    }
    let rounds = if samples >= 1 { samples } else { 1 };
    while chosen.len() < limit
        invariant
            width > 0,
            candidates.len() > 0,
            limit >= 1,
            limit == (if count <= candidates.len() { count as int } else { candidates.len() as int }),
            rounds == (if samples >= 1 { samples as int } else { 1 }),
            first == (if preseed.len() == 0 { 1int } else { 0int }),
            first <= chosen.len() <= limit,
            preseed.len() + chosen.len() > 0,
            forall|k: int| 0 <= k < candidates.len() ==> #[trigger] candidates[k] <= isize::MAX,
            forall|k: int| 0 <= k < preseed.len() ==> #[trigger] preseed[k] <= isize::MAX,
            forall|k: int| 0 <= k < chosen.len() ==> candidates@.contains(#[trigger] chosen[k]),
            forall|k: int| first <= k < chosen.len() ==> #[trigger] best_of_samples(
                chosen@,
                k,
                candidates@,
                preseed@,
                samples,
                width as int,
            ),
        decreases limit - chosen.len(),
    {
        let ghost reps = preseed@ + chosen@;
        let mut best = candidates[0];
        let mut best_d: Option<i128> = None;
        let ghost mut s: Seq<usize> = Seq::empty();
        let mut t: usize = 0;
        while t < rounds
            invariant
                width > 0,
                candidates.len() > 0,
                reps == preseed@ + chosen@,
                reps.len() > 0,
                forall|k: int| 0 <= k < candidates.len() ==> #[trigger] candidates[k] <= isize::MAX,
                forall|k: int| 0 <= k < preseed.len() ==> #[trigger] preseed[k] <= isize::MAX,
                forall|k: int| 0 <= k < chosen.len() ==> #[trigger] chosen[k] <= isize::MAX,
                t <= rounds,
                s.len() == t,
                forall|i: int| 0 <= i < s.len() ==> candidates@.contains(#[trigger] s[i]),
                t == 0 ==> best_d is None,
                t > 0 ==> best == best_of(s, reps, width as int) && best_d == Some(
                    nearest2(reps, best as int, width as int) as i128,
                ) && 0 <= nearest2(reps, best as int, width as int) < 0x8000_0000_0000_0000_0000_0000_0000_0000,
            decreases rounds - t,
        {
            let pick = random_usize_below(rng, 0, candidates.len());
            let cand = candidates[pick];
            let d = nearest2_exec(preseed, &chosen, cand, width);
            proof {
                lemma_nearest2_bounds(reps, cand as int, width as int);
                assert(candidates@.contains(cand)) by {
                    assert(candidates@[pick as int] == cand);
                }
                let s1 = s.push(cand);
                assert(s1.drop_last() =~= s);
                assert(s1.last() == cand);
                s = s1;
            }
            match best_d {
                None => {
                    best = cand;
                    best_d = Some(d);
                },
                Some(bd) => {
                    if d > bd {
                        best = cand;
                        best_d = Some(d);
                    }
                },
            }
            t += 1;
        }
        let ghost k0 = chosen.len() as int;
        let ghost old_chosen = chosen@;
        chosen.push(best);
        proof {
            assert(chosen@.take(k0) =~= old_chosen);
            assert forall|k: int| 0 <= k < chosen.len() implies candidates@.contains(#[trigger] chosen[k]) by {
                if k < k0 {
                    assert(chosen[k] == old_chosen[k]);
                } else {
                    lemma_best_of_in(s, reps, width as int);
                }
            }
            assert forall|k: int| first <= k < chosen.len() implies #[trigger] best_of_samples(
                chosen@,
                k,
                candidates@,
                preseed@,
                samples,
                width as int,
            ) by {
                if k < k0 {
                    assert(best_of_samples(old_chosen, k, candidates@, preseed@, samples, width as int));
                    assert(chosen@.take(k) =~= old_chosen.take(k));
                    assert(chosen[k] == old_chosen[k]);
                    let s2 = choose|s2: Seq<usize>|
                        {
                            &&& s2.len() == (if samples >= 1 { samples as int } else { 1 })
                            &&& forall|i: int| 0 <= i < s2.len() ==> candidates@.contains(#[trigger] s2[i])
                            &&& old_chosen[k] == #[trigger] best_of(s2, preseed@ + old_chosen.take(k), width as int)
                        };
                    assert(chosen@[k] == best_of(s2, preseed@ + chosen@.take(k), width as int));
                } else {
                    assert(chosen@.take(k) =~= old_chosen);
                    assert(chosen[k] == best_of(s, preseed@ + chosen@.take(k), width as int));
                }
            }
        }
    }
    chosen
}

proof fn lemma_nearest2_bounds(reps: Seq<usize>, c: int, width: int)
    requires
        reps.len() > 0,
        width > 0,
        0 <= c <= isize::MAX,
        forall|k: int| 0 <= k < reps.len() ==> #[trigger] reps[k] <= isize::MAX,
    ensures
        0 <= nearest2(reps, c, width) < 0x8000_0000_0000_0000_0000_0000_0000_0000,
    decreases reps.len(),
{
    let r = reps.last() as int;
    assert(reps[reps.len() - 1] <= isize::MAX);
    lemma_dist2_bounds(r, c, width);
    if reps.len() > 1 {
        lemma_nearest2_bounds(reps.drop_last(), c, width);
    } else {
        assert(reps[0] == reps.last());
    }
}

proof fn lemma_best_of_in(s: Seq<usize>, reps: Seq<usize>, width: int)
    requires
        s.len() > 0,
    ensures
        s.contains(best_of(s, reps, width)),
    decreases s.len(),
{
    if s.len() > 1 {
        lemma_best_of_in(s.drop_last(), reps, width);
        let b = best_of(s.drop_last(), reps, width);
        let k = choose|k: int| 0 <= k < s.drop_last().len() && s.drop_last()[k] == b;
        assert(s[k] == b);
        assert(s[s.len() - 1] == s.last());
    } else {
        assert(s[0] == best_of(s, reps, width));
    }
}

/// Steps from cell `i` to the nearest edge of the grid.
pub open spec fn edge_of(i: int, width: int, height: int) -> int {
    min4(col_of(i, width), row_of(i, width), width - 1 - col_of(i, width), height - 1 - row_of(i, width))
}

/// What the lake pass reads off the watered lattice: the lake sites in
/// ascending order, each cell's ring distance to water and to the grid edge,
/// their minimum (the border), and the largest border of any site (0 with no
/// sites).
pub struct LakeSurvey {
    pub sites: Vec<usize>,
    pub dist: Vec<u32>,
    pub edges: Vec<u32>,
    pub border: Vec<u32>,
    pub max_border: u32,
}

/// Surveys the lattice for lake placement.
#[verifier::rlimit(40)]
pub fn survey_lakes(water: &[bool], width: usize, height: usize) -> (sv: LakeSurvey)
    requires
        wave_fits(width as int, height as int),
        water.len() == width * height,
    ensures
        forall|a: int, b: int| 0 <= a < b < sv.sites.len() ==> sv.sites[a] < sv.sites[b],
        forall|k: int| 0 <= k < sv.sites.len() ==> #[trigger] sv.sites[k] < width * height
            && lake_site_spec(water@, width as int, height as int, sv.sites[k] as int),
        forall|i: int| 0 <= i < width * height && lake_site_spec(water@, width as int, height as int, i)
            ==> sv.sites@.contains(i as usize),
        ring_field(sv.dist@, water@, width as int, height as int, false),
        sv.edges.len() == width * height,
        sv.border.len() == width * height,
        forall|i: int| 0 <= i < width * height ==> #[trigger] sv.edges[i] == edge_of(i, width as int, height as int),
        forall|i: int| 0 <= i < width * height ==> #[trigger] sv.border[i] == (if sv.dist[i] <= sv.edges[i] {
            sv.dist[i]
        } else {
            sv.edges[i]
        }),
        forall|k: int| 0 <= k < sv.sites.len() ==> sv.border[#[trigger] sv.sites[k] as int] <= sv.max_border,
        sv.sites.len() == 0 ==> sv.max_border == 0,
        sv.sites.len() > 0 ==> exists|k: int| 0 <= k < sv.sites.len() && sv.border[#[trigger] sv.sites[k] as int] == sv.max_border,
{
    let n = width * height;
    let ghost w = width as int;
    let ghost h = height as int;
    let mut sites: Vec<usize> = Vec::new();
    let mut i: usize = 0;
    while i < n
        invariant
            wave_fits(w, h),
            water.len() == n,
            n == w * h,
            w == width,
            h == height,
            i <= n,
            forall|a: int, b: int| 0 <= a < b < sites.len() ==> sites[a] < sites[b],
            forall|k: int| 0 <= k < sites.len() ==> #[trigger] sites[k] < i && lake_site_spec(water@, w, h, sites[k] as int),
            forall|j: int| 0 <= j < i && lake_site_spec(water@, w, h, j) ==> sites@.contains(j as usize),
        decreases n - i,
    {
        if is_lake_site(water, width, height, i) {
            let ghost before = sites@;
            sites.push(i);
            proof {
                assert forall|j: int| 0 <= j < i + 1 && lake_site_spec(water@, w, h, j) implies sites@.contains(j as usize) by {
                    if j < i {
                        let k = choose|k: int| 0 <= k < before.len() && before[k] == j as usize;
                        assert(sites@[k] == j as usize);
                    } else {
                        assert(sites@[before.len() as int] == i);
                    }
                }
            }
        }
        i += 1;
    }
    let dist = dist_to_water(water, width, height);
    let mut edges: Vec<u32> = Vec::new();
    let mut border: Vec<u32> = Vec::new();
    let mut c: usize = 0;
    while c < n
        invariant
            wave_fits(w, h),
            n == w * h,
            w == width,
            h == height,
            c <= n,
            dist.len() == n,
            edges.len() == c,
            border.len() == c,
            forall|j: int| 0 <= j < c ==> #[trigger] edges[j] == edge_of(j, w, h),
            forall|j: int| 0 <= j < c ==> #[trigger] border[j] == (if dist[j] <= edges[j] { dist[j] } else { edges[j] }),
        decreases n - c,
    {
        proof {
            lemma_cell_split(c as int, w, h);
        }
        let e = edge_dist(c % width, c / width, width, height);
        edges.push(e);
        border.push(if dist[c] <= e { dist[c] } else { e });
        c += 1;
    }
    let mut max_border: u32 = 0;
    let mut k: usize = 0;
    while k < sites.len()
        invariant
            k <= sites.len(),
            border.len() == n,
            forall|q: int| 0 <= q < sites.len() ==> #[trigger] sites[q] < n,
            forall|q: int| 0 <= q < k ==> border[#[trigger] sites[q] as int] <= max_border,
            k == 0 ==> max_border == 0,
            k > 0 ==> exists|q: int| 0 <= q < k && border[#[trigger] sites[q] as int] == max_border,
        decreases sites.len() - k,
    {
        let b = border[sites[k]];
        if k == 0 || b > max_border {
            max_border = b;
        }
        k += 1;
    }
    LakeSurvey { sites, dist, edges, border, max_border }
}

/// The sites (in their order) whose border is at least `threshold` and whose
/// distance to the grid edge is at least `reach`.
pub open spec fn sites_clearing(sites: Seq<usize>, border: Seq<u32>, edges: Seq<u32>, threshold: u32, reach: u32) -> Seq<usize> {
    sites.filter(|i: usize| border[i as int] >= threshold && edges[i as int] >= reach)
}

fn keep_sites(sites: &Vec<usize>, border: &Vec<u32>, edges: &Vec<u32>, threshold: u32, reach: u32) -> (r: Vec<usize>)
    requires
        forall|k: int| 0 <= k < sites.len() ==> #[trigger] sites[k] < border.len() && sites[k] < edges.len(),
    ensures
        r@ == sites_clearing(sites@, border@, edges@, threshold, reach),
{
    let ghost pred = |i: usize| border@[i as int] >= threshold && edges@[i as int] >= reach;
    let mut r: Vec<usize> = Vec::new();
    let mut k: usize = 0;
    while k < sites.len()
        invariant
            k <= sites.len(),
            pred == (|i: usize| border@[i as int] >= threshold && edges@[i as int] >= reach),
            forall|q: int| 0 <= q < sites.len() ==> #[trigger] sites[q] < border.len() && sites[q] < edges.len(),
            r@ == sites@.take(k as int).filter(pred),
        decreases sites.len() - k,
    {
        let x = sites[k];
        proof {
            assert(sites@.take(k + 1).drop_last() =~= sites@.take(k as int));
            assert(sites@.take(k + 1).last() == x);
            reveal(Seq::filter);
        }
        if border[x] >= threshold && edges[x] >= reach {
            r.push(x);
        }
        k += 1;
    }
    assert(sites@.take(sites.len() as int) =~= sites@);
    r
}

/// Lake centres: big lakes placed by best-candidate among the sites whose
/// border is at least `threshold` and that lie at least `big_reach` from the
/// grid edge; then minor lakes among the sites at least `minor_reach` from the
/// edge, repelled by the big lakes. No lakes, and no draws, when both counts
/// are zero.
pub fn lake_centers(
    survey: &LakeSurvey,
    threshold: u32,
    big_reach: u32,
    minor_reach: u32,
    big_count: usize,
    minor_count: usize,
    samples: usize,
    width: usize,
    rng: &mut StdRng,
) -> (centers: (Vec<usize>, Vec<usize>))
    requires
        width > 0,
        forall|k: int| 0 <= k < survey.sites.len() ==> #[trigger] survey.sites[k] < survey.border.len()
            && survey.sites[k] < survey.edges.len() && survey.sites[k] <= isize::MAX,
    ensures
        big_count == 0 && minor_count == 0 ==> centers.0.len() == 0 && centers.1.len() == 0,
        big_count > 0 || minor_count > 0 ==> best_candidate_picks(
            centers.0@,
            sites_clearing(survey.sites@, survey.border@, survey.edges@, threshold, big_reach),
            big_count,
            samples,
            width as int,
            Seq::empty(),
        ),
        big_count > 0 || minor_count > 0 ==> best_candidate_picks(
            centers.1@,
            sites_clearing(survey.sites@, survey.border@, survey.edges@, 0, minor_reach),
            minor_count,
            samples,
            width as int,
            centers.0@,
        ),
{
    if big_count == 0 && minor_count == 0 {
        return (Vec::new(), Vec::new());
    }
    let interior = keep_sites(&survey.sites, &survey.border, &survey.edges, threshold, big_reach);
    let minor_sites = keep_sites(&survey.sites, &survey.border, &survey.edges, 0, minor_reach);
    proof {
        lemma_filter_bounded(survey.sites@, |i: usize| survey.border@[i as int] >= threshold && survey.edges@[i as int] >= big_reach);
        lemma_filter_bounded(survey.sites@, |i: usize| survey.border@[i as int] >= 0 && survey.edges@[i as int] >= minor_reach);
    }
    let none: Vec<usize> = Vec::new();
    let big = lake_positions(interior.as_slice(), big_count, samples, width, none.as_slice(), rng);
    assert(none@ =~= Seq::<usize>::empty());
    proof {
        assert forall|k: int| 0 <= k < big.len() implies #[trigger] big[k] <= isize::MAX by {
            assert(interior@.contains(big[k]));
        }
    }
    let minor = lake_positions(minor_sites.as_slice(), minor_count, samples, width, big.as_slice(), rng);
    (big, minor)
}

/// Big lakes sit in interior pockets clear of the border: every big centre's
/// border is at least the threshold and its distance to the grid edge at least
/// the big reach; every minor centre is at least the minor reach from the edge.
pub proof fn lemma_lakes_clear_their_bounds(
    survey_sites: Seq<usize>,
    border: Seq<u32>,
    edges: Seq<u32>,
    threshold: u32,
    big_reach: u32,
    minor_reach: u32,
    big: Seq<usize>,
    minor: Seq<usize>,
    big_count: usize,
    minor_count: usize,
    samples: usize,
    width: int,
)
    requires
        best_candidate_picks(big, sites_clearing(survey_sites, border, edges, threshold, big_reach), big_count, samples, width, Seq::empty()),
        best_candidate_picks(minor, sites_clearing(survey_sites, border, edges, 0, minor_reach), minor_count, samples, width, big),
    ensures
        forall|k: int| 0 <= k < big.len() ==> border[#[trigger] big[k] as int] >= threshold && edges[big[k] as int] >= big_reach,
        forall|k: int| 0 <= k < minor.len() ==> edges[#[trigger] minor[k] as int] >= minor_reach,
{
    let pb = |i: usize| border[i as int] >= threshold && edges[i as int] >= big_reach;
    let pm = |i: usize| border[i as int] >= 0 && edges[i as int] >= minor_reach;
    assert forall|k: int| 0 <= k < big.len() implies border[#[trigger] big[k] as int] >= threshold && edges[big[k] as int] >= big_reach by {
        let f = survey_sites.filter(pb);
        assert(f.contains(big[k]));
        let j = choose|j: int| 0 <= j < f.len() && f[j] == big[k];
        survey_sites.lemma_filter_pred(pb, j);
    }
    assert forall|k: int| 0 <= k < minor.len() implies edges[#[trigger] minor[k] as int] >= minor_reach by {
        let f = survey_sites.filter(pm);
        assert(f.contains(minor[k]));
        let j = choose|j: int| 0 <= j < f.len() && f[j] == minor[k];
        survey_sites.lemma_filter_pred(pm, j);
    }
}

/// Filtering keeps the cells within the bounds every cell had.
proof fn lemma_filter_bounded(sites: Seq<usize>, pred: spec_fn(usize) -> bool)
    requires
        forall|k: int| 0 <= k < sites.len() ==> #[trigger] sites[k] <= isize::MAX,
    ensures
        forall|k: int| 0 <= k < sites.filter(pred).len() ==> #[trigger] sites.filter(pred)[k] <= isize::MAX,
{
    assert forall|k: int| 0 <= k < sites.filter(pred).len() implies #[trigger] sites.filter(pred)[k] <= isize::MAX by {
        let x = sites.filter(pred)[k];
        assert(sites.filter(pred).contains(x));
        sites.lemma_filter_contains_rev(pred, x);
    }
}

} // verus!
