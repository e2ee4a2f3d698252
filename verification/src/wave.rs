//! Multi-source breadth-first wavefronts over the lattice. A wave starts at an
//! ordered list of seed cells and floods outward one ring per step, so every
//! cell learns its step distance to the nearest seed and which seed reached it
//! first. Distance fields for water, rough ground, ink, and the river-side
//! divide all come from here.

use vstd::prelude::*;
use crate::field::{step, step_spec, step_fits, col_of, row_of};

verus! {

/// Marks a cell the wave never reaches.
pub const UNREACHED: u32 = 0xFFFF_FFFF;

/// Number of neighbour offsets: 4 (edge neighbours) or 8 (edge and corner).
pub open spec fn n_offsets(diagonal: bool) -> int {
    if diagonal { 8 } else { 4 }
}

/// The `k`-th neighbour offset `(dx, dy)`. Edge neighbours come as west, east,
/// north, south; the eight-way ring runs row by row from the north-west corner.
pub open spec fn offset_spec(k: int, diagonal: bool) -> (int, int) {
    if diagonal {
        if k == 0 { (-1, -1) } else if k == 1 { (0, -1) } else if k == 2 { (1, -1) } else if k == 3 {
            (-1, 0)
        } else if k == 4 { (1, 0) } else if k == 5 { (-1, 1) } else if k == 6 { (0, 1) } else { (1, 1) }
    } else {
        if k == 0 { (-1, 0) } else if k == 1 { (1, 0) } else if k == 2 { (0, -1) } else { (0, 1) }
    }
}

/// The cell `k`-th neighbour offset away from `a`, if on the lattice.
pub open spec fn nbr(a: int, k: int, width: int, height: int, diagonal: bool) -> Option<int> {
    step_spec(a, offset_spec(k, diagonal).0, offset_spec(k, diagonal).1, width, height)
}

/// `b` is a neighbour of `a`.
pub open spec fn adjacent(a: int, b: int, width: int, height: int, diagonal: bool) -> bool {
    exists|k: int| 0 <= k < n_offsets(diagonal) && #[trigger] nbr(a, k, width, height, diagonal) == Some(b)
}

pub fn offset(k: usize, diagonal: bool) -> (o: (isize, isize))
    requires
        k < n_offsets(diagonal),
    ensures
        o.0 == offset_spec(k as int, diagonal).0,
        o.1 == offset_spec(k as int, diagonal).1,
{
    if diagonal {
        if k == 0 { (-1, -1) } else if k == 1 { (0, -1) } else if k == 2 { (1, -1) } else if k == 3 {
            (-1, 0)
        } else if k == 4 { (1, 0) } else if k == 5 { (-1, 1) } else if k == 6 { (0, 1) } else { (1, 1) }
    } else {
        if k == 0 { (-1, 0) } else if k == 1 { (1, 0) } else if k == 2 { (0, -1) } else { (0, 1) }
    }
}

/// Number of reached cells in a distance field.
pub open spec fn reached_count(d: Seq<u32>) -> nat
    decreases d.len(),
{
    if d.len() == 0 {
        0
    } else {
        reached_count(d.drop_last()) + if d.last() != UNREACHED { 1nat } else { 0nat }
    }
}

proof fn lemma_reached_count_le(d: Seq<u32>)
    ensures
        reached_count(d) <= d.len(),
    decreases d.len(),
{
    if d.len() > 0 {
        lemma_reached_count_le(d.drop_last());
    }
}

proof fn lemma_reached_count_none(d: Seq<u32>)
    requires
        forall|c: int| 0 <= c < d.len() ==> d[c] == UNREACHED,
    ensures
        reached_count(d) == 0,
    decreases d.len(),
{
    if d.len() > 0 {
        lemma_reached_count_none(d.drop_last());
    }
}

proof fn lemma_reached_count_set(d: Seq<u32>, i: int, v: u32)
    requires
        0 <= i < d.len(),
        d[i] == UNREACHED,
        v != UNREACHED,
    ensures
        reached_count(d.update(i, v)) == reached_count(d) + 1,
    decreases d.len(),
{
    if i == d.len() - 1 {
        assert(d.update(i, v).drop_last() =~= d.drop_last());
    } else {
        assert(d.update(i, v).drop_last() =~= d.drop_last().update(i, v));
        lemma_reached_count_set(d.drop_last(), i, v);
    }
}

pub proof fn lemma_nbr_in_bounds(a: int, k: int, width: int, height: int, diagonal: bool)
    requires
        width >= 0,
        height >= 0,
        nbr(a, k, width, height, diagonal) is Some,
    ensures
        width > 0,
        0 <= nbr(a, k, width, height, diagonal)->0 < width * height,
{
    crate::field::lemma_step_in_bounds(a, offset_spec(k, diagonal).0, offset_spec(k, diagonal).1, width, height);
}

/// The lattice is small enough for the wave's arithmetic.
pub open spec fn wave_fits(width: int, height: int) -> bool {
    &&& width * height <= isize::MAX
    &&& width * height < UNREACHED
    &&& width >= 0
    &&& height >= 0
}

pub proof fn lemma_fits_step(a: int, k: int, width: int, height: int, diagonal: bool)
    requires
        wave_fits(width, height),
        0 <= a < width * height,
        0 <= k < n_offsets(diagonal),
    ensures
        step_fits(a, offset_spec(k, diagonal).0, offset_spec(k, diagonal).1, width, height),
        width > 0,
{
    assert(width > 0 && height > 0) by (nonlinear_arith)
        requires 0 <= a < width * height, width >= 0, height >= 0;
    assert(width <= width * height && height <= width * height) by (nonlinear_arith)
        requires width > 0, height > 0;
    assert(a / width < height) by {
        vstd::arithmetic::div_mod::lemma_fundamental_div_mod(a, width);
        vstd::arithmetic::div_mod::lemma_mod_pos_bound(a, width);
        let q = a / width;
        assert(q < height) by (nonlinear_arith)
            requires a == width * q + a % width, a % width >= 0, a < width * height, width > 0;
    }
    assert(a % width < width) by {
        vstd::arithmetic::div_mod::lemma_mod_bound(a, width);
    }
}

/// Where `s` first occurs in `seeds` (`seeds.len()` when it does not).
pub open spec fn first_at(seeds: Seq<usize>, s: usize) -> int
    decreases seeds.len(),
{
    if seeds.len() == 0 {
        0
    } else if seeds[0] == s {
        0
    } else {
        1 + first_at(seeds.drop_first(), s)
    }
}

pub proof fn lemma_first_at(seeds: Seq<usize>, s: usize)
    ensures
        0 <= first_at(seeds, s) <= seeds.len(),
        (first_at(seeds, s) < seeds.len()) == seeds.contains(s),
        first_at(seeds, s) < seeds.len() ==> seeds[first_at(seeds, s)] == s,
        forall|j: int| 0 <= j < first_at(seeds, s) ==> seeds[j] != s,
    decreases seeds.len(),
{
    if seeds.len() > 0 && seeds[0] != s {
        let rest = seeds.drop_first();
        lemma_first_at(rest, s);
        assert forall|j: int| 0 <= j < first_at(seeds, s) implies seeds[j] != s by {
            if j > 0 {
                assert(seeds[j] == rest[j - 1]);
            }
        }
        if seeds.contains(s) {
            let j = choose|j: int| 0 <= j < seeds.len() && seeds[j] == s;
            assert(rest[j - 1] == s);
        }
        if rest.contains(s) {
            let j = choose|j: int| 0 <= j < rest.len() && rest[j] == s;
            assert(seeds[j + 1] == s);
        }
    } else if seeds.len() > 0 {
        assert(seeds.contains(s)) by {
            assert(seeds[0] == s);
        }
    }
}

/// Some lattice walk of exactly `steps` steps leads from `a` to `c`.
pub open spec fn walk_between(a: int, c: int, steps: int, width: int, height: int, diagonal: bool) -> bool {
    exists|p: Seq<int>|
        #![trigger lattice_walk(p, width, height, diagonal), p.last()]
        lattice_walk(p, width, height, diagonal) && p[0] == a && p.last() == c && p.len() == steps + 1
}

/// Every reached cell's origin is, of the seeds a walk of its ring length
/// leads from, the one listed first: no seed listed before the origin's first
/// listing walks to the cell in that many steps.
pub open spec fn wave_first_origin(dist: Seq<u32>, origin: Seq<usize>, seeds: Seq<usize>, width: int, height: int, diagonal: bool) -> bool {
    forall|c: int, i: int|
        #![trigger seeds[i], dist[c]]
        0 <= c < width * height && dist[c] != UNREACHED && 0 <= i < first_at(seeds, origin[c]) ==> !walk_between(
            seeds[i] as int,
            c,
            dist[c] as int,
            width,
            height,
            diagonal,
        )
}

/// Working state of a wave: distances, origins, and the FIFO of reached cells
/// (consumed from a head index). The ghost maps record, for each reached cell,
/// its place in the queue and the neighbour it was reached from.
struct Wave {
    dist: Vec<u32>,
    origin: Vec<usize>,
    queue: Vec<usize>,
    pos: Ghost<Seq<int>>,
    pred: Ghost<Seq<int>>,
    predk: Ghost<Seq<int>>,
}

impl Wave {
    /// Facts that hold at every point of the flood.
    #[verifier::opaque]
    spec fn held(&self, width: int, height: int, diagonal: bool, seeds: Seq<usize>) -> bool {
        let n = width * height;
        &&& wave_fits(width, height)
        &&& forall|i: int| 0 <= i < seeds.len() ==> seeds[i] < n
        &&& self.dist.len() == n
        &&& self.origin.len() == n
        &&& self.pos@.len() == n
        &&& self.pred@.len() == n
        &&& self.predk@.len() == n
        &&& reached_count(self.dist@) == self.queue.len()
        &&& self.queue.len() <= n
        &&& forall|k: int| 0 <= k < self.queue.len() ==> self.queue[k] < n && self.dist[self.queue[k] as int] != UNREACHED
            && self.dist[self.queue[k] as int] <= k
        &&& forall|k: int, l: int| 0 <= k < l < self.queue.len() ==> self.dist[self.queue[k] as int] <= self.dist[self.queue[l] as int]
        &&& forall|c: int| 0 <= c < n && self.dist[c] != UNREACHED ==> 0 <= self.pos@[c] < self.queue.len()
            && self.queue[self.pos@[c]] == c
        &&& forall|k: int| 0 <= k < self.queue.len() ==> self.pos@[self.queue[k] as int] == k
        &&& forall|c: int| 0 <= c < n && self.dist[c] == 0 ==> seeds.contains(c as usize) && self.origin[c] == c
        &&& forall|c: int| 0 <= c < n && self.dist[c] != UNREACHED ==> seeds.contains(self.origin[c])
        &&& forall|c: int| 0 <= c < n && self.dist[c] == UNREACHED ==> self.origin[c] == usize::MAX
        &&& forall|c: int| 0 <= c < n && self.dist[c] != UNREACHED && self.dist[c] > 0 ==> {
            &&& 0 <= self.pred@[c] < n
            &&& 0 <= self.predk@[c] < n_offsets(diagonal)
            &&& nbr(self.pred@[c], self.predk@[c], width, height, diagonal) == Some(c)
            &&& self.dist[self.pred@[c]] + 1 == self.dist[c]
            &&& self.origin[self.pred@[c]] == self.origin[c]
        }
    }

    /// Queue order and discovery order. Within a ring, queued cells come in
    /// the listing order of their origins; every reached non-seed cell was
    /// reached from a cell queued no later than `head`, and from the
    /// earliest-queued of its reached neighbours.
    #[verifier::opaque]
    spec fn ordered(&self, width: int, height: int, diagonal: bool, seeds: Seq<usize>, head: int) -> bool {
        let n = width * height;
        &&& forall|k: int, l: int|
            #![trigger self.queue[k], self.queue[l]]
            0 <= k < l < self.queue.len() && self.dist[self.queue[k] as int] == self.dist[self.queue[l] as int]
                ==> first_at(seeds, self.origin[self.queue[k] as int]) <= first_at(seeds, self.origin[self.queue[l] as int])
        &&& forall|c: int|
            0 <= c < n && self.dist[c] != UNREACHED && self.dist[c] > 0 ==> #[trigger] self.pos@[self.pred@[c]] <= head
        &&& forall|c: int, q: int, j: int|
            #![trigger nbr(q, j, width, height, diagonal), self.pred@[c]]
            0 <= c < n && 0 <= q < n && self.dist[c] != UNREACHED && self.dist[c] > 0 && self.dist[q] != UNREACHED
                && 0 <= j < n_offsets(diagonal) && nbr(q, j, width, height, diagonal) == Some(c)
                ==> self.pos@[q] >= self.pos@[self.pred@[c]]
    }

    /// Cells taken off the queue before `head` already see every neighbour reached.
    spec fn closed_before(&self, head: int, width: int, height: int, diagonal: bool) -> bool {
        forall|c: int, j: int|
            0 <= c < width * height && self.dist[c] != UNREACHED && self.pos@[c] < head && 0 <= j < n_offsets(diagonal)
                && #[trigger] nbr(c, j, width, height, diagonal) is Some ==> {
                let b = nbr(c, j, width, height, diagonal)->0;
                self.dist[b] != UNREACHED && self.dist[b] <= self.dist[c] + 1
            }
    }

    /// Reached cells keep their distance, origin and queue place.
    spec fn grows_from(&self, prev: &Wave) -> bool {
        &&& self.dist.len() == prev.dist.len()
        &&& prev.queue@.len() <= self.queue@.len()
        &&& self.queue@.take(prev.queue@.len() as int) == prev.queue@
        &&& forall|b: int| #![trigger prev.dist[b]] #![trigger self.dist[b]]
            0 <= b < prev.dist.len() && prev.dist[b] != UNREACHED ==> self.dist[b] == prev.dist[b]
            && self.origin[b] == prev.origin[b] && self.pos@[b] == prev.pos@[b] && self.pred@[b] == prev.pred@[b]
            && self.predk@[b] == prev.predk@[b]
    }

    proof fn lemma_grows_trans(a: &Wave, b: &Wave, c: &Wave)
        requires
            b.grows_from(a),
            c.grows_from(b),
        ensures
            c.grows_from(a),
    {
        assert(c.queue@.take(a.queue@.len() as int) =~= c.queue@.take(b.queue@.len() as int).take(a.queue@.len() as int));
        assert(c.queue@.take(a.queue@.len() as int) == a.queue@);
        assert forall|x: int| 0 <= x < a.dist.len() && a.dist[x] != UNREACHED implies c.dist[x] == a.dist[x]
            && c.origin[x] == a.origin[x] && c.pos@[x] == a.pos@[x] && c.pred@[x] == a.pred@[x]
            && c.predk@[x] == a.predk@[x] by {
            assert(b.dist[x] == a.dist[x]);
        }
    }

    /// Reach the `k`-th neighbour of the queued cell `index` (at `head`), if it is
    /// on the lattice and not yet reached.
    #[verifier::rlimit(100)]
    #[verifier::spinoff_prover]
    fn relax(&mut self, width: usize, height: usize, diagonal: bool, Ghost(seeds): Ghost<Seq<usize>>, head: usize, index: usize, k: usize)
        requires
            old(self).held(width as int, height as int, diagonal, seeds),
            old(self).closed_before(head as int, width as int, height as int, diagonal),
            head < old(self).queue.len(),
            index == old(self).queue[head as int],
            0 <= k < n_offsets(diagonal),
            old(self).dist[old(self).queue@.last() as int] <= old(self).dist[index as int] + 1,
            forall|kq: int| head <= kq < old(self).queue.len() ==> old(self).dist[index as int] <= old(self).dist[old(self).queue[kq] as int],
            old(self).ordered(width as int, height as int, diagonal, seeds, head as int),
        ensures
            final(self).held(width as int, height as int, diagonal, seeds),
            final(self).ordered(width as int, height as int, diagonal, seeds, head as int),
            final(self).closed_before(head as int, width as int, height as int, diagonal),
            final(self).grows_from(old(self)),
            final(self).dist[final(self).queue@.last() as int] <= old(self).dist[index as int] + 1,
            forall|kq: int| head <= kq < final(self).queue.len() ==> old(self).dist[index as int] <= final(self).dist[final(self).queue[kq] as int],
            nbr(index as int, k as int, width as int, height as int, diagonal) is Some ==> {
                let b = nbr(index as int, k as int, width as int, height as int, diagonal)->0;
                final(self).dist[b] != UNREACHED && final(self).dist[b] <= old(self).dist[index as int] + 1
            },
    {
        let ghost n = width * height;
        let ghost w = width as int;
        let ghost h = height as int;
        proof {
            reveal(Wave::held);
            lemma_fits_step(index as int, k as int, w, h, diagonal);
        }
        let d = self.dist[index];
        let (dx, dy) = offset(k, diagonal);
        match step(index, dx, dy, width, height) {
            Some(b) => {
                proof {
                    crate::field::lemma_step_in_bounds(index as int, dx as int, dy as int, w, h);
                }
                assert(nbr(index as int, k as int, w, h, diagonal) == Some(b as int));
                if self.dist[b] != UNREACHED {
                    let ghost pb = self.pos@[b as int];
                    assert(self.queue[pb] == b);
                    assert(self.dist[self.queue[pb] as int] <= self.dist[self.queue@.last() as int]) by {
                        if pb < self.queue.len() - 1 {
                            assert(self.dist[self.queue[pb] as int] <= self.dist[self.queue[self.queue.len() - 1] as int]);
                        }
                    }
                    assert(self.queue@.take(self.queue@.len() as int) =~= self.queue@);
                    proof { reveal(Wave::held); }
                } else {
                    let ghost old_q = self.queue@;
                    proof {
                        lemma_reached_count_set(self.dist@, b as int, (d + 1) as u32);
                        lemma_reached_count_le(self.dist@.update(b as int, (d + 1) as u32));
                        self.pos@ = self.pos@.update(b as int, self.queue.len() as int);
                        self.pred@ = self.pred@.update(b as int, index as int);
                        self.predk@ = self.predk@.update(b as int, k as int);
                    }
                    let org = self.origin[index];
                    self.dist.set(b, d + 1);
                    self.origin.set(b, org);
                    self.queue.push(b);
                    proof {
                        lemma_ordered_discover(*old(self), *self, w, h, diagonal, seeds, head as int, index as int, k as int, b as int);
                    }
                    assert(self.queue@.take(old_q.len() as int) =~= old_q);
                    assert forall|c: int, j: int|
                        0 <= c < w * h && self.dist[c] != UNREACHED && self.pos@[c] < head && 0 <= j < n_offsets(diagonal)
                            && #[trigger] nbr(c, j, w, h, diagonal) is Some implies {
                            let bb = nbr(c, j, w, h, diagonal)->0;
                            self.dist[bb] != UNREACHED && self.dist[bb] <= self.dist[c] + 1
                        } by {
                        if c == b as int {
                            assert(self.pos@[c] == old_q.len());
                            assert(false);
                        }
                        assert(self.dist[c] == old(self).dist[c]);
                        assert(old(self).dist[c] != UNREACHED);
                        assert(self.pos@[c] == old(self).pos@[c]);
                        assert(nbr(c, j, w, h, diagonal) is Some);
                        lemma_nbr_in_bounds(c, j, w, h, diagonal);
                        let bb = nbr(c, j, w, h, diagonal)->0;
                        assert(old(self).dist[bb] != UNREACHED && old(self).dist[bb] <= old(self).dist[c] + 1);
                        assert(bb != b as int);
                        assert(self.dist[bb] == old(self).dist[bb]);
                    }
                    proof { reveal(Wave::held); }
                }
            },
            None => {
                assert(self.queue@.take(self.queue@.len() as int) =~= self.queue@);
            },
        }
        proof { reveal(Wave::held); }
    }
}

/// A cell is never its own neighbour.
proof fn lemma_nbr_moves(a: int, k: int, width: int, height: int, diagonal: bool)
    requires
        width >= 0,
        height >= 0,
        0 <= k < n_offsets(diagonal),
        nbr(a, k, width, height, diagonal) is Some,
    ensures
        nbr(a, k, width, height, diagonal)->0 != a,
{
    crate::field::lemma_step_in_bounds(a, offset_spec(k, diagonal).0, offset_spec(k, diagonal).1, width, height);
}

/// Reaching an unreached neighbour `b` of the cell at `head` keeps the queue
/// and discovery order.
#[verifier::rlimit(60)]
#[verifier::spinoff_prover]
proof fn lemma_ordered_discover(
    before: Wave,
    after: Wave,
    width: int,
    height: int,
    diagonal: bool,
    seeds: Seq<usize>,
    head: int,
    index: int,
    k: int,
    b: int,
)
    requires
        before.held(width, height, diagonal, seeds),
        before.closed_before(head, width, height, diagonal),
        before.ordered(width, height, diagonal, seeds, head),
        0 <= head < before.queue.len(),
        index == before.queue[head],
        0 <= k < n_offsets(diagonal),
        nbr(index, k, width, height, diagonal) == Some(b),
        0 <= b < width * height,
        before.dist[b] == UNREACHED,
        after.dist@ == before.dist@.update(b, (before.dist[index] + 1) as u32),
        after.origin@ == before.origin@.update(b, before.origin[index]),
        after.queue@ == before.queue@.push(b as usize),
        after.pos@ == before.pos@.update(b, before.queue.len() as int),
        after.pred@ == before.pred@.update(b, index),
    ensures
        after.ordered(width, height, diagonal, seeds, head),
{
    reveal(Wave::held);
    reveal(Wave::ordered);
    let n = width * height;
    let len = before.queue.len() as int;
    let d = before.dist[index];
    assert(before.pos@[index] == head);
    assert(d != UNREACHED && d < n);
    // Queue order within a ring.
    assert forall|kk: int, l: int|
        #![trigger after.queue[kk], after.queue[l]]
        0 <= kk < l < after.queue.len() && after.dist[after.queue[kk] as int] == after.dist[after.queue[l] as int]
            implies first_at(seeds, after.origin[after.queue[kk] as int]) <= first_at(seeds, after.origin[after.queue[l] as int]) by {
        if l < len {
            assert(after.queue[kk] == before.queue[kk] && after.queue[l] == before.queue[l]);
            assert(before.queue[kk] as int != b && before.queue[l] as int != b);
        } else {
            let x = before.queue[kk] as int;
            assert(after.queue[kk] as int == x && x != b);
            assert(after.queue[l] as int == b);
            assert(before.dist[x] == d + 1);
            let px = before.pred@[x];
            assert(before.pos@[px] <= head);
            assert(before.dist[px] + 1 == before.dist[x]);
            assert(before.origin[px] == before.origin[x]);
            if before.pos@[px] < head {
                assert(before.queue[before.pos@[px]] == px);
                assert(before.queue[head] == index);
                assert(first_at(seeds, before.origin[before.queue[before.pos@[px]] as int])
                    <= first_at(seeds, before.origin[before.queue[head] as int]));
            } else {
                assert(before.queue[before.pos@[px]] == px);
            }
        }
    }
    // Discovered from no later than `head`.
    assert forall|c: int|
        0 <= c < n && after.dist[c] != UNREACHED && after.dist[c] > 0 implies #[trigger] after.pos@[after.pred@[c]] <= head by {
        if c != b {
            let pc = before.pred@[c];
            assert(pc != b);
        }
    }
    // Discovered from the earliest-queued reached neighbour.
    assert forall|c: int, q: int, j: int|
        #![trigger nbr(q, j, width, height, diagonal), after.pred@[c]]
        0 <= c < n && 0 <= q < n && after.dist[c] != UNREACHED && after.dist[c] > 0 && after.dist[q] != UNREACHED
            && 0 <= j < n_offsets(diagonal) && nbr(q, j, width, height, diagonal) == Some(c)
            implies after.pos@[q] >= after.pos@[after.pred@[c]] by {
        if c == b {
            if q != b {
                if before.pos@[q] < head {
                    lemma_nbr_in_bounds(q, j, width, height, diagonal);
                    assert(before.dist[b] != UNREACHED);
                }
            } else {
                lemma_nbr_moves(q, j, width, height, diagonal);
            }
        } else {
            let pc = before.pred@[c];
            assert(pc != b);
            if q == b {
                assert(before.pos@[pc] <= head);
            }
        }
    }
}

/// A fresh wave with every seed reached at distance 0, queued in seed order.
#[verifier::rlimit(100)]
#[verifier::spinoff_prover]
fn seeded_wave(width: usize, height: usize, seeds: &Vec<usize>, diagonal: bool) -> (wv: Wave)
    requires
        wave_fits(width as int, height as int),
        forall|i: int| 0 <= i < seeds.len() ==> seeds[i] < width * height,
    ensures
        wv.held(width as int, height as int, diagonal, seeds@),
        wv.closed_before(0, width as int, height as int, diagonal),
        wv.ordered(width as int, height as int, diagonal, seeds@, 0),
        forall|i: int| 0 <= i < seeds.len() ==> wv.dist[seeds[i] as int] == 0,
        forall|k: int| 0 <= k < wv.queue.len() ==> wv.dist[wv.queue[k] as int] == 0,
{
    let n = width * height;
    let mut dist: Vec<u32> = Vec::new();
    let mut origin: Vec<usize> = Vec::new();
    while dist.len() < n
        invariant
            dist.len() == origin.len(),
            dist.len() <= n,
            forall|c: int| 0 <= c < dist.len() ==> dist[c] == UNREACHED && origin[c] == usize::MAX,
        decreases n - dist.len(),
    {
        dist.push(UNREACHED);
        origin.push(usize::MAX);
    }
    proof {
        lemma_reached_count_none(dist@);
    }
    let mut wv = Wave {
        dist,
        origin,
        queue: Vec::new(),
        pos: Ghost(Seq::new(n as nat, |c: int| 0)),
        pred: Ghost(Seq::new(n as nat, |c: int| 0)),
        predk: Ghost(Seq::new(n as nat, |c: int| 0)),
    };
    proof { reveal(Wave::held); }
    let mut s: usize = 0;
    while s < seeds.len()
        invariant
            wv.held(width as int, height as int, diagonal, seeds@),
            n == width * height,
            s <= seeds.len(),
            forall|i: int| 0 <= i < s ==> wv.dist[seeds[i] as int] == 0,
            forall|k: int| 0 <= k < wv.queue.len() ==> wv.dist[wv.queue[k] as int] == 0,
            forall|k: int| 0 <= k < wv.queue.len() ==> first_at(seeds@, #[trigger] wv.queue[k]) < s,
            forall|k: int, l: int| 0 <= k < l < wv.queue.len() ==> first_at(seeds@, #[trigger] wv.queue[k]) < first_at(seeds@, #[trigger] wv.queue[l]),
        decreases seeds.len() - s,
    {
        proof { reveal(Wave::held); }
        let seed = seeds[s];
        if wv.dist[seed] == UNREACHED {
            proof {
                lemma_first_at(seeds@, seed);
                assert(seeds@[s as int] == seed);
                if first_at(seeds@, seed) < s {
                    assert(wv.dist[seeds[first_at(seeds@, seed)] as int] == 0);
                }
                assert(first_at(seeds@, seed) == s);
                lemma_reached_count_set(wv.dist@, seed as int, 0);
                lemma_reached_count_le(wv.dist@.update(seed as int, 0));
                wv.pos@ = wv.pos@.update(seed as int, wv.queue.len() as int);
            }
            wv.dist.set(seed, 0);
            wv.origin.set(seed, seed);
            wv.queue.push(seed);
        }
        assert(seeds@[s as int] == seed);
        proof { reveal(Wave::held); }
        s += 1;
    }
    proof {
        reveal(Wave::held);
        reveal(Wave::ordered);
        assert forall|k: int, l: int|
            #![trigger wv.queue[k], wv.queue[l]]
            0 <= k < l < wv.queue.len() && wv.dist[wv.queue[k] as int] == wv.dist[wv.queue[l] as int]
                implies first_at(seeds@, wv.origin[wv.queue[k] as int]) <= first_at(seeds@, wv.origin[wv.queue[l] as int]) by {
            assert(wv.origin[wv.queue[k] as int] == wv.queue[k]);
            assert(wv.origin[wv.queue[l] as int] == wv.queue[l]);
        }
    }
    wv
}

/// In a finished wave, no seed listed before a cell's origin walks to it in
/// the cell's ring length.
#[verifier::rlimit(60)]
proof fn lemma_first_origin_at(wv: &Wave, width: int, height: int, diagonal: bool, seeds: Seq<usize>, c: int, i: int, p: Seq<int>)
    requires
        wv.held(width, height, diagonal, seeds),
        wv.ordered(width, height, diagonal, seeds, wv.queue.len() as int),
        wv.closed_before(wv.queue.len() as int, width, height, diagonal),
        forall|s: int| 0 <= s < seeds.len() ==> wv.dist[seeds[s] as int] == 0,
        0 <= c < width * height,
        wv.dist[c] != UNREACHED,
        0 <= i < seeds.len(),
        lattice_walk(p, width, height, diagonal),
        p[0] == seeds[i] as int,
        p.last() == c,
        p.len() == wv.dist[c] + 1,
    ensures
        first_at(seeds, wv.origin[c]) <= i,
    decreases wv.dist[c],
{
    reveal(Wave::held);
    let n = width * height;
    lemma_first_at(seeds, wv.origin[c]);
    if wv.dist[c] == 0 {
        assert(p.len() == 1);
        assert(wv.origin[c] == c as usize);
        assert(seeds[i] == c as usize);
    } else {
        let prefix = p.drop_last();
        let q = prefix.last();
        assert(lattice_walk(prefix, width, height, diagonal)) by {
            assert forall|t: int| 0 <= t < prefix.len() - 1 implies adjacent(#[trigger] prefix[t], prefix[t + 1], width, height, diagonal) by {
                assert(adjacent(p[t], p[t + 1], width, height, diagonal));
            }
        }
        assert(wave_closed(wv.dist@, width, height, diagonal)) by {
            assert forall|x: int, k: int|
                0 <= x < n && 0 <= k < n_offsets(diagonal) && wv.dist[x] != UNREACHED
                    && #[trigger] nbr(x, k, width, height, diagonal) is Some implies {
                    let b = nbr(x, k, width, height, diagonal)->0;
                    wv.dist[b] != UNREACHED && wv.dist[b] <= wv.dist[x] + 1
                } by {
                assert(wv.pos@[x] < wv.queue.len());
            }
        }
        assert(wv.dist[seeds[i] as int] == 0);
        lemma_walk_bound(wv.dist@, width, height, diagonal, prefix);
        assert(adjacent(p[p.len() - 2], p[p.len() - 1], width, height, diagonal));
        let j = choose|j: int| 0 <= j < n_offsets(diagonal) && #[trigger] nbr(q, j, width, height, diagonal) == Some(c);
        assert(wv.dist[q] == wv.dist[c] - 1);
        lemma_first_origin_at(wv, width, height, diagonal, seeds, q, i, prefix);
        let pc = wv.pred@[c];
        reveal(Wave::ordered);
        assert(wv.pos@[q] >= wv.pos@[pc]);
        if wv.pos@[q] != wv.pos@[pc] {
            let k = wv.pos@[pc];
            let l = wv.pos@[q];
            assert(wv.queue[k] == pc && wv.queue[l] == q);
            assert(first_at(seeds, wv.origin[wv.queue[k] as int]) <= first_at(seeds, wv.origin[wv.queue[l] as int]));
        } else {
            assert(wv.queue[wv.pos@[q]] == q && wv.queue[wv.pos@[pc]] == pc);
        }
    }
}

/// Drain the queue: every reached cell reaches its unreached neighbours.
#[verifier::rlimit(100)]
#[verifier::spinoff_prover]
fn flood(wv: &mut Wave, width: usize, height: usize, Ghost(seeds): Ghost<Seq<usize>>, diagonal: bool)
    requires
        old(wv).held(width as int, height as int, diagonal, seeds),
        old(wv).closed_before(0, width as int, height as int, diagonal),
        old(wv).ordered(width as int, height as int, diagonal, seeds, 0),
        forall|i: int| 0 <= i < seeds.len() ==> old(wv).dist[seeds[i] as int] == 0,
        forall|k: int| 0 <= k < old(wv).queue.len() ==> old(wv).dist[old(wv).queue[k] as int] == 0,
    ensures
        final(wv).held(width as int, height as int, diagonal, seeds),
        final(wv).closed_before(final(wv).queue.len() as int, width as int, height as int, diagonal),
        final(wv).ordered(width as int, height as int, diagonal, seeds, final(wv).queue.len() as int),
        forall|i: int| 0 <= i < seeds.len() ==> final(wv).dist[seeds[i] as int] == 0,
{
    let ghost n = width * height;
    proof { reveal(Wave::held); }
    if wv.queue.len() > 0 {
        assert(wv.dist[wv.queue@.last() as int] == 0);
    }
    let mut head: usize = 0;
    while head < wv.queue.len()
        invariant
            wv.held(width as int, height as int, diagonal, seeds),
            wv.closed_before(head as int, width as int, height as int, diagonal),
            wv.ordered(width as int, height as int, diagonal, seeds, head as int),
            n == width * height,
            head <= wv.queue.len(),
            forall|i: int| 0 <= i < seeds.len() ==> seeds[i] < n,
            forall|i: int| 0 <= i < seeds.len() ==> wv.dist[seeds[i] as int] == 0,
            head < wv.queue.len() ==> wv.dist[wv.queue@.last() as int] <= wv.dist[wv.queue[head as int] as int] + 1,
        decreases n - head,
    {
        proof { reveal(Wave::held); }
        let index = wv.queue[head];
        let ghost d = wv.dist[index as int];
        let ghost start = wv;
        assert(wv.queue@.take(wv.queue@.len() as int) =~= wv.queue@);
        let n_off: usize = if diagonal { 8 } else { 4 };
        let mut k: usize = 0;
        while k < n_off
            invariant
                wv.held(width as int, height as int, diagonal, seeds),
                wv.closed_before(head as int, width as int, height as int, diagonal),
                wv.ordered(width as int, height as int, diagonal, seeds, head as int),
                wv.grows_from(&start),
                n == width * height,
                n_off == n_offsets(diagonal),
                k <= n_off,
                head < wv.queue.len(),
                index == wv.queue[head as int],
                index == start.queue[head as int],
                index < n,
                wv.dist.len() == n,
                d != UNREACHED,
                d == wv.dist[index as int],
                start.pos@[index as int] == head,
                forall|i: int| 0 <= i < seeds.len() ==> seeds[i] < n,
                forall|i: int| 0 <= i < seeds.len() ==> wv.dist[seeds[i] as int] == 0,
                wv.dist[wv.queue@.last() as int] <= d + 1,
                forall|kq: int| head <= kq < wv.queue.len() ==> d <= wv.dist[wv.queue[kq] as int],
                forall|j: int|
                    0 <= j < k && #[trigger] nbr(index as int, j, width as int, height as int, diagonal) is Some ==> {
                        let b = nbr(index as int, j, width as int, height as int, diagonal)->0;
                        wv.dist[b] != UNREACHED && wv.dist[b] <= d + 1
                    },
            decreases n_off - k,
        {
            let ghost before = wv;
            wv.relax(width, height, diagonal, Ghost(seeds), head, index, k);
            proof {
                Wave::lemma_grows_trans(&start, &before, &wv);
                assert(wv.queue@.take(start.queue@.len() as int)[head as int] == wv.queue[head as int]);
                assert forall|j: int|
                    0 <= j < k + 1 && #[trigger] nbr(index as int, j, width as int, height as int, diagonal) is Some implies {
                        let b = nbr(index as int, j, width as int, height as int, diagonal)->0;
                        wv.dist[b] != UNREACHED && wv.dist[b] <= d + 1
                    } by {
                    if j < k {
                        lemma_nbr_in_bounds(index as int, j, width as int, height as int, diagonal);
                        let b = nbr(index as int, j, width as int, height as int, diagonal)->0;
                        assert(before.dist[b] != UNREACHED && before.dist[b] <= d + 1);
                        assert(wv.dist[b] == before.dist[b]);
                    }
                }
            }
            k += 1;
        }
        proof {
            reveal(Wave::held);
            assert(wv.pos@[index as int] == head);
            assert forall|c: int, j: int|
                0 <= c < n && wv.dist[c] != UNREACHED && wv.pos@[c] < head + 1 && 0 <= j < n_offsets(diagonal)
                    && #[trigger] nbr(c, j, width as int, height as int, diagonal) is Some implies {
                    let b = nbr(c, j, width as int, height as int, diagonal)->0;
                    wv.dist[b] != UNREACHED && wv.dist[b] <= wv.dist[c] + 1
                } by {
                if wv.pos@[c] == head {
                    assert(wv.queue[wv.pos@[c]] == c);
                    assert(c == index);
                }
            }
            if head + 1 < wv.queue.len() {
                assert(d <= wv.dist[wv.queue[head + 1] as int]);
            }
            reveal(Wave::ordered);
        }
        head += 1;
    }
}

/// The shape of a finished wave over a `width × height` lattice: seeds sit at
/// distance 0 and are their own origin, reached cells carry a seed as origin,
/// a reached cell's neighbours are reached at most one ring later, and every
/// cell beyond the seeds was reached from a neighbour one ring earlier that
/// shares its origin.
pub open spec fn wave_shape(dist: Seq<u32>, origin: Seq<usize>, seeds: Seq<usize>, width: int, height: int, diagonal: bool) -> bool {
    let n = width * height;
    &&& dist.len() == n
    &&& origin.len() == n
    &&& forall|i: int| 0 <= i < seeds.len() ==> dist[seeds[i] as int] == 0
    &&& forall|c: int| 0 <= c < n && dist[c] == 0 ==> seeds.contains(c as usize)
    &&& forall|c: int| 0 <= c < n && dist[c] == 0 ==> origin[c] == c
    &&& forall|c: int| 0 <= c < n && dist[c] != UNREACHED ==> seeds.contains(#[trigger] origin[c])
    &&& forall|c: int| 0 <= c < n && dist[c] == UNREACHED ==> origin[c] == usize::MAX
    &&& forall|c: int| 0 <= c < n && dist[c] != UNREACHED ==> dist[c] < n
    &&& wave_closed(dist, width, height, diagonal)
    &&& wave_linked(dist, origin, width, height, diagonal)
}

/// A reached cell's neighbours are reached at most one ring later.
pub open spec fn wave_closed(dist: Seq<u32>, width: int, height: int, diagonal: bool) -> bool {
    forall|c: int, k: int|
        0 <= c < width * height && 0 <= k < n_offsets(diagonal) && dist[c] != UNREACHED
            && #[trigger] nbr(c, k, width, height, diagonal) is Some ==> {
            let b = nbr(c, k, width, height, diagonal)->0;
            dist[b] != UNREACHED && dist[b] <= dist[c] + 1
        }
}

/// Every reached cell beyond the seeds was reached from a neighbour one ring
/// earlier that shares its origin.
pub open spec fn wave_linked(dist: Seq<u32>, origin: Seq<usize>, width: int, height: int, diagonal: bool) -> bool {
    forall|c: int|
        0 <= c < width * height && dist[c] != UNREACHED && dist[c] > 0 ==> exists|p: int, k: int|
            0 <= p < width * height && 0 <= k < n_offsets(diagonal) && #[trigger] nbr(p, k, width, height, diagonal) == Some(c)
                && dist[p] + 1 == dist[c] && origin[p] == origin[c]
}

/// Flood outward from `seeds` (earlier seeds first; repeats are ignored). Returns
/// `(dist, origin)`: `dist[c]` is the ring the wave reached `c` in, `UNREACHED`
/// when it never does, and `origin[c]` the seed whose wave got there first
/// (`usize::MAX` when unreached).
#[verifier::rlimit(100)]
#[verifier::spinoff_prover]
pub fn wavefront(width: usize, height: usize, seeds: &Vec<usize>, diagonal: bool) -> (res: (Vec<u32>, Vec<usize>))
    requires
        wave_fits(width as int, height as int),
        forall|i: int| 0 <= i < seeds.len() ==> seeds[i] < width * height,
    ensures
        wave_shape(res.0@, res.1@, seeds@, width as int, height as int, diagonal),
        wave_first_origin(res.0@, res.1@, seeds@, width as int, height as int, diagonal),
{
    let mut wv = seeded_wave(width, height, seeds, diagonal);
    flood(&mut wv, width, height, Ghost(seeds@), diagonal);
    proof {
        reveal(Wave::held);
        assert forall|c: int, i: int|
            #![trigger seeds@[i], wv.dist@[c]]
            0 <= c < width * height && wv.dist@[c] != UNREACHED && 0 <= i < first_at(seeds@, wv.origin@[c]) implies !walk_between(
                seeds@[i] as int,
                c,
                wv.dist@[c] as int,
                width as int,
                height as int,
                diagonal,
            ) by {
            lemma_first_at(seeds@, wv.origin@[c]);
            if walk_between(seeds@[i] as int, c, wv.dist@[c] as int, width as int, height as int, diagonal) {
                let p = choose|p: Seq<int>|
                    #![trigger lattice_walk(p, width as int, height as int, diagonal), p.last()]
                    lattice_walk(p, width as int, height as int, diagonal) && p[0] == seeds@[i] as int && p.last() == c
                        && p.len() == wv.dist@[c] + 1;
                lemma_first_origin_at(&wv, width as int, height as int, diagonal, seeds@, c, i, p);
            }
        }
    }
    let dist = wv.dist;
    let origin = wv.origin;
    proof {
        assert forall|c: int|
            0 <= c < width * height && dist[c] != UNREACHED && dist[c] > 0 implies exists|p: int, k: int|
                0 <= p < width * height && 0 <= k < n_offsets(diagonal) && #[trigger] nbr(p, k, width as int, height as int, diagonal)
                    == Some(c) && dist[p] + 1 == dist[c] && origin[p] == origin[c] by {
            assert(nbr(wv.pred@[c], wv.predk@[c], width as int, height as int, diagonal) == Some(c));
        }
        assert forall|c: int| 0 <= c < width * height && dist[c] != UNREACHED implies dist[c] < width * height by {
            let k = wv.pos@[c];
            assert(wv.queue[k] == c);
        }
        assert forall|c: int, k: int|
            0 <= c < width * height && 0 <= k < n_offsets(diagonal) && dist[c] != UNREACHED
                && #[trigger] nbr(c, k, width as int, height as int, diagonal) is Some implies {
                let b = nbr(c, k, width as int, height as int, diagonal)->0;
                dist[b] != UNREACHED && dist[b] <= dist[c] + 1
            } by {
            assert(wv.pos@[c] < wv.queue.len());
        }
    }
    (dist, origin)
}

/// A distance field over a `width × height` lattice ringed out from the cells
/// marked in `sources`: sources sit at 0 and only sources do, a reached cell's
/// neighbours are reached at most one ring later, and every reached non-source
/// has a neighbour one ring closer.
pub open spec fn ring_field(dist: Seq<u32>, sources: Seq<bool>, width: int, height: int, diagonal: bool) -> bool {
    &&& dist.len() == width * height
    &&& sources.len() == width * height
    &&& forall|c: int| 0 <= c < width * height ==> (dist[c] == 0 <==> sources[c])
    &&& forall|c: int| 0 <= c < width * height && dist[c] != UNREACHED ==> dist[c] < width * height
    &&& wave_closed(dist, width, height, diagonal)
    &&& forall|c: int|
        0 <= c < width * height && dist[c] != UNREACHED && dist[c] > 0 ==> exists|p: int, k: int|
            0 <= p < width * height && 0 <= k < n_offsets(diagonal) && #[trigger] nbr(p, k, width, height, diagonal) == Some(c)
                && dist[p] + 1 == dist[c]
}

/// Indices of the marked cells, in increasing order.
pub fn marked_cells(mask: &[bool]) -> (v: Vec<usize>)
    ensures
        forall|i: int| 0 <= i < v.len() ==> v[i] < mask.len() && mask[v[i] as int],
        forall|c: int| 0 <= c < mask.len() && mask[c] ==> v@.contains(c as usize),
        forall|i: int, j: int| 0 <= i < j < v.len() ==> v[i] < v[j],
{
    let mut v: Vec<usize> = Vec::new();
    let mut i: usize = 0;
    while i < mask.len()
        invariant
            i <= mask.len(),
            forall|k: int| 0 <= k < v.len() ==> v[k] < i && mask[v[k] as int],
            forall|c: int| 0 <= c < i && mask[c] ==> v@.contains(c as usize),
            forall|a: int, b: int| 0 <= a < b < v.len() ==> v[a] < v[b],
        decreases mask.len() - i,
    {
        let ghost before = v@;
        if mask[i] {
            v.push(i);
            assert(v@[v.len() - 1] == i);
        }
        assert forall|c: int| 0 <= c < i + 1 && mask[c] implies v@.contains(c as usize) by {
            if c < i {
                let j = choose|j: int| 0 <= j < before.len() && before[j] == c as usize;
                assert(v@[j] == c as usize);
            } else {
                assert(v@[v.len() - 1] == i);
            }
        }
        i += 1;
    }
    v
}

/// Ring distances from the marked cells.
pub fn ring_distances(mask: &[bool], width: usize, height: usize, diagonal: bool) -> (dist: Vec<u32>)
    requires
        wave_fits(width as int, height as int),
        mask.len() == width * height,
    ensures
        ring_field(dist@, mask@, width as int, height as int, diagonal),
{
    let seeds = marked_cells(mask);
    let (dist, origin) = wavefront(width, height, &seeds, diagonal);
    proof {
        assert forall|c: int| 0 <= c < width * height implies (dist[c] == 0 <==> mask@[c]) by {
            if mask@[c] {
                assert(seeds@.contains(c as usize));
                let i = choose|i: int| 0 <= i < seeds.len() && seeds[i] == c as usize;
                assert(dist[seeds[i] as int] == 0);
            }
            if dist[c] == 0 {
                assert(seeds@.contains(c as usize));
                let i = choose|i: int| 0 <= i < seeds.len() && seeds[i] == c as usize;
                assert(mask[seeds[i] as int]);
            }
        }
    }
    dist
}

/// A walk over the lattice: a start cell on it, then one neighbour step at a time.
pub open spec fn lattice_walk(p: Seq<int>, width: int, height: int, diagonal: bool) -> bool {
    &&& p.len() >= 1
    &&& 0 <= p[0] < width * height
    &&& forall|i: int| 0 <= i < p.len() - 1 ==> adjacent(#[trigger] p[i], p[i + 1], width, height, diagonal)
}

proof fn lemma_walk_bound(dist: Seq<u32>, width: int, height: int, diagonal: bool, p: Seq<int>)
    requires
        dist.len() == width * height,
        wave_closed(dist, width, height, diagonal),
        width >= 0,
        height >= 0,
        lattice_walk(p, width, height, diagonal),
        dist[p[0]] != UNREACHED,
    ensures
        0 <= p.last() < width * height,
        dist[p.last()] != UNREACHED,
        dist[p.last()] <= dist[p[0]] + p.len() - 1,
    decreases p.len(),
{
    if p.len() > 1 {
        let q = p.drop_last();
        assert(lattice_walk(q, width, height, diagonal)) by {
            assert forall|i: int| 0 <= i < q.len() - 1 implies adjacent(#[trigger] q[i], q[i + 1], width, height, diagonal) by {
                assert(adjacent(p[i], p[i + 1], width, height, diagonal));
            }
        }
        lemma_walk_bound(dist, width, height, diagonal, q);
        let a = q.last();
        assert(adjacent(p[p.len() - 2], p[p.len() - 1], width, height, diagonal));
        let k = choose|k: int| 0 <= k < n_offsets(diagonal) && #[trigger] nbr(a, k, width, height, diagonal) == Some(p.last());
        lemma_nbr_in_bounds(a, k, width, height, diagonal);
    }
}

/// Wave distances are shortest walk lengths: any walk from a seed to a cell
/// takes at least as many steps as the cell's distance, and the wave reaches
/// every cell some walk from a seed reaches.
pub proof fn lemma_wave_no_shortcut(dist: Seq<u32>, origin: Seq<usize>, seeds: Seq<usize>, width: int, height: int, diagonal: bool, p: Seq<int>)
    requires
        wave_shape(dist, origin, seeds, width, height, diagonal),
        wave_fits(width, height),
        lattice_walk(p, width, height, diagonal),
        seeds.contains(p[0] as usize),
    ensures
        dist[p.last()] != UNREACHED,
        dist[p.last()] <= p.len() - 1,
{
    let j = choose|j: int| 0 <= j < seeds.len() && seeds[j] == p[0] as usize;
    assert(dist[seeds[j] as int] == 0);
    lemma_walk_bound(dist, width, height, diagonal, p);
}

/// Every reached cell has a walk of exactly its distance from the seed that is
/// its origin.
pub proof fn lemma_wave_has_walk(dist: Seq<u32>, origin: Seq<usize>, seeds: Seq<usize>, width: int, height: int, diagonal: bool, c: int) -> (p: Seq<int>)
    requires
        wave_shape(dist, origin, seeds, width, height, diagonal),
        wave_fits(width, height),
        0 <= c < width * height,
        dist[c] != UNREACHED,
    ensures
        lattice_walk(p, width, height, diagonal),
        p[0] == origin[c] as int,
        seeds.contains(p[0] as usize),
        p.last() == c,
        p.len() == dist[c] + 1,
    decreases dist[c],
{
    if dist[c] == 0 {
        let p = seq![c];
        assert(origin[c] == c);
        assert(seeds.contains(c as usize));
        p
    } else {
        let (pp, k) = choose|pp: int, k: int|
            0 <= pp < width * height && 0 <= k < n_offsets(diagonal) && #[trigger] nbr(pp, k, width, height, diagonal) == Some(c)
                && dist[pp] + 1 == dist[c] && origin[pp] == origin[c];
        let q = lemma_wave_has_walk(dist, origin, seeds, width, height, diagonal, pp);
        let p = q.push(c);
        assert(adjacent(pp, c, width, height, diagonal));
        assert forall|i: int| 0 <= i < p.len() - 1 implies adjacent(#[trigger] p[i], p[i + 1], width, height, diagonal) by {
            if i < p.len() - 2 {
                assert(p[i] == q[i] && p[i + 1] == q[i + 1]);
                assert(adjacent(q[i], q[i + 1], width, height, diagonal));
            } else {
                assert(p[i] == pp);
            }
        }
        p
    }
}

/// A wave is fixed by its lattice and seed list: two results that both have
/// the shape of a finished wave and both give each cell to the earliest-listed
/// seed among those at its ring distance are equal, distances and origins.
pub proof fn lemma_wave_unique(
    d1: Seq<u32>,
    o1: Seq<usize>,
    d2: Seq<u32>,
    o2: Seq<usize>,
    seeds: Seq<usize>,
    width: int,
    height: int,
    diagonal: bool,
)
    requires
        wave_fits(width, height),
        wave_shape(d1, o1, seeds, width, height, diagonal),
        wave_first_origin(d1, o1, seeds, width, height, diagonal),
        wave_shape(d2, o2, seeds, width, height, diagonal),
        wave_first_origin(d2, o2, seeds, width, height, diagonal),
    ensures
        d1 == d2,
        o1 == o2,
{
    assert forall|c: int| 0 <= c < width * height implies d1[c] == d2[c] && o1[c] == o2[c] by {
        lemma_wave_origin_first(d1, o1, d2, o2, seeds, width, height, diagonal, c);
        lemma_wave_origin_first(d2, o2, d1, o1, seeds, width, height, diagonal, c);
        if d1[c] != UNREACHED {
            lemma_first_at(seeds, o1[c]);
            lemma_first_at(seeds, o2[c]);
        }
    }
    assert(d1 =~= d2);
    assert(o1 =~= o2);
}

/// Where one wave reaches a cell, another over the same seeds reaches it no
/// later, and from a seed listed no later.
proof fn lemma_wave_origin_first(
    d1: Seq<u32>,
    o1: Seq<usize>,
    d2: Seq<u32>,
    o2: Seq<usize>,
    seeds: Seq<usize>,
    width: int,
    height: int,
    diagonal: bool,
    c: int,
)
    requires
        wave_fits(width, height),
        wave_shape(d1, o1, seeds, width, height, diagonal),
        wave_shape(d2, o2, seeds, width, height, diagonal),
        wave_first_origin(d2, o2, seeds, width, height, diagonal),
        0 <= c < width * height,
    ensures
        d1[c] != UNREACHED ==> d2[c] != UNREACHED && d2[c] <= d1[c],
        d1[c] != UNREACHED && d2[c] == d1[c] ==> first_at(seeds, o2[c]) <= first_at(seeds, o1[c]),
        d1[c] == UNREACHED ==> o1[c] == usize::MAX,
{
    if d1[c] != UNREACHED {
        let p = lemma_wave_has_walk(d1, o1, seeds, width, height, diagonal, c);
        lemma_wave_no_shortcut(d2, o2, seeds, width, height, diagonal, p);
        if d2[c] == d1[c] {
            lemma_first_at(seeds, o1[c]);
            let i = first_at(seeds, o1[c]);
            assert(seeds[i] == o1[c]);
            assert(walk_between(seeds[i] as int, c, d2[c] as int, width, height, diagonal));
            if i < first_at(seeds, o2[c]) {
                assert(!walk_between(seeds[i] as int, c, d2[c] as int, width, height, diagonal));
            }
        }
    }
}

/// Ring distances are shortest walk lengths from a source: a walk that starts
/// on a source reaches its last cell in no fewer steps than that cell's ring,
/// so every cell a walk from a source reaches is itself reached.
pub proof fn lemma_ring_no_shortcut(dist: Seq<u32>, sources: Seq<bool>, width: int, height: int, diagonal: bool, p: Seq<int>)
    requires
        ring_field(dist, sources, width, height, diagonal),
        wave_fits(width, height),
        lattice_walk(p, width, height, diagonal),
        sources[p[0]],
    ensures
        dist[p.last()] != UNREACHED,
        dist[p.last()] <= p.len() - 1,
{
    lemma_walk_bound(dist, width, height, diagonal, p);
}

/// A ring field is fixed by its sources: two ring fields over the same
/// lattice and sources are equal, so every distance field built from the same
/// mask comes out the same.
pub proof fn lemma_ring_field_unique(d1: Seq<u32>, d2: Seq<u32>, sources: Seq<bool>, width: int, height: int, diagonal: bool)
    requires
        ring_field(d1, sources, width, height, diagonal),
        ring_field(d2, sources, width, height, diagonal),
        wave_fits(width, height),
    ensures
        d1 == d2,
{
    assert forall|c: int| 0 <= c < width * height implies d1[c] == d2[c] by {
        lemma_ring_at_most(d1, d2, sources, width, height, diagonal, c);
        lemma_ring_at_most(d2, d1, sources, width, height, diagonal, c);
    }
    assert(d1 =~= d2);
}

/// Where one ring field reaches a cell, another over the same sources reaches
/// it no later.
#[verifier::spinoff_prover]
proof fn lemma_ring_at_most(d1: Seq<u32>, d2: Seq<u32>, sources: Seq<bool>, width: int, height: int, diagonal: bool, c: int)
    requires
        ring_field(d1, sources, width, height, diagonal),
        ring_field(d2, sources, width, height, diagonal),
        wave_fits(width, height),
        0 <= c < width * height,
    ensures
        d1[c] != UNREACHED ==> d2[c] != UNREACHED && d2[c] <= d1[c],
{
    if d1[c] != UNREACHED {
        let p = lemma_ring_has_walk(d1, sources, width, height, diagonal, c);
        lemma_ring_no_shortcut(d2, sources, width, height, diagonal, p);
    }
}

/// Every reached cell has a walk from a source of exactly its ring distance.
pub proof fn lemma_ring_has_walk(dist: Seq<u32>, sources: Seq<bool>, width: int, height: int, diagonal: bool, c: int) -> (p: Seq<int>)
    requires
        ring_field(dist, sources, width, height, diagonal),
        wave_fits(width, height),
        0 <= c < width * height,
        dist[c] != UNREACHED,
    ensures
        lattice_walk(p, width, height, diagonal),
        sources[p[0]],
        p.last() == c,
        p.len() == dist[c] + 1,
    decreases dist[c],
{
    if dist[c] == 0 {
        seq![c]
    } else {
        let (pp, k) = choose|pp: int, k: int|
            0 <= pp < width * height && 0 <= k < n_offsets(diagonal) && #[trigger] nbr(pp, k, width, height, diagonal) == Some(c)
                && dist[pp] + 1 == dist[c];
        let q = lemma_ring_has_walk(dist, sources, width, height, diagonal, pp);
        let p = q.push(c);
        assert(adjacent(pp, c, width, height, diagonal));
        assert forall|i: int| 0 <= i < p.len() - 1 implies adjacent(#[trigger] p[i], p[i + 1], width, height, diagonal) by {
            if i < p.len() - 2 {
                assert(p[i] == q[i] && p[i + 1] == q[i + 1]);
                assert(adjacent(q[i], q[i + 1], width, height, diagonal));
            } else {
                assert(p[i] == pp);
            }
        }
        p
    }
}

} // verus!
