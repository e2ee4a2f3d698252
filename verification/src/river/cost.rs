//! Anisotropic least-cost carving over a cost field: Dijkstra over the
//! eight-neighbour lattice, with diagonal steps priced at √2 and an optional
//! penalty for steps against the river's heading.

use vstd::prelude::*;
use crate::field::{step_spec, step_fits, col_of, row_of, lemma_step_in_bounds};
use crate::grid::Grid;
use super::spec::Heading;

verus! {

/// √2 in per-mille: diagonal steps would otherwise be cheaper per unit length
/// and paths would collapse onto 45° lines.
const DIAG_NUM: u32 = 1414;
const DIAG_DEN: u32 = 1000;

/// The `k`-th of the eight neighbour offsets: west, east, north, south, then
/// the corners north-west, north-east, south-west, south-east.
pub open spec fn king_offset(k: int) -> (int, int) {
    if k == 0 {
        (-1, 0)
    } else if k == 1 {
        (1, 0)
    } else if k == 2 {
        (0, -1)
    } else if k == 3 {
        (0, 1)
    } else if k == 4 {
        (-1, -1)
    } else if k == 5 {
        (1, -1)
    } else if k == 6 {
        (-1, 1)
    } else {
        (1, 1)
    }
}

fn king_offset_at(k: usize) -> (o: (isize, isize))
    requires
        k < 8,
    ensures
        o.0 == king_offset(k as int).0,
        o.1 == king_offset(k as int).1,
{
    if k == 0 {
        (-1, 0)
    } else if k == 1 {
        (1, 0)
    } else if k == 2 {
        (0, -1)
    } else if k == 3 {
        (0, 1)
    } else if k == 4 {
        (-1, -1)
    } else if k == 5 {
        (1, -1)
    } else if k == 6 {
        (-1, 1)
    } else {
        (1, 1)
    }
}

/// The cell the `k`-th offset away from `a`, if it is on the lattice.
pub open spec fn king_step(a: int, k: int, width: int, height: int) -> Option<int> {
    step_spec(a, king_offset(k).0, king_offset(k).1, width, height)
}

/// `b` is one of the eight neighbours of `a`.
pub open spec fn king_adjacent(a: int, b: int, width: int, height: int) -> bool {
    exists|k: int| 0 <= k < 8 && #[trigger] king_step(a, k, width, height) == Some(b)
}

/// A walk over the lattice: a cell on it, then one eight-neighbour step at a time.
pub open spec fn king_walk(p: Seq<int>, width: int, height: int) -> bool {
    &&& p.len() >= 1
    &&& 0 <= p[0] < width * height
    &&& forall|i: int| 0 <= i < p.len() - 1 ==> king_adjacent(#[trigger] p[i], p[i + 1], width, height)
}

/// Price of entering a cell of cost `c`: `c` on a straight step; on a diagonal
/// one, `c · 1414` (saturating at `u32::MAX`) divided by 1000.
pub open spec fn entry_price(c: u32, diagonal: bool) -> int {
    if diagonal {
        (if c * 1414 > u32::MAX { u32::MAX as int } else { c * 1414 }) / 1000
    } else {
        c as int
    }
}

/// Price of the step from cell `a` to its neighbour `b`: the entry price of
/// `b`, plus `pen` when the step goes up one row.
pub open spec fn hop_price(cost: Seq<u32>, pen: int, width: int, a: int, b: int) -> int {
    let dx = col_of(b, width) - col_of(a, width);
    let dy = row_of(b, width) - row_of(a, width);
    entry_price(cost[b], dx != 0 && dy != 0) + if dy == -1 {
        pen
    } else {
        0
    }
}

/// Total price of a walk: the sum of its step prices.
pub open spec fn walk_cost(cost: Seq<u32>, pen: int, width: int, p: Seq<int>) -> int
    decreases p.len(),
{
    if p.len() <= 1 {
        0
    } else {
        hop_price(cost, pen, width, p[0], p[1]) + walk_cost(cost, pen, width, p.drop_first())
    }
}

/// The flat indices of a carved path as integers.
pub open spec fn cells(r: Seq<usize>) -> Seq<int> {
    r.map_values(|x: usize| x as int)
}

proof fn lemma_king_fits(a: int, k: int, width: int, height: int)
    requires
        0 <= a < width * height,
        width * height <= isize::MAX,
        width >= 0,
        height >= 0,
        0 <= k < 8,
    ensures
        step_fits(a, king_offset(k).0, king_offset(k).1, width, height),
        width > 0,
{
    assert(width > 0 && height > 0) by (nonlinear_arith)
        requires 0 <= a < width * height, width >= 0, height >= 0;
    assert(width <= width * height && height <= width * height) by (nonlinear_arith)
        requires width > 0, height > 0;
    assert(a / width < height) by {
        vstd::arithmetic::div_mod::lemma_fundamental_div_mod(a, width);
        vstd::arithmetic::div_mod::lemma_mod_pos_bound(a, width);
        let q = a / width;
        assert(q < height) by (nonlinear_arith)
            requires a == width * q + a % width, a % width >= 0, a < width * height, width > 0;
    }
    assert(a % width < width) by {
        vstd::arithmetic::div_mod::lemma_mod_bound(a, width);
    }
}

/// A neighbour is on the lattice, and the price of stepping to it is fixed by
/// the offset taken.
proof fn lemma_king_hop(cost: Seq<u32>, pen: int, width: int, height: int, a: int, k: int)
    requires
        width >= 0,
        height >= 0,
        king_step(a, k, width, height) is Some,
    ensures
        0 <= king_step(a, k, width, height)->0 < width * height,
        hop_price(cost, pen, width, a, king_step(a, k, width, height)->0) == entry_price(
            cost[king_step(a, k, width, height)->0],
            king_offset(k).0 != 0 && king_offset(k).1 != 0,
        ) + if king_offset(k).1 == -1 {
            pen
        } else {
            0
        },
{
    lemma_step_in_bounds(a, king_offset(k).0, king_offset(k).1, width, height);
}

/// Walks are priced step by step from either end.
proof fn lemma_walk_cost_last(cost: Seq<u32>, pen: int, width: int, p: Seq<int>)
    requires
        p.len() >= 2,
    ensures
        walk_cost(cost, pen, width, p) == walk_cost(cost, pen, width, p.drop_last()) + hop_price(
            cost,
            pen,
            width,
            p[p.len() - 2],
            p[p.len() - 1],
        ),
    decreases p.len(),
{
    let q = p.drop_first();
    if p.len() > 2 {
        lemma_walk_cost_last(cost, pen, width, q);
        assert(q.drop_last() =~= p.drop_last().drop_first());
        assert(q[q.len() - 2] == p[p.len() - 2]);
        assert(q[q.len() - 1] == p[p.len() - 1]);
        assert(p.drop_last()[0] == p[0] && p.drop_last()[1] == p[1]);
    } else {
        assert(walk_cost(cost, pen, width, q) == 0);
        assert(walk_cost(cost, pen, width, p.drop_last()) == 0);
    }
}

/// Every step price is non-negative.
proof fn lemma_hop_nonneg(cost: Seq<u32>, pen: int, width: int, a: int, b: int)
    requires
        pen >= 0,
    ensures
        hop_price(cost, pen, width, a, b) >= 0,
{
}

/// `a` comes strictly before `b` in the queue: a larger distance, or an equal
/// distance and a larger index.
spec fn above(a: (u32, usize), b: (u32, usize)) -> bool {
    a.0 > b.0 || (a.0 == b.0 && a.1 > b.1)
}

fn above_exec(a: (u32, usize), b: (u32, usize)) -> (r: bool)
    ensures
        r == above(a, b),
{
    a.0 > b.0 || (a.0 == b.0 && a.1 > b.1)
}

/// The queue runs from the largest entry down to the smallest, which sits last.
spec fn descending(q: Seq<(u32, usize)>) -> bool {
    forall|i: int, j: int| 0 <= i < j < q.len() ==> above(#[trigger] q[i], #[trigger] q[j])
}

/// Inserts `e` where it keeps the queue descending.
fn enqueue(queue: &mut Vec<(u32, usize)>, e: (u32, usize))
    requires
        descending(old(queue)@),
        !old(queue)@.contains(e),
    ensures
        descending(final(queue)@),
        forall|x: (u32, usize)| #[trigger] final(queue)@.contains(x) <==> (old(queue)@.contains(x) || x == e),
{
    let mut i = queue.len();
    while i > 0 && above_exec(e, queue[i - 1])
        invariant
            i <= queue.len(),
            queue@ == old(queue)@,
            forall|j: int| i <= j < queue.len() ==> above(e, #[trigger] queue@[j]),
        decreases i,
    {
        i -= 1;
    }
    let ghost q0 = queue@;
    proof {
        if i > 0 {
            assert(q0[i - 1] != e);
            assert(above(q0[i - 1], e));
        }
    }
    queue.insert(i, e);
    proof {
        let q1 = queue@;
        assert(q1 =~= q0.insert(i as int, e));
        assert forall|a: int, b: int| 0 <= a < b < q1.len() implies above(#[trigger] q1[a], #[trigger] q1[b]) by {
            if b < i {
                assert(above(q0[a], q0[b]));
            } else if b == i {
                if a < i - 1 {
                    assert(above(q0[a], q0[i - 1]));
                }
            } else if a == i {
                assert(above(e, q0[b - 1]));
            } else if a < i {
                assert(above(q0[a], q0[b - 1]));
            } else {
                assert(above(q0[a - 1], q0[b - 1]));
            }
        }
        assert forall|x: (u32, usize)| #[trigger] q1.contains(x) <==> (q0.contains(x) || x == e) by {
            if q1.contains(x) {
                let j = choose|j: int| 0 <= j < q1.len() && q1[j] == x;
                if j < i {
                    assert(q0[j] == x);
                } else if j > i {
                    assert(q0[j - 1] == x);
                }
            }
            if q0.contains(x) {
                let j = choose|j: int| 0 <= j < q0.len() && q0[j] == x;
                if j < i {
                    assert(q1[j] == x);
                } else {
                    assert(q1[j + 1] == x);
                }
            }
            if x == e {
                assert(q1[i as int] == e);
            }
        }
    }
}

/// Popping the last entry of a descending queue removes exactly that entry,
/// which is the queue's least.
proof fn lemma_pop_least(q: Seq<(u32, usize)>)
    requires
        descending(q),
        q.len() > 0,
    ensures
        descending(q.drop_last()),
        forall|x: (u32, usize)| #[trigger] q.drop_last().contains(x) <==> (q.contains(x) && x != q.last()),
        forall|x: (u32, usize)| #[trigger] q.contains(x) ==> x.0 >= q.last().0,
        forall|x: (u32, usize)| #[trigger] q.drop_last().contains(x) ==> above(x, q.last()),
{
    let r = q.drop_last();
    assert forall|a: int, b: int| 0 <= a < b < r.len() implies above(#[trigger] r[a], #[trigger] r[b]) by {
        assert(above(q[a], q[b]));
    }
    assert forall|x: (u32, usize)| #[trigger] r.contains(x) <==> (q.contains(x) && x != q.last()) by {
        if r.contains(x) {
            let j = choose|j: int| 0 <= j < r.len() && r[j] == x;
            assert(q[j] == x);
            assert(above(q[j], q[q.len() - 1]));
        }
        if q.contains(x) && x != q.last() {
            let j = choose|j: int| 0 <= j < q.len() && q[j] == x;
            assert(r[j] == x);
        }
    }
    assert forall|x: (u32, usize)| #[trigger] q.contains(x) implies x.0 >= q.last().0 by {
        let j = choose|j: int| 0 <= j < q.len() && q[j] == x;
        if j < q.len() - 1 {
            assert(above(q[j], q[q.len() - 1]));
        }
    }
    assert forall|x: (u32, usize)| #[trigger] r.contains(x) implies above(x, q.last()) by {
        let j = choose|j: int| 0 <= j < r.len() && r[j] == x;
        assert(q[j] == x);
        assert(above(q[j], q[q.len() - 1]));
    }
}

/// What a carve returns: a simple path listed from `goal` back to `start`
/// whose reverse is a lattice walk. When `goal` is `start` it is that cell
/// alone. When it reaches `start`, no walk from `start` to `goal` is cheaper
/// and its price is below `u32::MAX`; otherwise it is `goal` alone and every
/// walk from `start` to `goal` costs at least `u32::MAX`.
pub open spec fn least_cost_path(path: Seq<usize>, cost: Seq<u32>, pen: int, width: int, height: int, start: int, goal: int) -> bool {
    let walk = cells(path).reverse();
    &&& path.len() >= 1
    &&& path[0] == goal
    &&& path.no_duplicates()
    &&& king_walk(walk, width, height)
    &&& goal == start ==> path == seq![goal as usize]
    &&& path.len() > 1 ==> path.last() == start
    &&& (path.len() > 1 || goal == start) ==> walk_cost(cost, pen, width, walk) < u32::MAX
    &&& (path.len() > 1 || goal == start) ==> forall|p: Seq<int>|
        king_walk(p, width, height) && p[0] == start && p.last() == goal
            ==> walk_cost(cost, pen, width, walk) <= #[trigger] walk_cost(cost, pen, width, p)
    &&& (path.len() == 1 && goal != start) ==> forall|p: Seq<int>|
        king_walk(p, width, height) && p[0] == start && p.last() == goal
            ==> #[trigger] walk_cost(cost, pen, width, p) >= u32::MAX
}

/// Every cell costs something to enter.
pub open spec fn positive(cost: Seq<u32>) -> bool {
    forall|c: int| 0 <= c < cost.len() ==> #[trigger] cost[c] >= 1
}

/// `d` is the least price of a walk from `start` to `v`.
#[verifier::opaque]
pub open spec fn least_price(cost: Seq<u32>, pen: int, width: int, height: int, start: int, v: int, d: int) -> bool {
    &&& exists|p: Seq<int>|
        #![trigger walk_cost(cost, pen, width, p)]
        king_walk(p, width, height) && p[0] == start && p.last() == v && walk_cost(cost, pen, width, p) == d
    &&& forall|p: Seq<int>|
        king_walk(p, width, height) && p[0] == start && p.last() == v ==> d <= #[trigger] walk_cost(cost, pen, width, p)
}

/// Price of a carved path from its start up to its `j`-th cell (counted from
/// the goal end).
pub open spec fn price_along(path: Seq<usize>, cost: Seq<u32>, pen: int, width: int, j: int) -> int {
    walk_cost(cost, pen, width, cells(path.skip(j)).reverse())
}

/// Each step of a path listed from the goal back goes to the first, by least
/// price and then by index, of the cells from which a least-price walk enters
/// the cell it leaves.
pub open spec fn first_best_steps(path: Seq<usize>, cost: Seq<u32>, pen: int, width: int, height: int, start: int) -> bool {
    forall|i: int, u: int, du: int|
        #![trigger least_price(cost, pen, width, height, start, u, du), path[i]]
        0 <= i < path.len() - 1 && least_price(cost, pen, width, height, start, u, du) && king_adjacent(
            u,
            path[i] as int,
            width,
            height,
        ) && du + hop_price(cost, pen, width, u, path[i] as int) == price_along(path, cost, pen, width, i)
            ==> price_along(path, cost, pen, width, i + 1) < du || (price_along(path, cost, pen, width, i + 1) == du
            && path[i + 1] <= u)
}

/// Each step of a path listed from the goal back goes to a cell reached for
/// no more than any other cell from which a least-price walk enters the cell
/// it leaves.
pub open spec fn cheapest_steps(path: Seq<usize>, cost: Seq<u32>, pen: int, width: int, height: int, start: int) -> bool {
    forall|i: int, u: int, du: int|
        #![trigger least_price(cost, pen, width, height, start, u, du), path[i]]
        0 <= i < path.len() - 1 && least_price(cost, pen, width, height, start, u, du) && king_adjacent(
            u,
            path[i] as int,
            width,
            height,
        ) && du + hop_price(cost, pen, width, u, path[i] as int) == price_along(path, cost, pen, width, i)
            ==> price_along(path, cost, pen, width, i + 1) <= du
}

/// With positive costs every step has a positive price.
proof fn lemma_hop_pos(cost: Seq<u32>, pen: int, width: int, a: int, b: int)
    requires
        pen >= 0,
        positive(cost),
        0 <= b < cost.len(),
    ensures
        hop_price(cost, pen, width, a, b) >= 1,
{
    assert(cost[b] >= 1);
}

/// The price of a carve is fixed by its inputs: any two least-cost paths
/// between the same cells over the same costs either both reach the start or
/// both do not, and when they do they cost the same.
pub proof fn lemma_least_cost_is_unique(
    p1: Seq<usize>,
    p2: Seq<usize>,
    cost: Seq<u32>,
    pen: int,
    width: int,
    height: int,
    start: int,
    goal: int,
)
    requires
        least_cost_path(p1, cost, pen, width, height, start, goal),
        least_cost_path(p2, cost, pen, width, height, start, goal),
    ensures
        (p1.len() > 1 || goal == start) == (p2.len() > 1 || goal == start),
        (p1.len() > 1 || goal == start) ==> walk_cost(cost, pen, width, cells(p1).reverse()) == walk_cost(
            cost,
            pen,
            width,
            cells(p2).reverse(),
        ),
{
    let w1 = cells(p1).reverse();
    let w2 = cells(p2).reverse();
    if p1.len() > 1 || goal == start {
        assert(w1[0] == start && w1.last() == goal) by {
            assert(w1[0] == p1[p1.len() - 1] as int);
            assert(w1[w1.len() - 1] == p1[0] as int);
        }
    }
    if p2.len() > 1 || goal == start {
        assert(w2[0] == start && w2.last() == goal) by {
            assert(w2[0] == p2[p2.len() - 1] as int);
            assert(w2[w2.len() - 1] == p2[0] as int);
        }
    }
}

/// Joining two walks that meet at a cell adds their prices.
proof fn lemma_walk_concat(cost: Seq<u32>, pen: int, width: int, a: Seq<int>, b: Seq<int>)
    requires
        a.len() >= 1,
        b.len() >= 1,
        a.last() == b[0],
    ensures
        walk_cost(cost, pen, width, a + b.drop_first()) == walk_cost(cost, pen, width, a) + walk_cost(cost, pen, width, b),
    decreases a.len(),
{
    let c = a + b.drop_first();
    if a.len() == 1 {
        assert(c =~= b);
    } else {
        lemma_walk_concat(cost, pen, width, a.drop_first(), b);
        assert(c.drop_first() =~= a.drop_first() + b.drop_first());
        assert(c[0] == a[0] && c[1] == a[1]);
    }
}

/// Two lattice walks that meet at a cell join into one.
proof fn lemma_walk_join(a: Seq<int>, b: Seq<int>, width: int, height: int)
    requires
        king_walk(a, width, height),
        king_walk(b, width, height),
        a.last() == b[0],
    ensures
        king_walk(a + b.drop_first(), width, height),
{
    let c = a + b.drop_first();
    assert forall|i: int| 0 <= i < c.len() - 1 implies king_adjacent(#[trigger] c[i], c[i + 1], width, height) by {
        if i < a.len() - 1 {
            assert(king_adjacent(a[i], a[i + 1], width, height));
        } else {
            let j = i - (a.len() - 1);
            assert(c[i] == b[j]);
            assert(c[i + 1] == b[j + 1]);
            assert(king_adjacent(b[j], b[j + 1], width, height));
        }
    }
}

/// The first `m + 1` cells of a lattice walk and the rest from its `m`-th
/// cell are walks, and their prices add up to the walk's.
proof fn lemma_walk_split(cost: Seq<u32>, pen: int, width: int, height: int, p: Seq<int>, m: int)
    requires
        king_walk(p, width, height),
        width >= 0,
        height >= 0,
        0 <= m < p.len(),
    ensures
        king_walk(p.take(m + 1), width, height),
        king_walk(p.skip(m), width, height),
        walk_cost(cost, pen, width, p) == walk_cost(cost, pen, width, p.take(m + 1)) + walk_cost(cost, pen, width, p.skip(m)),
{
    lemma_walk_on_lattice(p, width, height);
    let a = p.take(m + 1);
    let b = p.skip(m);
    assert forall|i: int| 0 <= i < a.len() - 1 implies king_adjacent(#[trigger] a[i], a[i + 1], width, height) by {
        assert(king_adjacent(p[i], p[i + 1], width, height));
    }
    assert forall|i: int| 0 <= i < b.len() - 1 implies king_adjacent(#[trigger] b[i], b[i + 1], width, height) by {
        assert(king_adjacent(p[m + i], p[m + i + 1], width, height));
    }
    assert(a + b.drop_first() =~= p);
    lemma_walk_concat(cost, pen, width, a, b);
}

/// Every stretch from the start of a least-price walk is itself a least-price
/// walk to where it ends.
proof fn lemma_optimal_prefix(cost: Seq<u32>, pen: int, width: int, height: int, p: Seq<int>, m: int)
    requires
        king_walk(p, width, height),
        width >= 0,
        height >= 0,
        0 <= m < p.len(),
        forall|q: Seq<int>|
            king_walk(q, width, height) && q[0] == p[0] && q.last() == p.last() ==> walk_cost(cost, pen, width, p)
                <= #[trigger] walk_cost(cost, pen, width, q),
    ensures
        least_price(cost, pen, width, height, p[0], p[m], walk_cost(cost, pen, width, p.take(m + 1))),
{
    reveal(least_price);
    lemma_walk_split(cost, pen, width, height, p, m);
    let a = p.take(m + 1);
    let b = p.skip(m);
    assert(a[0] == p[0] && a.last() == p[m]);
    assert forall|q: Seq<int>| king_walk(q, width, height) && q[0] == p[0] && q.last() == p[m] implies walk_cost(
        cost,
        pen,
        width,
        a,
    ) <= #[trigger] walk_cost(cost, pen, width, q) by {
        lemma_walk_join(q, b, width, height);
        lemma_walk_concat(cost, pen, width, q, b);
        let j = q + b.drop_first();
        assert(j[0] == p[0]);
        assert(j.last() == p.last()) by {
            if b.len() > 1 {
                assert(j.last() == b.last());
            } else {
                assert(j =~= q);
            }
        }
    }
}

/// Least prices are unique.
proof fn lemma_least_price_unique(cost: Seq<u32>, pen: int, width: int, height: int, start: int, v: int, d1: int, d2: int)
    requires
        least_price(cost, pen, width, height, start, v, d1),
        least_price(cost, pen, width, height, start, v, d2),
    ensures
        d1 == d2,
{
    reveal(least_price);
    let p1 = choose|p: Seq<int>|
        #![trigger walk_cost(cost, pen, width, p)]
        king_walk(p, width, height) && p[0] == start && p.last() == v && walk_cost(cost, pen, width, p) == d1;
    let p2 = choose|p: Seq<int>|
        #![trigger walk_cost(cost, pen, width, p)]
        king_walk(p, width, height) && p[0] == start && p.last() == v && walk_cost(cost, pen, width, p) == d2;
}

/// Along a least-cost path that reaches the start, each cell's price so far
/// is its least price, and the next cell back is a neighbour it is entered
/// from at that price.
proof fn lemma_path_prices(path: Seq<usize>, cost: Seq<u32>, pen: int, width: int, height: int, start: int, goal: int, i: int)
    requires
        least_cost_path(path, cost, pen, width, height, start, goal),
        path.len() > 1 || goal == start,
        width >= 0,
        height >= 0,
        0 <= i < path.len(),
    ensures
        least_price(cost, pen, width, height, start, path[i] as int, price_along(path, cost, pen, width, i)),
        i < path.len() - 1 ==> king_adjacent(path[i + 1] as int, path[i] as int, width, height)
            && price_along(path, cost, pen, width, i + 1) + hop_price(cost, pen, width, path[i + 1] as int, path[i] as int)
            == price_along(path, cost, pen, width, i),
{
    let wk = cells(path).reverse();
    let n = path.len() as int;
    assert(wk[0] == start) by {
        assert(wk[0] == path[n - 1] as int);
        if goal == start && n == 1 {
        }
    }
    assert(wk.last() == goal) by {
        assert(wk[wk.len() - 1] == path[0] as int);
    }
    assert(cells(path.skip(i)).reverse() =~= wk.take(n - i));
    assert(wk[n - 1 - i] == path[i] as int);
    lemma_optimal_prefix(cost, pen, width, height, wk, n - 1 - i);
    if i < n - 1 {
        assert(cells(path.skip(i + 1)).reverse() =~= wk.take(n - i - 1));
        assert(wk[n - 2 - i] == path[i + 1] as int);
        assert(king_adjacent(wk[n - 2 - i], wk[n - 1 - i], width, height));
        let t = wk.take(n - i);
        lemma_walk_cost_last(cost, pen, width, t);
        assert(t.drop_last() =~= wk.take(n - i - 1));
        assert(t[t.len() - 2] == wk[n - 2 - i] && t[t.len() - 1] == wk[n - 1 - i]);
    }
}

proof fn lemma_first_best_at(
    path: Seq<usize>,
    cost: Seq<u32>,
    pen: int,
    width: int,
    height: int,
    start: int,
    i: int,
    u: int,
    du: int,
)
    requires
        first_best_steps(path, cost, pen, width, height, start),
        0 <= i < path.len() - 1,
        least_price(cost, pen, width, height, start, u, du),
        king_adjacent(u, path[i] as int, width, height),
        du + hop_price(cost, pen, width, u, path[i] as int) == price_along(path, cost, pen, width, i),
    ensures
        price_along(path, cost, pen, width, i + 1) < du || (price_along(path, cost, pen, width, i + 1) == du
            && path[i + 1] <= u),
{
}

/// Two paths that take the first of the best entries and agree on a cell
/// agree on the next.
proof fn lemma_agree_step(
    p1: Seq<usize>,
    p2: Seq<usize>,
    cost: Seq<u32>,
    pen: int,
    width: int,
    height: int,
    start: int,
    k: int,
)
    requires
        first_best_steps(p1, cost, pen, width, height, start),
        first_best_steps(p2, cost, pen, width, height, start),
        0 <= k,
        k + 1 < p1.len(),
        k + 1 < p2.len(),
        p1[k] == p2[k],
        least_price(cost, pen, width, height, start, p1[k + 1] as int, price_along(p1, cost, pen, width, k + 1)),
        least_price(cost, pen, width, height, start, p2[k + 1] as int, price_along(p2, cost, pen, width, k + 1)),
        king_adjacent(p1[k + 1] as int, p1[k] as int, width, height),
        king_adjacent(p2[k + 1] as int, p2[k] as int, width, height),
        price_along(p1, cost, pen, width, k + 1) + hop_price(cost, pen, width, p1[k + 1] as int, p1[k] as int)
            == price_along(p1, cost, pen, width, k),
        price_along(p2, cost, pen, width, k + 1) + hop_price(cost, pen, width, p2[k + 1] as int, p2[k] as int)
            == price_along(p2, cost, pen, width, k),
        price_along(p1, cost, pen, width, k) == price_along(p2, cost, pen, width, k),
    ensures
        p1[k + 1] == p2[k + 1],
{
    let u1 = p1[k + 1] as int;
    let u2 = p2[k + 1] as int;
    let d1 = price_along(p1, cost, pen, width, k + 1);
    let d2 = price_along(p2, cost, pen, width, k + 1);
    lemma_first_best_at(p1, cost, pen, width, height, start, k, u2, d2);
    lemma_first_best_at(p2, cost, pen, width, height, start, k, u1, d1);
}

/// Step by step, two paths that each take the first of the best entries
/// agree for as long as both last.
proof fn lemma_paths_agree(
    p1: Seq<usize>,
    p2: Seq<usize>,
    cost: Seq<u32>,
    pen: int,
    width: int,
    height: int,
    start: int,
    goal: int,
    i: int,
)
    requires
        width >= 0,
        height >= 0,
        least_cost_path(p1, cost, pen, width, height, start, goal),
        least_cost_path(p2, cost, pen, width, height, start, goal),
        p1.len() > 1 || goal == start,
        p2.len() > 1 || goal == start,
        first_best_steps(p1, cost, pen, width, height, start),
        first_best_steps(p2, cost, pen, width, height, start),
        0 <= i < p1.len(),
        i < p2.len(),
    ensures
        p1[i] == p2[i],
    decreases i,
{
    if i > 0 {
        let k = i - 1;
        lemma_paths_agree(p1, p2, cost, pen, width, height, start, goal, k);
        lemma_path_prices(p1, cost, pen, width, height, start, goal, k);
        lemma_path_prices(p2, cost, pen, width, height, start, goal, k);
        lemma_path_prices(p1, cost, pen, width, height, start, goal, i);
        lemma_path_prices(p2, cost, pen, width, height, start, goal, i);
        lemma_least_price_unique(
            cost,
            pen,
            width,
            height,
            start,
            p1[k] as int,
            price_along(p1, cost, pen, width, k),
            price_along(p2, cost, pen, width, k),
        );
        lemma_agree_step(p1, p2, cost, pen, width, height, start, k);
    }
}

/// A carve is fixed by its inputs: two least-cost paths between the same
/// cells over the same costs that each take the first of the best entries at
/// every step are the same path.
pub proof fn lemma_carve_is_unique(
    p1: Seq<usize>,
    p2: Seq<usize>,
    cost: Seq<u32>,
    pen: int,
    width: int,
    height: int,
    start: int,
    goal: int,
)
    requires
        width >= 0,
        height >= 0,
        least_cost_path(p1, cost, pen, width, height, start, goal),
        least_cost_path(p2, cost, pen, width, height, start, goal),
        first_best_steps(p1, cost, pen, width, height, start),
        first_best_steps(p2, cost, pen, width, height, start),
    ensures
        p1 == p2,
{
    lemma_least_cost_is_unique(p1, p2, cost, pen, width, height, start, goal);
    if p1.len() > 1 || goal == start {
        let n = if p1.len() < p2.len() { p1.len() as int } else { p2.len() as int };
        assert forall|i: int| 0 <= i < n implies p1[i] == p2[i] by {
            lemma_paths_agree(p1, p2, cost, pen, width, height, start, goal, i);
        }
        if p1.len() != p2.len() {
            if p1.len() < p2.len() {
                if goal == start {
                } else {
                    assert(p1[n - 1] == start);
                    assert(p2[n - 1] == start && p2[p2.len() - 1] == start);
                }
            } else {
                if goal == start {
                } else {
                    assert(p2[n - 1] == start);
                    assert(p1[n - 1] == start && p1[p1.len() - 1] == start);
                }
            }
        }
        assert(p1 =~= p2);
    } else {
        assert(p1 =~= p2) by {
            assert(p1[0] == goal && p2[0] == goal);
        }
    }
}

/// Every cell of a lattice walk is on the lattice.
proof fn lemma_walk_on_lattice(p: Seq<int>, width: int, height: int)
    requires
        king_walk(p, width, height),
        width >= 0,
        height >= 0,
    ensures
        forall|i: int| 0 <= i < p.len() ==> 0 <= #[trigger] p[i] < width * height,
    decreases p.len(),
{
    if p.len() > 1 {
        let q = p.drop_last();
        assert(king_walk(q, width, height)) by {
            assert forall|i: int| 0 <= i < q.len() - 1 implies king_adjacent(#[trigger] q[i], q[i + 1], width, height) by {
                assert(king_adjacent(p[i], p[i + 1], width, height));
            }
        }
        lemma_walk_on_lattice(q, width, height);
        assert(king_adjacent(p[p.len() - 2], p[p.len() - 1], width, height));
        let k = choose|k: int| 0 <= k < 8 && #[trigger] king_step(p[p.len() - 2], k, width, height) == Some(p[p.len() - 1]);
        lemma_step_in_bounds(p[p.len() - 2], king_offset(k).0, king_offset(k).1, width, height);
        assert forall|i: int| 0 <= i < p.len() implies 0 <= #[trigger] p[i] < width * height by {
            if i < p.len() - 1 {
                assert(p[i] == q[i]);
            }
        }
    }
}

/// Every cell of a carved path is on the lattice.
pub proof fn lemma_carved_on_lattice(path: Seq<usize>, cost: Seq<u32>, pen: int, width: int, height: int, start: int, goal: int)
    requires
        least_cost_path(path, cost, pen, width, height, start, goal),
        width >= 0,
        height >= 0,
    ensures
        forall|k: int| 0 <= k < path.len() ==> #[trigger] path[k] < width * height,
{
    let walk = cells(path).reverse();
    lemma_walk_on_lattice(walk, width, height);
    assert forall|k: int| 0 <= k < path.len() implies #[trigger] path[k] < width * height by {
        assert(walk[path.len() - 1 - k] == path[k] as int);
    }
}

/// The penalty a step against the heading costs, or `0` without a bias.
pub open spec fn against_penalty(bias: Option<(&Heading, u32)>) -> int {
    match bias {
        Some((h, p)) => match *h {
            Heading::Down => p as int,
        },
        None => 0,
    }
}

/// Working state of a search: tentative distances, predecessors, and the
/// queue of `(distance, cell)` entries, largest first. The ghost state records
/// which cells are settled (their distance is final), the order in which they
/// were settled, and for each reached cell the offset from its predecessor.
struct Search {
    dist: Vec<u32>,
    prev: Vec<usize>,
    queue: Vec<(u32, usize)>,
    settled: Ghost<Set<int>>,
    ord: Ghost<Seq<int>>,
    via: Ghost<Seq<int>>,
}

impl Search {
    /// Settled cells rank by settling order; every other cell ranks after them.
    spec fn rank(&self, v: int) -> int {
        if self.settled@.contains(v) {
            self.ord@[v]
        } else {
            self.settled@.len() as int
        }
    }

    spec fn shaped(&self, n: int) -> bool {
        &&& self.dist.len() == n
        &&& self.prev.len() == n
        &&& self.ord@.len() == n
        &&& self.via@.len() == n
        &&& self.settled@.finite()
        &&& forall|x: int| #[trigger] self.settled@.contains(x) ==> 0 <= x < n && self.dist[x] < u32::MAX
            && 0 <= self.ord@[x] < self.settled@.len()
    }

    spec fn queue_ok(&self, n: int) -> bool {
        &&& descending(self.queue@)
        &&& forall|e: (u32, usize)| #[trigger] self.queue@.contains(e) ==> e.1 < n && self.dist[e.1 as int] <= e.0 < u32::MAX
        &&& forall|v: int| 0 <= v < n && !self.settled@.contains(v) && #[trigger] self.dist[v] < u32::MAX
            ==> self.queue@.contains((self.dist[v], v as usize))
        &&& forall|v: int| #[trigger] self.settled@.contains(v) ==> !self.queue@.contains((self.dist[v], v as usize))
        &&& forall|x: int, e: (u32, usize)| #![trigger self.settled@.contains(x), self.queue@.contains(e)]
            self.settled@.contains(x) && self.queue@.contains(e) ==> self.dist[x] <= e.0
    }

    /// `v` was reached from a settled neighbour `prev[v]`, by offset `via[v]`,
    /// at exactly that neighbour's distance plus the step price.
    spec fn link_ok(&self, cost: Seq<u32>, pen: int, width: int, height: int, v: int) -> bool {
        let u = self.prev[v] as int;
        &&& 0 <= self.via@[v] < 8
        &&& king_step(u, self.via@[v], width, height) == Some(v)
        &&& self.settled@.contains(u)
        &&& self.dist[v] == self.dist[u] + hop_price(cost, pen, width, u, v)
        &&& self.rank(u) < self.rank(v)
    }

    spec fn linked(&self, cost: Seq<u32>, pen: int, width: int, height: int, start: int) -> bool {
        &&& self.dist[start] == 0
        &&& forall|v: int| 0 <= v < width * height && v != start && self.dist[v] < u32::MAX
            ==> #[trigger] self.link_ok(cost, pen, width, height, v)
        &&& forall|v: int| 0 <= v < width * height && v != start && self.dist[v] == u32::MAX
            ==> #[trigger] self.prev[v] == usize::MAX
    }

    /// Every settled cell has relaxed its neighbours, except that `idx` has so
    /// far relaxed only the offsets below `upto`.
    spec fn closed_except(&self, cost: Seq<u32>, pen: int, width: int, height: int, idx: int, upto: int) -> bool {
        forall|x: int, k: int| #![trigger self.settled@.contains(x), king_step(x, k, width, height)]
            self.settled@.contains(x) && 0 <= k < 8 && (x != idx || k < upto) && king_step(x, k, width, height) is Some
            ==> self.dist[king_step(x, k, width, height)->0] <= self.dist[x] + hop_price(
                cost,
                pen,
                width,
                x,
                king_step(x, k, width, height)->0,
            )
    }

    /// Every settled cell comes before every queued entry, by distance and
    /// then index.
    spec fn settled_first(&self) -> bool {
        forall|x: int, e: (u32, usize)| #![trigger self.settled@.contains(x), self.queue@.contains(e)]
            self.settled@.contains(x) && self.queue@.contains(e) ==> above(e, (self.dist[x], x as usize))
    }

    /// A reached cell's predecessor is, of the settled neighbours it is
    /// entered from at its distance, the first by distance and then index.
    spec fn first_pick(&self, cost: Seq<u32>, pen: int, width: int, height: int, start: int) -> bool {
        forall|x: int, k: int| #![trigger self.settled@.contains(x), king_step(x, k, width, height)]
            self.settled@.contains(x) && 0 <= k < 8 && king_step(x, k, width, height) is Some
                && king_step(x, k, width, height)->0 != start
                && self.dist[king_step(x, k, width, height)->0] < u32::MAX
                && self.dist[x] + hop_price(cost, pen, width, x, king_step(x, k, width, height)->0)
                == self.dist[king_step(x, k, width, height)->0] ==> !above(
                (
                    self.dist[self.prev[king_step(x, k, width, height)->0] as int],
                    self.prev[king_step(x, k, width, height)->0],
                ),
                (self.dist[x], x as usize),
            )
    }

    /// A reached cell's predecessor is reached for no more than any settled
    /// neighbour it is entered from at its distance.
    spec fn cheap_pick(&self, cost: Seq<u32>, pen: int, width: int, height: int, start: int) -> bool {
        forall|x: int, k: int| #![trigger self.settled@.contains(x), king_step(x, k, width, height)]
            self.settled@.contains(x) && 0 <= k < 8 && king_step(x, k, width, height) is Some
                && king_step(x, k, width, height)->0 != start
                && self.dist[king_step(x, k, width, height)->0] < u32::MAX
                && self.dist[x] + hop_price(cost, pen, width, x, king_step(x, k, width, height)->0)
                == self.dist[king_step(x, k, width, height)->0]
                ==> self.dist[self.prev[king_step(x, k, width, height)->0] as int] <= self.dist[x]
    }

    spec fn ordered(&self, cost: Seq<u32>, pen: int, width: int, height: int, start: int) -> bool {
        &&& self.settled_first()
        &&& self.first_pick(cost, pen, width, height, start)
    }

    spec fn ready(&self, cost: Seq<u32>, pen: int, width: int, height: int, start: int) -> bool {
        &&& self.shaped(width * height)
        &&& self.queue_ok(width * height)
        &&& self.linked(cost, pen, width, height, start)
    }

    /// Relaxes the `k`-th neighbour of the settled cell `index`.
    #[verifier::rlimit(50)]
    #[verifier::spinoff_prover]
    fn relax(
        &mut self,
        grid: &Grid,
        cost: &[u32],
        bias: Option<(&Heading, u32)>,
        start: usize,
        index: usize,
        d: u32,
        k: usize,
    )
        requires
            grid.wf(),
            grid.spec_width() * grid.spec_height() <= isize::MAX,
            cost.len() == grid.spec_width() * grid.spec_height(),
            start < grid.spec_width() * grid.spec_height(),
            old(self).ready(cost@, against_penalty(bias), grid.spec_width(), grid.spec_height(), start as int),
            old(self).closed_except(cost@, against_penalty(bias), grid.spec_width(), grid.spec_height(), index as int, k as int),
            old(self).settled@.contains(index as int),
            old(self).dist[index as int] == d,
            forall|x: int| #[trigger] old(self).settled@.contains(x) ==> old(self).dist[x] <= d,
            k < 8,
            positive(cost@) ==> old(self).ordered(cost@, against_penalty(bias), grid.spec_width(), grid.spec_height(), start as int),
            old(self).cheap_pick(cost@, against_penalty(bias), grid.spec_width(), grid.spec_height(), start as int),
        ensures
            positive(cost@) ==> final(self).ordered(cost@, against_penalty(bias), grid.spec_width(), grid.spec_height(), start as int),
            final(self).cheap_pick(cost@, against_penalty(bias), grid.spec_width(), grid.spec_height(), start as int),
            final(self).ready(cost@, against_penalty(bias), grid.spec_width(), grid.spec_height(), start as int),
            final(self).closed_except(cost@, against_penalty(bias), grid.spec_width(), grid.spec_height(), index as int, k + 1),
            final(self).settled@ == old(self).settled@,
            final(self).ord@ == old(self).ord@,
            forall|x: int| #[trigger] final(self).settled@.contains(x) ==> final(self).dist[x] == old(self).dist[x],
    {
        let width = grid.width();
        let height = grid.height();
        let ghost w = width as int;
        let ghost h = height as int;
        let ghost n = w * h;
        let ghost pen = against_penalty(bias);
        let (dx, dy) = king_offset_at(k);
        assert(0 <= index < n);
        proof {
            lemma_king_fits(index as int, k as int, w, h);
        }
        match grid.step(index, dx, dy) {
            None => {
                assert(self.closed_except(cost@, pen, w, h, index as int, k + 1));
            },
            Some(nb) => {
                proof {
                    lemma_king_hop(cost@, pen, w, h, index as int, k as int);
                }
                let c = cost[nb];
                let step_cost: u32 = if dx != 0 && dy != 0 {
                    let scaled: u32 = if c > u32::MAX / DIAG_NUM {
                        u32::MAX
                    } else {
                        c * DIAG_NUM
                    };
                    scaled / DIAG_DEN
                } else {
                    c
                };
                let dir_pen: u32 = match bias {
                    Some((h, penalty)) => match h {
                        Heading::Down => if dy == -1 {
                            penalty
                        } else {
                            0
                        },
                    },
                    None => 0,
                };
                let nd = d.saturating_add(step_cost).saturating_add(dir_pen);
                let ghost hop = hop_price(cost@, pen, w, index as int, nb as int);
                assert(step_cost + dir_pen == hop);
                assert(nd == if d + hop > u32::MAX { u32::MAX as int } else { d + hop });
                if nd < self.dist[nb] {
                    assert(!self.queue@.contains((nd, nb))) by {
                        if self.queue@.contains((nd, nb)) {
                            assert(self.dist[nb as int] <= nd);
                        }
                    }
                    self.dist.set(nb, nd);
                    self.prev.set(nb, index);
                    proof {
                        self.via@ = self.via@.update(nb as int, k as int);
                    }
                    enqueue(&mut self.queue, (nd, nb));
                    proof {
                        lemma_relaxed(*old(self), *self, cost@, pen, w, h, start as int, index as int, k as int, nb as int, nd);
                    }
                } else {
                    assert(self.dist[nb as int] <= d + hop);
                    assert(self.closed_except(cost@, pen, w, h, index as int, k + 1));
                }
            },
        }
    }
}

/// One successful relaxation keeps the search invariants and closes the
/// relaxed offset.
#[verifier::rlimit(60)]
#[verifier::spinoff_prover]
proof fn lemma_relaxed(
    s0: Search,
    s1: Search,
    cost: Seq<u32>,
    pen: int,
    w: int,
    h: int,
    start: int,
    idx: int,
    k: int,
    nb: int,
    nd: u32,
)
    requires
        w >= 0,
        h >= 0,
        pen >= 0,
        0 <= start < w * h,
        cost.len() == w * h,
        s0.ready(cost, pen, w, h, start),
        s0.closed_except(cost, pen, w, h, idx, k),
        positive(cost) ==> s0.ordered(cost, pen, w, h, start),
        s0.cheap_pick(cost, pen, w, h, start),
        s0.settled@.contains(idx),
        forall|x: int| #[trigger] s0.settled@.contains(x) ==> s0.dist[x] <= s0.dist[idx],
        0 <= k < 8,
        king_step(idx, k, w, h) == Some(nb),
        nd < s0.dist[nb],
        nd == s0.dist[idx] + hop_price(cost, pen, w, idx, nb),
        s1.dist@ == s0.dist@.update(nb, nd),
        s1.prev@ == s0.prev@.update(nb, idx as usize),
        s1.via@ == s0.via@.update(nb, k),
        s1.settled@ == s0.settled@,
        s1.ord@ == s0.ord@,
        descending(s1.queue@),
        forall|x: (u32, usize)| #[trigger] s1.queue@.contains(x) <==> (s0.queue@.contains(x) || x == (nd, nb as usize)),
    ensures
        s1.ready(cost, pen, w, h, start),
        s1.closed_except(cost, pen, w, h, idx, k + 1),
        positive(cost) ==> s1.ordered(cost, pen, w, h, start),
        s1.cheap_pick(cost, pen, w, h, start),
{
    let n = w * h;
    lemma_king_hop(cost, pen, w, h, idx, k);
    lemma_relaxed_cheap(s0, s1, cost, pen, w, h, start, idx, k, nb, nd);
    if positive(cost) {
        lemma_relaxed_order(s0, s1, cost, pen, w, h, start, idx, k, nb, nd);
    }
    lemma_hop_nonneg(cost, pen, w, idx, nb);
    assert(0 <= nb < n);
    assert(!s0.settled@.contains(nb)) by {
        if s0.settled@.contains(nb) {
            assert(s0.dist[nb] <= s0.dist[idx]);
        }
    }
    assert(nb != start);
    // shaped
    assert forall|x: int| #[trigger] s1.settled@.contains(x) implies 0 <= x < n && s1.dist[x] < u32::MAX
        && 0 <= s1.ord@[x] < s1.settled@.len() by {
        assert(x != nb);
    }
    assert(s1.shaped(n));
    // queue
    assert forall|e: (u32, usize)| #[trigger] s1.queue@.contains(e) implies e.1 < n && s1.dist[e.1 as int] <= e.0 < u32::MAX by {
        if e != (nd, nb as usize) {
            assert(s0.queue@.contains(e));
        }
    }
    assert forall|v: int| 0 <= v < n && !s1.settled@.contains(v) && #[trigger] s1.dist[v] < u32::MAX
        implies s1.queue@.contains((s1.dist[v], v as usize)) by {
        if v != nb {
            assert(s0.dist[v] == s1.dist[v]);
            assert(s0.queue@.contains((s0.dist[v], v as usize)));
        }
    }
    assert forall|v: int| #[trigger] s1.settled@.contains(v) implies !s1.queue@.contains((s1.dist[v], v as usize)) by {
        assert(v != nb);
        assert(s1.dist[v] == s0.dist[v]);
        assert(!s0.queue@.contains((s0.dist[v], v as usize)));
    }
    assert forall|x: int, e: (u32, usize)| s1.settled@.contains(x) && s1.queue@.contains(e) implies s1.dist[x] <= e.0 by {
        assert(x != nb);
        if e != (nd, nb as usize) {
            assert(s0.queue@.contains(e));
        } else {
            assert(s0.dist[x] <= s0.dist[idx]);
        }
    }
    assert(s1.queue_ok(n));
    // links
    assert forall|v: int| 0 <= v < n && v != start && s1.dist[v] < u32::MAX implies #[trigger] s1.link_ok(cost, pen, w, h, v) by {
        if v == nb {
            assert(s1.rank(idx) == s0.ord@[idx]);
            assert(s1.rank(nb) == s0.settled@.len());
        } else {
            assert(s0.link_ok(cost, pen, w, h, v));
            let u = s0.prev[v] as int;
            assert(u != nb);
        }
    }
    assert forall|v: int| 0 <= v < n && v != start && s1.dist[v] == u32::MAX implies #[trigger] s1.prev[v] == usize::MAX by {
        assert(v != nb);
        assert(s0.prev[v] == usize::MAX);
    }
    assert(s1.linked(cost, pen, w, h, start));
    // closure
    assert forall|x: int, j: int| #![trigger s1.settled@.contains(x), king_step(x, j, w, h)]
        s1.settled@.contains(x) && 0 <= j < 8 && (x != idx || j < k + 1) && king_step(x, j, w, h) is Some
        implies s1.dist[king_step(x, j, w, h)->0] <= s1.dist[x] + hop_price(cost, pen, w, x, king_step(x, j, w, h)->0) by {
        assert(x != nb);
        lemma_king_hop(cost, pen, w, h, x, j);
        if x == idx && j == k {
        } else {
            assert(s0.dist[king_step(x, j, w, h)->0] <= s0.dist[x] + hop_price(cost, pen, w, x, king_step(x, j, w, h)->0));
        }
    }
}

/// Lowering a neighbour's distance through the cell being settled keeps
/// every predecessor among the cheapest.
proof fn lemma_relaxed_cheap(
    s0: Search,
    s1: Search,
    cost: Seq<u32>,
    pen: int,
    w: int,
    h: int,
    start: int,
    idx: int,
    k: int,
    nb: int,
    nd: u32,
)
    requires
        w >= 0,
        h >= 0,
        pen >= 0,
        0 <= start < w * h,
        cost.len() == w * h,
        s0.ready(cost, pen, w, h, start),
        s0.cheap_pick(cost, pen, w, h, start),
        s0.closed_except(cost, pen, w, h, idx, k),
        s0.settled@.contains(idx),
        forall|x: int| #[trigger] s0.settled@.contains(x) ==> s0.dist[x] <= s0.dist[idx],
        0 <= k < 8,
        king_step(idx, k, w, h) == Some(nb),
        nd < s0.dist[nb],
        nd == s0.dist[idx] + hop_price(cost, pen, w, idx, nb),
        s1.dist@ == s0.dist@.update(nb, nd),
        s1.prev@ == s0.prev@.update(nb, idx as usize),
        s1.settled@ == s0.settled@,
    ensures
        s1.cheap_pick(cost, pen, w, h, start),
{
    let n = w * h;
    lemma_king_hop(cost, pen, w, h, idx, k);
    lemma_hop_nonneg(cost, pen, w, idx, nb);
    assert(!s0.settled@.contains(nb)) by {
        if s0.settled@.contains(nb) {
            assert(s0.dist[nb] <= s0.dist[idx]);
        }
    }
    assert forall|x: int, j: int| #![trigger s1.settled@.contains(x), king_step(x, j, w, h)]
        s1.settled@.contains(x) && 0 <= j < 8 && king_step(x, j, w, h) is Some
            && king_step(x, j, w, h)->0 != start
            && s1.dist[king_step(x, j, w, h)->0] < u32::MAX
            && s1.dist[x] + hop_price(cost, pen, w, x, king_step(x, j, w, h)->0) == s1.dist[king_step(x, j, w, h)->0]
            implies s1.dist[s1.prev[king_step(x, j, w, h)->0] as int] <= s1.dist[x] by {
        let v = king_step(x, j, w, h)->0;
        assert(x != nb);
        lemma_king_hop(cost, pen, w, h, x, j);
        if v == nb {
            if x != idx {
                assert(s0.dist[v] <= s0.dist[x] + hop_price(cost, pen, w, x, v));
            }
        } else {
            assert(s0.link_ok(cost, pen, w, h, v));
            let u = s0.prev[v] as int;
            assert(s0.settled@.contains(u));
            assert(u != nb);
        }
    }
}

/// With positive costs, one successful relaxation keeps the settled cells
/// ahead of the queue and each predecessor the first pick.
#[verifier::rlimit(60)]
#[verifier::spinoff_prover]
proof fn lemma_relaxed_order(
    s0: Search,
    s1: Search,
    cost: Seq<u32>,
    pen: int,
    w: int,
    h: int,
    start: int,
    idx: int,
    k: int,
    nb: int,
    nd: u32,
)
    requires
        w >= 0,
        h >= 0,
        pen >= 0,
        0 <= start < w * h,
        cost.len() == w * h,
        positive(cost),
        s0.ready(cost, pen, w, h, start),
        s0.ordered(cost, pen, w, h, start),
        s0.closed_except(cost, pen, w, h, idx, k),
        s0.settled@.contains(idx),
        forall|x: int| #[trigger] s0.settled@.contains(x) ==> s0.dist[x] <= s0.dist[idx],
        0 <= k < 8,
        king_step(idx, k, w, h) == Some(nb),
        nd < s0.dist[nb],
        nd == s0.dist[idx] + hop_price(cost, pen, w, idx, nb),
        s1.dist@ == s0.dist@.update(nb, nd),
        s1.prev@ == s0.prev@.update(nb, idx as usize),
        s1.settled@ == s0.settled@,
        forall|x: (u32, usize)| #[trigger] s1.queue@.contains(x) <==> (s0.queue@.contains(x) || x == (nd, nb as usize)),
    ensures
        s1.ordered(cost, pen, w, h, start),
{
    let n = w * h;
    lemma_king_hop(cost, pen, w, h, idx, k);
    lemma_hop_pos(cost, pen, w, idx, nb);
    assert(!s0.settled@.contains(nb)) by {
        if s0.settled@.contains(nb) {
            assert(s0.dist[nb] <= s0.dist[idx]);
        }
    }
    assert forall|x: int, e: (u32, usize)| #![trigger s1.settled@.contains(x), s1.queue@.contains(e)]
        s1.settled@.contains(x) && s1.queue@.contains(e) implies above(e, (s1.dist[x], x as usize)) by {
        assert(x != nb);
        if e != (nd, nb as usize) {
            assert(s0.queue@.contains(e));
        } else {
            assert(s0.dist[x] <= s0.dist[idx]);
        }
    }
    assert forall|x: int, j: int| #![trigger s1.settled@.contains(x), king_step(x, j, w, h)]
        s1.settled@.contains(x) && 0 <= j < 8 && king_step(x, j, w, h) is Some
            && king_step(x, j, w, h)->0 != start
            && s1.dist[king_step(x, j, w, h)->0] < u32::MAX
            && s1.dist[x] + hop_price(cost, pen, w, x, king_step(x, j, w, h)->0) == s1.dist[king_step(x, j, w, h)->0]
            implies !above(
            (s1.dist[s1.prev[king_step(x, j, w, h)->0] as int], s1.prev[king_step(x, j, w, h)->0]),
            (s1.dist[x], x as usize),
        ) by {
        let v = king_step(x, j, w, h)->0;
        assert(x != nb);
        lemma_king_hop(cost, pen, w, h, x, j);
        if v == nb {
            if x != idx {
                assert(s0.dist[v] <= s0.dist[x] + hop_price(cost, pen, w, x, v));
            }
        } else {
            assert(s0.link_ok(cost, pen, w, h, v));
            let u = s0.prev[v] as int;
            assert(s0.settled@.contains(u));
            assert(u != nb);
        }
    }
}

/// A fresh search: only `start` is reached, at distance 0, and queued.
fn new_search(n: usize, start: usize) -> (s: Search)
    requires
        start < n,
    ensures
        s.shaped(n as int),
        s.queue_ok(n as int),
        s.settled@ == Set::<int>::empty(),
        forall|v: int| 0 <= v < n ==> s.dist[v] == (if v == start { 0u32 } else { u32::MAX }),
        forall|v: int| 0 <= v < n ==> s.prev[v] == usize::MAX,
{
    let mut dist: Vec<u32> = Vec::new();
    let mut prev: Vec<usize> = Vec::new();
    while dist.len() < n
        invariant
            dist.len() == prev.len(),
            dist.len() <= n,
            forall|v: int| 0 <= v < dist.len() ==> dist[v] == (if v == start { 0u32 } else { u32::MAX }),
            forall|v: int| 0 <= v < prev.len() ==> prev[v] == usize::MAX,
        decreases n - dist.len(),
    {
        if dist.len() == start {
            dist.push(0);
        } else {
            dist.push(u32::MAX);
        }
        prev.push(usize::MAX);
    }
    let mut queue: Vec<(u32, usize)> = Vec::new();
    queue.push((0u32, start));
    let s = Search {
        dist,
        prev,
        queue,
        settled: Ghost(Set::empty()),
        ord: Ghost(Seq::new(n as nat, |_v: int| 0int)),
        via: Ghost(Seq::new(n as nat, |_v: int| 0int)),
    };
    assert forall|v: int| 0 <= v < n && !s.settled@.contains(v) && #[trigger] s.dist[v] < u32::MAX
        implies s.queue@.contains((s.dist[v], v as usize)) by {
        assert(v == start);
        assert(s.queue@[0] == (0u32, start));
    }
    assert forall|e: (u32, usize)| #[trigger] s.queue@.contains(e) implies e.1 < n && s.dist[e.1 as int] <= e.0 < u32::MAX by {
        let j = choose|j: int| 0 <= j < s.queue@.len() && s.queue@[j] == e;
        assert(j == 0);
    }
    s
}

/// Changing only the queue leaves the shape, the links, and the closure alone.
proof fn lemma_queue_only(s0: Search, s1: Search, cost: Seq<u32>, pen: int, w: int, h: int, start: int)
    requires
        s0.shaped(w * h),
        s0.linked(cost, pen, w, h, start),
        s0.closed_except(cost, pen, w, h, -1, 0),
        s1.dist@ == s0.dist@,
        s1.prev@ == s0.prev@,
        s1.via@ == s0.via@,
        s1.settled@ == s0.settled@,
        s1.ord@ == s0.ord@,
    ensures
        s1.shaped(w * h),
        s1.linked(cost, pen, w, h, start),
        s1.closed_except(cost, pen, w, h, -1, 0),
        s0.first_pick(cost, pen, w, h, start) ==> s1.first_pick(cost, pen, w, h, start),
{
    let n = w * h;
    assert forall|v: int| 0 <= v < n && v != start && s1.dist[v] < u32::MAX implies #[trigger] s1.link_ok(cost, pen, w, h, v) by {
        assert(s0.link_ok(cost, pen, w, h, v));
    }
    assert forall|v: int| 0 <= v < n && v != start && s1.dist[v] == u32::MAX implies #[trigger] s1.prev[v] == usize::MAX by {
        assert(s0.prev[v] == usize::MAX);
    }
}

/// Dropping a stale queue entry keeps the invariants.
proof fn lemma_stale(s0: Search, s1: Search, cost: Seq<u32>, pen: int, w: int, h: int, start: int)
    requires
        s0.ready(cost, pen, w, h, start),
        s0.queue.len() > 0,
        s0.queue@.last().0 != s0.dist[s0.queue@.last().1 as int],
        s1.dist@ == s0.dist@,
        s1.prev@ == s0.prev@,
        s1.via@ == s0.via@,
        s1.settled@ == s0.settled@,
        s1.ord@ == s0.ord@,
        s1.queue@ == s0.queue@.drop_last(),
    ensures
        s1.ready(cost, pen, w, h, start),
        s0.closed_except(cost, pen, w, h, -1, 0) ==> s1.closed_except(cost, pen, w, h, -1, 0),
        s0.ordered(cost, pen, w, h, start) ==> s1.ordered(cost, pen, w, h, start),
{
    let n = w * h;
    lemma_pop_least(s0.queue@);
    if s0.ordered(cost, pen, w, h, start) {
        assert forall|x: int, e: (u32, usize)| #![trigger s1.settled@.contains(x), s1.queue@.contains(e)]
            s1.settled@.contains(x) && s1.queue@.contains(e) implies above(e, (s1.dist[x], x as usize)) by {
            assert(s0.queue@.contains(e));
        }
    }
    assert forall|v: int| 0 <= v < n && !s1.settled@.contains(v) && #[trigger] s1.dist[v] < u32::MAX
        implies s1.queue@.contains((s1.dist[v], v as usize)) by {
        assert(s0.queue@.contains((s0.dist[v], v as usize)));
    }
    assert forall|x: int, e: (u32, usize)| s1.settled@.contains(x) && s1.queue@.contains(e) implies s1.dist[x] <= e.0 by {
        assert(s0.queue@.contains(e));
    }
    assert forall|v: int| 0 <= v < n && v != start && s1.dist[v] < u32::MAX implies #[trigger] s1.link_ok(cost, pen, w, h, v) by {
        assert(s0.link_ok(cost, pen, w, h, v));
    }
    assert forall|v: int| 0 <= v < n && v != start && s1.dist[v] == u32::MAX implies #[trigger] s1.prev[v] == usize::MAX by {
        assert(s0.prev[v] == usize::MAX);
    }
}

/// Settling the least queued cell keeps the invariants; the cell's own
/// neighbours are then still to be relaxed.
#[verifier::rlimit(40)]
#[verifier::spinoff_prover]
proof fn lemma_settle(s0: Search, s1: Search, cost: Seq<u32>, pen: int, w: int, h: int, start: int, idx: int, d: u32)
    requires
        w >= 0,
        h >= 0,
        s0.ready(cost, pen, w, h, start),
        s0.closed_except(cost, pen, w, h, -1, 0),
        s0.queue.len() > 0,
        s0.queue@.last() == (d, idx as usize),
        0 <= idx <= usize::MAX,
        d == s0.dist[idx],
        s1.dist@ == s0.dist@,
        s1.prev@ == s0.prev@,
        s1.via@ == s0.via@,
        s1.queue@ == s0.queue@.drop_last(),
        s1.settled@ == s0.settled@.insert(idx),
        s1.ord@ == s0.ord@.update(idx, s0.settled@.len() as int),
    ensures
        !s0.settled@.contains(idx),
        s1.ready(cost, pen, w, h, start),
        s1.closed_except(cost, pen, w, h, idx, 0),
        s1.settled@.len() == s0.settled@.len() + 1,
        s1.settled@.len() <= w * h,
        forall|x: int| #[trigger] s1.settled@.contains(x) ==> s1.dist[x] <= d,
{
    let n = w * h;
    let q0 = s0.queue@;
    lemma_pop_least(q0);
    assert(q0.contains(q0.last())) by {
        assert(q0[q0.len() - 1] == q0.last());
    }
    assert(!s0.settled@.contains(idx));
    assert(idx < n);
    let c = s0.settled@.len() as int;
    assert(s1.settled@.len() == c + 1);
    assert forall|x: int| #[trigger] s1.settled@.contains(x) implies 0 <= x < n && s1.dist[x] < u32::MAX
        && 0 <= s1.ord@[x] < s1.settled@.len() by {
        if x != idx {
            assert(s0.settled@.contains(x));
        }
    }
    assert(s1.settled@.len() <= n) by {
        vstd::set_lib::lemma_int_range(0, n);
        assert(s1.settled@.subset_of(vstd::set_lib::set_int_range(0, n)));
        vstd::set_lib::lemma_len_subset(s1.settled@, vstd::set_lib::set_int_range(0, n));
    }
    assert(s1.shaped(n));
    assert forall|v: int| 0 <= v < n && !s1.settled@.contains(v) && #[trigger] s1.dist[v] < u32::MAX
        implies s1.queue@.contains((s1.dist[v], v as usize)) by {
        assert(s0.queue@.contains((s0.dist[v], v as usize)));
    }
    assert forall|v: int| #[trigger] s1.settled@.contains(v) implies !s1.queue@.contains((s1.dist[v], v as usize)) by {
        if v != idx {
            assert(s0.settled@.contains(v));
        }
    }
    assert forall|x: int, e: (u32, usize)| s1.settled@.contains(x) && s1.queue@.contains(e) implies s1.dist[x] <= e.0 by {
        assert(q0.contains(e));
        if x != idx {
            assert(s0.settled@.contains(x));
        }
    }
    assert(s1.queue_ok(n));
    assert forall|v: int| 0 <= v < n && v != start && s1.dist[v] < u32::MAX implies #[trigger] s1.link_ok(cost, pen, w, h, v) by {
        assert(s0.link_ok(cost, pen, w, h, v));
        let u = s0.prev[v] as int;
        assert(s0.settled@.contains(u));
        assert(u != idx);
        assert(s1.rank(u) == s0.rank(u));
    }
    assert forall|v: int| 0 <= v < n && v != start && s1.dist[v] == u32::MAX implies #[trigger] s1.prev[v] == usize::MAX by {
        assert(s0.prev[v] == usize::MAX);
    }
    assert(s1.linked(cost, pen, w, h, start));
    assert forall|x: int, k: int| #![trigger s1.settled@.contains(x), king_step(x, k, w, h)]
        s1.settled@.contains(x) && 0 <= k < 8 && (x != idx || k < 0) && king_step(x, k, w, h) is Some
        implies s1.dist[king_step(x, k, w, h)->0] <= s1.dist[x] + hop_price(cost, pen, w, x, king_step(x, k, w, h)->0) by {
        assert(s0.settled@.contains(x));
    }
    assert forall|x: int| #[trigger] s1.settled@.contains(x) implies s1.dist[x] <= d by {
        if x != idx {
            assert(s0.settled@.contains(x));
        }
    }
}

/// With positive costs, settling the least queued cell keeps the settled
/// cells ahead of the queue and each predecessor the first pick.
#[verifier::rlimit(40)]
#[verifier::spinoff_prover]
proof fn lemma_settle_order(s0: Search, s1: Search, cost: Seq<u32>, pen: int, w: int, h: int, start: int, idx: int, d: u32)
    requires
        w >= 0,
        h >= 0,
        s0.ready(cost, pen, w, h, start),
        s0.ordered(cost, pen, w, h, start),
        s0.queue.len() > 0,
        s0.queue@.last() == (d, idx as usize),
        0 <= idx < w * h,
        !s0.settled@.contains(idx),
        d == s0.dist[idx],
        s1.dist@ == s0.dist@,
        s1.prev@ == s0.prev@,
        s1.queue@ == s0.queue@.drop_last(),
        s1.settled@ == s0.settled@.insert(idx),
    ensures
        s1.ordered(cost, pen, w, h, start),
{
    let q0 = s0.queue@;
    lemma_pop_least(q0);
    assert(q0.contains(q0.last())) by {
        assert(q0[q0.len() - 1] == q0.last());
    }
    assert forall|x: int, e: (u32, usize)| #![trigger s1.settled@.contains(x), s1.queue@.contains(e)]
        s1.settled@.contains(x) && s1.queue@.contains(e) implies above(e, (s1.dist[x], x as usize)) by {
        assert(q0.contains(e));
        if x != idx {
            assert(s0.settled@.contains(x));
        }
    }
    assert forall|x: int, j: int| #![trigger s1.settled@.contains(x), king_step(x, j, w, h)]
        s1.settled@.contains(x) && 0 <= j < 8 && king_step(x, j, w, h) is Some
            && king_step(x, j, w, h)->0 != start
            && s1.dist[king_step(x, j, w, h)->0] < u32::MAX
            && s1.dist[x] + hop_price(cost, pen, w, x, king_step(x, j, w, h)->0) == s1.dist[king_step(x, j, w, h)->0]
            implies !above(
            (s1.dist[s1.prev[king_step(x, j, w, h)->0] as int], s1.prev[king_step(x, j, w, h)->0]),
            (s1.dist[x], x as usize),
        ) by {
        let v = king_step(x, j, w, h)->0;
        lemma_king_hop(cost, pen, w, h, x, j);
        if x == idx {
            assert(s0.link_ok(cost, pen, w, h, v));
            let u = s0.prev[v] as int;
            assert(s0.settled@.contains(u));
            assert(above(q0.last(), (s0.dist[u], u as usize)));
        } else {
            assert(s0.settled@.contains(x));
        }
    }
}

/// Any walk out of `start` either stays on settled cells, and then costs at
/// least the distance of where it ends, or leaves them, and then costs at
/// least `m`, the least distance among reached but unsettled cells.
proof fn lemma_cut(s: Search, cost: Seq<u32>, pen: int, w: int, h: int, start: int, m: int, p: Seq<int>)
    requires
        w >= 0,
        h >= 0,
        pen >= 0,
        s.shaped(w * h),
        s.dist[start] == 0,
        s.closed_except(cost, pen, w, h, -1, 0),
        m <= u32::MAX,
        forall|y: int| 0 <= y < w * h && !s.settled@.contains(y) && #[trigger] s.dist[y] < u32::MAX ==> m <= s.dist[y],
        king_walk(p, w, h),
        p[0] == start,
    ensures
        0 <= p.last() < w * h,
        (forall|i: int| 0 <= i < p.len() ==> s.settled@.contains(#[trigger] p[i])) ==> s.dist[p.last()] <= walk_cost(
            cost,
            pen,
            w,
            p,
        ),
        !(forall|i: int| 0 <= i < p.len() ==> s.settled@.contains(#[trigger] p[i])) ==> m <= walk_cost(cost, pen, w, p),
    decreases p.len(),
{
    if p.len() == 1 {
        assert(walk_cost(cost, pen, w, p) == 0);
        if !s.settled@.contains(start) {
            assert(s.dist[start] < u32::MAX);
        }
    } else {
        let q = p.drop_last();
        assert(king_walk(q, w, h)) by {
            assert forall|i: int| 0 <= i < q.len() - 1 implies king_adjacent(#[trigger] q[i], q[i + 1], w, h) by {
                assert(king_adjacent(p[i], p[i + 1], w, h));
            }
        }
        lemma_cut(s, cost, pen, w, h, start, m, q);
        lemma_walk_cost_last(cost, pen, w, p);
        let a = q.last();
        let b = p.last();
        assert(king_adjacent(p[p.len() - 2], p[p.len() - 1], w, h));
        let k = choose|k: int| 0 <= k < 8 && #[trigger] king_step(a, k, w, h) == Some(b);
        lemma_king_hop(cost, pen, w, h, a, k);
        lemma_hop_nonneg(cost, pen, w, a, b);
        if forall|i: int| 0 <= i < q.len() ==> s.settled@.contains(#[trigger] q[i]) {
            assert(s.settled@.contains(q[q.len() - 1]));
            assert(s.dist[b] <= s.dist[a] + hop_price(cost, pen, w, a, b));
            if !s.settled@.contains(b) {
                if s.dist[b] == u32::MAX {
                } else {
                }
                assert(!(forall|i: int| 0 <= i < p.len() ==> s.settled@.contains(#[trigger] p[i])));
            } else {
                assert forall|i: int| 0 <= i < p.len() implies s.settled@.contains(#[trigger] p[i]) by {
                    if i < q.len() {
                        assert(s.settled@.contains(q[i]));
                    }
                }
            }
        } else {
            let i0 = choose|i: int| 0 <= i < q.len() && !s.settled@.contains(#[trigger] q[i]);
            assert(!s.settled@.contains(p[i0]));
        }
    }
}

/// Appending a cell to a path listed from the goal back adds its step to the
/// price of every suffix.
proof fn lemma_price_push(path: Seq<usize>, cur: usize, cost: Seq<u32>, pen: int, width: int, j: int)
    requires
        0 <= j < path.len(),
    ensures
        price_along(path.push(cur), cost, pen, width, j) == hop_price(cost, pen, width, cur as int, path.last() as int)
            + price_along(path, cost, pen, width, j),
        price_along(path.push(cur), cost, pen, width, path.len() as int) == 0,
{
    let r = cells(path.skip(j)).reverse();
    let r1 = cells(path.push(cur).skip(j)).reverse();
    assert(r1 =~= seq![cur as int] + r);
    assert(r1.drop_first() =~= r);
    assert(r[0] == path.last() as int);
    assert(cells(path.push(cur).skip(path.len() as int)).reverse() =~= seq![cur as int]);
}

/// With positive costs, a path traced back along first-pick predecessors from
/// the goal takes, at every step, the first of the best entries.
#[verifier::rlimit(60)]
#[verifier::spinoff_prover]
proof fn lemma_first_best(
    s: Search,
    path: Seq<usize>,
    cost: Seq<u32>,
    pen: int,
    w: int,
    h: int,
    start: int,
    goal: int,
    bound: int,
)
    requires
        w >= 0,
        h >= 0,
        pen >= 0,
        cost.len() == w * h,
        positive(cost),
        0 <= start < w * h,
        s.shaped(w * h),
        s.linked(cost, pen, w, h, start),
        s.closed_except(cost, pen, w, h, -1, 0),
        s.first_pick(cost, pen, w, h, start),
        bound <= u32::MAX,
        forall|y: int| 0 <= y < w * h && !s.settled@.contains(y) && #[trigger] s.dist[y] < u32::MAX ==> bound <= s.dist[y],
        forall|x: int| #[trigger] s.settled@.contains(x) ==> s.dist[x] <= bound,
        s.dist[goal] <= bound,
        path.len() >= 1,
        path[0] == goal,
        path.len() > 1 ==> path.last() == start,
        forall|i: int| 0 <= i < path.len() ==> #[trigger] path[i] < w * h,
        forall|i: int| 0 <= i < path.len() - 1 ==> s.prev[#[trigger] path[i] as int] == path[i + 1] && path[i] != start
            && s.dist[path[i] as int] < u32::MAX,
        forall|j: int| 0 <= j < path.len() ==> price_along(path, cost, pen, w, j) + s.dist[path.last() as int]
            == s.dist[#[trigger] path[j] as int],
    ensures
        first_best_steps(path, cost, pen, w, h, start),
{
    assert forall|i: int, u: int, du: int|
        #![trigger least_price(cost, pen, w, h, start, u, du), path[i]]
        0 <= i < path.len() - 1 && least_price(cost, pen, w, h, start, u, du) && king_adjacent(u, path[i] as int, w, h)
            && du + hop_price(cost, pen, w, u, path[i] as int) == price_along(path, cost, pen, w, i)
            implies price_along(path, cost, pen, w, i + 1) < du || (price_along(path, cost, pen, w, i + 1) == du
            && path[i + 1] <= u) by {
        let v = path[i] as int;
        let pu = path[i + 1] as int;
        assert(s.prev[v] == path[i + 1]);
        assert(s.link_ok(cost, pen, w, h, v));
        assert(path[path.len() - 1] == path.last());
        assert(s.dist[path.last() as int] == 0);
        assert(price_along(path, cost, pen, w, i) == s.dist[v]);
        assert(price_along(path, cost, pen, w, i + 1) == s.dist[pu]);
        if i > 0 {
            assert(s.prev[path[i - 1] as int] == path[i]);
            assert(s.link_ok(cost, pen, w, h, path[i - 1] as int));
            assert(s.settled@.contains(v));
        }
        assert(s.dist[v] <= bound);
        lemma_hop_pos(cost, pen, w, u, v);
        reveal(least_price);
        let p = choose|p: Seq<int>|
            #![trigger walk_cost(cost, pen, w, p)]
            king_walk(p, w, h) && p[0] == start && p.last() == u && walk_cost(cost, pen, w, p) == du;
        lemma_cut(s, cost, pen, w, h, start, bound, p);
        assert(s.settled@.contains(u)) by {
            if !(forall|t: int| 0 <= t < p.len() ==> s.settled@.contains(#[trigger] p[t])) {
                assert(bound <= du);
            }
            assert(s.settled@.contains(p[p.len() - 1]));
        }
        let k = choose|k: int| 0 <= k < 8 && #[trigger] king_step(u, k, w, h) == Some(v);
        lemma_king_hop(cost, pen, w, h, u, k);
        assert(s.dist[v] <= s.dist[u] + hop_price(cost, pen, w, u, v));
        assert(s.dist[u] == du);
        assert(!above((s.dist[s.prev[v] as int], s.prev[v]), (s.dist[u], u as usize)));
    }
}

/// Settling a cell no nearer than every cell settled before it keeps every
/// predecessor among the cheapest.
proof fn lemma_settle_cheap(s0: Search, s1: Search, cost: Seq<u32>, pen: int, w: int, h: int, start: int, idx: int, d: u32)
    requires
        w >= 0,
        h >= 0,
        w * h <= isize::MAX,
        s0.cheap_pick(cost, pen, w, h, start),
        s1.shaped(w * h),
        s1.linked(cost, pen, w, h, start),
        s1.dist@ == s0.dist@,
        s1.prev@ == s0.prev@,
        s1.settled@ == s0.settled@.insert(idx),
        s1.dist[idx] == d,
        forall|x: int| #[trigger] s1.settled@.contains(x) ==> s1.dist[x] <= d,
    ensures
        s1.cheap_pick(cost, pen, w, h, start),
{
    assert forall|x: int, j: int| #![trigger s1.settled@.contains(x), king_step(x, j, w, h)]
        s1.settled@.contains(x) && 0 <= j < 8 && king_step(x, j, w, h) is Some
            && king_step(x, j, w, h)->0 != start
            && s1.dist[king_step(x, j, w, h)->0] < u32::MAX
            && s1.dist[x] + hop_price(cost, pen, w, x, king_step(x, j, w, h)->0) == s1.dist[king_step(x, j, w, h)->0]
            implies s1.dist[s1.prev[king_step(x, j, w, h)->0] as int] <= s1.dist[x] by {
        let v = king_step(x, j, w, h)->0;
        if x == idx {
            lemma_king_fits(x, j, w, h);
            lemma_king_hop(cost, pen, w, h, x, j);
            assert(s1.link_ok(cost, pen, w, h, v));
            assert(s1.settled@.contains(s1.prev[v] as int));
        } else {
            assert(s0.settled@.contains(x));
        }
    }
}

/// A path traced back along predecessors from the goal steps, every time, to
/// a cell reached for no more than any other best entry.
#[verifier::rlimit(60)]
#[verifier::spinoff_prover]
proof fn lemma_cheapest(
    s: Search,
    path: Seq<usize>,
    cost: Seq<u32>,
    pen: int,
    w: int,
    h: int,
    start: int,
    goal: int,
    bound: int,
)
    requires
        w >= 0,
        h >= 0,
        pen >= 0,
        w * h <= isize::MAX,
        cost.len() == w * h,
        0 <= start < w * h,
        s.shaped(w * h),
        s.linked(cost, pen, w, h, start),
        s.closed_except(cost, pen, w, h, -1, 0),
        s.cheap_pick(cost, pen, w, h, start),
        bound <= u32::MAX,
        forall|y: int| 0 <= y < w * h && !s.settled@.contains(y) && #[trigger] s.dist[y] < u32::MAX ==> bound <= s.dist[y],
        forall|x: int| #[trigger] s.settled@.contains(x) ==> s.dist[x] <= bound,
        path.len() >= 1,
        path[0] == goal,
        path.len() > 1 ==> path.last() == start,
        forall|i: int| 0 <= i < path.len() ==> #[trigger] path[i] < w * h,
        forall|i: int| 0 <= i < path.len() - 1 ==> s.prev[#[trigger] path[i] as int] == path[i + 1] && path[i] != start
            && s.dist[path[i] as int] < u32::MAX,
        forall|j: int| 0 <= j < path.len() ==> price_along(path, cost, pen, w, j) + s.dist[path.last() as int]
            == s.dist[#[trigger] path[j] as int],
    ensures
        cheapest_steps(path, cost, pen, w, h, start),
{
    assert forall|i: int, u: int, du: int|
        #![trigger least_price(cost, pen, w, h, start, u, du), path[i]]
        0 <= i < path.len() - 1 && least_price(cost, pen, w, h, start, u, du) && king_adjacent(u, path[i] as int, w, h)
            && du + hop_price(cost, pen, w, u, path[i] as int) == price_along(path, cost, pen, w, i)
            implies price_along(path, cost, pen, w, i + 1) <= du by {
        let v = path[i] as int;
        let pu = path[i + 1] as int;
        assert(s.prev[v] == path[i + 1]);
        assert(s.link_ok(cost, pen, w, h, v));
        assert(path[path.len() - 1] == path.last());
        assert(s.dist[path.last() as int] == 0);
        assert(price_along(path, cost, pen, w, i) == s.dist[v]);
        assert(price_along(path, cost, pen, w, i + 1) == s.dist[pu]);
        assert(s.settled@.contains(pu));
        reveal(least_price);
        let p = choose|p: Seq<int>|
            #![trigger walk_cost(cost, pen, w, p)]
            king_walk(p, w, h) && p[0] == start && p.last() == u && walk_cost(cost, pen, w, p) == du;
        lemma_cut(s, cost, pen, w, h, start, bound, p);
        if forall|t: int| 0 <= t < p.len() ==> s.settled@.contains(#[trigger] p[t]) {
            assert(s.settled@.contains(p[p.len() - 1]));
            assert(s.settled@.contains(u));
            let k = choose|k: int| 0 <= k < 8 && #[trigger] king_step(u, k, w, h) == Some(v);
            lemma_king_hop(cost, pen, w, h, u, k);
            assert(s.dist[v] <= s.dist[u] + hop_price(cost, pen, w, u, v));
            assert(s.dist[u] <= du);
            assert(s.dist[u] + hop_price(cost, pen, w, u, v) == s.dist[v]);
        } else {
            assert(bound <= du);
        }
    }
}

/// Carves the least-cost path from `start` to `goal` over `cost`, moving
/// between eight-neighbours: entering a cell costs its cost (√2 times it on a
/// diagonal), and with a bias each step against the heading costs the bias
/// penalty on top. The path is returned from `goal` back to `start`. When no
/// walk reaches `goal` below `u32::MAX`, the path is `goal` alone. Where
/// several walks tie for least, each cell on the path is entered from a
/// neighbour reached for least; when every cost is positive, the one with the
/// lowest index among those. With free cells the index rule does not hold: a
/// cell reached through free steps is settled after cells of the same price
/// with higher indices, and a tie between equally cheap neighbours then goes
/// to whichever was settled first.
#[verifier::rlimit(80)]
#[verifier::spinoff_prover]
pub fn carve(grid: &Grid, cost: &[u32], start: usize, goal: usize, bias: Option<(&Heading, u32)>) -> (path: Vec<usize>)
    requires
        grid.wf(),
        grid.spec_width() * grid.spec_height() <= isize::MAX,
        cost.len() == grid.spec_width() * grid.spec_height(),
        start < grid.spec_width() * grid.spec_height(),
        goal < grid.spec_width() * grid.spec_height(),
    ensures
        least_cost_path(path@, cost@, against_penalty(bias), grid.spec_width(), grid.spec_height(), start as int, goal as int),
        cheapest_steps(path@, cost@, against_penalty(bias), grid.spec_width(), grid.spec_height(), start as int),
        positive(cost@) ==> first_best_steps(
            path@,
            cost@,
            against_penalty(bias),
            grid.spec_width(),
            grid.spec_height(),
            start as int,
        ),
{
    let width = grid.width();
    let height = grid.height();
    let len = grid.len();
    let ghost w = width as int;
    let ghost h = height as int;
    let ghost n = w * h;
    let ghost pen = against_penalty(bias);
    assert(pen >= 0);
    let mut s = new_search(len, start);
    assert(s.cheap_pick(cost@, pen, w, h, start as int));
    assert(s.linked(cost@, pen, w, h, start as int));
    let ghost mut bound: int = 0;
    loop
        invariant_except_break
            s.queue_ok(n),
            positive(cost@) ==> s.settled_first(),
        invariant
            positive(cost@) ==> s.first_pick(cost@, pen, w, h, start as int),
            s.cheap_pick(cost@, pen, w, h, start as int),
            len == n,
            n == w * h,
            w >= 0,
            h >= 0,
            w == grid.spec_width(),
            h == grid.spec_height(),
            grid.wf(),
            n <= isize::MAX,
            cost.len() == n,
            start < n,
            goal < n,
            pen == against_penalty(bias),
            pen >= 0,
            s.shaped(n),
            s.linked(cost@, pen, w, h, start as int),
            s.closed_except(cost@, pen, w, h, -1, 0),
            !s.settled@.contains(goal as int),
            s.settled@.len() <= n,
        ensures
            bound <= u32::MAX,
            s.dist[goal as int] <= bound,
            forall|x: int| #[trigger] s.settled@.contains(x) ==> s.dist[x] <= bound,
            forall|y: int| 0 <= y < n && !s.settled@.contains(y) && #[trigger] s.dist[y] < u32::MAX ==> bound <= s.dist[y],
        decreases n - s.settled@.len(), s.queue.len(),
    {
        let ghost s0 = s;
        let top = s.queue.pop();
        match top {
            None => {
                proof {
                    lemma_queue_only(s0, s, cost@, pen, w, h, start as int);
                    bound = u32::MAX as int;
                    assert forall|y: int| 0 <= y < n && !s.settled@.contains(y) && #[trigger] s.dist[y] < u32::MAX
                        implies bound <= s.dist[y] by {
                        assert(s0.queue@.contains((s0.dist[y], y as usize)));
                    }
                }
                break;
            },
            Some((d, index)) => {
                proof {
                    lemma_pop_least(s0.queue@);
                    assert(s0.queue@.contains(s0.queue@.last())) by {
                        assert(s0.queue@[s0.queue@.len() - 1] == s0.queue@.last());
                    }
                }
                if index == goal {
                    proof {
                        lemma_queue_only(s0, s, cost@, pen, w, h, start as int);
                        bound = d as int;
                        assert forall|x: int| #[trigger] s.settled@.contains(x) implies s.dist[x] <= bound by {
                            assert(s0.queue@.contains(s0.queue@.last()));
                        }
                        assert forall|y: int| 0 <= y < n && !s.settled@.contains(y) && #[trigger] s.dist[y] < u32::MAX
                            implies bound <= s.dist[y] by {
                            assert(s0.queue@.contains((s0.dist[y], y as usize)));
                        }
                    }
                    break;
                }
                if d > s.dist[index] {
                    proof {
                        lemma_stale(s0, s, cost@, pen, w, h, start as int);
                    }
                    continue;
                }
                proof {
                    s.settled@ = s.settled@.insert(index as int);
                    s.ord@ = s.ord@.update(index as int, s0.settled@.len() as int);
                    lemma_settle(s0, s, cost@, pen, w, h, start as int, index as int, d);
                    lemma_settle_cheap(s0, s, cost@, pen, w, h, start as int, index as int, d);
                    if positive(cost@) {
                        lemma_settle_order(s0, s, cost@, pen, w, h, start as int, index as int, d);
                    }
                }
                let ghost settled_now = s.settled@;
                let mut k: usize = 0;
                while k < 8
                    invariant
                        len == n,
                        n == w * h,
                        w >= 0,
                        h >= 0,
                        w == grid.spec_width(),
                        h == grid.spec_height(),
                        grid.wf(),
                        n <= isize::MAX,
                        cost.len() == n,
                        start < n,
                        goal < n,
                        pen == against_penalty(bias),
                        k <= 8,
                        s.ready(cost@, pen, w, h, start as int),
                        s.closed_except(cost@, pen, w, h, index as int, k as int),
                        s.settled@ == settled_now,
                        settled_now.contains(index as int),
                        settled_now.len() <= n,
                        !settled_now.contains(goal as int),
                        s.dist[index as int] == d,
                        forall|x: int| #[trigger] s.settled@.contains(x) ==> s.dist[x] <= d,
                        positive(cost@) ==> s.ordered(cost@, pen, w, h, start as int),
                        s.cheap_pick(cost@, pen, w, h, start as int),
                    decreases 8 - k,
                {
                    s.relax(grid, cost, bias, start, index, d, k);
                    k += 1;
                }
                assert(s.closed_except(cost@, pen, w, h, -1, 0)) by {
                    assert forall|x: int, j: int| #![trigger s.settled@.contains(x), king_step(x, j, w, h)]
                        s.settled@.contains(x) && 0 <= j < 8 && (x != -1 || j < 0) && king_step(x, j, w, h) is Some
                        implies s.dist[king_step(x, j, w, h)->0] <= s.dist[x] + hop_price(cost@, pen, w, x, king_step(x, j, w, h)->0) by {
                        assert(x != index || j < 8);
                    }
                }
            },
        }
    }
    // Every walk from start to goal costs at least the goal's distance.
    assert forall|p: Seq<int>| king_walk(p, w, h) && p[0] == start && p.last() == goal
        implies s.dist[goal as int] <= #[trigger] walk_cost(cost@, pen, w, p) by {
        lemma_cut(s, cost@, pen, w, h, start as int, bound, p);
        assert(!s.settled@.contains(p[p.len() - 1]));
    }
    let mut path: Vec<usize> = Vec::new();
    let mut cur: usize = goal;
    while cur != usize::MAX
        invariant_except_break
            cur != usize::MAX ==> cur < n,
            path.len() == 0 ==> cur == goal,
            path.len() > 0 && cur != usize::MAX ==> s.prev[path@.last() as int] == cur && path@.last() != start
                && s.dist[path@.last() as int] < u32::MAX,
            path.len() > 0 && cur == usize::MAX ==> path.len() == 1 && s.dist[goal as int] == u32::MAX && goal != start,
            path.len() > 0 && cur != usize::MAX ==> s.rank(cur as int) < s.rank(path@.last() as int),
        invariant
            len == n,
            n == w * h,
            w >= 0,
            h >= 0,
            w == grid.spec_width(),
            h == grid.spec_height(),
            n <= isize::MAX,
            start < n,
            goal < n,
            pen >= 0,
            s.shaped(n),
            s.linked(cost@, pen, w, h, start as int),
            path.len() > 0 ==> path[0] == goal,
            forall|i: int| 0 <= i < path.len() ==> path[i] < n,
            forall|i: int, j: int| 0 <= i < j < path.len() ==> s.rank(path[j] as int) < s.rank(path[i] as int),
            path.len() > 0 ==> king_walk(cells(path@).reverse(), w, h),
            path.len() > 0 ==> walk_cost(cost@, pen, w, cells(path@).reverse()) + s.dist[path@.last() as int]
                == s.dist[goal as int],
            path.len() >= 2 ==> s.dist[goal as int] < u32::MAX,
            forall|i: int| 0 <= i < path.len() - 1 ==> s.prev[#[trigger] path[i] as int] == path[i + 1] && path[i] != start
                && s.dist[path[i] as int] < u32::MAX,
            forall|j: int| 0 <= j < path.len() ==> price_along(path@, cost@, pen, w, j) + s.dist[path@.last() as int]
                == s.dist[#[trigger] path[j] as int],
        ensures
            path.len() >= 1,
            path@.last() == start || (path.len() == 1 && s.dist[goal as int] == u32::MAX && goal != start),
        decreases (if cur == usize::MAX { 0 } else { s.rank(cur as int) + 1 }),
    {
        let ghost old_path = path@;
        proof {
            if path.len() > 0 {
                let last = path@.last() as int;
                assert(s.link_ok(cost@, pen, w, h, last));
            }
            assert(s.rank(cur as int) >= 0) by {
                if s.settled@.contains(cur as int) {
                }
            }
        }
        path.push(cur);
        proof {
            if old_path.len() > 0 {
                let last = old_path.last() as int;
                assert(s.link_ok(cost@, pen, w, h, last));
                assert forall|j: int| 0 <= j < path.len() implies price_along(path@, cost@, pen, w, j) + s.dist[path@.last() as int]
                    == s.dist[#[trigger] path[j] as int] by {
                    if j < old_path.len() {
                        lemma_price_push(old_path, cur, cost@, pen, w, j);
                        assert(path@ == old_path.push(cur));
                        assert(old_path[j] == path[j]);
                    } else {
                        lemma_price_push(old_path, cur, cost@, pen, w, 0);
                    }
                }
                assert forall|i: int| 0 <= i < path.len() - 1 implies s.prev[#[trigger] path[i] as int] == path[i + 1]
                    && path[i] != start && s.dist[path[i] as int] < u32::MAX by {
                    assert(path[i] == old_path[i]);
                    if i < old_path.len() - 1 {
                        assert(path[i + 1] == old_path[i + 1]);
                    }
                }
            } else {
                assert(cells(path@.skip(0)).reverse() =~= seq![cur as int]);
                assert(price_along(path@, cost@, pen, w, 0) == 0);
            }
        }
        proof {
            let r = cells(path@).reverse();
            let r0 = cells(old_path).reverse();
            if old_path.len() > 0 {
                let last = old_path.last() as int;
                assert(r =~= seq![cur as int].add(r0));
                assert(r.drop_first() =~= r0);
                assert(r0[0] == last);
                assert(s.link_ok(cost@, pen, w, h, last));
                let k = s.via@[last];
                assert(king_step(cur as int, k, w, h) == Some(last));
                assert(king_adjacent(cur as int, last, w, h));
                assert forall|i: int| 0 <= i < r.len() - 1 implies king_adjacent(#[trigger] r[i], r[i + 1], w, h) by {
                    if i > 0 {
                        assert(r[i] == r0[i - 1]);
                        assert(r[i + 1] == r0[i]);
                        assert(king_adjacent(r0[i - 1], r0[i], w, h));
                    }
                }
                assert(s.dist[last] == s.dist[cur as int] + hop_price(cost@, pen, w, cur as int, last));
            } else {
                assert(r =~= seq![cur as int]);
                assert(walk_cost(cost@, pen, w, r) == 0);
            }
        }
        if cur == start {
            break;
        }
        proof {
            let c = cur as int;
            if s.dist[c] < u32::MAX {
                assert(s.link_ok(cost@, pen, w, h, c));
            } else {
                assert(path.len() == 1);
                assert(s.prev[c] == usize::MAX);
            }
        }
        cur = s.prev[cur];
    }
    proof {
        assert forall|i: int, j: int| 0 <= i < path.len() && 0 <= j < path.len() && i != j implies path[i] != path[j] by {
            if i < j {
                assert(s.rank(path[j] as int) < s.rank(path[i] as int));
            } else {
                assert(s.rank(path[i] as int) < s.rank(path[j] as int));
            }
        }
        if goal == start {
            if path.len() > 1 {
                assert(s.rank(path[path.len() - 1] as int) < s.rank(path[0] as int));
            }
            assert(path@ =~= seq![goal]);
        }
        lemma_cheapest(s, path@, cost@, pen, w, h, start as int, goal as int, bound);
        if positive(cost@) {
            lemma_first_best(s, path@, cost@, pen, w, h, start as int, goal as int, bound);
        }
    }
    path
}

} // verus!
