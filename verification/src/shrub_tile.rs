//! Void finding for the shrub-tile raster: how far each pixel sits from the
//! nearest inked pixel, so void fills aim at the emptiest pocket.

use vstd::prelude::*;
use crate::wave::marked_cells;
use crate::worldgen::vegetation::cheb;

verus! {

/// `d` is the king-move (eight-connected) distance from pixel `i` of an
/// `n × n` tile to its nearest inked pixel, or `i32::MAX` when nothing is
/// inked.
pub open spec fn ink_distance(mask: Seq<bool>, n: int, i: int, d: int) -> bool {
    if exists|j: int| 0 <= j < n * n && #[trigger] mask[j] {
        &&& exists|j: int| 0 <= j < n * n && #[trigger] mask[j] && d == cheb(i, j, n)
        &&& forall|j: int| 0 <= j < n * n && #[trigger] mask[j] ==> d <= cheb(i, j, n)
    } else {
        d == i32::MAX
    }
}

/// Pixels of an `n × n` tile are fewer than `n` king steps apart.
proof fn lemma_cheb_below(a: int, b: int, n: int)
    requires
        n > 0,
        0 <= a < n * n,
        0 <= b < n * n,
    ensures
        0 <= cheb(a, b, n) < n,
{
    crate::field::lemma_cell_split(a, n, n);
    crate::field::lemma_cell_split(b, n, n);
}

/// King-move distance between two pixels of an `n`-wide tile.
fn cheb_exec(a: usize, b: usize, n: usize) -> (d: usize)
    requires
        n > 0,
        a < n * n,
        b < n * n,
    ensures
        d == cheb(a as int, b as int, n as int),
        d < n,
{
    proof {
        lemma_cheb_below(a as int, b as int, n as int);
    }
    let (ax, ay, bx, by) = (a % n, a / n, b % n, b / n);
    let dx = if ax >= bx { ax - bx } else { bx - ax };
    let dy = if ay >= by { ay - by } else { by - ay };
    if dx >= dy { dx } else { dy }
}

/// Eight-connected distance from every inked pixel of an `n × n` tile: 0 on
/// ink, rising by one per king step, `i32::MAX` where nothing is inked.
pub fn distance_to_ink(mask: &[bool], n: usize) -> (dist: Vec<i32>)
    requires
        mask.len() == n * n,
        n <= i32::MAX,
    ensures
        dist.len() == n * n,
        forall|i: int| 0 <= i < n * n ==> ink_distance(mask@, n as int, i, #[trigger] dist[i] as int),
        forall|i: int| 0 <= i < n * n ==> (#[trigger] dist[i] == 0) == mask[i],
{
    let inks = marked_cells(mask);
    let total = n * n;
    let mut dist: Vec<i32> = Vec::new();
    let mut i: usize = 0;
    while i < total
        invariant
            total == n * n,
            mask.len() == total,
            n <= i32::MAX,
            i <= total,
            dist.len() == i,
            forall|k: int| 0 <= k < inks.len() ==> inks[k] < mask.len() && mask[inks[k] as int],
            forall|c: int| 0 <= c < mask.len() && mask[c] ==> inks@.contains(c as usize),
            forall|q: int| 0 <= q < i ==> ink_distance(mask@, n as int, q, #[trigger] dist[q] as int),
            forall|q: int| 0 <= q < i ==> (#[trigger] dist[q] == 0) == mask[q],
        decreases total - i,
    {
        let mut best: i32 = i32::MAX;
        let mut k: usize = 0;
        while k < inks.len()
            invariant
                total == n * n,
                mask.len() == total,
                n <= i32::MAX,
                i < total,
                k <= inks.len(),
                forall|t: int| 0 <= t < inks.len() ==> inks[t] < mask.len() && mask[inks[t] as int],
                k == 0 ==> best == i32::MAX,
                k > 0 ==> exists|t: int| 0 <= t < k && best == cheb(i as int, inks[t] as int, n as int),
                forall|t: int| 0 <= t < k ==> best <= cheb(i as int, #[trigger] inks[t] as int, n as int),
            decreases inks.len() - k,
        {
            proof {
                assert(n > 0) by (nonlinear_arith) requires i < n * n;
            }
            let d = cheb_exec(i, inks[k], n);
            if k == 0 || (d as i32) < best {
                best = d as i32;
            }
            k += 1;
        }
        proof {
            let ghost d = best as int;
            if exists|j: int| 0 <= j < n * n && #[trigger] mask@[j] {
                let j = choose|j: int| 0 <= j < n * n && #[trigger] mask@[j];
                assert(inks@.contains(j as usize));
                assert(inks.len() > 0);
                let t = choose|t: int| 0 <= t < inks.len() && best == cheb(i as int, inks[t] as int, n as int);
                assert(mask@[inks[t] as int]);
                assert forall|j2: int| 0 <= j2 < n * n && #[trigger] mask@[j2] implies d <= cheb(i as int, j2, n as int) by {
                    assert(inks@.contains(j2 as usize));
                    let t2 = choose|t2: int| 0 <= t2 < inks.len() && inks[t2] == j2 as usize;
                    assert(best <= cheb(i as int, inks[t2] as int, n as int));
                }
                crate::field::lemma_cell_split(i as int, n as int, n as int);
                let jt = inks[t] as int;
                crate::field::lemma_cell_split(jt, n as int, n as int);
                if best == 0 {
                    assert(jt == i);
                }
                if mask@[i as int] {
                    assert(d <= cheb(i as int, i as int, n as int));
                }
            } else {
                if inks.len() > 0 {
                    assert(mask@[inks[0] as int]);
                }
                assert(!mask@[i as int]);
            }
        }
        dist.push(best);
        i += 1;
    }
    dist
}

/// Inking more pixels never moves any pixel farther from ink.
pub proof fn lemma_more_ink_is_nearer(m1: Seq<bool>, m2: Seq<bool>, n: int, i: int, d1: int, d2: int)
    requires
        0 < n <= i32::MAX,
        0 <= i < n * n,
        forall|j: int| 0 <= j < n * n && #[trigger] m1[j] ==> m2[j],
        ink_distance(m1, n, i, d1),
        ink_distance(m2, n, i, d2),
    ensures
        d2 <= d1,
{
    if exists|j: int| 0 <= j < n * n && #[trigger] m1[j] {
        let j = choose|j: int| 0 <= j < n * n && #[trigger] m1[j] && d1 == cheb(i, j, n);
        assert(m2[j]);
    } else if exists|j: int| 0 <= j < n * n && #[trigger] m2[j] {
        let j = choose|j: int| 0 <= j < n * n && #[trigger] m2[j] && d2 == cheb(i, j, n);
        assert(d2 == cheb(i, j, n));
        lemma_cheb_below(i, j, n);
    }
}

} // verus!
