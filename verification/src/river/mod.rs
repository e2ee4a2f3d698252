//! Watershed generation: least-cost channel carving, lake siting, and the
//! dry-basin test that places oxbow pools.

pub mod cost;
pub mod features;
pub mod lake;
pub mod prox;
pub mod spec;

use vstd::prelude::*;
use rand::rngs::StdRng;
use crate::random::random_usize_below;

verus! {

/// The centerline cells at positions `0, spacing, 2·spacing, …`.
pub open spec fn every_nth(centerline: Seq<usize>, spacing: int) -> Seq<usize> {
    Seq::new(
        ((centerline.len() + spacing - 1) / spacing) as nat,
        |k: int| centerline[k * spacing],
    )
}

/// The `k`-th of every `spacing`-th element sits at position `k · spacing`.
pub proof fn lemma_every_nth_index(centerline: Seq<usize>, spacing: int, k: int)
    requires
        spacing > 0,
        0 <= k < every_nth(centerline, spacing).len(),
    ensures
        0 <= k * spacing < centerline.len(),
        every_nth(centerline, spacing)[k] == centerline[k * spacing],
{
    let len = centerline.len() as int;
    let c = (len + spacing - 1) / spacing;
    assert(k * spacing < len) by (nonlinear_arith)
        requires 0 <= k < c, c == (len + spacing - 1) / spacing, spacing > 0, len >= 0;
    assert(0 <= k * spacing) by (nonlinear_arith)
        requires 0 <= k, spacing > 0;
}

/// Every `spacing`-th element of `centerline` by position (0, spacing, 2·spacing, …).
pub fn ford_indices(centerline: &[usize], spacing: usize) -> (r: Vec<usize>)
    requires
        spacing > 0,
    ensures
        r@ == every_nth(centerline@, spacing as int),
{
    let mut r: Vec<usize> = Vec::new();
    let mut i: usize = 0;
    let ghost mut k: int = 0;
    while i < centerline.len()
        invariant
            spacing > 0,
            i == k * spacing,
            k >= 0,
            r.len() == k,
            forall|j: int| 0 <= j < k ==> r[j] == centerline@[j * spacing],
            k > 0 ==> i < centerline.len(),
        decreases centerline.len() - i,
    {
        r.push(centerline[i]);
        proof {
            assert((k + 1) * spacing == k * spacing + spacing) by (nonlinear_arith);
            k = k + 1;
        }
        if centerline.len() - i <= spacing {
            i = centerline.len();
            proof {
                assert(r@ =~= every_nth(centerline@, spacing as int)) by {
                    let len = centerline.len() as int;
                    let sp = spacing as int;
                    assert((len + sp - 1) / sp == k) by (nonlinear_arith)
                        requires (k - 1) * sp < len, len <= k * sp, sp > 0;
                    assert forall|j: int| 0 <= j < k implies r@[j] == every_nth(centerline@, sp)[j] by {}
                }
            }
            return r;
        }
        i += spacing;
    }
    proof {
        assert(centerline.len() == 0);
        assert(r@ =~= every_nth(centerline@, spacing as int)) by {
            assert((0 + spacing as int - 1) / (spacing as int) == 0) by (nonlinear_arith)
                requires spacing > 0;
        }
    }
    r
}

/// Column where the `i`-th of `count` rivers enters the top row: evenly spaced
/// across the width, kept off the outermost columns.
pub fn entry_col(width: usize, count: usize, i: usize) -> (col: usize)
    requires
        width >= 3,
        i < count,
        width * count <= usize::MAX,
    ensures
        col == (if width * (i + 1) / (count + 1) < 1 {
            1
        } else if width * (i + 1) / (count + 1) > width - 2 {
            width - 2
        } else {
            width * (i + 1) / (count + 1)
        }),
{
    assert(width * (i + 1) <= width * count) by (nonlinear_arith)
        requires i + 1 <= count, width >= 0;
    assert(count < usize::MAX) by (nonlinear_arith)
        requires width >= 3, width * count <= usize::MAX;
    let c = width * (i + 1) / (count + 1);
    if c < 1 {
        1
    } else if c > width - 2 {
        width - 2
    } else {
        c
    }
}

/// The cells of a parent centerline below 60% of the grid's height.
pub open spec fn lower_reach(parent: Seq<usize>, width: int, height: int) -> Seq<usize> {
    parent.filter(|c: usize| c as int / width > height * 60 / 100)
}

/// Where a confluent river meets its parent: a random cell of the parent's
/// centerline below 60% of the height, or of the whole centerline when none
/// lies that low.
pub fn confluence_goal(parent: &[usize], width: usize, height: usize, rng: &mut StdRng) -> (goal: usize)
    requires
        parent.len() > 0,
        width > 0,
        height * 60 <= usize::MAX,
    ensures
        lower_reach(parent@, width as int, height as int).len() > 0 ==> lower_reach(
            parent@,
            width as int,
            height as int,
        ).contains(goal),
        lower_reach(parent@, width as int, height as int).len() == 0 ==> parent@.contains(goal),
{
    let lower_cutoff = height * 60 / 100;
    let ghost pred = |c: usize| c as int / width as int > height as int * 60 / 100;
    let mut lower: Vec<usize> = Vec::new();
    let mut k: usize = 0;
    while k < parent.len()
        invariant
            k <= parent.len(),
            width > 0,
            lower_cutoff == height * 60 / 100,
            pred == (|c: usize| c as int / width as int > height as int * 60 / 100),
            lower@ == parent@.take(k as int).filter(pred),
        decreases parent.len() - k,
    {
        let c = parent[k];
        proof {
            assert(parent@.take(k + 1).drop_last() =~= parent@.take(k as int));
            assert(parent@.take(k + 1).last() == c);
            reveal(Seq::filter);
        }
        if c / width > lower_cutoff {
            lower.push(c);
        }
        k += 1;
    }
    assert(parent@.take(parent.len() as int) =~= parent@);
    if lower.len() == 0 {
        let idx = random_usize_below(rng, 0, parent.len());
        assert(parent@[idx as int] == parent[idx as int]);
        parent[idx]
    } else {
        let idx = random_usize_below(rng, 0, lower.len());
        assert(lower@.contains(lower@[idx as int]));
        lower[idx]
    }
}

} // verus!
