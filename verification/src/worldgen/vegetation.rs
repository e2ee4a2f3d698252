//! The rough-ground margin that keeps shrubs off broken ground.

use vstd::prelude::*;

verus! {

/// Whether some cell within one king step of `(col, row)` (itself included)
/// is marked in `p`.
pub open spec fn near(p: Seq<bool>, width: int, height: int, col: int, row: int) -> bool {
    exists|dc: int, dr: int|
        -1 <= dc <= 1 && -1 <= dr <= 1 && 0 <= col + dc < width && 0 <= row + dr < height
            && #[trigger] p[(row + dr) * width + (col + dc)]
}

/// `m` rounds of eight-way dilation of `rough`.
pub open spec fn dilate(rough: Seq<bool>, width: int, height: int, m: nat) -> Seq<bool>
    decreases m,
{
    if m == 0 {
        rough
    } else {
        let p = dilate(rough, width, height, (m - 1) as nat);
        Seq::new(p.len(), |i: int| p[i] || near(p, width, height, i % width, i / width))
    }
}

/// Chebyshev (king-move) distance between two cells.
pub open spec fn cheb(a: int, b: int, width: int) -> int {
    let dc = a % width - b % width;
    let dr = a / width - b / width;
    let adc = if dc < 0 { -dc } else { dc };
    let adr = if dr < 0 { -dr } else { dr };
    if adc >= adr { adc } else { adr }
}

pub proof fn lemma_dilate_len(rough: Seq<bool>, width: int, height: int, m: nat)
    ensures
        dilate(rough, width, height, m).len() == rough.len(),
    decreases m,
{
    if m > 0 {
        lemma_dilate_len(rough, width, height, (m - 1) as nat);
    }
}

proof fn lemma_cell_coords(width: int, col: int, row: int)
    requires
        width > 0,
        0 <= col < width,
        0 <= row,
    ensures
        (row * width + col) % width == col,
        (row * width + col) / width == row,
{
    vstd::arithmetic::div_mod::lemma_fundamental_div_mod_converse(row * width + col, width, row, col);
}

proof fn lemma_cell_index_bounds(width: int, height: int, col: int, row: int)
    requires
        0 <= col < width,
        0 <= row < height,
    ensures
        0 <= row * width + col < width * height,
{
    assert(row * width + col < width * height) by (nonlinear_arith)
        requires 0 <= row < height, 0 <= col < width;
    assert(0 <= row * width) by (nonlinear_arith)
        requires 0 <= row, 0 <= width;
}

proof fn lemma_index_coords(width: int, height: int, i: int)
    requires
        width > 0,
        0 <= i < width * height,
    ensures
        0 <= i % width < width,
        0 <= i / width < height,
        i == (i / width) * width + i % width,
{
    vstd::arithmetic::div_mod::lemma_fundamental_div_mod(i, width);
    vstd::arithmetic::div_mod::lemma_mod_pos_bound(i, width);
    let q = i / width;
    assert(q < height) by (nonlinear_arith)
        requires i == width * q + i % width, i % width >= 0, i < width * height, width > 0;
    assert(q >= 0) by (nonlinear_arith)
        requires i == width * q + i % width, i % width < width, i >= 0, width > 0;
    assert(width * q == q * width) by (nonlinear_arith);
}

/// Dilating by `m1` rounds and then by `m2` more is dilating by `m1 + m2`.
pub proof fn lemma_dilate_compose(rough: Seq<bool>, width: int, height: int, m1: nat, m2: nat)
    ensures
        dilate(dilate(rough, width, height, m1), width, height, m2) == dilate(rough, width, height, m1 + m2),
    decreases m2,
{
    if m2 > 0 {
        lemma_dilate_compose(rough, width, height, m1, (m2 - 1) as nat);
        assert((m1 + m2 - 1) as nat == m1 + (m2 - 1) as nat);
    }
}

/// `m` rounds of dilation block exactly the cells within `m` king steps of
/// some rough cell.
pub proof fn lemma_dilate_is_king_ball(rough: Seq<bool>, width: int, height: int, m: nat, i: int)
    requires
        rough.len() == width * height,
        width > 0,
        0 <= i < width * height,
    ensures
        dilate(rough, width, height, m)[i] <==> exists|j: int| 0 <= j < width * height && rough[j] && cheb(i, j, width) <= m,
    decreases m,
{
    lemma_index_coords(width, height, i);
    if m == 0 {
        if rough[i] {
            assert(cheb(i, i, width) == 0);
        }
        if exists|j: int| 0 <= j < width * height && rough[j] && cheb(i, j, width) <= m {
            let j = choose|j: int| 0 <= j < width * height && rough[j] && cheb(i, j, width) <= m;
            lemma_index_coords(width, height, j);
            assert(j == i);
        }
    } else {
        lemma_dilate_len(rough, width, height, (m - 1) as nat);
        assert(dilate(rough, width, height, m)[i] == (dilate(rough, width, height, (m - 1) as nat)[i]
            || near(dilate(rough, width, height, (m - 1) as nat), width, height, i % width, i / width)));
        let p = dilate(rough, width, height, (m - 1) as nat);
        lemma_dilate_len(rough, width, height, (m - 1) as nat);
        let col = i % width;
        let row = i / width;
        if dilate(rough, width, height, m)[i] {
            if p[i] {
                lemma_dilate_is_king_ball(rough, width, height, (m - 1) as nat, i);
                let j = choose|j: int| 0 <= j < width * height && rough[j] && cheb(i, j, width) <= m - 1;
                assert(cheb(i, j, width) <= m);
            } else {
                assert(near(p, width, height, col, row));
                let (dc, dr) = choose|dc: int, dr: int|
                    -1 <= dc <= 1 && -1 <= dr <= 1 && 0 <= col + dc < width && 0 <= row + dr < height
                        && #[trigger] p[(row + dr) * width + (col + dc)];
                let q = (row + dr) * width + (col + dc);
                lemma_cell_coords(width, col + dc, row + dr);
                lemma_cell_index_bounds(width, height, col + dc, row + dr);
                lemma_dilate_is_king_ball(rough, width, height, (m - 1) as nat, q);
                let j = choose|j: int| 0 <= j < width * height && rough[j] && cheb(q, j, width) <= m - 1;
                assert(cheb(i, j, width) <= m);
            }
        } else {
            if exists|j: int| 0 <= j < width * height && rough[j] && cheb(i, j, width) <= m {
                let j = choose|j: int| 0 <= j < width * height && rough[j] && cheb(i, j, width) <= m;
                lemma_index_coords(width, height, j);
                if cheb(i, j, width) <= m - 1 {
                    lemma_dilate_is_king_ball(rough, width, height, (m - 1) as nat, i);
                } else {
                    let cj = j % width;
                    let rj = j / width;
                    let dc = if cj > col { 1int } else if cj < col { -1int } else { 0int };
                    let dr = if rj > row { 1int } else if rj < row { -1int } else { 0int };
                    let q = (row + dr) * width + (col + dc);
                    lemma_cell_coords(width, col + dc, row + dr);
                    lemma_cell_index_bounds(width, height, col + dc, row + dr);
                    assert(cheb(q, j, width) <= m - 1);
                    lemma_dilate_is_king_ball(rough, width, height, (m - 1) as nat, q);
                    assert(p[q]);
                    assert(near(p, width, height, col, row));
                    assert(false);
                }
            }
        }
    }
}

fn near_marked(p: &Vec<bool>, width: usize, height: usize, col: usize, row: usize) -> (b: bool)
    requires
        p.len() == width * height,
        col < width,
        row < height,
        width <= i32::MAX,
        height <= i32::MAX,
    ensures
        b == near(p@, width as int, height as int, col as int, row as int),
{
    let mut dy: i32 = -1;
    while dy <= 1
        invariant
            -1 <= dy <= 2,
            p.len() == width * height,
            col < width,
            row < height,
            width <= i32::MAX,
            height <= i32::MAX,
            forall|dc: int, dr: int|
                -1 <= dc <= 1 && -1 <= dr < dy && 0 <= col + dc < width && 0 <= row + dr < height
                    ==> !#[trigger] p@[(row + dr) * width + (col + dc)],
        decreases 2 - dy,
    {
        let mut dx: i32 = -1;
        while dx <= 1
            invariant
                -1 <= dy <= 1,
                -1 <= dx <= 2,
                p.len() == width * height,
                col < width,
                row < height,
                width <= i32::MAX,
                height <= i32::MAX,
                forall|dc: int, dr: int|
                    -1 <= dc <= 1 && -1 <= dr < dy && 0 <= col + dc < width && 0 <= row + dr < height
                        ==> !#[trigger] p@[(row + dr) * width + (col + dc)],
                forall|dc: int|
                    -1 <= dc < dx && 0 <= col + dc < width && 0 <= row + dy < height
                        ==> !#[trigger] p@[(row + dy) * width + (col + dc)],
            decreases 2 - dx,
        {
            let nc = col as i32 + dx;
            let nr = row as i32 + dy;
            if !(nc < 0 || nr < 0 || nc >= width as i32 || nr >= height as i32) {
                proof {
                    assert((nr as int) * (width as int) + (nc as int) < (width as int) * (height as int)) by (nonlinear_arith)
                        requires 0 <= nr < height, 0 <= nc < width;
                    assert(0 <= (nr as int) * (width as int)) by (nonlinear_arith)
                        requires 0 <= nr;
                }
                if p[nr as usize * width + nc as usize] {
                    assert(p@[(row + dy) * width + (col + dx)]);
                    return true;
                }
            }
            dx += 1;
        }
        dy += 1;
    }
    false
}

/// Cells within `margin` king steps of rough ground (the rough cells
/// themselves included), by `margin` rounds of eight-way dilation; a
/// non-positive margin blocks only the rough cells.
pub fn rough_blocked_mask(rough: &[bool], width: usize, height: usize, margin: i32) -> (blocked: Vec<bool>)
    requires
        rough.len() == width * height,
        width <= i32::MAX,
        height <= i32::MAX,
    ensures
        blocked@ == dilate(rough@, width as int, height as int, if margin > 0 { margin as nat } else { 0 }),
{
    let mut blocked: Vec<bool> = Vec::new();
    let mut i: usize = 0;
    while i < rough.len()
        invariant
            i <= rough.len(),
            blocked@ == rough@.take(i as int),
        decreases rough.len() - i,
    {
        blocked.push(rough[i]);
        assert(rough@.take(i + 1) =~= rough@.take(i as int).push(rough@[i as int]));
        i += 1;
    }
    assert(rough@.take(rough.len() as int) =~= rough@);
    let mut pass: i32 = 0;
    while pass < margin
        invariant
            rough.len() == width * height,
            width <= i32::MAX,
            height <= i32::MAX,
            0 <= pass,
            margin > 0 ==> pass <= margin,
            margin <= 0 ==> pass == 0,
            blocked@ == dilate(rough@, width as int, height as int, pass as nat),
            blocked.len() == width * height,
        decreases margin - pass,
    {
        let prev = blocked.clone();
        let ghost next = dilate(rough@, width as int, height as int, (pass + 1) as nat);
        assert(next =~= Seq::new(prev@.len(), |i: int| prev@[i] || near(prev@, width as int, height as int, i % width as int, i / width as int)));
        let mut row: usize = 0;
        while row < height
            invariant
                rough.len() == width * height,
                width <= i32::MAX,
                height <= i32::MAX,
                prev.len() == width * height,
                blocked.len() == width * height,
                prev@ == dilate(rough@, width as int, height as int, pass as nat),
                next == Seq::new(prev@.len(), |i: int| prev@[i] || near(prev@, width as int, height as int, i % width as int, i / width as int)),
                row <= height,
                forall|i: int| 0 <= i < row * width ==> blocked@[i] == next[i],
                forall|i: int| row * width <= i < width * height ==> blocked@[i] == prev@[i],
            decreases height - row,
        {
            let mut col: usize = 0;
            while col < width
                invariant
                    rough.len() == width * height,
                    width <= i32::MAX,
                    height <= i32::MAX,
                    prev.len() == width * height,
                    blocked.len() == width * height,
                    next == Seq::new(prev@.len(), |i: int| prev@[i] || near(prev@, width as int, height as int, i % width as int, i / width as int)),
                    row < height,
                    col <= width,
                    forall|i: int| 0 <= i < row * width + col ==> blocked@[i] == next[i],
                    forall|i: int| row * width + col <= i < width * height ==> blocked@[i] == prev@[i],
                decreases width - col,
            {
                proof {
                    assert((row as int) * (width as int) + (col as int) < (width as int) * (height as int)) by (nonlinear_arith)
                        requires row < height, col < width;
                    assert(0 <= (row as int) * (width as int)) by (nonlinear_arith);
                    vstd::arithmetic::div_mod::lemma_fundamental_div_mod_converse(
                        row as int * width as int + col as int, width as int, row as int, col as int);
                }
                let i = row * width + col;
                if !prev[i] {
                    if near_marked(&prev, width, height, col, row) {
                        blocked.set(i, true);
                    }
                }
                col += 1;
            }
            assert((row + 1) * width == row * width + width) by (nonlinear_arith);
            row += 1;
        }
        proof {
            assert(height * width == width * height) by (nonlinear_arith);
            assert(blocked@ =~= next);
        }
        pass += 1;
    }
    blocked
}

} // verus!
