//! Lattice addressing. A `width × height` grid is stored row-major in a flat
//! vector; cell `i` sits at column `i % width`, row `i / width`.

use vstd::prelude::*;

verus! {

/// Column of a flat index.
pub open spec fn col_of(index: int, width: int) -> int {
    index % width
}

/// Row of a flat index.
pub open spec fn row_of(index: int, width: int) -> int {
    index / width
}

/// The cell reached from `index` by the offset `(dx, dy)`, or `None` when that
/// position falls off the `width × height` lattice.
pub open spec fn step_spec(index: int, dx: int, dy: int, width: int, height: int) -> Option<int> {
    let col = col_of(index, width) + dx;
    let row = row_of(index, width) + dy;
    if col < 0 || col >= width || row < 0 || row >= height {
        None
    } else {
        Some(row * width + col)
    }
}

/// The arithmetic of a step fits the machine integers.
pub open spec fn step_fits(index: int, dx: int, dy: int, width: int, height: int) -> bool {
    &&& width > 0
    &&& index <= isize::MAX
    &&& width <= isize::MAX
    &&& height <= isize::MAX
    &&& width * height <= usize::MAX
    &&& index % width + dx <= isize::MAX
    &&& index / width + dy <= isize::MAX
}

pub proof fn lemma_step_in_bounds(index: int, dx: int, dy: int, width: int, height: int)
    requires
        width > 0,
        height >= 0,
        step_spec(index, dx, dy, width, height) is Some,
    ensures
        0 <= step_spec(index, dx, dy, width, height)->0 < width * height,
        col_of(step_spec(index, dx, dy, width, height)->0, width) == col_of(index, width) + dx,
        row_of(step_spec(index, dx, dy, width, height)->0, width) == row_of(index, width) + dy,
{
    let col = col_of(index, width) + dx;
    let row = row_of(index, width) + dy;
    assert(row * width + col < width * height) by (nonlinear_arith)
        requires 0 <= row < height, 0 <= col < width;
    assert(0 <= row * width) by (nonlinear_arith)
        requires 0 <= row, 0 < width;
    vstd::arithmetic::div_mod::lemma_fundamental_div_mod_converse(row * width + col, width, row, col);
}

/// The cell at `(col, row)` is `row · width + col`, and it splits back into them.
pub proof fn lemma_cell_at(row: int, col: int, width: int, height: int)
    requires
        0 <= row < height,
        0 <= col < width,
    ensures
        0 <= row * width + col < width * height,
        col_of(row * width + col, width) == col,
        row_of(row * width + col, width) == row,
{
    assert(row * width + col < width * height) by (nonlinear_arith)
        requires 0 <= row < height, 0 <= col < width;
    assert(0 <= row * width) by (nonlinear_arith)
        requires 0 <= row, 0 < width;
    vstd::arithmetic::div_mod::lemma_fundamental_div_mod_converse(row * width + col, width, row, col);
}

/// Every cell of the lattice has its column and row on it.
pub proof fn lemma_cell_split(i: int, width: int, height: int)
    requires
        0 <= i < width * height,
        width >= 0,
        height >= 0,
    ensures
        width > 0,
        0 <= col_of(i, width) < width,
        0 <= row_of(i, width) < height,
        i == row_of(i, width) * width + col_of(i, width),
{
    assert(width > 0) by (nonlinear_arith)
        requires 0 <= i < width * height, width >= 0, height >= 0;
    vstd::arithmetic::div_mod::lemma_fundamental_div_mod(i, width);
    vstd::arithmetic::div_mod::lemma_mod_pos_bound(i, width);
    let q = i / width;
    assert(0 <= q < height) by (nonlinear_arith)
        requires i == width * q + i % width, 0 <= i % width < width, 0 <= i < width * height, width > 0;
    assert(i == q * width + i % width) by (nonlinear_arith)
        requires i == width * q + i % width;
}

/// Stepping back undoes a step: from where an offset leads, the opposite
/// offset leads back to the cell it started from.
pub proof fn lemma_step_back(index: int, dx: int, dy: int, width: int, height: int)
    requires
        width > 0,
        height >= 0,
        0 <= index < width * height,
        step_spec(index, dx, dy, width, height) is Some,
    ensures
        step_spec(step_spec(index, dx, dy, width, height)->0, -dx, -dy, width, height) == Some(index),
{
    lemma_step_in_bounds(index, dx, dy, width, height);
    lemma_cell_split(index, width, height);
}

/// The flat index one offset `(dx, dy)` away from `index`, or `None` off the lattice.
pub fn step(index: usize, dx: isize, dy: isize, width: usize, height: usize) -> (r: Option<usize>)
    requires
        step_fits(index as int, dx as int, dy as int, width as int, height as int),
    ensures
        r matches Some(n) ==> step_spec(index as int, dx as int, dy as int, width as int, height as int) == Some(n as int),
        r is None ==> step_spec(index as int, dx as int, dy as int, width as int, height as int) is None,
{
    let col = (index % width) as isize + dx;
    let row = (index / width) as isize + dy;
    if col < 0 || col >= width as isize || row < 0 || row >= height as isize {
        None
    } else {
        proof {
            assert((row as int) * (width as int) + (col as int) < (width as int) * (height as int)) by (nonlinear_arith)
                requires 0 <= row < height, 0 <= col < width;
            assert(0 <= (row as int) * (width as int)) by (nonlinear_arith)
                requires 0 <= row, 0 < width;
        }
        Some(row as usize * width + col as usize)
    }
}

} // verus!
