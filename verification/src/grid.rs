//! The world lattice's discrete cell layers: river fords, lake water, the
//! east-of-river divide, flowers, and the soil-tint speckle. Cells are indexed
//! row-major, `width` per row.

use vstd::prelude::*;
use crate::field::{step_fits, step_spec};

verus! {

pub const GRID_WIDTH: usize = 256;
pub const GRID_HEIGHT: usize = 108;

pub struct Grid {
    width: usize,
    height: usize,
    ford: Vec<bool>,
    lake: Vec<bool>,
    east_of_river: Vec<bool>,
    flower: Vec<bool>,
    soil_tint: Vec<u8>,
}

/// `n` copies of `v`.
fn filled_bools(n: usize, v: bool) -> (r: Vec<bool>)
    ensures
        r@ == Seq::new(n as nat, |_i: int| v),
{
    let mut r: Vec<bool> = Vec::new();
    while r.len() < n
        invariant
            r.len() <= n,
            forall|i: int| 0 <= i < r.len() ==> r[i] == v,
        decreases n - r.len(),
    {
        r.push(v);
    }
    assert(r@ =~= Seq::new(n as nat, |_i: int| v));
    r
}

impl Grid {
    /// Every layer holds one entry per cell, and the cell count fits a `usize`.
    pub closed spec fn wf(&self) -> bool {
        let n = self.width * self.height;
        &&& n <= usize::MAX
        &&& self.ford.len() == n
        &&& self.lake.len() == n
        &&& self.east_of_river.len() == n
        &&& self.flower.len() == n
        &&& self.soil_tint.len() == n
    }

    pub closed spec fn spec_width(&self) -> int {
        self.width as int
    }

    pub closed spec fn spec_height(&self) -> int {
        self.height as int
    }

    /// Ford flags, one per cell.
    pub closed spec fn fords(&self) -> Seq<bool> {
        self.ford@
    }

    /// Lake-water flags, one per cell.
    pub closed spec fn lakes(&self) -> Seq<bool> {
        self.lake@
    }

    /// East-of-river flags, one per cell.
    pub closed spec fn easts(&self) -> Seq<bool> {
        self.east_of_river@
    }

    /// Flower flags, one per cell.
    pub closed spec fn flowers(&self) -> Seq<bool> {
        self.flower@
    }

    /// Soil tint ids (0 plain, 1 paired speckle, 2 lone speckle), one per cell.
    pub closed spec fn tints(&self) -> Seq<u8> {
        self.soil_tint@
    }

    /// Every layer holds one entry per cell, and the cell count fits a `usize`.
    pub proof fn lemma_layers(&self)
        requires
            self.wf(),
        ensures
            self.spec_width() * self.spec_height() <= usize::MAX,
            self.fords().len() == self.spec_width() * self.spec_height(),
            self.lakes().len() == self.spec_width() * self.spec_height(),
            self.easts().len() == self.spec_width() * self.spec_height(),
            self.flowers().len() == self.spec_width() * self.spec_height(),
            self.tints().len() == self.spec_width() * self.spec_height(),
    {
    }

    /// A `width × height` grid with every layer cleared.
    pub fn new(width: usize, height: usize) -> (g: Self)
        requires
            width * height <= usize::MAX,
        ensures
            g.wf(),
            g.spec_width() == width,
            g.spec_height() == height,
            g.fords() == Seq::new((width * height) as nat, |_i: int| false),
            g.lakes() == Seq::new((width * height) as nat, |_i: int| false),
            g.easts() == Seq::new((width * height) as nat, |_i: int| false),
            g.flowers() == Seq::new((width * height) as nat, |_i: int| false),
            g.tints() == Seq::new((width * height) as nat, |_i: int| 0u8),
    {
        let n = width * height;
        let mut soil_tint: Vec<u8> = Vec::new();
        while soil_tint.len() < n
            invariant
                soil_tint.len() <= n,
                forall|i: int| 0 <= i < soil_tint.len() ==> soil_tint[i] == 0u8,
            decreases n - soil_tint.len(),
        {
            soil_tint.push(0);
        }
        assert(soil_tint@ =~= Seq::new(n as nat, |_i: int| 0u8));
        Grid {
            width,
            height,
            ford: filled_bools(n, false),
            lake: filled_bools(n, false),
            east_of_river: filled_bools(n, false),
            flower: filled_bools(n, false),
            soil_tint,
        }
    }

    pub fn width(&self) -> (w: usize)
        ensures
            w == self.spec_width(),
    {
        self.width
    }

    pub fn height(&self) -> (h: usize)
        ensures
            h == self.spec_height(),
    {
        self.height
    }

    /// Number of cells.
    pub fn len(&self) -> (n: usize)
        requires
            self.wf(),
        ensures
            n == self.spec_width() * self.spec_height(),
    {
        self.ford.len()
    }

    /// `(column, row)` of a flat index.
    pub fn col_row(&self, index: usize) -> (cr: (usize, usize))
        requires
            self.spec_width() > 0,
        ensures
            cr.0 == (index as int) % self.spec_width(),
            cr.1 == (index as int) / self.spec_width(),
    {
        (index % self.width, index / self.width)
    }

    /// The cell one offset `(dx, dy)` from `index`, or `None` off the grid.
    pub fn step(&self, index: usize, dx: isize, dy: isize) -> (r: Option<usize>)
        requires
            step_fits(index as int, dx as int, dy as int, self.spec_width(), self.spec_height()),
        ensures
            r matches Some(n) ==> step_spec(index as int, dx as int, dy as int, self.spec_width(), self.spec_height()) == Some(n as int),
            r is None ==> step_spec(index as int, dx as int, dy as int, self.spec_width(), self.spec_height()) is None,
    {
        let (col, row) = self.col_row(index);
        let new_col = col as isize + dx;
        let new_row = row as isize + dy;
        if new_col < 0 || new_col >= self.width as isize || new_row < 0 || new_row >= self.height as isize {
            return None;
        }
        proof {
            assert((new_row as int) * (self.width as int) + (new_col as int) < (self.width as int) * (self.height as int)) by (nonlinear_arith)
                requires 0 <= new_row < self.height, 0 <= new_col < self.width;
            assert(0 <= (new_row as int) * (self.width as int)) by (nonlinear_arith)
                requires 0 <= new_row, 0 < self.width;
        }
        Some(new_row as usize * self.width + new_col as usize)
    }

    pub fn is_ford(&self, index: usize) -> (b: bool)
        requires
            self.wf(),
            index < self.spec_width() * self.spec_height(),
        ensures
            b == self.fords()[index as int],
    {
        self.ford[index]
    }

    pub fn set_ford(&mut self, index: usize, value: bool)
        requires
            old(self).wf(),
            index < old(self).spec_width() * old(self).spec_height(),
        ensures
            final(self).wf(),
            final(self).fords() == old(self).fords().update(index as int, value),
            final(self).spec_width() == old(self).spec_width(),
            final(self).spec_height() == old(self).spec_height(),
            final(self).lakes() == old(self).lakes(),
            final(self).easts() == old(self).easts(),
            final(self).flowers() == old(self).flowers(),
            final(self).tints() == old(self).tints(),
    {
        self.ford.set(index, value);
    }

    pub fn is_lake(&self, index: usize) -> (b: bool)
        requires
            self.wf(),
            index < self.spec_width() * self.spec_height(),
        ensures
            b == self.lakes()[index as int],
    {
        self.lake[index]
    }

    pub fn set_lake(&mut self, index: usize, value: bool)
        requires
            old(self).wf(),
            index < old(self).spec_width() * old(self).spec_height(),
        ensures
            final(self).wf(),
            final(self).lakes() == old(self).lakes().update(index as int, value),
            final(self).spec_width() == old(self).spec_width(),
            final(self).spec_height() == old(self).spec_height(),
            final(self).fords() == old(self).fords(),
            final(self).easts() == old(self).easts(),
            final(self).flowers() == old(self).flowers(),
            final(self).tints() == old(self).tints(),
    {
        self.lake.set(index, value);
    }

    pub fn east_of_river(&self, index: usize) -> (b: bool)
        requires
            self.wf(),
            index < self.spec_width() * self.spec_height(),
        ensures
            b == self.easts()[index as int],
    {
        self.east_of_river[index]
    }

    pub fn set_east_of_river(&mut self, index: usize, value: bool)
        requires
            old(self).wf(),
            index < old(self).spec_width() * old(self).spec_height(),
        ensures
            final(self).wf(),
            final(self).easts() == old(self).easts().update(index as int, value),
            final(self).spec_width() == old(self).spec_width(),
            final(self).spec_height() == old(self).spec_height(),
            final(self).fords() == old(self).fords(),
            final(self).lakes() == old(self).lakes(),
            final(self).flowers() == old(self).flowers(),
            final(self).tints() == old(self).tints(),
    {
        self.east_of_river.set(index, value);
    }

    pub fn flower(&self, index: usize) -> (b: bool)
        requires
            self.wf(),
            index < self.spec_width() * self.spec_height(),
        ensures
            b == self.flowers()[index as int],
    {
        self.flower[index]
    }

    pub fn set_flower(&mut self, index: usize, value: bool)
        requires
            old(self).wf(),
            index < old(self).spec_width() * old(self).spec_height(),
        ensures
            final(self).wf(),
            final(self).flowers() == old(self).flowers().update(index as int, value),
            final(self).spec_width() == old(self).spec_width(),
            final(self).spec_height() == old(self).spec_height(),
            final(self).fords() == old(self).fords(),
            final(self).lakes() == old(self).lakes(),
            final(self).easts() == old(self).easts(),
            final(self).tints() == old(self).tints(),
    {
        self.flower.set(index, value);
    }

    pub fn soil_tint(&self, index: usize) -> (t: u8)
        requires
            self.wf(),
            index < self.spec_width() * self.spec_height(),
        ensures
            t == self.tints()[index as int],
    {
        self.soil_tint[index]
    }

    pub fn set_soil_tint(&mut self, index: usize, value: u8)
        requires
            old(self).wf(),
            index < old(self).spec_width() * old(self).spec_height(),
        ensures
            final(self).wf(),
            final(self).tints() == old(self).tints().update(index as int, value),
            final(self).spec_width() == old(self).spec_width(),
            final(self).spec_height() == old(self).spec_height(),
            final(self).fords() == old(self).fords(),
            final(self).lakes() == old(self).lakes(),
            final(self).easts() == old(self).easts(),
            final(self).flowers() == old(self).flowers(),
    {
        self.soil_tint.set(index, value);
    }

    /// Clear every layer, keeping the dimensions.
    pub fn reset(&mut self)
        requires
            old(self).wf(),
        ensures
            final(self).wf(),
            final(self).spec_width() == old(self).spec_width(),
            final(self).spec_height() == old(self).spec_height(),
            final(self).fords() == Seq::new((old(self).spec_width() * old(self).spec_height()) as nat, |_i: int| false),
            final(self).lakes() == Seq::new((old(self).spec_width() * old(self).spec_height()) as nat, |_i: int| false),
            final(self).easts() == Seq::new((old(self).spec_width() * old(self).spec_height()) as nat, |_i: int| false),
            final(self).flowers() == Seq::new((old(self).spec_width() * old(self).spec_height()) as nat, |_i: int| false),
            final(self).tints() == Seq::new((old(self).spec_width() * old(self).spec_height()) as nat, |_i: int| 0u8),
    {
        *self = Self::new(self.width, self.height);
    }
}

} // verus!
