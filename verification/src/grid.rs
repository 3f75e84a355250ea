//! A grid: a fixed-size rectangular tile of cells, the unit of independent
//! relaxation.

use vstd::prelude::*;

use crate::cell::Cell;
use crate::rng::random_bool;

verus! {

/// A fixed-size rectangular array of cells, stored row-major. Created filled
/// with the default cell, mutated in place by relaxation or re-randomization,
/// never resized.
#[derive(Clone, Debug)]
pub struct Grid {
    pub cells: Vec<Cell>,
    pub width: u32,
    pub height: u32,
}

impl Grid {
    /// A grid is well formed when its sides are positive and it holds exactly
    /// one cell per position.
    pub open spec fn wf(self) -> bool {
        &&& self.width >= 1
        &&& self.height >= 1
        &&& self.cells@.len() == self.width as int * self.height as int
    }

    /// A fresh grid with every cell set to the default (White).
    pub fn new(width: u32, height: u32) -> (r: Grid)
        requires
            1 <= width,
            1 <= height,
            width as int * height as int <= usize::MAX as int,
        ensures
            r.wf(),
            r.width == width,
            r.height == height,
            forall|i: int| 0 <= i < r.cells@.len() ==> r.cells@[i] == Cell::White,
    {
        let len = (width as usize) * (height as usize);
        let cells = vec![Cell::White; len];
        Grid { cells, width, height }
    }

    /// The cell at `(x, y)`, or absent exactly when `x >= width` or
    /// `y >= height`.
    pub fn get(&self, x: u32, y: u32) -> (r: Option<Cell>)
        requires
            self.wf(),
        ensures
            x < self.width && y < self.height
                ==> r == Some(self.cells@[y as int * self.width as int + x as int]),
            !(x < self.width && y < self.height) ==> r is None,
    {
        if x < self.width && y < self.height {
            let len = self.cells.len();
            proof {
                assert(0 <= (y as int) * (self.width as int) && (y as int) * (self.width as int)
                    + (x as int) < (self.width as int) * (self.height as int)) by (nonlinear_arith)
                    requires
                        0 <= x < self.width as int,
                        0 <= y < self.height as int,
                ;
                assert((y as int) * (self.width as int) + (x as int) < len as int);
            }
            let idx = (y as usize) * (self.width as usize) + (x as usize);
            Some(self.cells[idx])
        } else {
            None
        }
    }

    /// Writes the cell at `(x, y)` when it is in bounds and reports whether
    /// the write occurred; out of bounds, nothing changes and the result is
    /// false.
    pub fn set(&mut self, x: u32, y: u32, value: Cell) -> (written: bool)
        requires
            old(self).wf(),
        ensures
            final(self).wf(),
            final(self).width == old(self).width,
            final(self).height == old(self).height,
            x < old(self).width && y < old(self).height ==> written
                && final(self).cells@ == old(self).cells@.update(
                y as int * old(self).width as int + x as int,
                value,
            ),
            !(x < old(self).width && y < old(self).height) ==> !written && *final(self) == *old(
                self,
            ),
    {
        if x < self.width && y < self.height {
            let len = self.cells.len();
            proof {
                assert(0 <= (y as int) * (self.width as int) && (y as int) * (self.width as int)
                    + (x as int) < (self.width as int) * (self.height as int)) by (nonlinear_arith)
                    requires
                        0 <= x < self.width as int,
                        0 <= y < self.height as int,
                ;
                assert((y as int) * (self.width as int) + (x as int) < len as int);
            }
            let idx = (y as usize) * (self.width as usize) + (x as usize);
            self.cells[idx] = value;
            true
        } else {
            false
        }
    }

    /// The number of cells the grid holds.
    pub fn cells_len(&self) -> (r: usize)
        ensures
            r == self.cells@.len(),
    {
        self.cells.len()
    }

    /// The width of the grid.
    pub fn width(&self) -> (r: u32)
        ensures
            r == self.width,
    {
        self.width
    }

    /// The height of the grid.
    pub fn height(&self) -> (r: u32)
        ensures
            r == self.height,
    {
        self.height
    }

    /// Redraws every cell independently from an unbiased binary distribution.
    pub fn randomize(&mut self)
        requires
            old(self).wf(),
        ensures
            final(self).wf(),
            final(self).width == old(self).width,
            final(self).height == old(self).height,
            final(self).cells@.len() == old(self).cells@.len(),
    {
        let n = self.cells.len();
        let mut i: usize = 0;
        while i < n
            invariant
                self.wf(),
                self.width == old(self).width,
                self.height == old(self).height,
                self.cells@.len() == n,
                0 <= i <= n,
            decreases n - i,
        {
            let c = if random_bool() {
                Cell::White
            } else {
                Cell::Black
            };
            self.cells[i] = c;
            i = i + 1;
        }
    }
}

} // verus!
