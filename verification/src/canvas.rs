//! The canvas: a rectangular arrangement of same-sized grids covering a
//! larger logical surface. It owns every grid, maps global coordinates to the
//! owning grid, and drives the relaxation step across all grids.

use vstd::prelude::*;

use crate::cell::Cell;
use crate::grid::Grid;
use crate::relax::extract_slice;
use crate::relax::relax_tile;
use crate::relax::stepped;
use crate::relax::stepped_iter;
use crate::relax::tile_energy;
use crate::relax::tile_stable;

verus! {

/// The surface dimension a failed construction names.
#[derive(Clone, Copy, Debug, PartialEq, Eq, Structural)]
pub enum Dimension {
    Width,
    Height,
}

/// A recoverable failure of a canvas operation.
#[derive(Clone, Copy, Debug, PartialEq, Eq, Structural)]
pub enum CanvasError {
    /// A surface dimension is not divisible by the matching grid dimension.
    DimensionMismatch { dimension: Dimension, size: u32, divisor: u32 },
    /// The reference pattern does not hold exactly one cell per surface
    /// position.
    PatternLengthMismatch { expected: usize, actual: usize },
}

/// A rectangular surface covered by equally sized grids, laid out in
/// row-major grid order.
#[derive(Clone, Debug)]
pub struct Canvas {
    pub width: u32,
    pub height: u32,
    pub grid_width: u32,
    pub grid_height: u32,
    pub grids: Vec<Grid>,
}

/// Division and multiplication facts about a surface that divides evenly
/// into grids.
proof fn lemma_surface_arith(w: int, h: int, gw: int, gh: int)
    requires
        1 <= w,
        1 <= h,
        1 <= gw,
        1 <= gh,
        w % gw == 0,
        h % gh == 0,
    ensures
        1 <= w / gw <= w,
        1 <= h / gh <= h,
        gw <= w,
        gh <= h,
        (w / gw) * (h / gh) <= w * h,
        1 <= gw * gh <= w * h,
        ((w / gw) * (h / gh)) * (gw * gh) == w * h,
{
    let a = w / gw;
    let b = h / gh;
    vstd::arithmetic::div_mod::lemma_fundamental_div_mod(w, gw);
    vstd::arithmetic::div_mod::lemma_fundamental_div_mod(h, gh);
    assert(w == gw * a);
    assert(h == gh * b);
    assert(1 <= a && gw <= w && a <= w) by (nonlinear_arith)
        requires
            w == gw * a,
            1 <= w,
            1 <= gw,
    ;
    assert(1 <= b && gh <= h && b <= h) by (nonlinear_arith)
        requires
            h == gh * b,
            1 <= h,
            1 <= gh,
    ;
    assert(a * b <= w * h && 1 <= gw * gh && gw * gh <= w * h) by (nonlinear_arith)
        requires
            1 <= a <= w,
            1 <= b <= h,
            1 <= gw <= w,
            1 <= gh <= h,
    ;
    assert((a * b) * (gw * gh) == w * h) by (nonlinear_arith)
        requires
            w == gw * a,
            h == gh * b,
    ;
}

impl Canvas {
    /// The number of cells a single grid holds.
    pub open spec fn grid_len(self) -> int {
        self.grid_width as int * self.grid_height as int
    }

    /// The number of grids in one row of grids.
    pub open spec fn grids_across(self) -> int {
        self.width as int / self.grid_width as int
    }

    /// The number of grid rows.
    pub open spec fn grids_down(self) -> int {
        self.height as int / self.grid_height as int
    }

    /// The number of cells of the whole surface.
    pub open spec fn surface_len(self) -> int {
        self.width as int * self.height as int
    }

    /// A canvas is well formed when its sides are positive, each side divides
    /// evenly into the grid side, the surface fits the machine, and it owns
    /// one well-formed grid of the common size per grid position.
    pub open spec fn wf(self) -> bool {
        &&& self.width >= 1
        &&& self.height >= 1
        &&& self.grid_width >= 1
        &&& self.grid_height >= 1
        &&& self.width as int % self.grid_width as int == 0
        &&& self.height as int % self.grid_height as int == 0
        &&& self.surface_len() <= u32::MAX as int
        &&& self.grids@.len() == self.grids_across() * self.grids_down()
        &&& forall|t: int|
            0 <= t < self.grids@.len() ==> {
                &&& (#[trigger] self.grids@[t]).wf()
                &&& self.grids@[t].width == self.grid_width
                &&& self.grids@[t].height == self.grid_height
            }
    }

    /// The contiguous slice of a reference pattern that belongs to grid `t`.
    pub open spec fn pattern_slice(self, image: Seq<Cell>, t: int) -> Seq<Cell> {
        image.subrange(t * self.grid_len(), t * self.grid_len() + self.grid_len())
    }

    /// Builds the canvas: one default grid per grid position. Fails with a
    /// dimension mismatch, naming the offending surface dimension and its
    /// divisor, when a surface side does not divide evenly; the width is
    /// checked first.
    pub fn new(width: u32, height: u32, grid_height: u32, grid_width: u32) -> (r: Result<
        Canvas,
        CanvasError,
    >)
        requires
            1 <= width,
            1 <= height,
            1 <= grid_width,
            1 <= grid_height,
            width as int * height as int <= u32::MAX as int,
        ensures
            width % grid_width != 0 ==> r == Err::<Canvas, CanvasError>(
                CanvasError::DimensionMismatch {
                    dimension: Dimension::Width,
                    size: width,
                    divisor: grid_width,
                },
            ),
            width % grid_width == 0 && height % grid_height != 0 ==> r == Err::<Canvas, CanvasError>(
                CanvasError::DimensionMismatch {
                    dimension: Dimension::Height,
                    size: height,
                    divisor: grid_height,
                },
            ),
            width % grid_width == 0 && height % grid_height == 0 ==> (r matches Ok(c) && c.wf()
                && c.width == width && c.height == height && c.grid_width == grid_width
                && c.grid_height == grid_height && c.grids@.len() == (width as int
                / grid_width as int) * (height as int / grid_height as int) && (forall|t: int, i: int|
                0 <= t < c.grids@.len() && 0 <= i < c.grids@[t].cells@.len()
                    ==> #[trigger] c.grids@[t].cells@[i] == Cell::White)),
    {
        if width % grid_width != 0 {
            return Err(
                CanvasError::DimensionMismatch {
                    dimension: Dimension::Width,
                    size: width,
                    divisor: grid_width,
                },
            );
        }
        if height % grid_height != 0 {
            return Err(
                CanvasError::DimensionMismatch {
                    dimension: Dimension::Height,
                    size: height,
                    divisor: grid_height,
                },
            );
        }
        proof {
            lemma_surface_arith(
                width as int,
                height as int,
                grid_width as int,
                grid_height as int,
            );
        }
        let across = width / grid_width;
        let down = height / grid_height;
        let count = (across as usize) * (down as usize);
        let mut grids: Vec<Grid> = Vec::new();
        let mut t: usize = 0;
        while t < count
            invariant
                grids@.len() == t,
                0 <= t <= count,
                1 <= grid_width,
                1 <= grid_height,
                grid_width as int * grid_height as int <= u32::MAX as int,
                forall|s: int|
                    0 <= s < t ==> {
                        &&& (#[trigger] grids@[s]).wf()
                        &&& grids@[s].width == grid_width
                        &&& grids@[s].height == grid_height
                        &&& forall|i: int|
                            0 <= i < grids@[s].cells@.len() ==> grids@[s].cells@[i] == Cell::White
                    },
            decreases count - t,
        {
            grids.push(Grid::new(grid_width, grid_height));
            t = t + 1;
        }
        Ok(Canvas { width, height, grid_width, grid_height, grids })
    }

    /// Maps a global pixel coordinate to the index of its owning grid, via
    /// `grid_row * grids_across + grid_col`; absent exactly when the
    /// coordinate lies outside the surface.
    pub fn tile_at(&self, x: u32, y: u32) -> (r: Option<usize>)
        requires
            self.wf(),
        ensures
            x < self.width && y < self.height ==> r == Some(
                ((y as int / self.grid_height as int) * self.grids_across() + x as int
                    / self.grid_width as int) as usize,
            ),
            x < self.width && y < self.height ==> (r matches Some(i) && i < self.grids@.len()),
            !(x < self.width && y < self.height) ==> r is None,
    {
        if x < self.width && y < self.height {
            let grid_col = x / self.grid_width;
            let grid_row = y / self.grid_height;
            let across = self.width / self.grid_width;
            proof {
                lemma_surface_arith(
                    self.width as int,
                    self.height as int,
                    self.grid_width as int,
                    self.grid_height as int,
                );
                vstd::arithmetic::div_mod::lemma_fundamental_div_mod(
                    self.width as int,
                    self.grid_width as int,
                );
                vstd::arithmetic::div_mod::lemma_fundamental_div_mod(
                    self.height as int,
                    self.grid_height as int,
                );
                vstd::arithmetic::div_mod::lemma_fundamental_div_mod(
                    x as int,
                    self.grid_width as int,
                );
                vstd::arithmetic::div_mod::lemma_fundamental_div_mod(
                    y as int,
                    self.grid_height as int,
                );
                assert((grid_col as int) < (across as int)) by (nonlinear_arith)
                    requires
                        (self.grid_width as int) * (grid_col as int) <= x as int,
                        (x as int) < (self.grid_width as int) * (across as int),
                        1 <= self.grid_width as int,
                ;
                assert((grid_row as int) < self.grids_down()) by (nonlinear_arith)
                    requires
                        (self.grid_height as int) * (grid_row as int) <= y as int,
                        (y as int) < (self.grid_height as int) * (self.grids_down()),
                        1 <= self.grid_height as int,
                ;
                assert(0 <= (grid_row as int) * (across as int) && (grid_row as int) * (
                across as int) + (grid_col as int) < (across as int) * self.grids_down())
                    by (nonlinear_arith)
                    requires
                        0 <= grid_col as int && (grid_col as int) < (across as int),
                        0 <= grid_row as int,
                        (grid_row as int) < self.grids_down(),
                ;
                assert((across as int) * self.grids_down() == self.grids@.len());
            }
            let count = self.grids.len();
            let index = (grid_row as usize) * (across as usize) + (grid_col as usize);
            proof {
                assert(index < count);
            }
            Some(index)
        } else {
            None
        }
    }

    /// The height of the surface.
    pub fn height(&self) -> (r: u32)
        ensures
            r == self.height,
    {
        self.height
    }

    /// The width of the surface.
    pub fn width(&self) -> (r: u32)
        ensures
            r == self.width,
    {
        self.width
    }

    /// A read-only view of the cells of the grid at `index`.
    pub fn get_grids_cells(&self, index: usize) -> (r: &Vec<Cell>)
        requires
            index < self.grids@.len(),
        ensures
            r@ == self.grids@[index as int].cells@,
    {
        &self.grids[index].cells
    }

    /// The number of grids the canvas owns.
    pub fn grids_len(&self) -> (r: usize)
        ensures
            r == self.grids@.len(),
    {
        self.grids.len()
    }

    /// One relaxation step against a reference pattern of the surface size.
    /// Every grid is relaxed independently against its own contiguous slice
    /// of the pattern: the first cell with the minimal energy delta flips
    /// when that delta is strictly negative. Returns `Ok(true)` exactly when
    /// no grid changed (the canvas was already stable this call); a pattern
    /// of the wrong length is rejected before any cell is read.
    pub fn step(&mut self, image: Vec<Cell>) -> (r: Result<bool, CanvasError>)
        requires
            old(self).wf(),
        ensures
            final(self).wf(),
            final(self).width == old(self).width,
            final(self).height == old(self).height,
            final(self).grid_width == old(self).grid_width,
            final(self).grid_height == old(self).grid_height,
            final(self).grids@.len() == old(self).grids@.len(),
            image@.len() != old(self).surface_len() ==> {
                &&& r == Err::<bool, CanvasError>(
                    (CanvasError::PatternLengthMismatch {
                        expected: old(self).surface_len() as usize,
                        actual: image@.len() as usize,
                    }),
                )
                &&& *final(self) == *old(self)
            },
            image@.len() == old(self).surface_len() ==> {
                &&& forall|t: int|
                    0 <= t < old(self).grids@.len()
                        ==> (#[trigger] final(self).grids@[t]).cells@ == stepped(
                        old(self).pattern_slice(image@, t),
                        old(self).grids@[t].cells@,
                    )
                &&& r == Ok::<bool, CanvasError>(
                    forall|t: int|
                        0 <= t < old(self).grids@.len() ==> tile_stable(
                            old(self).pattern_slice(image@, t),
                            (#[trigger] old(self).grids@[t]).cells@,
                        ),
                )
            },
    {
        proof {
            lemma_surface_arith(
                old(self).width as int,
                old(self).height as int,
                old(self).grid_width as int,
                old(self).grid_height as int,
            );
        }
        let expected = (self.width as usize) * (self.height as usize);
        if image.len() != expected {
            return Err(
                CanvasError::PatternLengthMismatch { expected, actual: image.len() },
            );
        }
        let gl = (self.grid_width as usize) * (self.grid_height as usize);
        let count = self.grids.len();
        let mut stable = true;
        let mut t: usize = 0;
        while t < count
            invariant
                old(self).wf(),
                self.width == old(self).width,
                self.height == old(self).height,
                self.grid_width == old(self).grid_width,
                self.grid_height == old(self).grid_height,
                self.grids@.len() == count,
                count == old(self).grids@.len(),
                image@.len() == old(self).surface_len(),
                gl as int == old(self).grid_len(),
                1 <= gl as int <= u32::MAX as int,
                (count as int) * (gl as int) == old(self).surface_len(),
                0 <= t <= count,
                forall|s: int|
                    t <= s < count ==> #[trigger] self.grids@[s] == old(self).grids@[s],
                forall|s: int|
                    0 <= s < t ==> (#[trigger] self.grids@[s]).cells@ == stepped(
                        old(self).pattern_slice(image@, s),
                        old(self).grids@[s].cells@,
                    ),
                forall|s: int|
                    0 <= s < t ==> {
                        &&& (#[trigger] self.grids@[s]).wf()
                        &&& self.grids@[s].width == old(self).grid_width
                        &&& self.grids@[s].height == old(self).grid_height
                    },
                stable ==> forall|s: int|
                    0 <= s < t ==> tile_stable(
                        old(self).pattern_slice(image@, s),
                        (#[trigger] old(self).grids@[s]).cells@,
                    ),
                !stable ==> exists|s: int|
                    0 <= s < t && !tile_stable(
                        old(self).pattern_slice(image@, s),
                        (#[trigger] old(self).grids@[s]).cells@,
                    ),
            decreases count - t,
        {
            proof {
                assert(0 <= (t as int) * (gl as int) && (t as int) * (gl as int) + gl as int <= (
                count as int) * (gl as int)) by (nonlinear_arith)
                    requires
                        0 <= (t as int) && (t as int) < (count as int),
                        0 <= gl as int,
                ;
            }
            let start = t * gl;
            let pattern = extract_slice(&image, start, gl);
            let changed = relax_tile(&pattern, &mut self.grids[t].cells);
            if changed {
                stable = false;
            }
            proof {
                assert(pattern@ == old(self).pattern_slice(image@, t as int));
                crate::relax::lemma_stepped_len(
                    old(self).pattern_slice(image@, t as int),
                    old(self).grids@[t as int].cells@,
                );
                assert(self.grids@[t as int].wf());
                if changed {
                    assert(!tile_stable(
                        old(self).pattern_slice(image@, t as int),
                        old(self).grids@[t as int].cells@,
                    ));
                }
            }
            t = t + 1;
        }
        Ok(stable)
    }

    /// Re-randomizes every owned grid independently.
    pub fn randomize(&mut self)
        requires
            old(self).wf(),
        ensures
            final(self).wf(),
            final(self).width == old(self).width,
            final(self).height == old(self).height,
            final(self).grid_width == old(self).grid_width,
            final(self).grid_height == old(self).grid_height,
            final(self).grids@.len() == old(self).grids@.len(),
    {
        let count = self.grids.len();
        let mut t: usize = 0;
        while t < count
            invariant
                self.wf(),
                self.width == old(self).width,
                self.height == old(self).height,
                self.grid_width == old(self).grid_width,
                self.grid_height == old(self).grid_height,
                self.grids@.len() == count,
                0 <= t <= count,
            decreases count - t,
        {
            self.grids[t].randomize();
            t = t + 1;
        }
    }
}

/// Each reference slice of a pattern of the surface size has exactly the
/// cells of one grid.
pub proof fn lemma_pattern_slice_len(c: Canvas, image: Seq<Cell>, t: int)
    requires
        c.wf(),
        image.len() == c.surface_len(),
        0 <= t < c.grids@.len(),
    ensures
        c.pattern_slice(image, t).len() == c.grid_len(),
        c.pattern_slice(image, t).len() == c.grids@[t].cells@.len(),
{
    lemma_surface_arith(
        c.width as int,
        c.height as int,
        c.grid_width as int,
        c.grid_height as int,
    );
    let count = c.grids@.len() as int;
    let gl = c.grid_len();
    assert(0 <= t * gl && t * gl + gl <= count * gl) by (nonlinear_arith)
        requires
            0 <= t < count,
            0 <= gl,
    ;
}

/// A whole relaxation step reports the canvas stable exactly when it flips
/// no cell of any grid: every grid's cells after the step are its cells
/// before it.
pub proof fn lemma_step_stable_iff_unchanged(c: Canvas, image: Seq<Cell>)
    requires
        c.wf(),
        image.len() == c.surface_len(),
    ensures
        (forall|t: int|
            0 <= t < c.grids@.len() ==> tile_stable(
                c.pattern_slice(image, t),
                (#[trigger] c.grids@[t]).cells@,
            )) <==> (forall|t: int|
            0 <= t < c.grids@.len() ==> stepped(
                c.pattern_slice(image, t),
                (#[trigger] c.grids@[t]).cells@,
            ) == c.grids@[t].cells@),
{
    assert forall|t: int| 0 <= t < c.grids@.len() implies (tile_stable(
        c.pattern_slice(image, t),
        (#[trigger] c.grids@[t]).cells@,
    ) <==> stepped(c.pattern_slice(image, t), c.grids@[t].cells@) == c.grids@[t].cells@) by {
        lemma_pattern_slice_len(c, image, t);
        crate::relax::lemma_stable_iff_unchanged(
            c.pattern_slice(image, t),
            c.grids@[t].cells@,
        );
    }
}

/// A whole relaxation step never increases the energy of any grid, and
/// strictly decreases the energy of every grid that was not yet stable.
pub proof fn lemma_step_energy_monotone(c: Canvas, image: Seq<Cell>)
    requires
        c.wf(),
        image.len() == c.surface_len(),
    ensures
        forall|t: int|
            0 <= t < c.grids@.len() ==> tile_energy(
                c.pattern_slice(image, t),
                stepped(c.pattern_slice(image, t), (#[trigger] c.grids@[t]).cells@),
            ) <= tile_energy(c.pattern_slice(image, t), c.grids@[t].cells@),
        forall|t: int|
            0 <= t < c.grids@.len() && !tile_stable(
                c.pattern_slice(image, t),
                (#[trigger] c.grids@[t]).cells@,
            ) ==> tile_energy(
                c.pattern_slice(image, t),
                stepped(c.pattern_slice(image, t), c.grids@[t].cells@),
            ) < tile_energy(c.pattern_slice(image, t), c.grids@[t].cells@),
{
    assert forall|t: int| 0 <= t < c.grids@.len() implies (tile_energy(
        c.pattern_slice(image, t),
        stepped(c.pattern_slice(image, t), (#[trigger] c.grids@[t]).cells@),
    ) <= tile_energy(c.pattern_slice(image, t), c.grids@[t].cells@) && (!tile_stable(
        c.pattern_slice(image, t),
        c.grids@[t].cells@,
    ) ==> tile_energy(
        c.pattern_slice(image, t),
        stepped(c.pattern_slice(image, t), c.grids@[t].cells@),
    ) < tile_energy(c.pattern_slice(image, t), c.grids@[t].cells@))) by {
        lemma_pattern_slice_len(c, image, t);
        crate::relax::lemma_energy_monotone(c.pattern_slice(image, t), c.grids@[t].cells@);
    }
}

/// Repeated whole-canvas steps against one fixed reference pattern
/// converge: each step relaxes every grid once, so after at most one step
/// per grid cell every grid is stable at once and the step reports the
/// canvas stable.
pub proof fn lemma_step_convergence(c: Canvas, image: Seq<Cell>)
    requires
        c.wf(),
        image.len() == c.surface_len(),
    ensures
        forall|t: int|
            0 <= t < c.grids@.len() ==> tile_stable(
                c.pattern_slice(image, t),
                stepped_iter(
                    c.pattern_slice(image, t),
                    (#[trigger] c.grids@[t]).cells@,
                    c.grid_len() as nat,
                ),
            ),
{
    assert forall|t: int| 0 <= t < c.grids@.len() implies tile_stable(
        c.pattern_slice(image, t),
        stepped_iter(
            c.pattern_slice(image, t),
            (#[trigger] c.grids@[t]).cells@,
            c.grid_len() as nat,
        ),
    ) by {
        lemma_pattern_slice_len(c, image, t);
        crate::relax::lemma_convergence(c.pattern_slice(image, t), c.grids@[t].cells@);
    }
}

} // verus!
