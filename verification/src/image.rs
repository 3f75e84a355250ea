//! The pattern generator: a synthetic bipolar reference image with a
//! vignette-like noise profile — noisy near the left and right borders,
//! clean in the center band.
//!
//! Every pixel is drawn independently: White with a probability given by its
//! column, Black otherwise. The per-column probability rises linearly from 0
//! over the first quarter of the columns, stays at 1 over the middle half,
//! and falls back to 0 as the mirror image over the last quarter; the row
//! never affects it. Probabilities are exact rationals
//! `numerator / denominator` below.

use vstd::prelude::*;

use crate::cell::Cell;
use crate::rng::random_below;

verus! {

/// The denominator of the per-column whiteness probability: one less than
/// the length of the border ramp, or 1 when the ramp has a single column.
pub open spec fn prob_denominator(width: int) -> int {
    let q = width / 4;
    if q >= 2 {
        q - 1
    } else {
        1
    }
}

/// The numerator of the whiteness probability of column `col`: a ramp rising
/// from 0 over the first quarter of the columns, the full denominator over
/// the middle half, and the mirrored falling ramp over the last quarter.
pub open spec fn prob_numerator(width: int, col: int) -> int {
    let q = width / 4;
    if col < q {
        if q >= 2 {
            col
        } else {
            0
        }
    } else if col < 3 * q {
        prob_denominator(width)
    } else {
        4 * q - 1 - col
    }
}

/// Builds a flat bipolar image of `width * height` pixels in row-major
/// order. Each pixel is White with exactly the probability of its column:
/// always White across the clean center band, never White where the
/// probability is zero (the outermost ramp columns), and drawn from the
/// process-wide pseudo-random source in between.
pub fn gen_image(height: u32, width: u32) -> (r: Vec<Cell>)
    requires
        width % 4 == 0,
        width as int * height as int <= usize::MAX as int,
    ensures
        r@.len() == width as int * height as int,
        forall|i: int|
            0 <= i < r@.len() && prob_numerator(width as int, i % (width as int))
                == prob_denominator(width as int) ==> r@[i] == Cell::White,
        forall|i: int|
            0 <= i < r@.len() && prob_numerator(width as int, i % (width as int)) == 0
                ==> r@[i] == Cell::Black,
{
    proof {
        vstd::arithmetic::div_mod::lemma_fundamental_div_mod(width as int, 4);
    }
    let len = (width as usize) * (height as usize);
    let q = width / 4;
    let den: u32 = if q >= 2 {
        q - 1
    } else {
        1
    };
    let mut out: Vec<Cell> = Vec::new();
    let mut idx: usize = 0;
    while idx < len
        invariant
            width % 4 == 0,
            width as int == 4 * (q as int),
            q == width as int / 4,
            den == prob_denominator(width as int),
            1 <= den,
            len == width as int * height as int,
            out@.len() == idx,
            0 <= idx <= len,
            forall|j: int|
                0 <= j < idx && prob_numerator(width as int, j % (width as int))
                    == prob_denominator(width as int) ==> out@[j] == Cell::White,
            forall|j: int|
                0 <= j < idx && prob_numerator(width as int, j % (width as int)) == 0
                    ==> out@[j] == Cell::Black,
        decreases len - idx,
    {
        proof {
            assert(width >= 1) by {
                if width == 0 {
                    assert(len == 0);
                }
            }
        }
        let col = (idx % (width as usize)) as u32;
        let num: u32 = if col < q {
            if q >= 2 {
                col
            } else {
                0
            }
        } else if col < 3 * q {
            den
        } else {
            4 * q - 1 - col
        };
        proof {
            assert(col as int == (idx as int) % (width as int));
            assert(num == prob_numerator(width as int, col as int));
        }
        let draw = random_below(den);
        let c = if draw < num {
            Cell::White
        } else {
            Cell::Black
        };
        out.push(c);
        idx = idx + 1;
    }
    out
}

} // verus!
