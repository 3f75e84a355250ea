//! A tiled, asynchronous energy-minimization engine over a grid of bipolar
//! cells. A canvas is covered by equally sized tiles; each call to `step`
//! relaxes every tile one cell flip at a time toward a stored reference
//! pattern under a rank-one Hebbian local-field rule.

pub mod canvas;
pub mod cell;
pub mod grid;
pub mod image;
pub mod relax;
mod rng;

pub use crate::canvas::Canvas;
pub use crate::canvas::CanvasError;
pub use crate::canvas::Dimension;
pub use crate::cell::Cell;
pub use crate::grid::Grid;
pub use crate::image::gen_image;
