//! Contours of a metaball field on a pixel grid.
//!
//! The crate covers the integer side of a marching-squares renderer: the
//! grid of cells laid over the canvas, the classification of a cell by which
//! of its corners lie inside the field, the segments that the contour takes
//! through it, the line rasterizer that writes those segments into a frame
//! buffer, and the packed colours that the buffer holds.
//!
//! Field values themselves are real numbers and stay with the caller. For
//! each frame the caller lays out a [`Grid`], samples the field at the
//! corners that each [`Square`] names, and hands back one [`Sample`] per
//! cell: a flag for each corner and, for each side, how far along it the
//! field passes the threshold. [`Grid::render`] makes the frame of them.

mod arith;
pub mod color;
pub mod grid;
pub mod point;
pub mod raster;
pub mod square;

pub use color::Color;
pub use grid::{ConfigError, Grid};
pub use point::Point;
pub use raster::{bresenham, CONTOUR};
pub use square::{Contour, Corners, RenderMode, Sample, Segment, Side, Sides, Square};
