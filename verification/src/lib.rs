//! Escape-time and orbit-density renderings of the quadratic map `z -> z*z + c`:
//! the counting of iterations, the assignment of samples to workers, the grid of
//! per-pixel counters and the mapping of counters to colours.

pub mod canvas;
pub mod dispatch;
pub mod grid;
pub mod iterate;
pub mod mandelbrot;
pub mod nebulabrot;
pub mod normalize;
