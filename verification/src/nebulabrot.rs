//! The orbit-density picture: every pixel counts the orbit points that fell into
//! it, and a ratio transfer turns the counts into colours.

use crate::canvas::extent;
use crate::canvas::flattened;
use crate::canvas::samples;
use crate::canvas::Canvas;
use crate::canvas::Frame;
use crate::grid::peak;
use crate::grid::PixelGrid;
use crate::normalize::paint_grid;
use crate::normalize::rendering;
use crate::normalize::Transfer;
use vstd::prelude::*;

verus! {

/// A picture of the density grid with what its file is named after.
pub struct Snapshot {
    /// The number of seeds drawn so far.
    pub steps: usize,
    /// The time at which the run began, in seconds.
    pub sec: u64,
    /// The largest counter of the grid.
    pub maximum: u32,
    /// The picture.
    pub frame: Frame,
}

/// Paints the density grid under the linear transfer: intensity
/// `floor(255 * v / maximum)`. A grid that holds nothing comes out all background.
pub fn draw_picture(dat: &PixelGrid) -> (canvas: Canvas)
    requires
        dat.wf(),
    ensures
        extent(canvas) == (dat.cols() as u32, dat.rows() as u32),
        samples(canvas) == flattened(
            rendering(dat@, Transfer::LinearRatio, Seq::<u8>::empty()),
        ),
{
    let maximum: u32 = dat.maximum();
    let curve: Vec<u8> = Vec::new();
    paint_grid(dat, Transfer::LinearRatio, maximum, &curve)
}

/// Paints the density grid under the square-root transfer, which lifts the faint
/// cells: intensity `floor(255 * sqrt(v / maximum))`. A grid that holds nothing
/// comes out all background.
pub fn draw_picture_sqrt(dat: &PixelGrid) -> (canvas: Canvas)
    requires
        dat.wf(),
    ensures
        extent(canvas) == (dat.cols() as u32, dat.rows() as u32),
        samples(canvas) == flattened(rendering(dat@, Transfer::SqrtRatio, Seq::<u8>::empty())),
{
    let maximum: u32 = dat.maximum();
    let curve: Vec<u8> = Vec::new();
    paint_grid(dat, Transfer::SqrtRatio, maximum, &curve)
}

/// Paints the density grid as `draw_picture` does, after `steps` seeds of a run
/// that began at `sec`, and hands out the picture as plain values together with the
/// grid's largest counter: what an image sink needs to name and write the file.
pub fn save(dat: &PixelGrid, steps: usize, sec: u64) -> (snapshot: Snapshot)
    requires
        dat.wf(),
    ensures
        snapshot.steps == steps,
        snapshot.sec == sec,
        snapshot.maximum == peak(dat@),
        snapshot.frame.width == dat.cols(),
        snapshot.frame.height == dat.rows(),
        snapshot.frame.rgba@ == flattened(
            rendering(dat@, Transfer::LinearRatio, Seq::<u8>::empty()),
        ),
{
    let maximum: u32 = dat.maximum();
    let frame = draw_picture(dat).into_frame();
    Snapshot { steps, sec, maximum, frame }
}

} // verus!
