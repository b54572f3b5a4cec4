//! The escape-time picture: every pixel holds the number of the iteration at which
//! its seed diverged, and the logarithmic transfer turns the numbers into colours.

use crate::canvas::extent;
use crate::canvas::flattened;
use crate::canvas::samples;
use crate::canvas::Canvas;
use crate::canvas::Frame;
use crate::grid::peak;
use crate::grid::PixelGrid;
use crate::normalize::reads_curve;
use crate::normalize::render;
use crate::normalize::rendering;
use crate::normalize::RenderError;
use crate::normalize::Transfer;
use vstd::prelude::*;

verus! {

/// Paints the finished escape-time grid under the logarithmic transfer. Entry `v`
/// of `curve` is the intensity of the value `v`, `floor(255 * ln(v) / ln(maximum))`,
/// for every `v` from 2 to the grid's largest value; the call fails where the curve
/// ends before that. A grid whose largest value is at most 1 needs no curve and
/// comes out all background.
pub fn draw_picture(dat: &PixelGrid, curve: &Vec<u8>) -> (out: Result<Canvas, RenderError>)
    requires
        dat.wf(),
    ensures
        out is Err <==> peak(dat@) > 1 && curve@.len() <= peak(dat@),
        out matches Err(e) ==> e == RenderError::CurveTooShort,
        out matches Ok(canvas) ==> {
            &&& extent(canvas) == (dat.cols() as u32, dat.rows() as u32)
            &&& samples(canvas) == flattened(rendering(dat@, Transfer::Logarithmic, curve@))
        },
{
    render(dat, Transfer::Logarithmic, curve)
}

/// Paints the finished escape-time grid as `draw_picture` does and hands the
/// picture out as plain values, ready for an image sink to write.
pub fn save(dat: &PixelGrid, curve: &Vec<u8>) -> (out: Result<Frame, RenderError>)
    requires
        dat.wf(),
    ensures
        out is Err <==> peak(dat@) > 1 && curve@.len() <= peak(dat@),
        out matches Err(e) ==> e == RenderError::CurveTooShort,
        out matches Ok(frame) ==> {
            &&& frame.width == dat.cols()
            &&& frame.height == dat.rows()
            &&& frame.rgba@ == flattened(rendering(dat@, Transfer::Logarithmic, curve@))
        },
{
    match draw_picture(dat, curve) {
        Ok(canvas) => Ok(canvas.into_frame()),
        Err(e) => Err(e),
    }
}

} // verus!
