//! The picture that a rendering is painted on: an RGBA buffer of the `image` crate,
//! reached through a handful of calls whose contracts are stated here and not
//! proved.

use image::ImageBuffer;
use image::Rgba;
use crate::grid::lemma_cell_inside;
use crate::grid::lemma_row_step;
use vstd::prelude::*;

verus! {

/// A colour of four 8-bit channels.
#[derive(Clone, Copy, Debug, PartialEq, Eq, Structural)]
pub struct Colour {
    pub red: u8,
    pub green: u8,
    pub blue: u8,
    pub alpha: u8,
}

/// An RGBA picture, held in an `image::ImageBuffer` that Verus does not look into.
#[verifier::external_body]
pub struct Canvas {
    picture: ImageBuffer<Rgba<u8>, Vec<u8>>,
}

/// The samples of a picture: row by row, four per pixel in the order red, green,
/// blue, alpha.
pub uninterp spec fn samples(canvas: Canvas) -> Seq<u8>;

/// The width and the height of a picture, in pixels.
pub uninterp spec fn extent(canvas: Canvas) -> (u32, u32);

/// The colour that four consecutive samples make up, for the pixel of linear index `i`.
pub open spec fn pixel_at(s: Seq<u8>, i: int) -> Colour {
    Colour { red: s[4 * i], green: s[4 * i + 1], blue: s[4 * i + 2], alpha: s[4 * i + 3] }
}

/// `s` with the four samples of pixel `i` replaced by those of `colour`.
pub open spec fn with_pixel(s: Seq<u8>, i: int, colour: Colour) -> Seq<u8> {
    s.update(4 * i, colour.red).update(4 * i + 1, colour.green).update(
        4 * i + 2,
        colour.blue,
    ).update(4 * i + 3, colour.alpha)
}

/// `ImageBuffer::new`: a picture of the given extent whose samples are all zero.
/// The call multiplies 4 by the width and the product by the height, and panics
/// where either product overflows `usize`; the precondition leaves both out.
#[verifier::external_body]
fn blank(width: u32, height: u32) -> (canvas: Canvas)
    requires
        4 * width <= usize::MAX,
        4 * width * height <= usize::MAX,
    ensures
        extent(canvas) == (width, height),
        samples(canvas) == Seq::new((4 * width * height) as nat, |k: int| 0u8),
{
    Canvas { picture: ImageBuffer::new(width, height) }
}

/// `ImageBuffer::put_pixel`: the four samples of the pixel in column `x` of row `y`
/// become those of `colour`, and nothing else changes. The call panics outside the
/// picture's extent; the precondition leaves that out.
#[verifier::external_body]
fn put_pixel(canvas: &mut Canvas, x: u32, y: u32, colour: Colour)
    requires
        x < extent(*old(canvas)).0,
        y < extent(*old(canvas)).1,
    ensures
        extent(*final(canvas)) == extent(*old(canvas)),
        samples(*final(canvas)) == with_pixel(
            samples(*old(canvas)),
            y * extent(*old(canvas)).0 + x,
            colour,
        ),
{
    canvas.picture.put_pixel(x, y, Rgba([colour.red, colour.green, colour.blue, colour.alpha]));
}

/// `ImageBuffer::dimensions`: the picture's width and height.
#[verifier::external_body]
fn dimensions(canvas: &Canvas) -> (dims: (u32, u32))
    ensures
        dims == extent(*canvas),
{
    canvas.picture.dimensions()
}

/// `ImageBuffer::into_raw`: the picture's samples as a vector.
#[verifier::external_body]
fn into_raw(canvas: Canvas) -> (raw: Vec<u8>)
    ensures
        raw@ == samples(canvas),
{
    canvas.picture.into_raw()
}

/// A finished picture as plain values: what an image sink is handed.
pub struct Frame {
    pub width: u32,
    pub height: u32,
    /// Four samples per pixel, row by row.
    pub rgba: Vec<u8>,
}

/// The samples of a picture whose pixels, row by row, have the colours `colours`.
pub open spec fn flattened(colours: Seq<Colour>) -> Seq<u8> {
    Seq::new(
        4 * colours.len(),
        |k: int|
            if k % 4 == 0 {
                colours[k / 4].red
            } else if k % 4 == 1 {
                colours[k / 4].green
            } else if k % 4 == 2 {
                colours[k / 4].blue
            } else {
                colours[k / 4].alpha
            },
    )
}

impl Canvas {
    /// A picture of `width` by `height` pixels whose pixels, row by row, have the
    /// colours `colours`.
    pub(crate) fn paint(width: u32, height: u32, colours: &Vec<Colour>) -> (canvas: Canvas)
        requires
            colours@.len() == width * height,
            4 * width <= usize::MAX,
            4 * (width * height) <= usize::MAX,
        ensures
            extent(canvas) == (width, height),
            samples(canvas) == flattened(colours@),
    {
        assert(4 * width * height == 4 * (width * height)) by (nonlinear_arith);
        let mut canvas = blank(width, height);
        let mut i: usize = 0;
        let mut y: u32 = 0;
        while y < height
            invariant
                y <= height,
                i == y * width,
                colours@.len() == width * height,
                4 * (width * height) <= usize::MAX,
                extent(canvas) == (width, height),
                samples(canvas).len() == 4 * colours@.len(),
                forall|k: int| 0 <= k < 4 * i ==> samples(canvas)[k] == flattened(colours@)[k],
            decreases height - y,
        {
            let mut x: u32 = 0;
            while x < width
                invariant
                    y < height,
                    x <= width,
                    i == y * width + x,
                    colours@.len() == width * height,
                    4 * (width * height) <= usize::MAX,
                    extent(canvas) == (width, height),
                    samples(canvas).len() == 4 * colours@.len(),
                    forall|k: int|
                        0 <= k < 4 * i ==> samples(canvas)[k] == flattened(colours@)[k],
                decreases width - x,
            {
                proof {
                    lemma_cell_inside(x as int, y as int, width as int, height as int);
                }
                put_pixel(&mut canvas, x, y, colours[i]);
                i = i + 1;
                x = x + 1;
            }
            proof {
                lemma_row_step(y as int, width as int, height as int);
            }
            y = y + 1;
        }
        proof {
            lemma_row_step(y as int, width as int, height as int);
            assert(samples(canvas) =~= flattened(colours@));
        }
        canvas
    }

    /// The picture as plain values.
    pub fn into_frame(self) -> (frame: Frame)
        ensures
            (frame.width, frame.height) == extent(self),
            frame.rgba@ == samples(self),
    {
        let (width, height) = dimensions(&self);
        let rgba = into_raw(self);
        Frame { width, height, rgba }
    }
}

} // verus!
