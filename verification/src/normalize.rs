//! From counters to colours: the largest counter of the finished grid is found
//! once, and one transfer function maps every cell to a colour.
//!
//! The logarithmic and the power-law transfer need logarithms, which this library
//! does not compute. For them the caller hands in a curve: a table whose entry `v`
//! is the intensity of the value `v`.

use crate::canvas::extent;
use crate::canvas::flattened;
use crate::canvas::samples;
use crate::canvas::Canvas;
use crate::canvas::Colour;
use crate::grid::lemma_peak_is_maximum;
use crate::grid::peak;
use crate::grid::PixelGrid;
use vstd::prelude::*;

verus! {

/// The transfer function that maps a cell's value to a colour.
#[derive(Clone, Copy, Debug, PartialEq, Eq, Structural)]
pub enum Transfer {
    /// Zero is background, everything else one fixed colour.
    Identity,
    /// Intensity `floor(255 * ln(v) / ln(maximum))`, taken from the curve.
    Logarithmic,
    /// Intensity `floor(255 * (ln(v) / ln(maximum))^2)`, taken from the curve.
    PowerLaw,
    /// Intensity `floor(255 * v / maximum)`.
    LinearRatio,
    /// Intensity `floor(255 * sqrt(v / maximum))`.
    SqrtRatio,
}

/// Why a grid was not rendered.
#[derive(Clone, Copy, Debug, PartialEq, Eq, Structural)]
pub enum RenderError {
    /// The transfer function reads the curve, and the curve has no entry for the
    /// grid's largest value.
    CurveTooShort,
}

/// The colour of a cell that holds nothing, and of every cell of a degenerate grid.
pub open spec fn background() -> Colour {
    Colour { red: 0, green: 0, blue: 0, alpha: 220 }
}

/// The colour that the identity transfer gives to a cell that holds something.
pub open spec fn foreground() -> Colour {
    Colour { red: 255, green: 255, blue: 255, alpha: 255 }
}

/// The colour of intensity `level` on the ramp of the logarithmic transfer.
pub open spec fn log_ramp(level: u8) -> Colour {
    Colour { red: 0, green: level / 2, blue: level, alpha: 255 }
}

/// The colour of intensity `level` on the ramp of the power-law transfer.
pub open spec fn power_ramp(level: u8) -> Colour {
    Colour { red: level / 4, green: level / 2, blue: level, alpha: 255 }
}

/// The colour of intensity `level` on the ramp of the two ratio transfers.
pub open spec fn density_ramp(level: u8) -> Colour {
    Colour { red: 0, green: level, blue: level, alpha: 255 }
}

/// `floor(255 * v / maximum)`.
pub open spec fn linear_ratio(v: nat, maximum: nat) -> int {
    (255 * v) as int / (maximum as int)
}

/// `k` is `floor(255 * sqrt(v / maximum))`: the square of `k / 255` does not exceed
/// `v / maximum`, and that of `(k + 1) / 255` does.
pub open spec fn is_sqrt_ratio(v: nat, maximum: nat, k: int) -> bool {
    &&& 0 <= k
    &&& k * k * maximum <= 65025 * v
    &&& 65025 * v < (k + 1) * (k + 1) * maximum
}

/// `floor(255 * sqrt(v / maximum))`.
pub open spec fn sqrt_ratio(v: nat, maximum: nat) -> int {
    choose|k: int| is_sqrt_ratio(v, maximum, k)
}

proof fn lemma_square_steps(a: int, b: int, m: int)
    by (nonlinear_arith)
    requires
        0 <= a < b,
        0 <= m,
    ensures
        (a + 1) * (a + 1) * m <= b * b * m,
{
}

/// At most one number is `floor(255 * sqrt(v / maximum))`.
pub proof fn lemma_sqrt_ratio_unique(v: nat, maximum: nat, k1: int, k2: int)
    requires
        is_sqrt_ratio(v, maximum, k1),
        is_sqrt_ratio(v, maximum, k2),
    ensures
        k1 == k2,
{
    if k1 < k2 {
        lemma_square_steps(k1, k2, maximum as int);
    } else if k2 < k1 {
        lemma_square_steps(k2, k1, maximum as int);
    }
}

/// The background colour.
pub fn background_colour() -> (c: Colour)
    ensures
        c == background(),
{
    Colour { red: 0, green: 0, blue: 0, alpha: 220 }
}

/// The colour of a cell under the logarithmic transfer: background where the cell
/// holds nothing or the grid's largest value `m` is at most 1, else the colour of
/// `level` on the logarithmic ramp. `level` is `floor(255 * ln(n) / ln(m))`, which
/// the caller computes; it is not read where the result is background.
pub fn to_colour(n: u32, m: u32, level: u8) -> (c: Colour)
    ensures
        c == if n == 0 || m <= 1 {
            background()
        } else {
            log_ramp(level)
        },
{
    if n == 0 || m <= 1 {
        background_colour()
    } else {
        Colour { red: 0, green: level / 2, blue: level, alpha: 255 }
    }
}

/// The colour of a cell under the power-law transfer: background where the cell
/// holds nothing or the grid's largest value `m` is at most 1, else the colour of
/// `level` on the power-law ramp. `level` is `floor(255 * (ln(n) / ln(m))^2)`,
/// which the caller computes; it is not read where the result is background.
pub fn to_colour1(n: u32, m: u32, level: u8) -> (c: Colour)
    ensures
        c == if n == 0 || m <= 1 {
            background()
        } else {
            power_ramp(level)
        },
{
    if n == 0 || m <= 1 {
        background_colour()
    } else {
        Colour { red: level / 4, green: level / 2, blue: level, alpha: 255 }
    }
}

/// `floor(255 * v / maximum)` for a value of a grid whose largest value is
/// `maximum`.
pub fn linear_level(v: u32, maximum: u32) -> (level: u8)
    requires
        0 < maximum,
        v <= maximum,
    ensures
        level == linear_ratio(v as nat, maximum as nat),
{
    let scaled: u64 = 255 * (v as u64);
    let level: u64 = scaled / (maximum as u64);
    assert(level <= 255) by (nonlinear_arith)
        requires
            level == (255 * v) / (maximum as int),
            0 < maximum,
            0 <= v <= maximum,
    ;
    level as u8
}

/// `floor(255 * sqrt(v / maximum))` for a value of a grid whose largest value is
/// `maximum`, in whole numbers throughout.
pub fn sqrt_level(v: u32, maximum: u32) -> (level: u8)
    requires
        0 < maximum,
        v <= maximum,
    ensures
        is_sqrt_ratio(v as nat, maximum as nat, level as int),
        level == sqrt_ratio(v as nat, maximum as nat),
{
    let target: u64 = 65025 * (v as u64);
    let mut lo: u64 = 0;
    let mut hi: u64 = 256;
    assert(0 * 0 * maximum == 0) by (nonlinear_arith);
    assert(256 * 256 * maximum == 65536 * maximum) by (nonlinear_arith);
    while hi - lo > 1
        invariant
            0 <= lo < hi <= 256,
            0 < maximum,
            target == 65025 * v,
            lo * lo * maximum <= target,
            target < hi * hi * maximum,
        decreases hi - lo,
    {
        let mid: u64 = (lo + hi) / 2;
        assert(mid * mid <= 65536 && mid * mid * maximum <= 65536 * 0xffff_ffff)
            by (nonlinear_arith)
            requires
                0 <= mid <= 256,
                0 <= maximum <= 0xffff_ffff,
        ;
        let square: u64 = mid * mid;
        if square * (maximum as u64) <= target {
            lo = mid;
        } else {
            hi = mid;
        }
    }
    proof {
        assert(hi == lo + 1);
        let k = choose|k: int| is_sqrt_ratio(v as nat, maximum as nat, k);
        assert(is_sqrt_ratio(v as nat, maximum as nat, lo as int));
        lemma_sqrt_ratio_unique(v as nat, maximum as nat, k, lo as int);
    }
    lo as u8
}

/// Whether the transfer reads the curve on a grid whose largest value is `maximum`.
pub open spec fn reads_curve(transfer: Transfer, maximum: u32) -> bool {
    (transfer == Transfer::Logarithmic || transfer == Transfer::PowerLaw) && maximum > 1
}

/// The colour of a cell that holds `v`, in a grid whose largest value is `maximum`.
pub open spec fn shade(transfer: Transfer, v: u32, maximum: u32, curve: Seq<u8>) -> Colour {
    match transfer {
        Transfer::Identity => if v == 0 {
            background()
        } else {
            foreground()
        },
        Transfer::Logarithmic => if v == 0 || maximum <= 1 {
            background()
        } else {
            log_ramp(curve[v as int])
        },
        Transfer::PowerLaw => if v == 0 || maximum <= 1 {
            background()
        } else {
            power_ramp(curve[v as int])
        },
        Transfer::LinearRatio => if maximum == 0 {
            background()
        } else {
            density_ramp(linear_ratio(v as nat, maximum as nat) as u8)
        },
        Transfer::SqrtRatio => if maximum == 0 {
            background()
        } else {
            density_ramp(sqrt_ratio(v as nat, maximum as nat) as u8)
        },
    }
}

/// The colours of the cells `cells`, each mapped by the same transfer function
/// against the largest of them.
pub open spec fn rendering(cells: Seq<u32>, transfer: Transfer, curve: Seq<u8>) -> Seq<Colour> {
    Seq::new(cells.len(), |i: int| shade(transfer, cells[i], peak(cells), curve))
}

/// The colour of one cell.
pub fn shade_cell(transfer: Transfer, v: u32, maximum: u32, curve: &Vec<u8>) -> (c: Colour)
    requires
        v <= maximum,
        reads_curve(transfer, maximum) ==> curve@.len() > maximum,
    ensures
        c == shade(transfer, v, maximum, curve@),
{
    match transfer {
        Transfer::Identity => {
            if v == 0 {
                background_colour()
            } else {
                Colour { red: 255, green: 255, blue: 255, alpha: 255 }
            }
        },
        Transfer::Logarithmic => {
            if v == 0 || maximum <= 1 {
                background_colour()
            } else {
                to_colour(v, maximum, curve[v as usize])
            }
        },
        Transfer::PowerLaw => {
            if v == 0 || maximum <= 1 {
                background_colour()
            } else {
                to_colour1(v, maximum, curve[v as usize])
            }
        },
        Transfer::LinearRatio => {
            if maximum == 0 {
                background_colour()
            } else {
                let level: u8 = linear_level(v, maximum);
                Colour { red: 0, green: level, blue: level, alpha: 255 }
            }
        },
        Transfer::SqrtRatio => {
            if maximum == 0 {
                background_colour()
            } else {
                let level: u8 = sqrt_level(v, maximum);
                Colour { red: 0, green: level, blue: level, alpha: 255 }
            }
        },
    }
}

/// Maps every cell of the grid by `transfer`, against the grid's largest value
/// `maximum`, in one pass.
pub(crate) fn paint_grid(
    grid: &PixelGrid,
    transfer: Transfer,
    maximum: u32,
    curve: &Vec<u8>,
) -> (canvas: Canvas)
    requires
        grid.wf(),
        maximum == peak(grid@),
        reads_curve(transfer, maximum) ==> curve@.len() > maximum,
    ensures
        extent(canvas) == (grid.cols() as u32, grid.rows() as u32),
        samples(canvas) == flattened(rendering(grid@, transfer, curve@)),
{
    let cells = grid.cells();
    let mut colours: Vec<Colour> = Vec::new();
    let mut i: usize = 0;
    proof {
        lemma_peak_is_maximum(grid@);
    }
    while i < cells.len()
        invariant
            i <= cells@.len(),
            cells@ == grid@,
            maximum == peak(grid@),
            forall|j: int| 0 <= j < cells@.len() ==> cells@[j] <= maximum,
            reads_curve(transfer, maximum) ==> curve@.len() > maximum,
            colours@.len() == i,
            forall|j: int|
                0 <= j < i ==> colours@[j] == shade(transfer, cells@[j], maximum, curve@),
        decreases cells@.len() - i,
    {
        let c = shade_cell(transfer, cells[i], maximum, curve);
        colours.push(c);
        i = i + 1;
    }
    assert(colours@ =~= rendering(grid@, transfer, curve@));
    Canvas::paint(grid.width(), grid.height(), &colours)
}

/// Renders the finished grid: finds its largest value, then maps every cell by
/// `transfer` in one pass. Fails only where the transfer reads the curve and the
/// curve is too short for the grid's largest value.
pub fn render(grid: &PixelGrid, transfer: Transfer, curve: &Vec<u8>) -> (out: Result<
    Canvas,
    RenderError,
>)
    requires
        grid.wf(),
    ensures
        out is Err <==> reads_curve(transfer, peak(grid@)) && curve@.len() <= peak(grid@),
        out matches Err(e) ==> e == RenderError::CurveTooShort,
        out matches Ok(canvas) ==> {
            &&& extent(canvas) == (grid.cols() as u32, grid.rows() as u32)
            &&& samples(canvas) == flattened(rendering(grid@, transfer, curve@))
        },
{
    let maximum: u32 = grid.maximum();
    let reads: bool = match transfer {
        Transfer::Logarithmic => maximum > 1,
        Transfer::PowerLaw => maximum > 1,
        _ => false,
    };
    if reads && curve.len() <= maximum as usize {
        return Err(RenderError::CurveTooShort);
    }
    Ok(paint_grid(grid, transfer, maximum, curve))
}

/// Rendering is repeatable: two renderings of the same grid by the same transfer
/// function, with the same curve, have the same samples.
pub proof fn lemma_render_repeatable(
    first: Canvas,
    second: Canvas,
    cells: Seq<u32>,
    transfer: Transfer,
    curve: Seq<u8>,
)
    requires
        samples(first) == flattened(rendering(cells, transfer, curve)),
        samples(second) == flattened(rendering(cells, transfer, curve)),
    ensures
        samples(first) == samples(second),
{
}

/// One mapping for all cells: cells that hold the same value get the same colour.
pub proof fn lemma_rendering_uniform(
    cells: Seq<u32>,
    transfer: Transfer,
    curve: Seq<u8>,
    i: int,
    j: int,
)
    requires
        0 <= i < cells.len(),
        0 <= j < cells.len(),
        cells[i] == cells[j],
    ensures
        rendering(cells, transfer, curve)[i] == rendering(cells, transfer, curve)[j],
{
}

/// A degenerate grid is all background: one whose largest value is 0, under any
/// transfer, and one whose largest value is at most 1, under the logarithmic and
/// the power-law transfer.
pub proof fn lemma_degenerate_is_background(
    cells: Seq<u32>,
    transfer: Transfer,
    curve: Seq<u8>,
    i: int,
)
    requires
        0 <= i < cells.len(),
        peak(cells) == 0 || (peak(cells) <= 1 && (transfer == Transfer::Logarithmic || transfer
            == Transfer::PowerLaw)),
    ensures
        rendering(cells, transfer, curve)[i] == background(),
{
    lemma_peak_is_maximum(cells);
}

} // verus!
