//! Intensities: from the values of a grid to the pixels of a raster.
//!
//! The range of the data is spread over the 256 gray levels, the least value
//! at black and the greatest at white, each intensity cut down to a whole
//! number. A cell without data is black. Where the range is a single value
//! there is nothing to spread, and every cell that holds data gets
//! `FLAT_INTENSITY`.

use vstd::prelude::*;
use crate::decimal::Decimal;
use crate::grid::{cells_of, ElevationGrid};
use crate::header::RasterHeader;
use crate::range::{is_data, is_maximum, is_minimum, ValueRange};

verus! {

/// The intensity of a cell without data.
pub const NODATA_INTENSITY: u8 = 0;

/// The intensity of a cell that holds data, in a grid whose data is all one
/// value.
pub const FLAT_INTENSITY: u8 = 0;

/// The intensity of the value `v` under the range from `low` to `high`:
/// `(v - low) / (high - low) * 255`, cut down to a whole number and held
/// within 0 and 255.
pub open spec fn intensity_of(v: int, nodata: int, low: int, high: int) -> int {
    if v == nodata {
        NODATA_INTENSITY as int
    } else if high <= low {
        FLAT_INTENSITY as int
    } else {
        let level = ((v - low) * 255) / (high - low);
        if level < 0 {
            0
        } else if level > 255 {
            255
        } else {
            level
        }
    }
}

/// The pixel in row `y`, column `x` of a row-major buffer `width` wide.
pub open spec fn pixel_at(pixels: Seq<u8>, width: nat, y: int, x: int) -> u8 {
    pixels[y * width + x]
}

/// Tells whether `pixels`, `width` wide, holds the intensity of each cell.
pub open spec fn is_rendering(
    pixels: Seq<u8>,
    width: nat,
    cells: Seq<Seq<int>>,
    nodata: int,
    low: int,
    high: int,
) -> bool {
    &&& pixels.len() == cells.len() * width
    &&& forall|y: int, x: int|
        0 <= y < cells.len() && 0 <= x < width ==> #[trigger] pixel_at(pixels, width, y, x)
            == intensity_of(cells[y][x], nodata, low, high)
}

/// An image of 8-bit intensities, row by row, the northernmost first.
#[derive(Debug)]
pub struct GrayscaleRaster {
    width: usize,
    height: usize,
    pixels: Vec<u8>,
}

impl View for GrayscaleRaster {
    type V = Seq<u8>;

    /// The intensities in row-major order.
    closed spec fn view(&self) -> Seq<u8> {
        self.pixels@
    }
}

impl GrayscaleRaster {
    #[verifier::type_invariant]
    spec fn filled(self) -> bool {
        self.pixels.len() == self.height * self.width
    }

    /// Number of pixels in a row.
    pub closed spec fn spec_width(self) -> nat {
        self.width as nat
    }

    /// Number of rows.
    pub closed spec fn spec_height(self) -> nat {
        self.height as nat
    }

    /// Number of pixels in a row.
    pub fn width(&self) -> (n: usize)
        ensures
            n == self.spec_width(),
            self@.len() == self.spec_height() * self.spec_width(),
    {
        proof {
            use_type_invariant(self);
        }
        self.width
    }

    /// Number of rows.
    pub fn height(&self) -> (n: usize)
        ensures
            n == self.spec_height(),
            self@.len() == self.spec_height() * self.spec_width(),
    {
        proof {
            use_type_invariant(self);
        }
        self.height
    }

    /// The intensities in row-major order.
    pub fn pixels(&self) -> (p: &[u8])
        ensures
            p@ == self@,
            p@.len() == self.spec_height() * self.spec_width(),
    {
        proof {
            use_type_invariant(self);
        }
        self.pixels.as_slice()
    }

    /// The intensity in row `y`, column `x`; `None` outside the raster.
    pub fn pixel(&self, y: usize, x: usize) -> (r: Option<u8>)
        ensures
            r is Some <==> y < self.spec_height() && x < self.spec_width(),
            r matches Some(p) ==> p == pixel_at(self@, self.spec_width(), y as int, x as int),
    {
        proof {
            use_type_invariant(self);
        }
        if y < self.height && x < self.width {
            proof {
                lemma_index_in_bounds(y as int, x as int, self.height as int, self.width as int);
            }
            Some(self.pixels[y * self.width + x])
        } else {
            None
        }
    }
}

/// The index of row `y`, column `x` lies within a buffer of `height` rows.
pub proof fn lemma_index_in_bounds(y: int, x: int, height: int, width: int)
    requires
        0 <= y < height,
        0 <= x < width,
    ensures
        0 <= y * width <= y * width + x < (y + 1) * width <= height * width,
        (y + 1) * width == y * width + width,
{
    assert(0 <= y * width) by (nonlinear_arith)
        requires
            0 <= y,
            0 <= width,
    ;
    assert((y + 1) * width == y * width + width) by (nonlinear_arith);
    assert((y + 1) * width <= height * width) by (nonlinear_arith)
        requires
            y + 1 <= height,
            0 <= width,
    ;
}

/// The intensity of one cell.
pub fn intensity(value: Decimal, nodata_value: Decimal, range: &ValueRange) -> (level: u8)
    ensures
        level == intensity_of(value@, nodata_value@, range.low(), range.high()),
{
    if value.same(&nodata_value) {
        return NODATA_INTENSITY;
    }
    let low = range.minimum().units();
    let high = range.maximum().units();
    if high == low {
        return FLAT_INTENSITY;
    }
    let v = value.units();
    let span: i128 = high - low;
    let ghost exact = ((v - low) * 255) / (span as int);
    if v <= low {
        assert(exact <= 0) by (nonlinear_arith)
            requires
                exact == ((v - low) * 255) / (span as int),
                v <= low,
                span > 0,
        ;
        return 0;
    }
    if v >= high {
        assert(exact >= 255) by (nonlinear_arith)
            requires
                exact == ((v - low) * 255) / (span as int),
                v - low >= span,
                span > 0,
        ;
        return 255;
    }
    let scaled: i128 = (v - low) * 255;
    let level: i128 = scaled / span;
    assert(0 <= level < 255) by (nonlinear_arith)
        requires
            level == scaled / span,
            scaled == (v - low) * 255,
            0 < v - low < span,
    ;
    level as u8
}

/// Maps every cell of `grid` to its intensity under `range`, with
/// `header.nodata_value` as the value of a cell without data. The raster has
/// the width and the height of the grid.
pub fn normalize(grid: &ElevationGrid, header: &RasterHeader, range: &ValueRange) -> (raster:
    GrayscaleRaster)
    ensures
        raster.spec_width() == grid.spec_columns(),
        raster.spec_height() == grid@.len(),
        is_rendering(
            raster@,
            grid.spec_columns(),
            grid@,
            header.nodata_value@,
            range.low(),
            range.high(),
        ),
        forall|y: int, x: int|
            0 <= y < grid@.len() && 0 <= x < grid.spec_columns() && grid@[y][x] == header.nodata_value@
                ==> #[trigger] pixel_at(raster@, grid.spec_columns(), y, x) == NODATA_INTENSITY,
{
    let height = grid.row_count();
    let width = grid.columns();
    let nodata_value = header.nodata_value;
    let ghost w = width as nat;
    let ghost cells = grid@;
    let ghost nodata = nodata_value@;
    let ghost low = range.low();
    let ghost high = range.high();
    let mut pixels: Vec<u8> = Vec::new();
    let mut y: usize = 0;
    while y < height
        invariant
            y <= height == cells.len(),
            cells == grid@,
            w == width == grid.spec_columns(),
            nodata == nodata_value@,
            low == range.low(),
            high == range.high(),
            is_rendering(pixels@, w, cells.take(y as int), nodata, low, high),
        decreases height - y,
    {
        let row = grid.row(y);
        let ghost above = pixels@;
        let mut x: usize = 0;
        while x < width
            invariant
                y < height == cells.len(),
                x <= width == row.len(),
                w == width,
                cells_of(row@) == cells[y as int],
                nodata == nodata_value@,
                low == range.low(),
                high == range.high(),
                above.len() == y * w,
                pixels@.len() == y * w + x,
                pixels@.take(above.len() as int) == above,
                forall|b: int|
                    0 <= b < x ==> #[trigger] pixels@[y * w + b] == intensity_of(
                        cells[y as int][b],
                        nodata,
                        low,
                        high,
                    ),
            decreases width - x,
        {
            let cell = row[x];
            assert(cell@ == cells[y as int][x as int]) by {
                assert(cells_of(row@)[x as int] == row@[x as int]@);
            }
            let level = intensity(cell, nodata_value, range);
            let ghost before = pixels@;
            pixels.push(level);
            assert(pixels@.take(above.len() as int) =~= before.take(above.len() as int));
            x += 1;
        }
        proof {
            assert((y + 1) * w == y * w + w) by (nonlinear_arith);
            assert forall|a: int, b: int| 0 <= a < y + 1 && 0 <= b < w implies #[trigger] pixel_at(
                pixels@,
                w,
                a,
                b,
            ) == intensity_of(cells.take(y + 1)[a][b], nodata, low, high) by {
                if a < y {
                    lemma_index_in_bounds(a, b, y as int, w as int);
                    assert(pixels@[a * w + b] == above[a * w + b]);
                    assert(pixel_at(above, w, a, b) == intensity_of(
                        cells.take(y as int)[a][b],
                        nodata,
                        low,
                        high,
                    ));
                }
            }
        }
        y += 1;
    }
    assert(cells.take(height as int) =~= cells);
    GrayscaleRaster { width, height, pixels }
}

/// A cell without data is black, wherever its value lies in the range.
pub proof fn lemma_nodata_is_black(nodata: int, low: int, high: int)
    ensures
        intensity_of(nodata, nodata, low, high) == 0,
{
}

/// Every intensity is one of the 256 gray levels.
pub proof fn lemma_intensity_is_a_level(v: int, nodata: int, low: int, high: int)
    ensures
        0 <= intensity_of(v, nodata, low, high) <= 255,
{
}

/// The least value of a range is black, and the greatest value of a range
/// of more than one value is white.
pub proof fn lemma_range_ends(nodata: int, low: int, high: int)
    requires
        low <= high,
    ensures
        intensity_of(low, nodata, low, high) == 0,
        low < high && high != nodata ==> intensity_of(high, nodata, low, high) == 255,
{
    if low < high {
        assert(((low - low) * 255) / (high - low) == 0) by (nonlinear_arith)
            requires
                low < high,
        ;
        assert(((high - low) * 255) / (high - low) == 255) by (nonlinear_arith)
            requires
                low < high,
        ;
    }
}

/// A greater value is never darker: intensities follow the order of the
/// values that hold data.
pub proof fn lemma_intensity_follows_value(v1: int, v2: int, nodata: int, low: int, high: int)
    requires
        v1 <= v2,
        v1 != nodata,
        v2 != nodata,
    ensures
        intensity_of(v1, nodata, low, high) <= intensity_of(v2, nodata, low, high),
{
    if low < high {
        assert(((v1 - low) * 255) / (high - low) <= ((v2 - low) * 255) / (high - low))
            by (nonlinear_arith)
            requires
                v1 <= v2,
                low < high,
        ;
    }
}

/// A grid whose data is all one value gets one intensity: the range is that
/// value alone, and every cell that holds data gets `FLAT_INTENSITY`.
pub proof fn lemma_flat_grid_is_uniform(
    cells: Seq<Seq<int>>,
    nodata: int,
    value: int,
    low: int,
    high: int,
)
    requires
        is_minimum(cells, nodata, low),
        is_maximum(cells, nodata, high),
        forall|y: int, x: int| #[trigger] is_data(cells, nodata, y, x) ==> cells[y][x] == value,
    ensures
        low == value,
        high == value,
        forall|y: int, x: int| #[trigger]
            is_data(cells, nodata, y, x) ==> intensity_of(cells[y][x], nodata, low, high)
                == FLAT_INTENSITY,
{
    let (y0, x0) = choose|y: int, x: int| is_data(cells, nodata, y, x) && cells[y][x] == low;
    let (y1, x1) = choose|y: int, x: int| is_data(cells, nodata, y, x) && cells[y][x] == high;
    assert(is_data(cells, nodata, y0, x0) && is_data(cells, nodata, y1, x1));
}

} // verus!
