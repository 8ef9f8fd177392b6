//! From the text of a raster file to its grayscale raster.

use vstd::prelude::*;
use crate::error::RasterError;
use crate::grid::{
    grid_cells,
    grid_outcome,
    lemma_first_bad_row_is_reported,
    lemma_well_formed_grid_is_read,
    parse_grid,
    rectangular,
    row_error,
    ElevationGrid,
};
use crate::header::{
    count_field,
    decimal_field,
    header_matches,
    is_header,
    parse_header,
    RasterHeader,
    HEADER_LINES,
};
use crate::literal::decimal_value;
use crate::normalize::{is_rendering, normalize, GrayscaleRaster};
use crate::range::{
    compute_range,
    greatest_value,
    has_data,
    least_value,
    lemma_grid_of_nodata_has_no_data,
    lemma_maximum_is_unique,
    lemma_minimum_is_unique,
};
use crate::text::{split_lines, tokens, LineReader};

verus! {

/// The number of columns that the header of `text` declares.
pub open spec fn declared_columns(text: Seq<u8>) -> nat {
    count_field(split_lines(text)[0]).unwrap()
}

/// The number of rows that the header of `text` declares.
pub open spec fn declared_rows(text: Seq<u8>) -> nat {
    count_field(split_lines(text)[1]).unwrap()
}

/// The nodata value that the header of `text` declares.
pub open spec fn declared_nodata(text: Seq<u8>) -> int {
    decimal_field(split_lines(text)[5]).unwrap()
}

/// The lines of `text` after its header.
pub open spec fn body_lines(text: Seq<u8>) -> Seq<Seq<u8>> {
    split_lines(text).skip(HEADER_LINES as int)
}

/// The cells that `text` holds, or the reason why it holds no grid. The
/// header is judged first, then the rows in their order, then their number.
pub open spec fn reading_of(text: Seq<u8>) -> Result<Seq<Seq<int>>, RasterError> {
    if !is_header(split_lines(text)) {
        Err(RasterError::MalformedHeader)
    } else {
        grid_outcome(body_lines(text), declared_columns(text), declared_rows(text))
    }
}

/// Why `text` yields no raster, if it yields none: the reason why it holds
/// no grid, or `EmptyRange` where no cell of its grid holds data.
pub open spec fn failure_of(text: Seq<u8>) -> Option<RasterError> {
    match reading_of(text) {
        Err(e) => Some(e),
        Ok(cells) => if has_data(cells, declared_nodata(text)) {
            None
        } else {
            Some(RasterError::EmptyRange)
        },
    }
}

/// Tells whether `raster` is the raster of `text`: as wide and as high as
/// the header declares, each pixel the intensity of its cell under the range
/// of the data.
pub open spec fn is_raster_of(raster: GrayscaleRaster, text: Seq<u8>) -> bool {
    let cells = grid_cells(body_lines(text));
    let nodata = declared_nodata(text);
    &&& raster.spec_width() == declared_columns(text)
    &&& raster.spec_height() == declared_rows(text)
    &&& is_rendering(
        raster@,
        declared_columns(text),
        cells,
        nodata,
        least_value(cells, nodata),
        greatest_value(cells, nodata),
    )
}

/// Reads the text of a raster file: its header, then its grid.
pub fn parse_raster(text: Vec<u8>) -> (r: Result<(RasterHeader, ElevationGrid), RasterError>)
    ensures
        match r {
            Ok((header, grid)) => {
                &&& reading_of(text@) == Ok::<Seq<Seq<int>>, RasterError>(grid@)
                &&& header_matches(header, split_lines(text@))
                &&& grid.spec_columns() == header.columns
                &&& grid@.len() == header.rows
            },
            Err(e) => reading_of(text@) == Err::<Seq<Seq<int>>, RasterError>(e),
        },
{
    let mut reader = LineReader::new(text);
    let header = match parse_header(&mut reader) {
        Ok(header) => header,
        Err(e) => {
            return Err(e);
        },
    };
    match parse_grid(&mut reader, &header) {
        Ok(grid) => Ok((header, grid)),
        Err(e) => Err(e),
    }
}

/// Converts the text of a raster file into its grayscale raster: reads the
/// header and the grid, finds the range of the data and maps each cell to
/// its intensity. The first stage that fails ends the work with its error.
pub fn load_and_normalize(text: Vec<u8>) -> (r: Result<GrayscaleRaster, RasterError>)
    ensures
        match r {
            Ok(raster) => failure_of(text@) is None && is_raster_of(raster, text@),
            Err(e) => failure_of(text@) == Some(e),
        },
{
    let (header, grid) = match parse_raster(text) {
        Ok(parts) => parts,
        Err(e) => {
            return Err(e);
        },
    };
    let range = match compute_range(&grid, header.nodata_value) {
        Ok(range) => range,
        Err(e) => {
            return Err(e);
        },
    };
    proof {
        lemma_minimum_is_unique(
            grid@,
            header.nodata_value@,
            range.low(),
            least_value(grid@, header.nodata_value@),
        );
        lemma_maximum_is_unique(
            grid@,
            header.nodata_value@,
            range.high(),
            greatest_value(grid@, header.nodata_value@),
        );
    }
    Ok(normalize(&grid, &header, &range))
}

/// What a well-formed text says is what is read: under a complete header
/// that declares `c` columns and `r` rows, a body of `r` lines of `c` number
/// literals each gives a grid of `r` rows and `c` columns whose cell in row
/// `y`, column `x` is the number that the `x`th token of line `y` denotes.
pub proof fn lemma_well_formed_text_is_read(text: Seq<u8>)
    requires
        is_header(split_lines(text)),
        body_lines(text).len() == declared_rows(text),
        forall|y: int|
            0 <= y < declared_rows(text) ==> (#[trigger] tokens(body_lines(text)[y])).len()
                == declared_columns(text),
        forall|y: int, x: int|
            0 <= y < declared_rows(text) && 0 <= x < declared_columns(text) ==> decimal_value(
                #[trigger] tokens(body_lines(text)[y])[x],
            ) is Some,
    ensures
        reading_of(text) == Ok::<Seq<Seq<int>>, RasterError>(grid_cells(body_lines(text))),
        grid_cells(body_lines(text)).len() == declared_rows(text),
        rectangular(grid_cells(body_lines(text)), declared_columns(text)),
        forall|y: int, x: int|
            0 <= y < declared_rows(text) && 0 <= x < declared_columns(text) ==> #[trigger] grid_cells(
                body_lines(text),
            )[y][x] == decimal_value(tokens(body_lines(text)[y])[x]).unwrap(),
{
    lemma_well_formed_grid_is_read(body_lines(text), declared_columns(text), declared_rows(text));
}

/// A text that ends before its sixth line is refused for its header.
pub proof fn lemma_short_text_has_no_header(text: Seq<u8>)
    requires
        split_lines(text).len() < HEADER_LINES,
    ensures
        failure_of(text) == Some(RasterError::MalformedHeader),
{
}

/// A text whose header is complete is refused for the first line of its
/// body that is no row: where line `bad` of the body is not a row of as many
/// numbers as the header declares columns, and every line before it is one,
/// the error is that of line `bad`.
pub proof fn lemma_bad_row_fails_the_text(text: Seq<u8>, bad: int)
    requires
        is_header(split_lines(text)),
        0 <= bad < body_lines(text).len(),
        row_error(body_lines(text)[bad], declared_columns(text)) is Some,
        forall|y: int|
            0 <= y < bad ==> row_error(#[trigger] body_lines(text)[y], declared_columns(text))
                is None,
    ensures
        failure_of(text) == row_error(body_lines(text)[bad], declared_columns(text)),
{
    lemma_first_bad_row_is_reported(
        body_lines(text),
        declared_columns(text),
        declared_rows(text),
        bad,
    );
}

/// A text whose grid holds nothing but the nodata value is refused for its
/// empty range.
pub proof fn lemma_text_of_nodata_has_no_range(text: Seq<u8>)
    requires
        reading_of(text) is Ok,
        forall|y: int, x: int|
            0 <= y < reading_of(text)->Ok_0.len() && 0 <= x < reading_of(text)->Ok_0[y].len()
                ==> #[trigger] reading_of(text)->Ok_0[y][x] == declared_nodata(text),
    ensures
        failure_of(text) == Some(RasterError::EmptyRange),
{
    lemma_grid_of_nodata_has_no_data(reading_of(text)->Ok_0, declared_nodata(text));
}

} // verus!
