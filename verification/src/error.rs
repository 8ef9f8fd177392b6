//! The ways in which a raster file can be refused.

use vstd::prelude::*;

verus! {

/// Why a raster could not be produced. Each kind ends the work on the file;
/// no part of a raster is handed out with it.
#[derive(Clone, Copy, Debug, PartialEq, Eq, Structural)]
pub enum RasterError {
    /// One of the six header lines is missing, has no value, or has a value
    /// that is not a number of the kind the field asks for.
    MalformedHeader,
    /// A token of a grid row is not a number.
    MalformedRow,
    /// A grid row does not have as many cells as the header declares columns.
    RowLengthMismatch,
    /// The grid does not have as many rows as the header declares.
    RowCountMismatch,
    /// The grid has no cell other than the nodata value.
    EmptyRange,
}

} // verus!
