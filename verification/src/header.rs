//! The six header lines of a raster file.
//!
//! The fields come in a fixed order: columns, rows, x origin, y origin, cell
//! size, nodata value. Each line holds a key and a value; only the last token
//! of the line is read, so any spelling of the key is accepted.

use vstd::prelude::*;
use vstd::slice::slice_subrange;
use crate::decimal::Decimal;
use crate::literal::{count_value, decimal_value, parse_count, parse_decimal};
use crate::error::RasterError;
use crate::text::{token_spans, tokens, LineReader};

verus! {

/// Number of lines in a header.
pub const HEADER_LINES: usize = 6;

/// What the header of a raster file declares.
#[derive(Clone, Copy, Debug)]
pub struct RasterHeader {
    /// Number of cells in a row.
    pub columns: usize,
    /// Number of rows.
    pub rows: usize,
    /// Easting of the lower left corner.
    pub x_origin: Decimal,
    /// Northing of the lower left corner.
    pub y_origin: Decimal,
    /// Distance between neighbouring cells.
    pub cell_size: Decimal,
    /// The value that marks a cell without data.
    pub nodata_value: Decimal,
}

/// The value of a header line: its last token, if it has any.
pub open spec fn value_token(line: Seq<u8>) -> Option<Seq<u8>> {
    if tokens(line).len() > 0 {
        Some(tokens(line).last())
    } else {
        None
    }
}

/// The count that a header line declares.
pub open spec fn count_field(line: Seq<u8>) -> Option<nat> {
    match value_token(line) {
        Some(token) => count_value(token),
        None => None,
    }
}

/// The number that a header line declares, in units of 10^-18.
pub open spec fn decimal_field(line: Seq<u8>) -> Option<int> {
    match value_token(line) {
        Some(token) => decimal_value(token),
        None => None,
    }
}

/// Tells whether `lines` start with a complete header.
pub open spec fn is_header(lines: Seq<Seq<u8>>) -> bool {
    &&& lines.len() >= HEADER_LINES
    &&& count_field(lines[0]) is Some
    &&& count_field(lines[1]) is Some
    &&& decimal_field(lines[2]) is Some
    &&& decimal_field(lines[3]) is Some
    &&& decimal_field(lines[4]) is Some
    &&& decimal_field(lines[5]) is Some
}

/// Tells whether `header` holds what the first six of `lines` declare.
pub open spec fn header_matches(header: RasterHeader, lines: Seq<Seq<u8>>) -> bool {
    &&& count_field(lines[0]) == Some(header.columns as nat)
    &&& count_field(lines[1]) == Some(header.rows as nat)
    &&& decimal_field(lines[2]) == Some(header.x_origin@)
    &&& decimal_field(lines[3]) == Some(header.y_origin@)
    &&& decimal_field(lines[4]) == Some(header.cell_size@)
    &&& decimal_field(lines[5]) == Some(header.nodata_value@)
}

/// Finds the value token of a header line.
fn find_value(line: &[u8]) -> (token: Option<&[u8]>)
    ensures
        match token {
            Some(bytes) => value_token(line@) == Some(bytes@),
            None => value_token(line@) is None,
        },
{
    let spans = token_spans(line);
    if spans.len() == 0 {
        return None;
    }
    let (start, end) = spans[spans.len() - 1];
    Some(slice_subrange(line, start, end))
}

/// Reads the count that a header line declares.
pub fn read_count_field(line: &[u8]) -> (r: Option<usize>)
    ensures
        match r {
            Some(c) => count_field(line@) == Some(c as nat),
            None => count_field(line@) is None,
        },
{
    match find_value(line) {
        Some(token) => parse_count(token),
        None => None,
    }
}

/// Reads the number that a header line declares.
pub fn read_decimal_field(line: &[u8]) -> (r: Option<Decimal>)
    ensures
        match r {
            Some(d) => decimal_field(line@) == Some(d@),
            None => decimal_field(line@) is None,
        },
{
    match find_value(line) {
        Some(token) => parse_decimal(token),
        None => None,
    }
}

/// Takes up to six lines off the reader.
fn take_header_lines(reader: &mut LineReader) -> (head: Vec<Vec<u8>>)
    ensures
        head.len() <= HEADER_LINES,
        head.len() <= old(reader).lines().len(),
        head.len() < HEADER_LINES ==> head.len() == old(reader).lines().len(),
        forall|k: int| 0 <= k < head.len() ==> (#[trigger] head[k])@ == old(reader).lines()[k],
        final(reader).lines() == old(reader).lines().skip(head.len() as int),
{
    let ghost lines = reader.lines();
    let mut head: Vec<Vec<u8>> = Vec::new();
    let mut ended = false;
    assert(lines.skip(0) =~= lines);
    while head.len() < HEADER_LINES && !ended
        invariant
            head.len() <= HEADER_LINES,
            head.len() <= lines.len(),
            ended ==> head.len() == lines.len(),
            forall|k: int| 0 <= k < head.len() ==> (#[trigger] head[k])@ == lines[k],
            reader.lines() == lines.skip(head.len() as int),
        decreases HEADER_LINES - head.len() + (if ended { 0int } else { 1int }),
    {
        let ghost taken = head.len() as int;
        match reader.next_line() {
            Some(line) => {
                assert(lines.skip(taken).skip(1) =~= lines.skip(taken + 1));
                head.push(line);
            },
            None => {
                ended = true;
            },
        }
    }
    head
}

/// Reads the header of a raster file.
///
/// The first six lines are taken off the reader, fewer only where the text
/// ends before that, whether or not they make a header: what follows a
/// header is the first row of the grid. The header is returned when each of
/// the six lines declares a value of its field's kind, and `MalformedHeader`
/// otherwise.
pub fn parse_header(reader: &mut LineReader) -> (r: Result<RasterHeader, RasterError>)
    ensures
        old(reader).lines().len() >= HEADER_LINES ==> final(reader).lines() == old(
            reader,
        ).lines().skip(HEADER_LINES as int),
        old(reader).lines().len() < HEADER_LINES ==> final(reader).lines().len() == 0,
        match r {
            Ok(header) => is_header(old(reader).lines()) && header_matches(
                header,
                old(reader).lines(),
            ),
            Err(e) => e == RasterError::MalformedHeader && !is_header(old(reader).lines()),
        },
{
    let head = take_header_lines(reader);
    if head.len() < HEADER_LINES {
        return Err(RasterError::MalformedHeader);
    }
    let columns = match read_count_field(head[0].as_slice()) {
        Some(c) => c,
        None => {
            return Err(RasterError::MalformedHeader);
        },
    };
    let rows = match read_count_field(head[1].as_slice()) {
        Some(c) => c,
        None => {
            return Err(RasterError::MalformedHeader);
        },
    };
    let x_origin = match read_decimal_field(head[2].as_slice()) {
        Some(d) => d,
        None => {
            return Err(RasterError::MalformedHeader);
        },
    };
    let y_origin = match read_decimal_field(head[3].as_slice()) {
        Some(d) => d,
        None => {
            return Err(RasterError::MalformedHeader);
        },
    };
    let cell_size = match read_decimal_field(head[4].as_slice()) {
        Some(d) => d,
        None => {
            return Err(RasterError::MalformedHeader);
        },
    };
    let nodata_value = match read_decimal_field(head[5].as_slice()) {
        Some(d) => d,
        None => {
            return Err(RasterError::MalformedHeader);
        },
    };
    Ok(RasterHeader { columns, rows, x_origin, y_origin, cell_size, nodata_value })
}

} // verus!
