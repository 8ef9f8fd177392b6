use asc_raster::decimal::Decimal;
use asc_raster::literal::parse_decimal;
use asc_raster::error::RasterError;
use asc_raster::grid::{parse_grid, parse_row, ElevationGrid};
use asc_raster::header::{parse_header, RasterHeader};
use asc_raster::text::LineReader;

const UNIT: i128 = 1_000_000_000_000_000_000;

fn dec(token: &str) -> Decimal {
    parse_decimal(token.as_bytes()).unwrap()
}

fn header(columns: usize, rows: usize) -> RasterHeader {
    RasterHeader {
        columns,
        rows,
        x_origin: dec("0"),
        y_origin: dec("0"),
        cell_size: dec("1"),
        nodata_value: dec("-9999"),
    }
}

fn read(body: &str, columns: usize, rows: usize) -> Result<ElevationGrid, RasterError> {
    let mut reader = LineReader::new(body.as_bytes().to_vec());
    parse_grid(&mut reader, &header(columns, rows))
}

fn cells(grid: &ElevationGrid) -> Vec<Vec<i128>> {
    (0..grid.row_count())
        .map(|y| grid.row(y).iter().map(|d| d.units()).collect())
        .collect()
}

#[test]
fn a_grid_is_read_row_by_row() {
    let grid = read("1 2 3\n4 -1 6\n", 3, 2).unwrap();
    assert_eq!(grid.columns(), 3);
    assert_eq!(grid.row_count(), 2);
    assert_eq!(
        cells(&grid),
        vec![vec![UNIT, 2 * UNIT, 3 * UNIT], vec![4 * UNIT, -UNIT, 6 * UNIT]]
    );
}

#[test]
fn header_and_grid_give_back_what_the_file_declares() {
    let text = "ncols 4\nnrows 3\nxllcorner 0\nyllcorner 0\ncellsize 1\nNODATA_value -9999\n\
                10.5 11 -9999 12.25\n1e1 2e-1 3 4\n-1 -2 -3 -4\n";
    let mut reader = LineReader::new(text.as_bytes().to_vec());
    let header = parse_header(&mut reader).unwrap();
    let grid = parse_grid(&mut reader, &header).unwrap();
    assert_eq!(header.columns, 4);
    assert_eq!(header.rows, 3);
    assert_eq!(header.nodata_value.units(), -9999 * UNIT);
    assert_eq!(grid.columns(), 4);
    assert_eq!(grid.row_count(), 3);
    assert_eq!(
        cells(&grid),
        vec![
            vec![10 * UNIT + UNIT / 2, 11 * UNIT, -9999 * UNIT, 12 * UNIT + UNIT / 4],
            vec![10 * UNIT, UNIT / 5, 3 * UNIT, 4 * UNIT],
            vec![-UNIT, -2 * UNIT, -3 * UNIT, -4 * UNIT],
        ]
    );
}

#[test]
fn cells_are_found_by_row_and_column() {
    let grid = read("1 2 3\n4 5 6\n", 3, 2).unwrap();
    assert_eq!(grid.cell(0, 0).map(|d| d.units()), Some(UNIT));
    assert_eq!(grid.cell(0, 2).map(|d| d.units()), Some(3 * UNIT));
    assert_eq!(grid.cell(1, 0).map(|d| d.units()), Some(4 * UNIT));
    assert_eq!(grid.cell(1, 2).map(|d| d.units()), Some(6 * UNIT));
    assert_eq!(grid.cell(2, 0), None);
    assert_eq!(grid.cell(0, 3), None);
}

#[test]
fn blanks_of_any_kind_and_length_part_the_cells() {
    let grid = read("  1\t2   3 \r\n4 5 6", 3, 2).unwrap();
    assert_eq!(
        cells(&grid),
        vec![vec![UNIT, 2 * UNIT, 3 * UNIT], vec![4 * UNIT, 5 * UNIT, 6 * UNIT]]
    );
}

#[test]
fn a_token_that_is_no_number_is_a_malformed_row() {
    assert_eq!(read("1 x 3\n4 5 6\n", 3, 2).err(), Some(RasterError::MalformedRow));
    assert_eq!(read("1 2 3\n4 5 6.6.6\n", 3, 2).err(), Some(RasterError::MalformedRow));
    assert_eq!(read("1 2 nan\n4 5 6\n", 3, 2).err(), Some(RasterError::MalformedRow));
}

#[test]
fn a_row_of_another_length_is_a_mismatch() {
    assert_eq!(read("1 2\n4 5 6\n", 3, 2).err(), Some(RasterError::RowLengthMismatch));
    assert_eq!(read("1 2 3\n4 5 6 7\n", 3, 2).err(), Some(RasterError::RowLengthMismatch));
}

#[test]
fn a_blank_line_is_a_row_without_cells() {
    assert_eq!(read("1 2 3\n4 5 6\n\n", 3, 2).err(), Some(RasterError::RowLengthMismatch));
    assert_eq!(read("1 2 3\n\n4 5 6\n", 3, 2).err(), Some(RasterError::RowLengthMismatch));
}

#[test]
fn a_bad_token_counts_before_the_length() {
    assert_eq!(read("1 x\n4 5 6\n", 3, 2).err(), Some(RasterError::MalformedRow));
    assert_eq!(parse_row(b"1 2 3 oops", 3).err(), Some(RasterError::MalformedRow));
}

#[test]
fn the_first_line_that_is_no_row_decides() {
    assert_eq!(read("1 2\n1 x 3\n", 3, 2).err(), Some(RasterError::RowLengthMismatch));
    assert_eq!(read("1 x 3\n1 2\n", 3, 2).err(), Some(RasterError::MalformedRow));
}

#[test]
fn a_grid_of_another_height_is_a_mismatch() {
    assert_eq!(read("1 2 3\n", 3, 2).err(), Some(RasterError::RowCountMismatch));
    assert_eq!(read("1 2 3\n4 5 6\n7 8 9\n", 3, 2).err(), Some(RasterError::RowCountMismatch));
    assert_eq!(read("", 3, 2).err(), Some(RasterError::RowCountMismatch));
}

#[test]
fn a_line_that_is_no_row_counts_before_the_height() {
    assert_eq!(read("1 2\n", 3, 2).err(), Some(RasterError::RowLengthMismatch));
    assert_eq!(read("1 2 3\n4 5 6\n7 8 x\n", 3, 2).err(), Some(RasterError::MalformedRow));
}

#[test]
fn the_grid_takes_every_line_that_is_left() {
    let mut reader = LineReader::new(b"1 2 3\n4 5 6\n".to_vec());
    assert!(parse_grid(&mut reader, &header(3, 2)).is_ok());
    assert_eq!(reader.next_line(), None);
    let mut reader = LineReader::new(b"1 x 3\n4 5 6\n7 8 9\n".to_vec());
    assert!(parse_grid(&mut reader, &header(3, 2)).is_err());
    assert_eq!(reader.next_line(), None);
}

#[test]
fn an_empty_grid_is_a_grid() {
    let grid = read("", 0, 0).unwrap();
    assert_eq!(grid.row_count(), 0);
    assert_eq!(grid.columns(), 0);
    let grid = read("", 5, 0).unwrap();
    assert_eq!(grid.row_count(), 0);
    assert_eq!(grid.columns(), 5);
}

#[test]
fn a_row_is_read_token_by_token() {
    let row = parse_row(b" 1.5 -2\t3e2 ", 3).unwrap();
    let units: Vec<i128> = row.iter().map(|d| d.units()).collect();
    assert_eq!(units, vec![UNIT + UNIT / 2, -2 * UNIT, 300 * UNIT]);
    assert_eq!(parse_row(b"", 0).map(|r| r.len()), Ok(0));
    assert_eq!(parse_row(b"", 1).err(), Some(RasterError::RowLengthMismatch));
}

#[test]
fn ragged_rows_make_no_grid() {
    let ragged = vec![vec![dec("1"), dec("2")], vec![dec("3")]];
    assert!(ElevationGrid::from_rows(2, ragged).is_none());
    let short = vec![vec![dec("1")], vec![dec("3")]];
    assert!(ElevationGrid::from_rows(2, short).is_none());
    let even = vec![vec![dec("1"), dec("2")], vec![dec("3"), dec("4")]];
    let grid = ElevationGrid::from_rows(2, even).unwrap();
    assert_eq!(cells(&grid), vec![vec![UNIT, 2 * UNIT], vec![3 * UNIT, 4 * UNIT]]);
}
