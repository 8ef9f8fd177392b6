use asc_raster::decimal::Decimal;
use asc_raster::literal::parse_decimal;
use asc_raster::error::RasterError;
use asc_raster::grid::ElevationGrid;
use asc_raster::range::{compute_range, ValueRange};

const UNIT: i128 = 1_000_000_000_000_000_000;

fn dec(token: &str) -> Decimal {
    parse_decimal(token.as_bytes()).unwrap()
}

fn grid(rows: &[&[&str]]) -> ElevationGrid {
    let columns = if rows.is_empty() { 0 } else { rows[0].len() };
    let cells = rows.iter().map(|r| r.iter().map(|t| dec(t)).collect()).collect();
    ElevationGrid::from_rows(columns, cells).unwrap()
}

fn bounds(rows: &[&[&str]], nodata: &str) -> Result<(i128, i128), RasterError> {
    compute_range(&grid(rows), dec(nodata)).map(|r| (r.minimum().units(), r.maximum().units()))
}

#[test]
fn the_range_leaves_nodata_out() {
    assert_eq!(bounds(&[&["1", "2", "3"], &["4", "-1", "6"]], "-1"), Ok((UNIT, 6 * UNIT)));
}

#[test]
fn nodata_is_left_out_wherever_it_lies() {
    assert_eq!(bounds(&[&["5", "-9999", "7"]], "-9999"), Ok((5 * UNIT, 7 * UNIT)));
    assert_eq!(bounds(&[&["5", "9999", "7"]], "9999"), Ok((5 * UNIT, 7 * UNIT)));
    assert_eq!(bounds(&[&["5", "6", "7"]], "6"), Ok((5 * UNIT, 7 * UNIT)));
    assert_eq!(bounds(&[&["5", "6", "7"]], "5"), Ok((6 * UNIT, 7 * UNIT)));
    assert_eq!(bounds(&[&["5", "6", "7"]], "7"), Ok((5 * UNIT, 6 * UNIT)));
}

#[test]
fn nodata_is_matched_exactly() {
    assert_eq!(
        bounds(&[&["-9999.000000000000000001", "3"]], "-9999"),
        Ok((-9999 * UNIT - 1, 3 * UNIT))
    );
    assert_eq!(bounds(&[&["-9999.0", "3"]], "-9999"), Ok((3 * UNIT, 3 * UNIT)));
}

#[test]
fn the_ends_may_lie_anywhere_in_the_grid() {
    assert_eq!(
        bounds(&[&["3", "9", "4"], &["-2.5", "0", "1"], &["8", "8", "8"]], "0"),
        Ok((-2 * UNIT - UNIT / 2, 9 * UNIT))
    );
    assert_eq!(bounds(&[&["7"], &["6"], &["5"]], "0"), Ok((5 * UNIT, 7 * UNIT)));
}

#[test]
fn a_single_value_is_both_ends() {
    assert_eq!(bounds(&[&["4", "4"], &["4", "-1"]], "-1"), Ok((4 * UNIT, 4 * UNIT)));
    assert_eq!(bounds(&[&["4"]], "-1"), Ok((4 * UNIT, 4 * UNIT)));
}

#[test]
fn a_grid_of_nodata_has_no_range() {
    assert_eq!(bounds(&[&["-1", "-1"], &["-1", "-1"]], "-1"), Err(RasterError::EmptyRange));
    assert_eq!(bounds(&[&["-1.0"]], "-1"), Err(RasterError::EmptyRange));
}

#[test]
fn a_grid_without_cells_has_no_range() {
    assert_eq!(bounds(&[], "-1"), Err(RasterError::EmptyRange));
    let no_columns = ElevationGrid::from_rows(0, vec![Vec::new(), Vec::new()]).unwrap();
    assert_eq!(compute_range(&no_columns, dec("-1")).err(), Some(RasterError::EmptyRange));
}

#[test]
fn a_range_is_ordered() {
    assert!(ValueRange::new(dec("2"), dec("1")).is_none());
    let range = ValueRange::new(dec("1"), dec("2")).unwrap();
    assert_eq!(range.minimum().units(), UNIT);
    assert_eq!(range.maximum().units(), 2 * UNIT);
    let point = ValueRange::new(dec("3"), dec("3")).unwrap();
    assert_eq!(point.minimum(), point.maximum());
}
