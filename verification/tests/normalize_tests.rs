use asc_raster::decimal::Decimal;
use asc_raster::literal::parse_decimal;
use asc_raster::grid::ElevationGrid;
use asc_raster::header::RasterHeader;
use asc_raster::normalize::{intensity, normalize, FLAT_INTENSITY, NODATA_INTENSITY};
use asc_raster::range::{compute_range, ValueRange};

fn dec(token: &str) -> Decimal {
    parse_decimal(token.as_bytes()).unwrap()
}

fn range(low: &str, high: &str) -> ValueRange {
    ValueRange::new(dec(low), dec(high)).unwrap()
}

fn level(value: &str, nodata: &str, low: &str, high: &str) -> u8 {
    intensity(dec(value), dec(nodata), &range(low, high))
}

fn header(columns: usize, rows: usize, nodata: &str) -> RasterHeader {
    RasterHeader {
        columns,
        rows,
        x_origin: dec("0"),
        y_origin: dec("0"),
        cell_size: dec("1"),
        nodata_value: dec(nodata),
    }
}

fn grid(rows: &[&[&str]]) -> ElevationGrid {
    let columns = if rows.is_empty() { 0 } else { rows[0].len() };
    let cells = rows.iter().map(|r| r.iter().map(|t| dec(t)).collect()).collect();
    ElevationGrid::from_rows(columns, cells).unwrap()
}

#[test]
fn the_range_is_spread_over_the_gray_levels() {
    assert_eq!(level("1", "-1", "1", "6"), 0);
    assert_eq!(level("2", "-1", "1", "6"), 51);
    assert_eq!(level("3", "-1", "1", "6"), 102);
    assert_eq!(level("4", "-1", "1", "6"), 153);
    assert_eq!(level("5", "-1", "1", "6"), 204);
    assert_eq!(level("6", "-1", "1", "6"), 255);
}

#[test]
fn an_intensity_is_cut_down_not_rounded() {
    assert_eq!(level("0.3", "-1", "0", "1"), 76);
    assert_eq!(level("0.5", "-1", "0", "1"), 127);
    assert_eq!(level("0.999999999999999999", "-1", "0", "1"), 254);
    assert_eq!(level("0.003921568627450980", "-1", "0", "1"), 0);
    assert_eq!(level("0.003921568627450981", "-1", "0", "1"), 1);
    assert_eq!(level("1", "-1", "0", "3"), 85);
    assert_eq!(level("2", "-1", "0", "3"), 170);
    assert_eq!(level("2", "-1", "0", "7"), 72);
}

#[test]
fn negative_values_are_spread_alike() {
    assert_eq!(level("-10", "0", "-10", "-5"), 0);
    assert_eq!(level("-7.5", "0", "-10", "-5"), 127);
    assert_eq!(level("-5", "0", "-10", "-5"), 255);
    assert_eq!(level("-1", "9", "-3", "3"), 85);
}

#[test]
fn nodata_is_black() {
    assert_eq!(NODATA_INTENSITY, 0);
    assert_eq!(level("-9999", "-9999", "1", "6"), 0);
    assert_eq!(level("3", "3", "1", "6"), 0);
    assert_eq!(level("6", "6", "1", "6"), 0);
    assert_eq!(level("6.0", "6", "1", "6"), 0);
}

#[test]
fn a_value_outside_the_range_is_held_within_the_levels() {
    assert_eq!(level("0", "-1", "1", "6"), 0);
    assert_eq!(level("-100000", "-1", "1", "6"), 0);
    assert_eq!(level("7", "-1", "1", "6"), 255);
    assert_eq!(level("100000000000000000", "-1", "-100000000000000000", "-99999999999999999"), 255);
    assert_eq!(level("-100000000000000000", "-1", "99999999999999999", "100000000000000000"), 0);
}

#[test]
fn the_widest_range_does_not_overflow() {
    let low = "-100000000000000000";
    let high = "100000000000000000";
    assert_eq!(level(low, "1", low, high), 0);
    assert_eq!(level("0", "1", low, high), 127);
    assert_eq!(level("99999999999999999.999999999999999999", "1", low, high), 254);
    assert_eq!(level(high, "1", low, high), 255);
}

#[test]
fn a_range_of_one_value_gives_the_flat_intensity() {
    assert_eq!(FLAT_INTENSITY, 0);
    assert_eq!(level("4", "-1", "4", "4"), FLAT_INTENSITY);
    assert_eq!(level("5", "-1", "4", "4"), FLAT_INTENSITY);
    assert_eq!(level("-1", "-1", "4", "4"), NODATA_INTENSITY);
}

#[test]
fn a_grid_becomes_a_raster_of_its_size() {
    let g = grid(&[&["1", "2", "3"], &["4", "-1", "6"]]);
    let h = header(3, 2, "-1");
    let r = compute_range(&g, h.nodata_value).unwrap();
    let raster = normalize(&g, &h, &r);
    assert_eq!(raster.width(), 3);
    assert_eq!(raster.height(), 2);
    assert_eq!(raster.pixels(), &[0, 51, 102, 153, 0, 255]);
    assert_eq!(raster.pixel(0, 1), Some(51));
    assert_eq!(raster.pixel(1, 0), Some(153));
    assert_eq!(raster.pixel(1, 2), Some(255));
    assert_eq!(raster.pixel(2, 0), None);
    assert_eq!(raster.pixel(0, 3), None);
}

#[test]
fn the_levels_agree_with_single_precision_on_whole_steps() {
    let values = ["1", "2", "3", "4", "5", "6"];
    for v in values {
        let x: f32 = v.parse().unwrap();
        let by_float = ((x - 1.0f32) / (6.0f32 - 1.0f32) * 255.0f32) as u8;
        assert_eq!(level(v, "-1", "1", "6"), by_float, "value {}", v);
    }
}

#[test]
fn a_uniform_grid_is_uniform_in_the_raster() {
    let g = grid(&[&["7", "7"], &["-1", "7"], &["7", "7"]]);
    let h = header(2, 3, "-1");
    let r = compute_range(&g, h.nodata_value).unwrap();
    assert_eq!(r.minimum(), r.maximum());
    let raster = normalize(&g, &h, &r);
    assert_eq!(raster.width(), 2);
    assert_eq!(raster.height(), 3);
    assert_eq!(raster.pixels(), &[FLAT_INTENSITY; 6]);
}

#[test]
fn the_raster_follows_the_grid_not_the_header() {
    let g = grid(&[&["1", "2"], &["3", "4"]]);
    let h = header(7, 9, "-1");
    let raster = normalize(&g, &h, &range("1", "4"));
    assert_eq!(raster.width(), 2);
    assert_eq!(raster.height(), 2);
    assert_eq!(raster.pixels(), &[0, 85, 170, 255]);
}

#[test]
fn an_empty_grid_is_an_empty_raster() {
    let g = grid(&[]);
    let raster = normalize(&g, &header(0, 0, "-1"), &range("0", "1"));
    assert_eq!(raster.width(), 0);
    assert_eq!(raster.height(), 0);
    assert!(raster.pixels().is_empty());
    assert_eq!(raster.pixel(0, 0), None);
}

#[test]
fn greater_values_are_never_darker() {
    let steps = ["-3", "-2.5", "0", "0.001", "1", "2.999", "3", "10"];
    let mut last = 0u8;
    for v in steps {
        let now = level(v, "99", "-2", "3");
        assert!(now >= last, "value {}", v);
        last = now;
    }
    assert_eq!(last, 255);
}
