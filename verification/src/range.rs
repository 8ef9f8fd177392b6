//! The range of the values that a grid holds.
//!
//! Cells equal to the nodata value stand for missing measurements and take
//! no part in the range. Equal means exactly equal.

use vstd::prelude::*;
use crate::decimal::Decimal;
use crate::error::RasterError;
use crate::grid::{cells_of, ElevationGrid};

verus! {

/// Tells whether row `y`, column `x` is a cell of `cells` that holds data.
pub open spec fn is_data(cells: Seq<Seq<int>>, nodata: int, y: int, x: int) -> bool {
    0 <= y < cells.len() && 0 <= x < cells[y].len() && cells[y][x] != nodata
}

/// Tells whether some cell holds data.
pub open spec fn has_data(cells: Seq<Seq<int>>, nodata: int) -> bool {
    exists|y: int, x: int| is_data(cells, nodata, y, x)
}

/// Tells whether `m` is the least value of the cells that hold data.
pub open spec fn is_minimum(cells: Seq<Seq<int>>, nodata: int, m: int) -> bool {
    &&& exists|y: int, x: int| is_data(cells, nodata, y, x) && cells[y][x] == m
    &&& forall|y: int, x: int| is_data(cells, nodata, y, x) ==> m <= cells[y][x]
}

/// Tells whether `m` is the greatest value of the cells that hold data.
pub open spec fn is_maximum(cells: Seq<Seq<int>>, nodata: int, m: int) -> bool {
    &&& exists|y: int, x: int| is_data(cells, nodata, y, x) && cells[y][x] == m
    &&& forall|y: int, x: int| is_data(cells, nodata, y, x) ==> cells[y][x] <= m
}

/// The least value of the cells that hold data, where some cell does.
pub open spec fn least_value(cells: Seq<Seq<int>>, nodata: int) -> int {
    choose|m: int| is_minimum(cells, nodata, m)
}

/// The greatest value of the cells that hold data, where some cell does.
pub open spec fn greatest_value(cells: Seq<Seq<int>>, nodata: int) -> int {
    choose|m: int| is_maximum(cells, nodata, m)
}

/// A grid whose cells all equal the nodata value holds no data.
pub proof fn lemma_grid_of_nodata_has_no_data(cells: Seq<Seq<int>>, nodata: int)
    requires
        forall|y: int, x: int|
            0 <= y < cells.len() && 0 <= x < cells[y].len() ==> #[trigger] cells[y][x] == nodata,
    ensures
        !has_data(cells, nodata),
{
}

/// A grid has one least value: `least_value` is the only one.
pub proof fn lemma_minimum_is_unique(cells: Seq<Seq<int>>, nodata: int, a: int, b: int)
    requires
        is_minimum(cells, nodata, a),
        b == least_value(cells, nodata),
    ensures
        a == b,
        has_data(cells, nodata),
{
    assert(is_minimum(cells, nodata, b));
    let (y0, x0) = choose|y: int, x: int| is_data(cells, nodata, y, x) && cells[y][x] == a;
    let (y1, x1) = choose|y: int, x: int| is_data(cells, nodata, y, x) && cells[y][x] == b;
    assert(is_data(cells, nodata, y0, x0) && is_data(cells, nodata, y1, x1));
}

/// A grid has one greatest value: `greatest_value` is the only one.
pub proof fn lemma_maximum_is_unique(cells: Seq<Seq<int>>, nodata: int, a: int, b: int)
    requires
        is_maximum(cells, nodata, a),
        b == greatest_value(cells, nodata),
    ensures
        a == b,
        has_data(cells, nodata),
{
    assert(is_maximum(cells, nodata, b));
    let (y0, x0) = choose|y: int, x: int| is_data(cells, nodata, y, x) && cells[y][x] == a;
    let (y1, x1) = choose|y: int, x: int| is_data(cells, nodata, y, x) && cells[y][x] == b;
    assert(is_data(cells, nodata, y0, x0) && is_data(cells, nodata, y1, x1));
}

/// The least and the greatest value of a grid, the least not above the
/// greatest.
#[derive(Clone, Copy, Debug)]
pub struct ValueRange {
    minimum: Decimal,
    maximum: Decimal,
}

impl ValueRange {
    #[verifier::type_invariant]
    spec fn ordered(self) -> bool {
        self.minimum@ <= self.maximum@
    }

    /// The least value, in units of 10^-18.
    pub closed spec fn low(self) -> int {
        self.minimum@
    }

    /// The greatest value, in units of 10^-18.
    pub closed spec fn high(self) -> int {
        self.maximum@
    }

    /// The range from `minimum` to `maximum`, unless `minimum` is the greater.
    pub fn new(minimum: Decimal, maximum: Decimal) -> (r: Option<ValueRange>)
        ensures
            r is Some <==> minimum@ <= maximum@,
            r matches Some(range) ==> range.low() == minimum@ && range.high() == maximum@,
    {
        if minimum.units() <= maximum.units() {
            Some(ValueRange { minimum, maximum })
        } else {
            None
        }
    }

    /// The least value.
    pub fn minimum(&self) -> (d: Decimal)
        ensures
            d@ == self.low(),
            self.low() <= self.high(),
    {
        proof {
            use_type_invariant(self);
        }
        self.minimum
    }

    /// The greatest value.
    pub fn maximum(&self) -> (d: Decimal)
        ensures
            d@ == self.high(),
            self.low() <= self.high(),
    {
        proof {
            use_type_invariant(self);
        }
        self.maximum
    }
}

/// Tells whether row `a`, column `b` comes before row `y`, column `x` in
/// row-major order.
spec fn before(a: int, b: int, y: int, x: int) -> bool {
    a < y || (a == y && b < x)
}

/// Tells whether `low` and `high` bound the data among the cells before row
/// `y`, column `x`, and are found there; without `found`, whether no data is
/// there.
spec fn bounds_so_far(
    cells: Seq<Seq<int>>,
    nodata: int,
    y: int,
    x: int,
    found: bool,
    low: int,
    high: int,
) -> bool {
    if found {
        &&& exists|a: int, b: int|
            before(a, b, y, x) && #[trigger] is_data(cells, nodata, a, b) && cells[a][b] == low
        &&& exists|a: int, b: int|
            before(a, b, y, x) && #[trigger] is_data(cells, nodata, a, b) && cells[a][b] == high
        &&& forall|a: int, b: int|
            before(a, b, y, x) && #[trigger] is_data(cells, nodata, a, b) ==> low <= cells[a][b]
                <= high
    } else {
        forall|a: int, b: int| before(a, b, y, x) ==> !#[trigger] is_data(cells, nodata, a, b)
    }
}

/// Finds the least and the greatest value among the cells of `grid` that are
/// not equal to `nodata_value`, and `EmptyRange` when there is no such cell.
pub fn compute_range(grid: &ElevationGrid, nodata_value: Decimal) -> (r: Result<
    ValueRange,
    RasterError,
>)
    ensures
        r is Ok <==> has_data(grid@, nodata_value@),
        match r {
            Ok(range) => {
                &&& is_minimum(grid@, nodata_value@, range.low())
                &&& is_maximum(grid@, nodata_value@, range.high())
            },
            Err(e) => e == RasterError::EmptyRange,
        },
{
    let height = grid.row_count();
    let width = grid.columns();
    let mut found = false;
    let mut low = nodata_value;
    let mut high = nodata_value;
    let mut y: usize = 0;
    while y < height
        invariant
            y <= height == grid@.len(),
            width == grid.spec_columns(),
            low@ <= high@,
            bounds_so_far(grid@, nodata_value@, y as int, 0, found, low@, high@),
        decreases height - y,
    {
        let row = grid.row(y);
        let mut x: usize = 0;
        while x < width
            invariant
                y < height == grid@.len(),
                x <= width == row.len(),
                cells_of(row@) == grid@[y as int],
                low@ <= high@,
                bounds_so_far(grid@, nodata_value@, y as int, x as int, found, low@, high@),
            decreases width - x,
        {
            let cell = row[x];
            assert(cell@ == grid@[y as int][x as int]) by {
                assert(cells_of(row@)[x as int] == row@[x as int]@);
            }
            let ghost was_found = found;
            let ghost old_low = low@;
            let ghost old_high = high@;
            if !cell.same(&nodata_value) {
                if !found {
                    found = true;
                    low = cell;
                    high = cell;
                } else {
                    if cell.units() < low.units() {
                        low = cell;
                    }
                    if cell.units() > high.units() {
                        high = cell;
                    }
                }
            }
            proof {
                lemma_step(
                    grid@,
                    nodata_value@,
                    y as int,
                    x as int,
                    was_found,
                    old_low,
                    old_high,
                    found,
                    low@,
                    high@,
                );
            }
            x += 1;
        }
        proof {
            lemma_next_row(grid@, nodata_value@, y as int, found, low@, high@);
        }
        y += 1;
    }
    if !found {
        assert(!has_data(grid@, nodata_value@)) by {
            assert forall|a: int, b: int| !is_data(grid@, nodata_value@, a, b) by {
                if is_data(grid@, nodata_value@, a, b) {
                    assert(before(a, b, height as int, 0));
                }
            }
        }
        return Err(RasterError::EmptyRange);
    }
    proof {
        lemma_whole_grid(grid@, nodata_value@, low@, high@);
        lemma_minimum_is_unique(grid@, nodata_value@, low@, least_value(grid@, nodata_value@));
    }
    Ok(ValueRange { minimum: low, maximum: high })
}

/// Taking the cell at row `y`, column `x` into account keeps the bounds.
proof fn lemma_step(
    cells: Seq<Seq<int>>,
    nodata: int,
    y: int,
    x: int,
    was_found: bool,
    old_low: int,
    old_high: int,
    found: bool,
    low: int,
    high: int,
)
    requires
        0 <= y < cells.len(),
        0 <= x < cells[y].len(),
        bounds_so_far(cells, nodata, y, x, was_found, old_low, old_high),
        was_found ==> old_low <= old_high,
        cells[y][x] == nodata ==> found == was_found && low == old_low && high == old_high,
        cells[y][x] != nodata && !was_found ==> found && low == cells[y][x] && high == cells[y][x],
        cells[y][x] != nodata && was_found ==> {
            &&& found
            &&& low == if cells[y][x] < old_low { cells[y][x] } else { old_low }
            &&& high == if cells[y][x] > old_high { cells[y][x] } else { old_high }
        },
    ensures
        bounds_so_far(cells, nodata, y, x + 1, found, low, high),
{
    let v = cells[y][x];
    assert forall|a: int, b: int| before(a, b, y, x + 1) implies before(a, b, y, x) || (a == y && b
        == x) by {}
    if found {
        if was_found {
            let (a0, b0) = choose|a: int, b: int|
                before(a, b, y, x) && #[trigger] is_data(cells, nodata, a, b) && cells[a][b]
                    == old_low;
            let (a1, b1) = choose|a: int, b: int|
                before(a, b, y, x) && #[trigger] is_data(cells, nodata, a, b) && cells[a][b]
                    == old_high;
            assert(before(a0, b0, y, x + 1) && before(a1, b1, y, x + 1));
            if low == old_low {
                assert(is_data(cells, nodata, a0, b0) && cells[a0][b0] == low);
            } else {
                assert(before(y, x, y, x + 1) && is_data(cells, nodata, y, x) && cells[y][x] == low);
            }
            if high == old_high {
                assert(is_data(cells, nodata, a1, b1) && cells[a1][b1] == high);
            } else {
                assert(before(y, x, y, x + 1) && is_data(cells, nodata, y, x) && cells[y][x]
                    == high);
            }
        } else {
            assert(before(y, x, y, x + 1) && is_data(cells, nodata, y, x) && cells[y][x] == low);
        }
        assert forall|a: int, b: int|
            before(a, b, y, x + 1) && #[trigger] is_data(cells, nodata, a, b) implies low
            <= cells[a][b] <= high by {
            if before(a, b, y, x) {
            }
        }
    } else {
        assert forall|a: int, b: int| before(a, b, y, x + 1) implies !#[trigger] is_data(
            cells,
            nodata,
            a,
            b,
        ) by {
            if before(a, b, y, x) {
            }
        }
    }
}

/// The bounds at the end of row `y` are the bounds at the start of the next.
proof fn lemma_next_row(cells: Seq<Seq<int>>, nodata: int, y: int, found: bool, low: int, high: int)
    requires
        0 <= y < cells.len(),
        bounds_so_far(cells, nodata, y, cells[y].len() as int, found, low, high),
    ensures
        bounds_so_far(cells, nodata, y + 1, 0, found, low, high),
{
    let w = cells[y].len() as int;
    assert forall|a: int, b: int| #[trigger]
        is_data(cells, nodata, a, b) && before(a, b, y + 1, 0) implies before(a, b, y, w) by {}
    if found {
        let (a0, b0) = choose|a: int, b: int|
            before(a, b, y, w) && #[trigger] is_data(cells, nodata, a, b) && cells[a][b] == low;
        let (a1, b1) = choose|a: int, b: int|
            before(a, b, y, w) && #[trigger] is_data(cells, nodata, a, b) && cells[a][b] == high;
        assert(before(a0, b0, y + 1, 0) && is_data(cells, nodata, a0, b0) && cells[a0][b0] == low);
        assert(before(a1, b1, y + 1, 0) && is_data(cells, nodata, a1, b1) && cells[a1][b1] == high);
    }
}

/// Bounds that hold before the end of the grid hold of the whole grid.
proof fn lemma_whole_grid(cells: Seq<Seq<int>>, nodata: int, low: int, high: int)
    requires
        bounds_so_far(cells, nodata, cells.len() as int, 0, true, low, high),
    ensures
        is_minimum(cells, nodata, low),
        is_maximum(cells, nodata, high),
{
    let h = cells.len() as int;
    let (a0, b0) = choose|a: int, b: int|
        before(a, b, h, 0) && #[trigger] is_data(cells, nodata, a, b) && cells[a][b] == low;
    let (a1, b1) = choose|a: int, b: int|
        before(a, b, h, 0) && #[trigger] is_data(cells, nodata, a, b) && cells[a][b] == high;
    assert(is_data(cells, nodata, a0, b0) && cells[a0][b0] == low);
    assert(is_data(cells, nodata, a1, b1) && cells[a1][b1] == high);
    assert forall|a: int, b: int| is_data(cells, nodata, a, b) implies low <= cells[a][b]
        <= high by {
        assert(before(a, b, h, 0));
    }
}

} // verus!
