//! The grid of cells that follows the header.
//!
//! Every line after the header is one row, the northernmost first. A row
//! holds one number for each column that the header declares, and the grid
//! as many rows as the header declares: a file that says one thing in its
//! header and another in its body is refused, never padded or cut.

use vstd::prelude::*;
use vstd::slice::slice_subrange;
use crate::decimal::Decimal;
use crate::literal::{decimal_value, parse_decimal};
use crate::error::RasterError;
use crate::header::RasterHeader;
use crate::text::{token_spans, tokens, LineReader};

verus! {

/// Tells whether every row of `cells` has `columns` cells.
pub open spec fn rectangular(cells: Seq<Seq<int>>, columns: nat) -> bool {
    forall|y: int| 0 <= y < cells.len() ==> (#[trigger] cells[y]).len() == columns
}

/// The numbers of a row whose tokens are all numbers, in units of 10^-18.
pub open spec fn row_cells(line: Seq<u8>) -> Seq<int> {
    Seq::new(tokens(line).len(), |k: int| decimal_value(tokens(line)[k]).unwrap())
}

/// Tells whether some token of a line is not a number.
pub open spec fn has_bad_token(line: Seq<u8>) -> bool {
    exists|k: int| 0 <= k < tokens(line).len() && decimal_value(#[trigger] tokens(line)[k]) is None
}

/// What is wrong with a line as a row of `columns` cells, if anything.
pub open spec fn row_error(line: Seq<u8>, columns: nat) -> Option<RasterError> {
    if has_bad_token(line) {
        Some(RasterError::MalformedRow)
    } else if tokens(line).len() != columns {
        Some(RasterError::RowLengthMismatch)
    } else {
        None
    }
}

/// What is wrong with the first of `lines` that is not a row of `columns`
/// cells, if there is such a line.
pub open spec fn first_row_error(lines: Seq<Seq<u8>>, columns: nat) -> Option<RasterError>
    decreases lines.len(),
{
    if lines.len() == 0 {
        None
    } else {
        match first_row_error(lines.drop_last(), columns) {
            Some(e) => Some(e),
            None => row_error(lines.last(), columns),
        }
    }
}

/// The cells that `lines` hold, row by row.
pub open spec fn grid_cells(lines: Seq<Seq<u8>>) -> Seq<Seq<int>> {
    Seq::new(lines.len(), |y: int| row_cells(lines[y]))
}

/// The grid that `lines` hold under a header of `columns` columns and `rows`
/// rows, or the reason why they hold none.
pub open spec fn grid_outcome(lines: Seq<Seq<u8>>, columns: nat, rows: nat) -> Result<
    Seq<Seq<int>>,
    RasterError,
> {
    match first_row_error(lines, columns) {
        Some(e) => Err(e),
        None => if lines.len() != rows {
            Err(RasterError::RowCountMismatch)
        } else {
            Ok(grid_cells(lines))
        },
    }
}

/// A rectangular grid of numbers, row by row.
#[derive(Debug)]
pub struct ElevationGrid {
    columns: usize,
    rows: Vec<Vec<Decimal>>,
}

impl View for ElevationGrid {
    type V = Seq<Seq<int>>;

    /// The cells in units of 10^-18, row by row.
    closed spec fn view(&self) -> Seq<Seq<int>> {
        Seq::new(self.rows.len() as nat, |y: int| cells_of(self.rows[y]@))
    }
}

/// The numbers of a row, in units of 10^-18.
pub open spec fn cells_of(row: Seq<Decimal>) -> Seq<int> {
    Seq::new(row.len(), |x: int| row[x]@)
}

impl ElevationGrid {
    #[verifier::type_invariant]
    spec fn is_rectangular(self) -> bool {
        forall|y: int| 0 <= y < self.rows.len() ==> (#[trigger] self.rows[y]).len() == self.columns
    }

    /// Number of cells in a row.
    pub closed spec fn spec_columns(self) -> nat {
        self.columns as nat
    }

    /// The grid of the given rows, if each of them has `columns` cells.
    pub fn from_rows(columns: usize, rows: Vec<Vec<Decimal>>) -> (r: Option<ElevationGrid>)
        ensures
            r is Some <==> (forall|y: int|
                0 <= y < rows.len() ==> (#[trigger] rows[y]).len() == columns),
            r matches Some(grid) ==> {
                &&& grid.spec_columns() == columns
                &&& grid@.len() == rows.len()
                &&& forall|y: int| 0 <= y < rows.len() ==> #[trigger] grid@[y] == cells_of(rows[y]@)
            },
    {
        let mut y: usize = 0;
        while y < rows.len()
            invariant
                y <= rows.len(),
                forall|j: int| 0 <= j < y ==> (#[trigger] rows[j]).len() == columns,
            decreases rows.len() - y,
        {
            if rows[y].len() != columns {
                return None;
            }
            y += 1;
        }
        Some(ElevationGrid { columns, rows })
    }

    /// Number of cells in a row.
    pub fn columns(&self) -> (n: usize)
        ensures
            n == self.spec_columns(),
            rectangular(self@, n as nat),
    {
        proof {
            use_type_invariant(self);
        }
        self.columns
    }

    /// Number of rows.
    pub fn row_count(&self) -> (n: usize)
        ensures
            n == self@.len(),
    {
        self.rows.len()
    }

    /// The cells of row `y`.
    pub fn row(&self, y: usize) -> (r: &[Decimal])
        requires
            y < self@.len(),
        ensures
            r.len() == self.spec_columns(),
            cells_of(r@) == self@[y as int],
    {
        proof {
            use_type_invariant(self);
        }
        self.rows[y].as_slice()
    }

    /// The cell in row `y`, column `x`; `None` outside the grid.
    pub fn cell(&self, y: usize, x: usize) -> (r: Option<Decimal>)
        ensures
            r is Some <==> y < self@.len() && x < self.spec_columns(),
            r matches Some(d) ==> d@ == self@[y as int][x as int],
    {
        proof {
            use_type_invariant(self);
        }
        if y < self.rows.len() && x < self.columns {
            Some(self.rows[y][x])
        } else {
            None
        }
    }
}

/// Reads a line as a row of `columns` numbers.
pub fn parse_row(line: &[u8], columns: usize) -> (r: Result<Vec<Decimal>, RasterError>)
    ensures
        match r {
            Ok(row) => {
                &&& row_error(line@, columns as nat) is None
                &&& row.len() == columns
                &&& cells_of(row@) == row_cells(line@)
            },
            Err(e) => row_error(line@, columns as nat) == Some(e),
        },
{
    let spans = token_spans(line);
    let mut row: Vec<Decimal> = Vec::new();
    let mut k: usize = 0;
    while k < spans.len()
        invariant
            k <= spans.len(),
            spans.len() == tokens(line@).len(),
            forall|j: int|
                0 <= j < spans.len() ==> {
                    &&& (#[trigger] spans[j]).0 < spans[j].1 <= line.len()
                    &&& line@.subrange(spans[j].0 as int, spans[j].1 as int) == tokens(line@)[j]
                },
            row.len() == k,
            forall|j: int| 0 <= j < k ==> decimal_value(tokens(line@)[j]) == Some((#[trigger] row[j])@),
        decreases spans.len() - k,
    {
        let (start, end) = spans[k];
        match parse_decimal(slice_subrange(line, start, end)) {
            Some(d) => {
                row.push(d);
            },
            None => {
                assert(decimal_value(tokens(line@)[k as int]) is None);
                return Err(RasterError::MalformedRow);
            },
        }
        k += 1;
    }
    assert forall|j: int| 0 <= j < tokens(line@).len() implies decimal_value(
        #[trigger] tokens(line@)[j],
    ) is Some by {
        assert(decimal_value(tokens(line@)[j]) == Some(row[j]@));
    }
    if row.len() != columns {
        return Err(RasterError::RowLengthMismatch);
    }
    assert(cells_of(row@) =~= row_cells(line@));
    Ok(row)
}

/// Reads the grid that follows a header.
///
/// Every line left in the reader is taken off it. The grid is returned when
/// each line is a row of `header.columns` numbers and there are
/// `header.rows` of them. Otherwise the error is that of the first line that
/// is no such row (`MalformedRow` for a token that is not a number, else
/// `RowLengthMismatch`), or `RowCountMismatch` when every line is one.
pub fn parse_grid(reader: &mut LineReader, header: &RasterHeader) -> (r: Result<
    ElevationGrid,
    RasterError,
>)
    ensures
        final(reader).lines().len() == 0,
        match r {
            Ok(grid) => {
                &&& grid_outcome(old(reader).lines(), header.columns as nat, header.rows as nat)
                    == Ok::<Seq<Seq<int>>, RasterError>(grid@)
                &&& grid.spec_columns() == header.columns
                &&& grid@.len() == header.rows
            },
            Err(e) => grid_outcome(old(reader).lines(), header.columns as nat, header.rows as nat)
                == Err::<Seq<Seq<int>>, RasterError>(e),
        },
{
    let ghost lines = reader.lines();
    let ghost columns = header.columns as nat;
    let mut rows: Vec<Vec<Decimal>> = Vec::new();
    let mut failure: Option<RasterError> = None;
    let ghost mut taken: int = 0;
    assert(lines.skip(0) =~= lines);
    assert(lines.take(0) =~= Seq::<Seq<u8>>::empty());
    loop
        invariant_except_break
            0 <= taken <= lines.len(),
            reader.lines() == lines.skip(taken),
        invariant
            columns == header.columns,
            failure == first_row_error(lines.take(taken), columns),
            failure is None ==> {
                &&& rows.len() == taken
                &&& forall|y: int|
                    0 <= y < taken ==> {
                        &&& (#[trigger] rows[y]).len() == columns
                        &&& cells_of(rows[y]@) == row_cells(lines[y])
                    }
            },
        ensures
            taken == lines.len(),
            reader.lines().len() == 0,
        decreases lines.len() - taken,
    {
        let line = match reader.next_line() {
            Some(line) => line,
            None => {
                break ;
            },
        };
        proof {
            assert(lines.skip(taken).skip(1) =~= lines.skip(taken + 1));
            assert(lines.take(taken + 1).drop_last() =~= lines.take(taken));
            assert(lines.take(taken + 1).last() == lines[taken]);
        }
        if failure.is_none() {
            match parse_row(line.as_slice(), header.columns) {
                Ok(row) => {
                    assert(cells_of(row@) == row_cells(lines[taken]));
                    rows.push(row);
                },
                Err(e) => {
                    failure = Some(e);
                },
            }
        }
        proof {
            taken = taken + 1;
        }
    }
    assert(lines.take(taken) =~= lines);
    if let Some(e) = failure {
        return Err(e);
    }
    if rows.len() != header.rows {
        return Err(RasterError::RowCountMismatch);
    }
    let grid = ElevationGrid { columns: header.columns, rows };
    assert(grid@ =~= grid_cells(lines));
    Ok(grid)
}

/// Lines that are each a row of `columns` numbers hold no row error.
proof fn lemma_rows_hold_no_error(lines: Seq<Seq<u8>>, columns: nat)
    requires
        forall|y: int| 0 <= y < lines.len() ==> row_error(#[trigger] lines[y], columns) is None,
    ensures
        first_row_error(lines, columns) is None,
    decreases lines.len(),
{
    if lines.len() > 0 {
        let front = lines.drop_last();
        assert forall|y: int| 0 <= y < front.len() implies row_error(
            #[trigger] front[y],
            columns,
        ) is None by {
            assert(front[y] == lines[y]);
        }
        lemma_rows_hold_no_error(front, columns);
    }
}

/// What a well-formed body says is what is read: `rows` lines of `columns`
/// number literals each give a grid of `rows` rows and `columns` columns
/// whose cell in row `y`, column `x` is the number that the `x`th token of
/// line `y` denotes.
pub proof fn lemma_well_formed_grid_is_read(lines: Seq<Seq<u8>>, columns: nat, rows: nat)
    requires
        lines.len() == rows,
        forall|y: int| 0 <= y < rows ==> (#[trigger] tokens(lines[y])).len() == columns,
        forall|y: int, x: int|
            0 <= y < rows && 0 <= x < columns ==> decimal_value(
                #[trigger] tokens(lines[y])[x],
            ) is Some,
    ensures
        grid_outcome(lines, columns, rows) == Ok::<Seq<Seq<int>>, RasterError>(grid_cells(lines)),
        grid_cells(lines).len() == rows,
        rectangular(grid_cells(lines), columns),
        forall|y: int, x: int|
            0 <= y < rows && 0 <= x < columns ==> #[trigger] grid_cells(lines)[y][x]
                == decimal_value(tokens(lines[y])[x]).unwrap(),
{
    assert forall|y: int| 0 <= y < lines.len() implies row_error(
        #[trigger] lines[y],
        columns,
    ) is None by {
        assert(tokens(lines[y]).len() == columns);
        if has_bad_token(lines[y]) {
            let k = choose|k: int|
                0 <= k < tokens(lines[y]).len() && decimal_value(#[trigger] tokens(lines[y])[k])
                    is None;
            assert(decimal_value(tokens(lines[y])[k]) is Some);
        }
    }
    lemma_rows_hold_no_error(lines, columns);
    assert forall|y: int| 0 <= y < grid_cells(lines).len() implies (#[trigger] grid_cells(
        lines,
    )[y]).len() == columns by {
        assert(tokens(lines[y]).len() == columns);
    }
}

/// The first line that is no row decides the error: where line `bad` is not
/// a row of `columns` numbers and every line before it is one, the error is
/// that of line `bad`, whatever follows it.
pub proof fn lemma_first_bad_row_is_reported(
    lines: Seq<Seq<u8>>,
    columns: nat,
    rows: nat,
    bad: int,
)
    requires
        0 <= bad < lines.len(),
        row_error(lines[bad], columns) is Some,
        forall|y: int| 0 <= y < bad ==> row_error(#[trigger] lines[y], columns) is None,
    ensures
        first_row_error(lines, columns) == row_error(lines[bad], columns),
        grid_outcome(lines, columns, rows) == Err::<Seq<Seq<int>>, RasterError>(
            row_error(lines[bad], columns).unwrap(),
        ),
    decreases lines.len(),
{
    let front = lines.drop_last();
    if bad == lines.len() - 1 {
        assert forall|y: int| 0 <= y < front.len() implies row_error(
            #[trigger] front[y],
            columns,
        ) is None by {
            assert(front[y] == lines[y]);
        }
        lemma_rows_hold_no_error(front, columns);
    } else {
        assert(front[bad] == lines[bad]);
        assert forall|y: int| 0 <= y < bad implies row_error(#[trigger] front[y], columns)
            is None by {
            assert(front[y] == lines[y]);
        }
        lemma_first_bad_row_is_reported(front, columns, rows, bad);
    }
}

} // verus!
