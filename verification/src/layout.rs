//! The shape of a grid and the lines that a move reads it by.
//!
//! A move treats the grid as a set of independent lines. For `Left` and
//! `Right` a line is a row, for `Up` and `Down` a column, and each line is
//! read starting at the side the move points to, so that index 0 of a line is
//! where its tiles slide to.

use crate::direction::Direction;
use crate::line::line_below;
use vstd::arithmetic::power2::pow2;
use vstd::prelude::*;

verus! {

/// Rows of cells that form a rectangle with at least one cell.
pub open spec fn is_grid(rows: Seq<Seq<u8>>) -> bool {
    &&& rows.len() > 0
    &&& rows[0].len() > 0
    &&& forall|r: int| 0 <= r < rows.len() ==> (#[trigger] rows[r]).len() == rows[0].len()
}

/// The number of lines that a move in direction `d` works on, in a grid of
/// the given size.
pub open spec fn line_count(d: Direction, width: int, height: int) -> int {
    match d {
        Direction::Left | Direction::Right => height,
        Direction::Up | Direction::Down => width,
    }
}

/// The number of cells in each line of a move in direction `d`.
pub open spec fn line_len(d: Direction, width: int, height: int) -> int {
    match d {
        Direction::Left | Direction::Right => width,
        Direction::Up | Direction::Down => height,
    }
}

/// The row and column of cell `i` of line `k` for a move in direction `d`.
/// Cell 0 lies on the side that the move points to.
pub open spec fn cell_of(d: Direction, width: int, height: int, k: int, i: int) -> (int, int) {
    match d {
        Direction::Left => (k, i),
        Direction::Right => (k, width - 1 - i),
        Direction::Up => (i, k),
        Direction::Down => (height - 1 - i, k),
    }
}

/// The line that the cell at `row`, `col` belongs to.
pub open spec fn line_index(d: Direction, row: int, col: int) -> int {
    match d {
        Direction::Left | Direction::Right => row,
        Direction::Up | Direction::Down => col,
    }
}

/// The index within its line of the cell at `row`, `col`.
pub open spec fn line_offset(d: Direction, width: int, height: int, row: int, col: int) -> int {
    match d {
        Direction::Left => col,
        Direction::Right => width - 1 - col,
        Direction::Up => row,
        Direction::Down => height - 1 - row,
    }
}

/// The number of columns of a grid.
pub open spec fn width_of(rows: Seq<Seq<u8>>) -> int {
    rows[0].len() as int
}

/// The number of rows of a grid.
pub open spec fn height_of(rows: Seq<Seq<u8>>) -> int {
    rows.len() as int
}

/// Line `k` of the grid as a move in direction `d` reads it.
pub open spec fn line_of(rows: Seq<Seq<u8>>, d: Direction, k: int) -> Seq<u8> {
    Seq::new(
        line_len(d, width_of(rows), height_of(rows)) as nat,
        |i: int|
            {
                let cell = cell_of(d, width_of(rows), height_of(rows), k, i);
                rows[cell.0][cell.1]
            },
    )
}

/// The grid with line `k` of direction `d` replaced by `line`.
pub open spec fn with_line(rows: Seq<Seq<u8>>, d: Direction, k: int, line: Seq<u8>) -> Seq<
    Seq<u8>,
> {
    Seq::new(
        rows.len(),
        |r: int|
            Seq::new(
                rows[0].len(),
                |c: int|
                    if line_index(d, r, c) == k {
                        line[line_offset(d, width_of(rows), height_of(rows), r, c)]
                    } else {
                        rows[r][c]
                    },
            ),
    )
}

/// The grid with the cell at `row`, `col` set to `e`.
pub open spec fn with_tile(rows: Seq<Seq<u8>>, row: int, col: int, e: u8) -> Seq<Seq<u8>> {
    rows.update(row, rows[row].update(col, e))
}

/// A grid of `height` rows and `width` columns without tiles.
pub open spec fn blank(width: int, height: int) -> Seq<Seq<u8>> {
    Seq::new(height as nat, |r: int| Seq::new(width as nat, |c: int| 0u8))
}

/// Every exponent of the grid is below `bound`.
pub open spec fn all_below(rows: Seq<Seq<u8>>, bound: int) -> bool {
    forall|r: int, c: int|
        0 <= r < rows.len() && 0 <= c < rows[r].len() ==> (#[trigger] rows[r][c]) < bound
}

/// Whether the cell at `row`, `col` lies in the grid and is empty.
pub open spec fn empty_at(rows: Seq<Seq<u8>>, row: int, col: int) -> bool {
    &&& 0 <= row < height_of(rows)
    &&& 0 <= col < width_of(rows)
    &&& rows[row][col] == 0
}

/// Whether the grid has an empty cell.
pub open spec fn has_empty(rows: Seq<Seq<u8>>) -> bool {
    exists|row: int, col: int| empty_at(rows, row, col)
}

/// Whether some cell of the grid holds exponent `e`.
pub open spec fn holds(rows: Seq<Seq<u8>>, e: u8) -> bool {
    exists|r: int, c: int|
        0 <= r < height_of(rows) && 0 <= c < width_of(rows) && (#[trigger] rows[r][c]) == e
}

/// Whether `a` comes before `b` when the cells are read row by row.
pub open spec fn reads_before(a: (usize, usize), b: (usize, usize)) -> bool {
    a.0 < b.0 || (a.0 == b.0 && a.1 < b.1)
}

/// What a cell with exponent `e` shows: nothing if it is empty, else `2^e`.
pub open spec fn shown(e: u8) -> Option<u16> {
    if e == 0 {
        None
    } else {
        Some(pow2(e as nat) as u16)
    }
}

/// What every cell of the grid shows.
pub open spec fn shown_rows(rows: Seq<Seq<u8>>) -> Seq<Seq<Option<u16>>> {
    Seq::new(
        height_of(rows) as nat,
        |r: int| Seq::new(width_of(rows) as nat, |c: int| shown(rows[r][c])),
    )
}

/// Each line of a grid below a bound is below it.
pub(crate) proof fn lemma_line_below(rows: Seq<Seq<u8>>, d: Direction, k: int, bound: int)
    requires
        is_grid(rows),
        all_below(rows, bound),
        0 <= k < line_count(d, width_of(rows), height_of(rows)),
    ensures
        line_below(line_of(rows, d, k), bound),
{
    assert forall|i: int| 0 <= i < line_of(rows, d, k).len() implies line_of(rows, d, k)[i]
        < bound by {
        let cell = cell_of(d, width_of(rows), height_of(rows), k, i);
        assert(rows[cell.0].len() == rows[0].len());
        assert(rows[cell.0][cell.1] < bound);
    }
}

/// Two grids of one size are equal if their lines of direction `d` are.
pub(crate) proof fn lemma_equal_by_lines(a: Seq<Seq<u8>>, b: Seq<Seq<u8>>, d: Direction)
    requires
        is_grid(a),
        is_grid(b),
        width_of(a) == width_of(b),
        height_of(a) == height_of(b),
        forall|k: int|
            0 <= k < line_count(d, width_of(a), height_of(a)) ==> #[trigger] line_of(a, d, k)
                == line_of(b, d, k),
    ensures
        a == b,
{
    let width = width_of(a);
    let height = height_of(a);
    assert forall|r: int| 0 <= r < height implies #[trigger] a[r] == b[r] by {
        assert forall|c: int| 0 <= c < width implies a[r][c] == b[r][c] by {
            let k = line_index(d, r, c);
            let i = line_offset(d, width, height, r, c);
            assert(line_of(a, d, k)[i] == a[r][c]);
            assert(line_of(b, d, k)[i] == b[r][c]);
        }
        assert(a[r].len() == a[0].len());
        assert(b[r].len() == b[0].len());
        assert(a[r] =~= b[r]);
    }
    assert(a =~= b);
}

/// A grid is below a bound if each of its lines of direction `d` is.
pub(crate) proof fn lemma_below_by_lines(rows: Seq<Seq<u8>>, d: Direction, bound: int)
    requires
        is_grid(rows),
        forall|k: int|
            0 <= k < line_count(d, width_of(rows), height_of(rows)) ==> line_below(
                #[trigger] line_of(rows, d, k),
                bound,
            ),
    ensures
        all_below(rows, bound),
{
    let width = width_of(rows);
    let height = height_of(rows);
    assert forall|r: int, c: int| 0 <= r < rows.len() && 0 <= c < rows[r].len() implies (
    #[trigger] rows[r][c]) < bound by {
        assert(rows[r].len() == rows[0].len());
        let k = line_index(d, r, c);
        let i = line_offset(d, width, height, r, c);
        assert(line_below(line_of(rows, d, k), bound));
        assert(line_of(rows, d, k)[i] == rows[r][c]);
    }
}

} // verus!
