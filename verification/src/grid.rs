//! The rectangular grid of tiles and the moves on it.

use crate::direction::Direction;
use crate::layout::{
    all_below, blank, cell_of, empty_at, height_of, holds, is_grid, lemma_line_below, line_count,
    line_index, line_len, line_of, line_offset, reads_before, shown, width_of, with_line, with_tile,
};
use crate::line::{merge, merge_preserves_material, slide};
use crate::moves::{
    compaction, lemma_mapped_none, lemma_mapped_shape, lemma_store_mapped, lemma_untouched_line,
    map_lines_upto, merged_lines, merging, shift_changes_iff_effect, shifted,
    slide_is_idempotent_on_grid, slide_keeps_bound, slid,
};
use vstd::bits::{lemma_u16_pow2_no_overflow, lemma_u16_shl_is_mul};
use vstd::prelude::*;

verus! {

/// Why rows of cells were not accepted as a grid.
#[derive(Clone, Copy, Debug, PartialEq, Eq, Structural)]
pub enum LoadError {
    /// There is no row, or the first row has no cell.
    Empty,
    /// A row differs in length from the first.
    Jagged,
}

/// A rectangular grid of tile exponents.
pub struct Grid {
    cells: Vec<Vec<u8>>,
}

impl View for Grid {
    type V = Seq<Seq<u8>>;

    closed spec fn view(&self) -> Seq<Seq<u8>> {
        self.cells.deep_view()
    }
}

impl Grid {
    /// The grid is a rectangle with at least one cell.
    pub open spec fn wf(&self) -> bool {
        is_grid(self@)
    }

    /// The rows and columns of a grid can be counted in `usize`.
    pub proof fn lemma_size_fits(&self)
        requires
            self.wf(),
        ensures
            height_of(self@) <= usize::MAX,
            width_of(self@) <= usize::MAX,
    {
        assert(self@.len() == self.cells.len());
        assert(self@[0].len() == self.cells@[0].len());
    }

    /// A grid of `height` rows and `width` columns without tiles.
    pub fn new(width: usize, height: usize) -> (grid: Self)
        requires
            width > 0,
            height > 0,
        ensures
            grid.wf(),
            grid@ == blank(width as int, height as int),
    {
        let mut cells: Vec<Vec<u8>> = Vec::new();
        let mut r: usize = 0;
        while r < height
            invariant
                r <= height,
                cells@.len() == r,
                forall|i: int|
                    0 <= i < r ==> (#[trigger] cells@[i])@ == Seq::new(width as nat, |c: int| 0u8),
            decreases height - r,
        {
            let mut row: Vec<u8> = Vec::new();
            let mut c: usize = 0;
            while c < width
                invariant
                    c <= width,
                    row@.len() == c,
                    forall|i: int| 0 <= i < c ==> row@[i] == 0,
                decreases width - c,
            {
                row.push(0);
                c += 1;
            }
            assert(row@ =~= Seq::new(width as nat, |c: int| 0u8));
            cells.push(row);
            r += 1;
        }
        let grid = Grid { cells };
        proof {
            assert forall|i: int| 0 <= i < height implies #[trigger] grid@[i] == blank(
                width as int,
                height as int,
            )[i] by {
                assert(grid@[i] =~= cells@[i]@);
            }
            assert(grid@ =~= blank(width as int, height as int));
        }
        grid
    }

    /// Takes rows of exponents as a grid, if they form a rectangle with at
    /// least one cell.
    pub fn from_rows(rows: Vec<Vec<u8>>) -> (result: Result<Self, LoadError>)
        ensures
            match result {
                Ok(grid) => is_grid(rows.deep_view()) && grid@ == rows.deep_view(),
                Err(LoadError::Empty) => rows.deep_view().len() == 0 || rows.deep_view()[0].len()
                    == 0,
                Err(LoadError::Jagged) => {
                    &&& rows.deep_view().len() > 0
                    &&& rows.deep_view()[0].len() > 0
                    &&& !is_grid(rows.deep_view())
                },
            },
    {
        if rows.len() == 0 || rows[0].len() == 0 {
            return Err(LoadError::Empty);
        }
        let width = rows[0].len();
        let mut r: usize = 1;
        while r < rows.len()
            invariant
                1 <= r <= rows@.len(),
                width == rows@[0]@.len(),
                width > 0,
                forall|i: int| 0 <= i < r ==> (#[trigger] rows@[i])@.len() == width,
            decreases rows@.len() - r,
        {
            if rows[r].len() != width {
                proof {
                    let shown = rows.deep_view();
                    assert(shown.len() == rows@.len());
                    assert(shown[0].len() == rows@[0]@.len());
                    assert(shown[r as int].len() == rows@[r as int]@.len());
                    assert(!is_grid(shown));
                }
                return Err(LoadError::Jagged);
            }
            r += 1;
        }
        assert forall|i: int| 0 <= i < rows.deep_view().len() implies (
        #[trigger] rows.deep_view()[i]).len() == rows.deep_view()[0].len() by {
            assert(rows@[i]@.len() == width);
        }
        Ok(Grid { cells: rows })
    }

    /// The number of columns.
    pub fn width(&self) -> (width: usize)
        requires
            self.wf(),
        ensures
            width == self@[0].len(),
    {
        self.cells[0].len()
    }

    /// The number of rows.
    pub fn height(&self) -> (height: usize)
        requires
            self.wf(),
        ensures
            height == self@.len(),
    {
        self.cells.len()
    }

    /// The exponent in the cell at `row`, `col`.
    pub fn get(&self, row: usize, col: usize) -> (e: u8)
        requires
            self.wf(),
            row < self@.len(),
            col < self@[0].len(),
        ensures
            e == self@[row as int][col as int],
    {
        assert(self@[row as int].len() == self@[0].len());
        self.cells[row][col]
    }

    /// Puts exponent `e` in the cell at `row`, `col`.
    pub fn set(&mut self, row: usize, col: usize, e: u8)
        requires
            old(self).wf(),
            row < old(self)@.len(),
            col < old(self)@[0].len(),
        ensures
            final(self).wf(),
            final(self)@ == with_tile(old(self)@, row as int, col as int, e),
    {
        assert(self@[row as int].len() == self@[0].len());
        self.cells[row][col] = e;
        proof {
            let target = with_tile(old(self)@, row as int, col as int, e);
            assert forall|r: int| 0 <= r < target.len() implies #[trigger] self@[r] == target[r] by {
                if r == row {
                    assert(self@[r] =~= target[r]);
                } else {
                    assert(self.cells@[r] == old(self).cells@[r]);
                }
            }
            assert(self@ =~= target);
        }
    }

    /// The number of lines that a move in direction `d` works on.
    pub fn line_count(&self, d: Direction) -> (count: usize)
        requires
            self.wf(),
        ensures
            count == line_count(d, width_of(self@), height_of(self@)),
    {
        match d {
            Direction::Left | Direction::Right => self.height(),
            Direction::Up | Direction::Down => self.width(),
        }
    }

    /// The number of cells in a line of a move in direction `d`.
    pub fn line_len(&self, d: Direction) -> (len: usize)
        requires
            self.wf(),
        ensures
            len == line_len(d, width_of(self@), height_of(self@)),
    {
        match d {
            Direction::Left | Direction::Right => self.width(),
            Direction::Up | Direction::Down => self.height(),
        }
    }

    /// The row and column of cell `i` of line `k` for a move in direction
    /// `d`.
    pub fn cell_at(&self, d: Direction, k: usize, i: usize) -> (cell: (usize, usize))
        requires
            self.wf(),
            k < line_count(d, width_of(self@), height_of(self@)),
            i < line_len(d, width_of(self@), height_of(self@)),
        ensures
            (cell.0 as int, cell.1 as int) == cell_of(
                d,
                width_of(self@),
                height_of(self@),
                k as int,
                i as int,
            ),
            cell.0 < height_of(self@),
            cell.1 < width_of(self@),
    {
        match d {
            Direction::Left => (k, i),
            Direction::Right => (k, self.width() - 1 - i),
            Direction::Up => (i, k),
            Direction::Down => (self.height() - 1 - i, k),
        }
    }

    /// Line `k` as a move in direction `d` reads it, cell 0 first.
    pub fn line(&self, d: Direction, k: usize) -> (line: Vec<u8>)
        requires
            self.wf(),
            k < line_count(d, width_of(self@), height_of(self@)),
        ensures
            line@ == line_of(self@, d, k as int),
    {
        let len = self.line_len(d);
        let mut line: Vec<u8> = Vec::new();
        let mut i: usize = 0;
        while i < len
            invariant
                self.wf(),
                k < line_count(d, width_of(self@), height_of(self@)),
                len == line_len(d, width_of(self@), height_of(self@)),
                i <= len,
                line@.len() == i,
                forall|j: int| 0 <= j < i ==> line@[j] == line_of(self@, d, k as int)[j],
            decreases len - i,
        {
            let cell = self.cell_at(d, k, i);
            line.push(self.get(cell.0, cell.1));
            i += 1;
        }
        assert(line@ =~= line_of(self@, d, k as int));
        line
    }

    /// Replaces line `k` of direction `d` by `line`.
    pub fn set_line(&mut self, d: Direction, k: usize, line: &Vec<u8>)
        requires
            old(self).wf(),
            k < line_count(d, width_of(old(self)@), height_of(old(self)@)),
            line@.len() == line_len(d, width_of(old(self)@), height_of(old(self)@)),
        ensures
            final(self).wf(),
            final(self)@ == with_line(old(self)@, d, k as int, line@),
    {
        let ghost before = self@;
        let ghost width = width_of(before);
        let ghost height = height_of(before);
        let len = line.len();
        let mut i: usize = 0;
        while i < len
            invariant
                is_grid(before),
                width == width_of(before),
                height == height_of(before),
                self.wf(),
                width_of(self@) == width,
                height_of(self@) == height,
                k < line_count(d, width, height),
                len == line_len(d, width, height),
                len == line@.len(),
                i <= len,
                forall|r: int, c: int|
                    0 <= r < height && 0 <= c < width ==> #[trigger] self@[r][c] == if line_index(
                        d,
                        r,
                        c,
                    ) == k && line_offset(d, width, height, r, c) < i {
                        line@[line_offset(d, width, height, r, c)]
                    } else {
                        before[r][c]
                    },
            decreases len - i,
        {
            let cell = self.cell_at(d, k, i);
            self.set(cell.0, cell.1, line[i]);
            i += 1;
        }
        proof {
            let target = with_line(before, d, k as int, line@);
            assert forall|r: int| 0 <= r < height implies #[trigger] self@[r] == target[r] by {
                assert(self@[r].len() == self@[0].len());
                assert(self@[r] =~= target[r]);
            }
            assert(self@ =~= target);
        }
    }

    /// Slides the tiles of every line toward the side that `d` points to.
    /// Returns whether any tile changed its position.
    pub fn slide(&mut self, d: Direction) -> (moved: bool)
        requires
            old(self).wf(),
        ensures
            final(self).wf(),
            final(self)@ == slid(old(self)@, d),
            moved == (final(self)@ != old(self)@),
    {
        let ghost before = self@;
        let count = self.line_count(d);
        let mut moved = false;
        let mut k: usize = 0;
        proof {
            lemma_mapped_none(before, d, compaction());
        }
        while k < count
            invariant
                is_grid(before),
                count == line_count(d, width_of(before), height_of(before)),
                k <= count,
                self@ == map_lines_upto(before, d, compaction(), k as int),
                moved == (self@ != before),
            decreases count - k,
        {
            proof {
                lemma_mapped_shape(before, d, compaction(), k as int);
                lemma_untouched_line(before, d, compaction(), k as int);
            }
            let mut line = self.line(d, k);
            let line_moved = slide(&mut line);
            self.set_line(d, k, &line);
            proof {
                lemma_store_mapped(before, d, compaction(), k as int, self@);
            }
            moved = moved || line_moved;
            k += 1;
        }
        proof {
            lemma_mapped_shape(before, d, compaction(), k as int);
        }
        moved
    }

    /// Merges equal neighbouring tiles in every line, starting at the side
    /// that `d` points to. Returns whether any pair was merged.
    pub fn merge(&mut self, d: Direction) -> (merged_any: bool)
        requires
            old(self).wf(),
            all_below(old(self)@, u8::MAX as int),
        ensures
            final(self).wf(),
            final(self)@ == merged_lines(old(self)@, d),
            merged_any == (final(self)@ != old(self)@),
    {
        let ghost before = self@;
        let count = self.line_count(d);
        let mut merged_any = false;
        let mut k: usize = 0;
        proof {
            lemma_mapped_none(before, d, merging());
        }
        while k < count
            invariant
                is_grid(before),
                all_below(before, u8::MAX as int),
                count == line_count(d, width_of(before), height_of(before)),
                k <= count,
                self@ == map_lines_upto(before, d, merging(), k as int),
                merged_any == (self@ != before),
            decreases count - k,
        {
            proof {
                lemma_mapped_shape(before, d, merging(), k as int);
                lemma_untouched_line(before, d, merging(), k as int);
                lemma_line_below(before, d, k as int, u8::MAX as int);
                merge_preserves_material(line_of(before, d, k as int));
            }
            let mut line = self.line(d, k);
            let line_merged = merge(&mut line);
            self.set_line(d, k, &line);
            proof {
                lemma_store_mapped(before, d, merging(), k as int, self@);
            }
            merged_any = merged_any || line_merged;
            k += 1;
        }
        proof {
            lemma_mapped_shape(before, d, merging(), k as int);
        }
        merged_any
    }

    /// Whether every exponent is below `bound`.
    pub fn all_below(&self, bound: u8) -> (below: bool)
        requires
            self.wf(),
        ensures
            below == all_below(self@, bound as int),
    {
        let height = self.height();
        let width = self.width();
        let mut r: usize = 0;
        while r < height
            invariant
                self.wf(),
                height == height_of(self@),
                width == width_of(self@),
                r <= height,
                forall|i: int, j: int|
                    0 <= i < r && 0 <= j < width ==> (#[trigger] self@[i][j]) < bound,
            decreases height - r,
        {
            let mut c: usize = 0;
            while c < width
                invariant
                    self.wf(),
                    height == height_of(self@),
                    width == width_of(self@),
                    r < height,
                    c <= width,
                    forall|i: int, j: int|
                        0 <= i < r && 0 <= j < width ==> (#[trigger] self@[i][j]) < bound,
                    forall|j: int| 0 <= j < c ==> (#[trigger] self@[r as int][j]) < bound,
                decreases width - c,
            {
                if self.get(r, c) >= bound {
                    assert(self@[r as int].len() == self@[0].len());
                    return false;
                }
                c += 1;
            }
            r += 1;
        }
        assert forall|i: int, j: int| 0 <= i < self@.len() && 0 <= j < self@[i].len() implies (
        #[trigger] self@[i][j]) < bound by {
            assert(self@[i].len() == self@[0].len());
        }
        true
    }

    /// Whether some cell holds exponent `e`.
    pub fn contains(&self, e: u8) -> (found: bool)
        requires
            self.wf(),
        ensures
            found == holds(self@, e),
    {
        let height = self.height();
        let width = self.width();
        let mut r: usize = 0;
        while r < height
            invariant
                self.wf(),
                height == height_of(self@),
                width == width_of(self@),
                r <= height,
                forall|i: int, j: int| 0 <= i < r && 0 <= j < width ==> (#[trigger] self@[i][j]) != e,
            decreases height - r,
        {
            let mut c: usize = 0;
            while c < width
                invariant
                    self.wf(),
                    height == height_of(self@),
                    width == width_of(self@),
                    r < height,
                    c <= width,
                    forall|i: int, j: int|
                        0 <= i < r && 0 <= j < width ==> (#[trigger] self@[i][j]) != e,
                    forall|j: int| 0 <= j < c ==> (#[trigger] self@[r as int][j]) != e,
                decreases width - c,
            {
                if self.get(r, c) == e {
                    return true;
                }
                c += 1;
            }
            r += 1;
        }
        false
    }

    /// The empty cells, each as a row and a column, in the order in which
    /// the grid is read row by row.
    pub fn empty_cells(&self) -> (cells: Vec<(usize, usize)>)
        requires
            self.wf(),
        ensures
            forall|i: int|
                0 <= i < cells@.len() ==> empty_at(
                    self@,
                    (#[trigger] cells@[i]).0 as int,
                    cells@[i].1 as int,
                ),
            forall|cell: (usize, usize)|
                empty_at(self@, cell.0 as int, cell.1 as int) ==> cells@.contains(cell),
            forall|i: int, j: int|
                0 <= i < j < cells@.len() ==> reads_before(#[trigger] cells@[i], #[trigger] cells@[j]),
    {
        let height = self.height();
        let width = self.width();
        let mut cells: Vec<(usize, usize)> = Vec::new();
        let mut r: usize = 0;
        while r < height
            invariant
                self.wf(),
                height == height_of(self@),
                width == width_of(self@),
                r <= height,
                forall|i: int|
                    0 <= i < cells@.len() ==> empty_at(
                        self@,
                        (#[trigger] cells@[i]).0 as int,
                        cells@[i].1 as int,
                    ),
                forall|i: int| 0 <= i < cells@.len() ==> (#[trigger] cells@[i]).0 < r,
                forall|cell: (usize, usize)|
                    empty_at(self@, cell.0 as int, cell.1 as int) && cell.0 < r ==> cells@.contains(
                        cell,
                    ),
                forall|i: int, j: int|
                    0 <= i < j < cells@.len() ==> reads_before(
                        #[trigger] cells@[i],
                        #[trigger] cells@[j],
                    ),
            decreases height - r,
        {
            let mut c: usize = 0;
            while c < width
                invariant
                    self.wf(),
                    height == height_of(self@),
                    width == width_of(self@),
                    r < height,
                    c <= width,
                    forall|i: int|
                        0 <= i < cells@.len() ==> empty_at(
                            self@,
                            (#[trigger] cells@[i]).0 as int,
                            cells@[i].1 as int,
                        ),
                    forall|i: int|
                        0 <= i < cells@.len() ==> reads_before(#[trigger] cells@[i], (r, c)),
                    forall|cell: (usize, usize)|
                        empty_at(self@, cell.0 as int, cell.1 as int) && reads_before(cell, (r, c))
                            ==> cells@.contains(cell),
                    forall|i: int, j: int|
                        0 <= i < j < cells@.len() ==> reads_before(
                            #[trigger] cells@[i],
                            #[trigger] cells@[j],
                        ),
                decreases width - c,
            {
                if self.get(r, c) == 0 {
                    let ghost found = cells@;
                    cells.push((r, c));
                    proof {
                        assert forall|cell: (usize, usize)|
                            empty_at(self@, cell.0 as int, cell.1 as int) && reads_before(
                                cell,
                                (r, (c + 1) as usize),
                            ) implies cells@.contains(cell) by {
                            if cell.0 == r && cell.1 == c {
                                assert(cells@[found.len() as int] == cell);
                            } else {
                                assert(reads_before(cell, (r, c)));
                                assert(found.contains(cell));
                                let i = found.index_of(cell);
                                assert(cells@[i] == cell);
                            }
                        }
                    }
                }
                c += 1;
            }
            r += 1;
        }
        cells
    }

    /// What each cell shows: nothing for an empty cell, `2^e` for a tile of
    /// exponent `e`.
    pub fn to_display(&self) -> (display: Vec<Vec<Option<u16>>>)
        requires
            self.wf(),
            all_below(self@, 16),
        ensures
            display@.len() == height_of(self@),
            forall|r: int|
                0 <= r < height_of(self@) ==> (#[trigger] display@[r])@.len() == width_of(self@),
            forall|r: int, c: int|
                0 <= r < height_of(self@) && 0 <= c < width_of(self@) ==> display@[r]@[c] == shown(
                    #[trigger] self@[r][c],
                ),
    {
        let height = self.height();
        let width = self.width();
        let mut display: Vec<Vec<Option<u16>>> = Vec::new();
        let mut r: usize = 0;
        while r < height
            invariant
                self.wf(),
                all_below(self@, 16),
                height == height_of(self@),
                width == width_of(self@),
                r <= height,
                display@.len() == r,
                forall|i: int| 0 <= i < r ==> (#[trigger] display@[i])@.len() == width,
                forall|i: int, j: int|
                    0 <= i < r && 0 <= j < width ==> display@[i]@[j] == shown(#[trigger] self@[i][j]),
            decreases height - r,
        {
            let mut row: Vec<Option<u16>> = Vec::new();
            let mut c: usize = 0;
            while c < width
                invariant
                    self.wf(),
                    all_below(self@, 16),
                    height == height_of(self@),
                    width == width_of(self@),
                    r < height,
                    c <= width,
                    row@.len() == c,
                    forall|j: int| 0 <= j < c ==> row@[j] == shown(#[trigger] self@[r as int][j]),
                decreases width - c,
            {
                let e = self.get(r, c);
                assert(self@[r as int].len() == self@[0].len());
                assert(self@[r as int][c as int] < 16);
                if e == 0 {
                    row.push(None);
                } else {
                    proof {
                        lemma_u16_pow2_no_overflow(e as nat);
                        lemma_u16_shl_is_mul(1u16, e as u16);
                    }
                    row.push(Some(1u16 << (e as u16)));
                }
                c += 1;
            }
            display.push(row);
            r += 1;
        }
        display
    }

    /// Carries out a whole move in direction `d`: slides the tiles, merges
    /// equal neighbours, and slides again if any pair was merged. Returns
    /// whether the move changed the grid.
    pub fn shift(&mut self, d: Direction) -> (effect: bool)
        requires
            old(self).wf(),
            all_below(old(self)@, u8::MAX as int),
        ensures
            final(self).wf(),
            final(self)@ == shifted(old(self)@, d),
            effect == (final(self)@ != old(self)@),
    {
        proof {
            slide_keeps_bound(self@, d, u8::MAX as int);
            shift_changes_iff_effect(self@, d);
        }
        let moved = self.slide(d);
        let merged_any = self.merge(d);
        if merged_any {
            self.slide(d);
        } else {
            proof {
                slide_is_idempotent_on_grid(old(self)@, d);
            }
        }
        moved || merged_any
    }

    /// Puts a tile of exponent 1 in the cell `picked`, if there is one.
    /// Returns whether there was.
    pub fn spawn_at(&mut self, picked: Option<(usize, usize)>) -> (placed: bool)
        requires
            old(self).wf(),
            picked matches Some(cell) ==> cell.0 < height_of(old(self)@) && cell.1 < width_of(
                old(self)@,
            ),
        ensures
            final(self).wf(),
            placed == picked is Some,
            final(self)@ == match picked {
                Some(cell) => with_tile(old(self)@, cell.0 as int, cell.1 as int, 1),
                None => old(self)@,
            },
    {
        match picked {
            Some(cell) => {
                self.set(cell.0, cell.1, 1);
                true
            },
            None => false,
        }
    }
}

} // verus!
