//! The board: a grid, the phase of the game and the source of its random
//! choices.

use crate::direction::Direction;
use crate::grid::{Grid, LoadError};
use crate::layout::{
    all_below, blank, empty_at, has_empty, height_of, holds, is_grid, reads_before, shown,
    shown_rows, width_of, with_tile,
};
use crate::moves::{shift_keeps_gap, shift_raises_bound, shifted};
use crate::render::{display_rows, render, rendered};
use crate::source::{current_thread_rng, RandomSource, SeededSource};
use crate::state::State;
use vstd::prelude::*;

verus! {

/// The exponent that wins the game: a tile that shows 2048.
pub const WIN_EXPONENT: u8 = 11;

/// The grid `after` is `before` with one new tile of exponent 1 in a cell
/// that was empty.
pub open spec fn spawned(before: Seq<Seq<u8>>, after: Seq<Seq<u8>>) -> bool {
    exists|row: int, col: int| #[trigger]
        empty_at(before, row, col) && after == with_tile(before, row, col, 1)
}

/// The grid `after` is the blank grid `before` with its first tiles: two
/// tiles of exponent 1 in two cells, or one where the grid has one cell only.
pub open spec fn seeded(before: Seq<Seq<u8>>, after: Seq<Seq<u8>>) -> bool {
    if width_of(before) == 1 && height_of(before) == 1 {
        after == with_tile(before, 0, 0, 1)
    } else {
        exists|row: int, col: int, other_row: int, other_col: int|
            {
                &&& #[trigger] empty_at(before, row, col)
                &&& #[trigger] empty_at(before, other_row, other_col)
                &&& (row != other_row || col != other_col)
                &&& after == with_tile(with_tile(before, row, col, 1), other_row, other_col, 1)
            }
    }
}

/// What a move in direction `d` makes of the grid `before`, and the phase it
/// ends in. A full grid loses the game at once. A move that changes nothing
/// leaves the grid as it was. Any other move is followed by one new tile,
/// and wins the game if a tile then holds the winning exponent.
pub open spec fn stepped(
    before: Seq<Seq<u8>>,
    d: Direction,
    after: Seq<Seq<u8>>,
    state: State,
) -> bool {
    if !has_empty(before) {
        after == before && state == State::Over(false)
    } else if shifted(before, d) == before {
        after == before && state == State::Stop
    } else {
        &&& spawned(shifted(before, d), after)
        &&& state == if holds(after, WIN_EXPONENT) {
            State::Over(true)
        } else {
            State::Stop
        }
    }
}

/// A grid of tiles with the phase of the game played on it and the source of
/// its random choices.
pub struct Board<R> {
    grid: Grid,
    state: State,
    rand: R,
}

impl<R> View for Board<R> {
    type V = Seq<Seq<u8>>;

    closed spec fn view(&self) -> Seq<Seq<u8>> {
        self.grid@
    }
}

impl<R> Board<R> {
    /// The phase of the game.
    pub closed spec fn spec_state(&self) -> State {
        self.state
    }

    /// The source of the board's random choices.
    pub closed spec fn source(&self) -> R {
        self.rand
    }

    /// The grid is a rectangle with at least one cell, the board is not in
    /// the middle of a move, and a board that is not initialized is blank.
    pub open spec fn wf(&self) -> bool {
        &&& is_grid(self@)
        &&& !(self.state() is Step)
        &&& self.state() == State::Uninitialized ==> self@ == blank(width_of(self@), height_of(self@))
    }

    /// A blank board of `height` rows and `width` columns with a source of
    /// its own making.
    pub fn new(width: usize, height: usize) -> (board: Self) where R: Default
        requires
            width > 0,
            height > 0,
        ensures
            board.wf(),
            board@ == blank(width as int, height as int),
            board.state() == State::Uninitialized,
            call_ensures(R::default, (), board.source()),
    {
        Board { grid: Grid::new(width, height), state: State::Uninitialized, rand: R::default() }
    }

    /// Takes rows of exponents as the grid of a game that awaits a move, if
    /// they form a rectangle with at least one cell.
    pub fn load(cells: Vec<Vec<u8>>, rng: R) -> (result: Result<Self, LoadError>)
        ensures
            match result {
                Ok(board) => {
                    &&& is_grid(cells.deep_view())
                    &&& board.wf()
                    &&& board@ == cells.deep_view()
                    &&& board.state() == State::Stop
                    &&& board.source() == rng
                },
                Err(LoadError::Empty) => cells.deep_view().len() == 0 || cells.deep_view()[0].len()
                    == 0,
                Err(LoadError::Jagged) => {
                    &&& cells.deep_view().len() > 0
                    &&& cells.deep_view()[0].len() > 0
                    &&& !is_grid(cells.deep_view())
                },
            },
    {
        match Grid::from_rows(cells) {
            Ok(grid) => Ok(Board { grid, state: State::Stop, rand: rng }),
            Err(error) => Err(error),
        }
    }

    /// The phase of the game.
    #[verifier::when_used_as_spec(spec_state)]
    pub fn state(&self) -> (state: State)
        ensures
            state == self.state(),
    {
        self.state
    }

    /// The number of columns of the grid.
    pub fn width(&self) -> (width: usize)
        requires
            self.wf(),
        ensures
            width == width_of(self@),
    {
        self.grid.width()
    }

    /// The number of rows of the grid.
    pub fn height(&self) -> (height: usize)
        requires
            self.wf(),
        ensures
            height == height_of(self@),
    {
        self.grid.height()
    }

    /// What each cell shows: nothing for an empty cell, `2^e` for a tile of
    /// exponent `e`.
    pub fn to_display(&self) -> (display: Vec<Vec<Option<u16>>>)
        requires
            self.wf(),
            all_below(self@, 16),
        ensures
            display@.len() == height_of(self@),
            forall|r: int|
                0 <= r < height_of(self@) ==> (#[trigger] display@[r])@.len() == width_of(self@),
            forall|r: int, c: int|
                0 <= r < height_of(self@) && 0 <= c < width_of(self@) ==> display@[r]@[c] == shown(
                    #[trigger] self@[r][c],
                ),
    {
        self.grid.to_display()
    }
}

impl<R> Board<R> {
    /// The board as text: before each row a separator line, then the cells
    /// of the row, each after a bar and four characters wide, with what the
    /// cell shows at the right; a bar closes the row, and a separator line
    /// the grid.
    pub fn render(&self) -> (text: String)
        requires
            self.wf(),
            all_below(self@, 16),
        ensures
            text@ == rendered(shown_rows(self@)),
    {
        let display = self.grid.to_display();
        proof {
            let rows = display_rows(display);
            assert forall|r: int| 0 <= r < rows.len() implies #[trigger] rows[r] == shown_rows(
                self@,
            )[r] by {
                assert(rows[r] =~= shown_rows(self@)[r]);
            }
            assert(rows =~= shown_rows(self@));
        }
        render(&display)
    }

    /// What each cell shows, if every tile can be shown: every exponent must
    /// be below 16 for `2^e` to fit.
    pub fn try_to_display(&self) -> (display: Option<Vec<Vec<Option<u16>>>>)
        requires
            self.wf(),
        ensures
            display is Some <==> all_below(self@, 16),
            display matches Some(cells) ==> {
                &&& cells@.len() == height_of(self@)
                &&& forall|r: int|
                    0 <= r < height_of(self@) ==> (#[trigger] cells@[r])@.len() == width_of(self@)
                &&& forall|r: int, c: int|
                    0 <= r < height_of(self@) && 0 <= c < width_of(self@) ==> cells@[r]@[c]
                        == shown(#[trigger] self@[r][c])
            },
    {
        if self.grid.all_below(16) {
            Some(self.grid.to_display())
        } else {
            None
        }
    }
}

impl<R: RandomSource> Board<R> {
    /// A blank board of `height` rows and `width` columns whose source is
    /// built from `seed`.
    pub fn new_with_seed(width: usize, height: usize, seed: R::Seed) -> (board: Self) where
        R: SeededSource,

        requires
            width > 0,
            height > 0,
        ensures
            board.wf(),
            board@ == blank(width as int, height as int),
            board.state() == State::Uninitialized,
            call_ensures(R::with_seed, (seed,), board.source()),
    {
        Board {
            grid: Grid::new(width, height),
            state: State::Uninitialized,
            rand: R::with_seed(seed),
        }
    }

    /// Puts a tile of exponent 1 in an empty cell that the source chooses.
    /// Returns whether there was an empty cell.
    fn try_generate(&mut self) -> (generated: bool)
        requires
            old(self).grid.wf(),
        ensures
            final(self).grid.wf(),
            final(self).state == old(self).state,
            generated == has_empty(old(self)@),
            has_empty(old(self)@) ==> spawned(old(self)@, final(self)@),
            !has_empty(old(self)@) ==> final(self)@ == old(self)@,
    {
        let candidates = self.grid.empty_cells();
        let picked = self.rand.pick(&candidates);
        proof {
            self.grid.lemma_size_fits();
            if has_empty(self@) {
                let (row, col) = choose|row: int, col: int| empty_at(self@, row, col);
                let cell = (row as usize, col as usize);
                assert(empty_at(self@, cell.0 as int, cell.1 as int));
                assert(candidates@.contains(cell));
            }
            if let Some(cell) = picked {
                let i = candidates@.index_of(cell);
                assert(empty_at(self@, candidates@[i].0 as int, candidates@[i].1 as int));
            }
        }
        self.grid.spawn_at(picked)
    }

    /// Starts the game: puts a tile of exponent 1 in each of two cells that
    /// the source chooses, and lets the board await a move. A board of one
    /// cell gets one tile. The board must not have been initialized before.
    pub fn initialize(&mut self)
        requires
            old(self).wf(),
            old(self).state() == State::Uninitialized,
        ensures
            final(self).wf(),
            final(self).state() == State::Stop,
            seeded(old(self)@, final(self)@),
            all_below(final(self)@, 2),
    {
        let ghost before = self@;
        let candidates = self.grid.empty_cells();
        proof {
            assert(candidates@.no_duplicates()) by {
                assert forall|i: int, j: int|
                    0 <= i < candidates@.len() && 0 <= j < candidates@.len() && i
                        != j implies candidates@[i] != candidates@[j] by {
                    if i < j {
                        assert(reads_before(candidates@[i], candidates@[j]));
                    } else {
                        assert(reads_before(candidates@[j], candidates@[i]));
                    }
                }
            }
            let corner = (0usize, 0usize);
            assert(before[0][0] == 0);
            assert(empty_at(before, corner.0 as int, corner.1 as int));
            assert(candidates@.contains(corner));
            if width_of(before) > 1 {
                let beside = (0usize, 1usize);
                assert(empty_at(before, beside.0 as int, beside.1 as int));
                assert(candidates@.contains(beside));
                assert(candidates@.index_of(corner) != candidates@.index_of(beside));
            } else if height_of(before) > 1 {
                let below = (1usize, 0usize);
                assert(before[1].len() == before[0].len());
                assert(empty_at(before, below.0 as int, below.1 as int));
                assert(candidates@.contains(below));
                assert(candidates@.index_of(corner) != candidates@.index_of(below));
            } else {
                if candidates@.len() > 1 {
                    assert(empty_at(before, candidates@[0].0 as int, candidates@[0].1 as int));
                    assert(empty_at(before, candidates@[1].0 as int, candidates@[1].1 as int));
                    assert(reads_before(candidates@[0], candidates@[1]));
                }
            }
        }
        let amount: usize = if candidates.len() < 2 {
            candidates.len()
        } else {
            2
        };
        let picked = self.rand.pick_many(&candidates, amount);
        proof {
            assert forall|i: int| 0 <= i < picked@.len() implies empty_at(
                before,
                (#[trigger] picked@[i]).0 as int,
                picked@[i].1 as int,
            ) by {
                let j = candidates@.index_of(picked@[i]);
                assert(empty_at(before, candidates@[j].0 as int, candidates@[j].1 as int));
            }
        }
        let mut i: usize = 0;
        while i < picked.len()
            invariant
                is_grid(before),
                self.grid.wf(),
                width_of(self@) == width_of(before),
                height_of(self@) == height_of(before),
                self.state == old(self).state,
                i <= picked@.len() <= 2,
                forall|j: int|
                    0 <= j < picked@.len() ==> empty_at(
                        before,
                        (#[trigger] picked@[j]).0 as int,
                        picked@[j].1 as int,
                    ),
                i == 0 ==> self@ == before,
                i == 1 ==> self@ == with_tile(before, picked@[0].0 as int, picked@[0].1 as int, 1),
                i == 2 ==> self@ == with_tile(
                    with_tile(before, picked@[0].0 as int, picked@[0].1 as int, 1),
                    picked@[1].0 as int,
                    picked@[1].1 as int,
                    1,
                ),
            decreases picked@.len() - i,
        {
            let cell = picked[i];
            assert(empty_at(before, picked@[i as int].0 as int, picked@[i as int].1 as int));
            self.grid.set(cell.0, cell.1, 1);
            i += 1;
        }
        self.state = State::Stop;
        proof {
            if picked@.len() == 2 {
                assert(picked@[0] != picked@[1]);
                assert(empty_at(before, picked@[0].0 as int, picked@[0].1 as int));
                assert(empty_at(before, picked@[1].0 as int, picked@[1].1 as int));
            } else {
                assert(empty_at(before, picked@[0].0 as int, picked@[0].1 as int));
            }
        }
    }

    /// Carries out a move in direction `direction` and returns the phase
    /// that the game is in after it.
    ///
    /// A board without an empty cell loses the game, with no look at
    /// whether tiles could still merge. Else the tiles slide, equal
    /// neighbours merge and the tiles slide again. If that changed the
    /// grid, the source chooses an empty cell for a new tile of exponent 1,
    /// and the game is won if a tile then holds the winning exponent. If it
    /// changed nothing, the board is left as it was and the source is not
    /// used.
    ///
    /// The board must await a move, and no tile may hold the largest
    /// exponent that a cell can store. In a game that started from a blank
    /// board no exponent exceeds the winning one.
    pub fn step(&mut self, direction: Direction) -> (state: State)
        requires
            old(self).wf(),
            old(self).state() == State::Stop,
            all_below(old(self)@, u8::MAX as int),
        ensures
            final(self).wf(),
            final(self).state() == state,
            width_of(final(self)@) == width_of(old(self)@),
            height_of(final(self)@) == height_of(old(self)@),
            stepped(old(self)@, direction, final(self)@, state),
            !has_empty(old(self)@) || shifted(old(self)@, direction) == old(self)@
                ==> final(self).source() == old(self).source(),
            all_below(old(self)@, WIN_EXPONENT as int) ==> all_below(
                final(self)@,
                WIN_EXPONENT + 1,
            ) && (state == State::Stop ==> all_below(final(self)@, WIN_EXPONENT as int)),
    {
        let ghost before = self@;
        if !self.grid.contains(0) {
            self.state = State::Over(false);
            proof {
                if has_empty(before) {
                    let (row, col) = choose|row: int, col: int| empty_at(before, row, col);
                    assert(before[row][col] == 0);
                }
            }
            return self.state;
        }
        proof {
            let (row, col) = choose|row: int, col: int|
                0 <= row < height_of(before) && 0 <= col < width_of(before) && (
                #[trigger] before[row][col]) == 0;
            assert(empty_at(before, row, col));
            shift_keeps_gap(before, direction);
            shift_raises_bound(before, direction, u8::MAX as int);
            if all_below(before, WIN_EXPONENT as int) {
                shift_raises_bound(before, direction, WIN_EXPONENT as int);
            }
        }
        self.state = State::Step(direction);
        let effect = self.grid.shift(direction);
        if effect {
            self.try_generate();
            self.state = if self.grid.contains(WIN_EXPONENT) {
                State::Over(true)
            } else {
                State::Stop
            };
        } else {
            self.state = State::Stop;
        }
        self.state
    }
}

impl<R: RandomSource> Board<R> {
    /// Starts the game as `initialize` does, if the board is not initialized
    /// yet. Returns whether it was started; if not, the board is left as it
    /// was.
    pub fn try_initialize(&mut self) -> (started: bool)
        requires
            old(self).wf(),
        ensures
            final(self).wf(),
            started == (old(self).state() == State::Uninitialized),
            started ==> {
                &&& final(self).state() == State::Stop
                &&& seeded(old(self)@, final(self)@)
                &&& all_below(final(self)@, 2)
            },
            !started ==> *final(self) == *old(self),
    {
        match self.state {
            State::Uninitialized => {
                self.initialize();
                true
            },
            _ => false,
        }
    }

    /// Carries out a move as `step` does, if the board awaits a move and no
    /// tile holds the largest exponent that a cell can store. Returns the
    /// phase after the move; if there was none, the board is left as it was.
    pub fn try_step(&mut self, direction: Direction) -> (result: Option<State>)
        requires
            old(self).wf(),
        ensures
            final(self).wf(),
            result is Some <==> old(self).state() == State::Stop && all_below(
                old(self)@,
                u8::MAX as int,
            ),
            result matches Some(state) ==> {
                &&& final(self).state() == state
                &&& width_of(final(self)@) == width_of(old(self)@)
                &&& height_of(final(self)@) == height_of(old(self)@)
                &&& stepped(old(self)@, direction, final(self)@, state)
                &&& (!has_empty(old(self)@) || shifted(old(self)@, direction) == old(self)@
                    ==> final(self).source() == old(self).source())
                &&& (all_below(old(self)@, WIN_EXPONENT as int) ==> all_below(
                    final(self)@,
                    WIN_EXPONENT + 1,
                ) && (state == State::Stop ==> all_below(final(self)@, WIN_EXPONENT as int)))
            },
            result is None ==> *final(self) == *old(self),
    {
        match self.state {
            State::Stop => {
                if self.grid.all_below(u8::MAX) {
                    Some(self.step(direction))
                } else {
                    None
                }
            },
            _ => None,
        }
    }
}

impl Board<rand::rngs::ThreadRng> {
    /// A blank board of `height` rows and `width` columns whose source is
    /// the generator of the current thread.
    pub fn new_thread_rng(width: usize, height: usize) -> (board: Self)
        requires
            width > 0,
            height > 0,
        ensures
            board.wf(),
            board@ == blank(width as int, height as int),
            board.state() == State::Uninitialized,
    {
        Board {
            grid: Grid::new(width, height),
            state: State::Uninitialized,
            rand: current_thread_rng(),
        }
    }
}

impl Default for Board<rand::rngs::ThreadRng> {
    /// A blank board of four rows and four columns whose source is the
    /// generator of the current thread.
    fn default() -> (board: Self)
        ensures
            board.wf(),
            board@ == blank(4, 4),
            board.state() == State::Uninitialized,
    {
        Board::new_thread_rng(4, 4)
    }
}

} // verus!
