//! The phase of a game.

use crate::direction::Direction;
use vstd::prelude::*;

verus! {

/// The phase of a board.
#[derive(Clone, Copy, Debug, PartialEq, Eq, Structural)]
pub enum State {
    /// The grid is allocated and holds no tile yet.
    Uninitialized,
    /// The board awaits a move.
    Stop,
    /// A move in the given direction is being carried out; no caller sees a
    /// board in this phase.
    Step(Direction),
    /// The game has ended, won if the flag is set and lost otherwise.
    Over(bool),
}

} // verus!
