//! The four moves.

use vstd::prelude::*;

verus! {

/// The side of the grid toward which a move slides the tiles.
#[derive(Clone, Copy, Debug, PartialEq, Eq, Structural)]
pub enum Direction {
    Up,
    Down,
    Left,
    Right,
}

} // verus!
