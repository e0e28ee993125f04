//! Core logic of a sliding-tile merge puzzle on a rectangular grid.
//!
//! A tile is stored as an exponent: `0` is an empty cell and `e > 0` stands
//! for the displayed value `2^e`. A [`Board`] holds a [`Grid`] of tiles, the
//! [`State`] of the game and a [`RandomSource`] that chooses where new tiles
//! appear. A move in a [`Direction`] slides the tiles of every line toward
//! one side, merges equal neighbours and slides again.
//!
//! The modules `line`, `layout` and `moves` define what sliding and merging
//! make of a line and of a grid, and prove what holds of every move.

pub mod board;
pub mod direction;
pub mod grid;
pub mod layout;
pub mod line;
pub mod moves;
pub mod render;
pub mod source;
pub mod state;

pub use board::Board;
pub use direction::Direction;
pub use grid::{Grid, LoadError};
pub use source::{RandomSource, SeededSource};
pub use state::State;
