//! A terminal-Minesweeper engine: a fixed-size board of hidden and revealed
//! tiles, mine placement with a safe opening move, flood-fill revealing, and
//! a deterministic single-step solver with a random-guess fallback.

use vstd::prelude::*;

pub mod minesweeper;
mod rng;
pub mod solver;

verus! {

/// Number of rows on the board.
pub const BOARD_HEIGHT: usize = 15;

/// Number of columns on the board.
pub const BOARD_WIDTH: usize = 15;

/// Number of mines every game is played with.
pub const MINE_COUNT: usize = 30;

/// Total number of tiles on the board.
pub const TILE_COUNT: usize = BOARD_HEIGHT * BOARD_WIDTH;

} // verus!
