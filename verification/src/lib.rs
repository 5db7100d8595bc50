//! A verified game-state engine for a grid-based mine-discovery puzzle.
//!
//! The engine owns the board, the mine positions, the flood-fill reveal
//! algorithm, the flagging state machine and the win/loss detection.
//! Presentation (drawing the board, reading commands) lives outside of it.

use vstd::prelude::*;

pub mod cell;
pub mod config;
pub mod counting;
pub mod game;

verus! {

/// A grid coordinate is on the board when both the row and the column are
/// below the board size.
pub open spec fn in_bounds(size: int, r: int, c: int) -> bool {
    0 <= r < size && 0 <= c < size
}

/// Two indices are within Chebyshev distance one of each other.
pub open spec fn within_one(a: int, b: int) -> bool {
    -1 <= a - b <= 1
}

/// Executable check that two `usize` indices are within distance one;
/// written without subtraction that could underflow.
pub fn near(a: usize, b: usize) -> (r: bool)
    ensures
        r == within_one(a as int, b as int),
{
    if a >= b {
        a - b <= 1
    } else {
        b - a <= 1
    }
}

} // verus!
