//! The per-position cell states of the board and the status messages the
//! engine reports to the player.

use vstd::prelude::*;

verus! {

/// The player-visible state of one grid position.
///
/// `Mine` labels a position that holds a mine (shown as undiscovered while
/// the round is running), `Number(n)` a revealed position with `n` mines
/// adjacent, `Empty` a revealed position with no mine adjacent, and `Mark`
/// a position the player flagged as a suspected mine.
#[derive(Debug, Clone, Copy, PartialEq, Eq, Structural)]
pub enum Cell {
    Mine,
    Number(u8),
    Empty,
    Undiscovered,
    Mark,
}

/// A cell the player has acted upon: uncovered (`Number` or `Empty`) or
/// flagged (`Mark`). Both count towards the revealed set.
pub open spec fn cell_revealed(c: Cell) -> bool {
    c is Number || c is Empty || c is Mark
}

/// A flagged cell.
pub open spec fn cell_marked(c: Cell) -> bool {
    c is Mark
}

/// Executable counterpart of [`cell_revealed`].
pub fn is_acted_upon(c: Cell) -> (r: bool)
    ensures
        r == cell_revealed(c),
{
    match c {
        Cell::Number(_) => true,
        Cell::Empty => true,
        Cell::Mark => true,
        _ => false,
    }
}

/// A status message for the player, reported by the engine when a command
/// is rejected. The engine never aborts on bad input; it records one of
/// these instead.
#[derive(Debug, Clone, Copy, PartialEq, Eq, Structural)]
pub enum GameMessage {
    /// The row or the column lies outside the board.
    OutOfBounds,
    /// Flagging was attempted before the first reveal placed the mines.
    PrematureFlag,
    /// Flagging was attempted on an already uncovered cell.
    CellNotFlaggable,
    /// Flagging was attempted while as many flags as mines are placed.
    FlagLimitReached,
    /// A reveal was attempted on an already revealed cell.
    AlreadyRevealed,
}

} // verus!
