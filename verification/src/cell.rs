use vstd::prelude::*;

verus! {

/// The display/interaction state of a single cell.
///
/// Transitions are one-directional except `Covered <-> Flagged`:
/// a `Revealed` or `Exploded` cell never reverts.
#[derive(Clone, Copy, Debug, PartialEq, Eq, Structural)]
pub enum CellState {
    /// Not yet revealed; may be revealed or flagged.
    Covered,
    /// Marked by the player; protected from reveal until unflagged.
    Flagged,
    /// Opened, showing the number of mines among its in-bounds neighbors.
    Revealed(u8),
    /// A mine that was revealed; terminal, ends the game.
    Exploded,
}

impl CellState {
    /// True exactly for the `Revealed(_)` variant.
    pub open spec fn is_revealed(self) -> bool {
        match self {
            CellState::Revealed(_) => true,
            _ => false,
        }
    }
}

/// One cell of the board: a fixed mine flag plus a mutable state.
#[derive(Clone, Copy, Debug, PartialEq, Eq, Structural)]
pub struct Cell {
    /// Fixed at board generation; never changes during a session.
    pub is_mine: bool,
    pub state: CellState,
}

/// The only error the board surface reports; everything else degrades
/// to a silent no-op.
#[derive(Clone, Copy, Debug, PartialEq, Eq, Structural)]
pub enum GameError {
    OutOfBounds,
}

} // verus!
