//! A verified minesweeper engine: board generation, the reveal /
//! cascade / chord algorithm, flag toggling, and win/loss detection,
//! with the board state machine's invariants proved.

pub mod board;
pub mod engine;
pub mod cell;
pub mod grid;
pub mod laws;
pub mod session;

pub use board::Board;
pub use cell::{Cell, CellState, GameError};
pub use session::{Command, CommandOutcome, Phase, Session};
