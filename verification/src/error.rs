//! The ways in which a board's configuration can be refused.

use vstd::prelude::*;

verus! {

/// Why a board or a grid could not be made.
#[derive(Clone, Copy, Debug, PartialEq, Eq, Structural)]
pub enum ConfigError {
    /// The number of cells, width times height, does not fit the machine's
    /// word.
    TooLarge,
    /// A position lies off the board.
    OutOfBounds,
    /// More mines are asked for than the board has cells.
    TooManyMines,
    /// No layout leaves the start and all its neighbours free of mines.
    NoFairStart,
}

} // verus!
