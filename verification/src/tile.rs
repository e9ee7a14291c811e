//! One cell of the board.

use vstd::prelude::*;

verus! {

/// What the player sees of a cell. Exactly one of the three holds.
#[derive(Clone, Copy, Debug, PartialEq, Eq, Structural)]
pub enum Visibility {
    Hidden,
    Revealed,
    Flagged,
}

/// A property of a cell that the rules count.
#[derive(Clone, Copy, Debug, PartialEq, Eq, Structural)]
pub enum Mark {
    /// The cell holds a mine.
    Mine,
    /// The cell is revealed.
    Revealed,
    /// The cell carries a flag.
    Flagged,
    /// The cell is hidden or flagged: anything but revealed.
    Unrevealed,
    /// The cell is hidden and carries no flag.
    Hidden,
    /// The cell holds no mine and is not revealed.
    Unsolved,
    /// The cell holds a mine and is revealed.
    Burst,
    /// The cell holds a mine and carries no flag.
    UnflaggedMine,
    /// The cell carries a flag and holds no mine.
    Misflagged,
}

/// One cell: whether it holds a mine, how many of its neighbours do, and what
/// the player sees of it.
#[derive(Clone, Copy, Debug, PartialEq, Eq, Structural)]
pub struct Tile {
    pub mine: bool,
    pub neighbour_mine_count: u8,
    pub visibility: Visibility,
}

impl Tile {
    /// Whether the cell has the given mark.
    pub open spec fn has(self, mark: Mark) -> bool {
        match mark {
            Mark::Mine => self.mine,
            Mark::Revealed => self.visibility == Visibility::Revealed,
            Mark::Flagged => self.visibility == Visibility::Flagged,
            Mark::Unrevealed => self.visibility != Visibility::Revealed,
            Mark::Hidden => self.visibility == Visibility::Hidden,
            Mark::Unsolved => !self.mine && self.visibility != Visibility::Revealed,
            Mark::Burst => self.mine && self.visibility == Visibility::Revealed,
            Mark::UnflaggedMine => self.mine && self.visibility != Visibility::Flagged,
            Mark::Misflagged => !self.mine && self.visibility == Visibility::Flagged,
        }
    }

    /// The same cell with another visibility.
    pub open spec fn seen_as(self, visibility: Visibility) -> Tile {
        Tile { visibility, ..self }
    }

    /// A hidden cell without a mine and without mined neighbours.
    pub open spec fn empty() -> Tile {
        Tile { mine: false, neighbour_mine_count: 0, visibility: Visibility::Hidden }
    }

    /// A hidden cell without a mine and without mined neighbours.
    pub fn blank() -> (tile: Tile)
        ensures
            tile == Tile::empty(),
    {
        Tile { mine: false, neighbour_mine_count: 0, visibility: Visibility::Hidden }
    }

    /// Whether the cell has the given mark.
    pub fn is(&self, mark: Mark) -> (b: bool)
        ensures
            b == self.has(mark),
    {
        match mark {
            Mark::Mine => self.mine,
            Mark::Revealed => self.visibility == Visibility::Revealed,
            Mark::Flagged => self.visibility == Visibility::Flagged,
            Mark::Unrevealed => self.visibility != Visibility::Revealed,
            Mark::Hidden => self.visibility == Visibility::Hidden,
            Mark::Unsolved => !self.mine && self.visibility != Visibility::Revealed,
            Mark::Burst => self.mine && self.visibility == Visibility::Revealed,
            Mark::UnflaggedMine => self.mine && self.visibility != Visibility::Flagged,
            Mark::Misflagged => !self.mine && self.visibility == Visibility::Flagged,
        }
    }
}

} // verus!
