//! The cell types of the minefield: what a cell hides and what the player
//! currently sees of it, together with the result variants of the player's
//! moves.

use vstd::prelude::*;

verus! {

/// What a cell of the minefield hides.
#[derive(Copy, Clone, PartialEq, Eq, Structural, Debug)]
pub enum SpotKind {
    /// The cell is a mine.
    Mine,
    /// The cell is empty, surrounded by the given number of mines
    /// (among its up-to-8 grid neighbors).
    Empty(i32),
}

/// What the player currently sees of a cell.
#[derive(Copy, Clone, PartialEq, Eq, Structural, Debug)]
pub enum SpotState {
    /// The cell has not been visited.
    Hidden,
    /// The cell has been visited.
    Revealed,
    /// The cell has been flagged as being a mine.
    Flagged,
}

/// One cell of the minefield: its kind and its visibility.
#[derive(Copy, Clone, PartialEq, Eq, Structural, Debug)]
pub struct Spot {
    pub kind: SpotKind,
    pub state: SpotState,
}

impl Spot {
    pub fn kind(&self) -> (r: &SpotKind)
        ensures
            *r == self.kind,
    {
        &self.kind
    }

    pub fn state(&self) -> (r: &SpotState)
        ensures
            *r == self.state,
    {
        &self.state
    }
}

impl Default for Spot {
    /// A fresh cell: empty with no neighboring mines, not yet visited.
    fn default() -> (r: Self)
        ensures
            r == (Spot { kind: SpotKind::Empty(0), state: SpotState::Hidden }),
    {
        Spot { kind: SpotKind::Empty(0), state: SpotState::Hidden }
    }
}

/// The result of stepping on a cell, or of resolving a revealed cell.
#[derive(Copy, Clone, PartialEq, Eq, Structural, Debug)]
pub enum StepResult {
    /// Stepped on an empty cell.
    Phew,
    /// Stepped on a mine.
    Boom,
    /// Step not taken: the coordinates are out of range or the cell
    /// cannot be stepped on in its current state.
    Invalid,
}

/// The result of toggling the flag of a cell.
#[derive(Copy, Clone, PartialEq, Eq, Structural, Debug)]
pub enum FlagResult {
    /// The cell was hidden and is now flagged.
    Added,
    /// The cell was flagged and is now hidden again.
    Removed,
    /// Nothing changed: the coordinates are out of range or the cell
    /// is already revealed.
    Unchanged,
}

} // verus!
