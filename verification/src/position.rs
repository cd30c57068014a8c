use vstd::prelude::*;

verus! {

/// A point in the editor's display coordinate space: a row and a column,
/// ordered first by row, then by column.
#[derive(Clone, Copy, PartialEq, Eq, Structural, Debug)]
pub struct Position {
    pub row: usize,
    pub col: usize,
}

/// Direction used to resolve an invalid target position to the nearest valid
/// one: `Left` snaps to the nearest valid position at or before the target,
/// `Right` at or after it. In this buffer model every column up to a line's
/// length is a valid stopping point, so both biases snap to the same place;
/// the parameter remains so that callers state which direction they intend.
#[derive(Clone, Copy, PartialEq, Eq, Structural, Debug)]
pub enum Bias {
    Left,
    Right,
}

impl Position {
    /// Total order on positions: compare row, then column.
    pub open spec fn le(self, other: Position) -> bool {
        self.row < other.row || (self.row == other.row && self.col <= other.col)
    }

    pub open spec fn lt(self, other: Position) -> bool {
        self.row < other.row || (self.row == other.row && self.col < other.col)
    }

    pub fn is_le(&self, other: &Position) -> (r: bool)
        ensures
            r == self.le(*other),
    {
        self.row < other.row || (self.row == other.row && self.col <= other.col)
    }

    pub fn is_lt(&self, other: &Position) -> (r: bool)
        ensures
            r == self.lt(*other),
    {
        self.row < other.row || (self.row == other.row && self.col < other.col)
    }
}

} // verus!
