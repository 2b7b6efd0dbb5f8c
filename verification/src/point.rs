//! Positions in a source file.

use vstd::prelude::*;

verus! {

/// A zero-based position in a source file.
#[derive(Clone, Copy, Debug, PartialEq, Eq, Structural)]
pub struct Point {
    pub row: u32,
    pub column: u32,
}

impl Point {
    /// Lexicographic order on `(row, column)`: `self` lies strictly after `other`.
    pub open spec fn after(self, other: Point) -> bool {
        self.row > other.row || (self.row == other.row && self.column > other.column)
    }

    pub fn new(row: u32, column: u32) -> (p: Point)
        ensures
            p == (Point { row, column }),
    {
        Point { row, column }
    }

    /// Whether `self` lies strictly after `other`.
    pub fn is_after(&self, other: &Point) -> (b: bool)
        ensures
            b == self.after(*other),
    {
        self.row > other.row || (self.row == other.row && self.column > other.column)
    }
}

} // verus!
