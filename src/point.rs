//! Integer board coordinates.
use vstd::prelude::*;

verus! {

/// A cell position: `row` counts down from the top, `col` to the right.
#[derive(Clone, Copy, Debug, PartialEq, Eq, Hash, Structural)]
pub struct Point {
    pub col: isize,
    pub row: isize,
}

impl Point {
    pub fn new(row: isize, col: isize) -> (r: Point)
        ensures
            r.row == row,
            r.col == col,
    {
        Point { row, col }
    }

    /// Component-wise sum.
    pub fn add(self, rhs: Point) -> (r: Point)
        requires
            isize::MIN <= self.row + rhs.row <= isize::MAX,
            isize::MIN <= self.col + rhs.col <= isize::MAX,
        ensures
            r.row == self.row + rhs.row,
            r.col == self.col + rhs.col,
    {
        Point { row: self.row + rhs.row, col: self.col + rhs.col }
    }

    /// Component-wise difference.
    pub fn sub(self, rhs: Point) -> (r: Point)
        requires
            isize::MIN <= self.row - rhs.row <= isize::MAX,
            isize::MIN <= self.col - rhs.col <= isize::MAX,
        ensures
            r.row == self.row - rhs.row,
            r.col == self.col - rhs.col,
    {
        Point { row: self.row - rhs.row, col: self.col - rhs.col }
    }
}

} // verus!
