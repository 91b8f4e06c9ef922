//! A pair of coordinates.

use vstd::prelude::*;

verus! {

/// A point: `x` counts the columns and `y` the rows.
#[derive(Clone, Copy, PartialEq, Debug)]
pub struct Coords<T: Copy> {
    pub x: T,
    pub y: T,
}

impl<T: Copy> Coords<T> {
    /// The point at column `x` and row `y`.
    pub fn from(x: T, y: T) -> (coords: Self)
        ensures
            coords.x == x,
            coords.y == y,
    {
        Coords::<T> { x, y }
    }

    /// The point as row and column.
    pub fn as_row_col(&self) -> (row_col: (T, T))
        ensures
            row_col == (self.y, self.x),
    {
        (self.y, self.x)
    }
}

} // verus!
