//! The instrumented maze solvers.
//!
//! A solver looks for a walk from a start to an end and records what it
//! does: a cell that it comes to for the first time is marked as visited,
//! and a cell of the walk that it has found is marked as on the path.

use vstd::prelude::*;

pub mod dfs;
pub mod dijkstra;

verus! {

/// A path as a solver returns it, as positions: pairs of a row and a column.
pub open spec fn positions(path: Seq<(usize, usize)>) -> Seq<(int, int)> {
    Seq::new(path.len(), |k: int| (path[k].0 as int, path[k].1 as int))
}

/// The position one step from `(row, col)` in the direction, or none where
/// that leaves the range of the numbers. The directions are steps of one,
/// zero or minus one along the rows and along the columns.
pub open spec fn stepped(row: usize, col: usize, d_row: int, d_col: int) -> Option<(usize, usize)> {
    if 0 <= row + d_row <= usize::MAX && 0 <= col + d_col <= usize::MAX {
        Some(((row + d_row) as usize, (col + d_col) as usize))
    } else {
        None
    }
}

/// The position one step from `(row, col)` in the direction.
pub fn step_from(row: usize, col: usize, d_row: i8, d_col: i8) -> (next: Option<(usize, usize)>)
    requires
        -1 <= d_row <= 1,
        -1 <= d_col <= 1,
    ensures
        next == stepped(row, col, d_row as int, d_col as int),
{
    let next_row: usize = if d_row < 0 {
        if row == 0 {
            return None;
        }
        row - 1
    } else if d_row > 0 {
        if row == usize::MAX {
            return None;
        }
        row + 1
    } else {
        row
    };
    let next_col: usize = if d_col < 0 {
        if col == 0 {
            return None;
        }
        col - 1
    } else if d_col > 0 {
        if col == usize::MAX {
            return None;
        }
        col + 1
    } else {
        col
    };
    Some((next_row, next_col))
}

} // verus!
