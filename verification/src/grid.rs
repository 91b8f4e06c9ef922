//! Walks through a grid: what the maze solvers look for, and what the maze
//! generator promises.
//!
//! A position is a pair of a row and a column. A walk may start on any cell
//! of the grid and then steps from cell to cell, up, down, left or right,
//! onto cells that are no walls.

use crate::services::maze_generator::Cell;
use vstd::prelude::*;

verus! {

/// Every row of the grid has `width` cells, and there are `height` rows.
pub open spec fn rectangular(grid: Seq<Seq<Cell>>, height: int, width: int) -> bool {
    &&& grid.len() == height
    &&& forall|r: int| 0 <= r < height ==> (#[trigger] grid[r]).len() == width
}

/// A grid of any values has `height` rows of `width` values each.
pub open spec fn shaped<T>(grid: Seq<Seq<T>>, height: int, width: int) -> bool {
    &&& grid.len() == height
    &&& forall|r: int| 0 <= r < height ==> (#[trigger] grid[r]).len() == width
}

/// The rows of a grid that is held as vectors of vectors.
pub open spec fn rows<T>(grid: Seq<Vec<T>>) -> Seq<Seq<T>> {
    Seq::new(grid.len(), |r: int| grid[r]@)
}

/// The grid with the value at a position replaced.
pub open spec fn with_at<T>(grid: Seq<Seq<T>>, at: (int, int), value: T) -> Seq<Seq<T>> {
    grid.update(at.0, grid[at.0].update(at.1, value))
}

/// The position lies on the grid.
pub open spec fn inside(grid: Seq<Seq<Cell>>, at: (int, int)) -> bool {
    0 <= at.0 < grid.len() && 0 <= at.1 < grid[at.0].len()
}

/// The position lies on the grid and is no wall.
pub open spec fn passable(grid: Seq<Seq<Cell>>, at: (int, int)) -> bool {
    inside(grid, at) && grid[at.0][at.1] != Cell::Wall
}

/// The two positions are neighbours: one step up, down, left or right apart.
pub open spec fn adjacent(a: (int, int), b: (int, int)) -> bool {
    ||| a.0 == b.0 && a.1 + 1 == b.1
    ||| a.0 == b.0 && b.1 + 1 == a.1
    ||| a.1 == b.1 && a.0 + 1 == b.0
    ||| a.1 == b.1 && b.0 + 1 == a.0
}

/// The positions form a walk: the first lies on the grid, and each of the
/// others is a neighbour of the one before it and is no wall.
pub open spec fn is_walk(grid: Seq<Seq<Cell>>, walk: Seq<(int, int)>) -> bool {
    &&& walk.len() >= 1
    &&& inside(grid, walk[0])
    &&& forall|k: int|
        1 <= k < walk.len() ==> adjacent(walk[k - 1], #[trigger] walk[k]) && passable(
            grid,
            walk[k],
        )
}

/// The walk leads from `from` to `to`.
pub open spec fn connects(
    grid: Seq<Seq<Cell>>,
    walk: Seq<(int, int)>,
    from: (int, int),
    to: (int, int),
) -> bool {
    &&& is_walk(grid, walk)
    &&& walk[0] == from
    &&& walk.last() == to
}

/// Some walk leads from `from` to `to`.
pub open spec fn reachable(grid: Seq<Seq<Cell>>, from: (int, int), to: (int, int)) -> bool {
    exists|walk: Seq<(int, int)>| connects(grid, walk, from, to)
}

/// No walk from `from` to `to` has fewer than `steps` steps.
pub open spec fn no_shorter_walk(
    grid: Seq<Seq<Cell>>,
    from: (int, int),
    to: (int, int),
    steps: int,
) -> bool {
    forall|walk: Seq<(int, int)>| #[trigger]
        connects(grid, walk, from, to) ==> walk.len() - 1 >= steps
}

} // verus!
