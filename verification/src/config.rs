//! What the user can configure.

use crate::services::maze_generator::Cell;
use vstd::prelude::*;
use vstd::string::StringExecFns;

verus! {

/// The number of items of a new sorter.
pub const MAX_ITEMS: i32 = 100;

/// The configuration of a sorting run.
#[derive(Clone, PartialEq, Debug)]
pub struct SortConfigValues {
    /// The number of items to sort.
    pub items_count: i32,
    /// The time that the whole animation is to take, in seconds.
    pub time_overall: i32,
    /// The name of the sorting algorithm.
    pub current_algorithm_name: String,
}

impl SortConfigValues {
    /// The configuration that a sorter starts with: a hundred items, ten
    /// seconds, merge sort.
    pub fn new() -> (config: Self)
        ensures
            config.items_count == 100,
            config.time_overall == 10,
            config.current_algorithm_name@ == "merge_sort"@,
    {
        let default_algorithm = String::from_str("merge_sort");
        Self { items_count: MAX_ITEMS, time_overall: 10, current_algorithm_name: default_algorithm }
    }
}

/// The configuration of a maze run.
#[derive(Clone, PartialEq, Debug)]
pub struct MazeConfigValues {
    /// The time that the whole animation is to take, in seconds.
    pub time_overall: i32,
    /// The name of the solver.
    pub current_algorithm_name: String,
    /// The width and the height of the maze.
    pub size: usize,
    /// What a click on a cell of the maze puts there.
    pub cell_type: Cell,
    pub current_step: u32,
}

impl MazeConfigValues {
    /// The configuration that a mazer starts with: two seconds, the
    /// depth-first solver, a maze of 35 by 35 cells, clicks that move the
    /// entry.
    pub fn new() -> (config: Self)
        ensures
            config.time_overall == 2,
            config.size == 35,
            config.cell_type == Cell::Entry,
            config.current_algorithm_name@ == "dfs"@,
            config.current_step == 0,
    {
        let default_algorithm = String::from_str("dfs");
        Self {
            time_overall: 2,
            size: 35,
            cell_type: Cell::Entry,
            current_algorithm_name: default_algorithm,
            current_step: 0,
        }
    }
}

} // verus!
