//! Instrumented algorithms and the playback engine of an algorithm
//! visualizer.
//!
//! A sorting algorithm or a maze solver runs once to completion and records
//! every atomic change that it makes in a step log. A playback engine then
//! rebuilds the state at any step from the initial snapshot and a prefix of
//! that log.

pub mod config;
pub mod coords;
pub mod grid;
pub mod helpers;
pub mod maze_solver_algorithms;
pub mod order;
pub mod services;
pub mod slices;
pub mod sorting_algorithms;
pub mod steps;
pub mod text;
