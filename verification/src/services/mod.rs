//! The playback engine and the two runs that it drives: the sorter and the
//! mazer.

pub mod playable;
pub mod sorter;
pub mod maze_generator;
pub mod mazer;
pub mod chambers;
pub mod marks;
pub mod single_walks;
