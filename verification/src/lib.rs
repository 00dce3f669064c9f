//! Procedurally assembled music: a catalog of songs made of interchangeable
//! segments, the graph of transitions between the segments of a song, a planner
//! that walks the graph into one playthrough, and a bounded repeat of one
//! decoded segment.

pub mod catalog;
pub mod errors;
pub mod graph;
pub mod planner;
pub mod playback;
pub mod repeat;
pub mod segment;
pub mod song;
pub mod text;
