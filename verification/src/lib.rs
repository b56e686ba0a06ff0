//! Small shared utility library: classification types for a numeric geometry
//! kernel, generic sequence helpers, a cached shortest-path wrapper over a
//! caller-described graph, and a wall-clock timing helper.

pub mod geom;
pub mod graph;
pub mod math;
pub mod timer;
