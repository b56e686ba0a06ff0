//! Classification types for the geometry routines.
//!
//! The numeric geometry kernel itself works on IEEE-754 doubles and lives with
//! the host application; the types that classify its answers are plain data
//! and are defined here so that all callers share one vocabulary.

use vstd::prelude::*;

verus! {

/// Orientation of three points around a supplied normal: collinear,
/// clockwise, or counterclockwise.
#[derive(Debug, Clone, Copy, PartialEq, Eq, Structural)]
pub enum Orientation {
    C,
    CW,
    CCW,
}

/// Where on two segments an intersection point falls: strictly inside both
/// segments, or coinciding with one of the four given endpoints.
#[derive(Debug, Clone, Copy, PartialEq, Eq, Structural)]
pub enum IntersectionType {
    Proper,
    Endpoint,
}

} // verus!
