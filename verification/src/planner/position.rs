//! A position as the planner sees it.
//!
//! The planner has a type of its own for it: it plans moves of any source, not
//! of G-code alone.
use vstd::prelude::*;
use crate::double::Double;

verus! {

/// A position in millimeters.
#[derive(Debug, Clone, Copy, PartialEq)]
pub struct Position {
    pub x: Double,
    pub y: Double,
    pub z: Double,
}

impl Position {
    /// All coordinates zero.
    pub open spec fn origin() -> Position {
        Position { x: Double::nought(), y: Double::nought(), z: Double::nought() }
    }
}

impl Default for Position {
    fn default() -> (position: Position)
        ensures
            position == Position::origin(),
    {
        Position { x: Double::zeroed(), y: Double::zeroed(), z: Double::zeroed() }
    }
}

} // verus!
