//! A single cell of the maze.

use vstd::prelude::*;

verus! {

/// Represents a single room or cell in the maze, with simple booleans for the
/// walls.
#[derive(Debug, Clone, PartialEq, Eq)]
pub struct Cell {
    pub visited: bool,
    /// North, East, South, West.
    pub walls: [bool; 4],
    /// Rare anomaly: red room.
    pub is_red: bool,
    /// Rare anomaly: pitch-black room.
    pub is_dark: bool,
    /// Pre-calculated baked light (0-15).
    pub light_level: u8,
}

impl Cell {
    /// Creates a new, unvisited cell with all walls intact and no anomalies.
    pub fn new() -> (cell: Self)
        ensures
            !cell.visited,
            cell.walls@ == seq![true, true, true, true],
            !cell.is_red,
            !cell.is_dark,
            cell.light_level == 0,
    {
        Cell {
            visited: false,
            walls: [true, true, true, true],
            is_red: false,
            is_dark: false,
            light_level: 0,
        }
    }
}

} // verus!
