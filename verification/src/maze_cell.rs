//! A cell as a drawing surface sees it: a position on a lattice of squares
//! and one flag.

use vstd::prelude::*;
use vstd::std_specs::convert::FromSpecImpl;

verus! {

/// The width of the square of one cell, in pixels.
pub const MAZE_CELL_WIDTH: i32 = 10;

/// The height of the square of one cell, in pixels.
pub const MAZE_CELL_HEIGHT: i32 = 10;

/// A square of the drawing lattice: column `x`, row `y`, and whether the walk
/// has reached the cell that it shows.
#[derive(Clone, Copy, PartialEq, Eq, Debug, Structural)]
pub struct MazeCell {
    pub x: i16,
    pub y: i16,
    pub visited: bool,
}

/// A rectangle in pixels: its left and top edge, its width and its height.
#[derive(Clone, Copy, PartialEq, Eq, Debug, Structural)]
pub struct PixelRect {
    pub left: i32,
    pub top: i32,
    pub width: i32,
    pub height: i32,
}

impl MazeCell {
    /// The square at column `x`, row `y` with the given flag.
    pub fn new(x: i16, y: i16, visited: bool) -> (c: MazeCell)
        ensures
            c == (MazeCell { x, y, visited }),
    {
        Self { x, y, visited }
    }

    /// The pixels that this square covers: its column and row scaled by the
    /// size of a square.
    pub fn rect(self) -> (r: PixelRect)
        ensures
            r.left == self.x * MAZE_CELL_WIDTH,
            r.top == self.y * MAZE_CELL_HEIGHT,
            r.width == MAZE_CELL_WIDTH,
            r.height == MAZE_CELL_HEIGHT,
    {
        PixelRect {
            left: self.x as i32 * MAZE_CELL_WIDTH,
            top: self.y as i32 * MAZE_CELL_HEIGHT,
            width: MAZE_CELL_WIDTH,
            height: MAZE_CELL_HEIGHT,
        }
    }
}

impl From<(i16, i16)> for MazeCell {
    /// The unvisited square at the given column and row.
    fn from(value: (i16, i16)) -> (c: MazeCell) {
        MazeCell { x: value.0, y: value.1, visited: false }
    }
}

impl FromSpecImpl<(i16, i16)> for MazeCell {
    open spec fn obeys_from_spec() -> bool {
        true
    }

    open spec fn from_spec(value: (i16, i16)) -> MazeCell {
        MazeCell { x: value.0, y: value.1, visited: false }
    }
}

} // verus!
