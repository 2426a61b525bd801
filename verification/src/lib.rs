//! Perfect mazes carved by a randomized depth-first walk with backtracking.
//!
//! A [`Maze`] owns a rectangular lattice of [`Cell`]s together with the
//! backtracking stack of the walk. One call of [`Maze::advance`] performs one
//! transition of the walk; the abstract machine that it follows, and the facts
//! proved about that machine, live in the `model`, `walk` and `laws` modules.
//!
//! Three conventions hold throughout:
//!
//! - A passage is recorded once, on the cell that it was carved out of, as
//!   the direction in which it leaves that cell.
//! - The walk enters the lattice at row 0, column 0 with its first step, and
//!   it is over when the stack has emptied again. Every cell is thus put on
//!   the stack once and taken off it once, and a lattice of `n` cells is
//!   complete after `2 * n` steps, whatever the choices were.
//! - Where a step has to choose between several unvisited neighbours, they
//!   are numbered in the order up, down, left, right.

pub mod cell;
pub mod counting;
pub mod laws;
pub mod maze;
pub mod maze_cell;
pub mod model;
pub mod path;
mod rng;
pub mod walk;

pub use cell::{Cell, CellView};
pub use maze::{Maze, MazeError};
pub use maze_cell::{MazeCell, PixelRect};
pub use model::{MazeView, Shade, Step};
pub use path::Path;
