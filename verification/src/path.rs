//! The four directions in which a passage can leave a cell.

use vstd::prelude::*;

verus! {

/// A direction on the lattice. Rows grow downwards and columns grow to the
/// right, so `Up` leads to the previous row and `Left` to the previous column.
#[derive(Debug, Clone, Copy, PartialEq, Eq, Structural)]
pub enum Path {
    Left,
    Right,
    Up,
    Down,
}

impl Path {
    /// The position one step away from row `x`, column `y` in this direction.
    pub open spec fn target(self, x: int, y: int) -> (int, int) {
        match self {
            Path::Up => (x - 1, y),
            Path::Down => (x + 1, y),
            Path::Left => (x, y - 1),
            Path::Right => (x, y + 1),
        }
    }

    /// Steps from row `x`, column `y` in this direction, as far as the result
    /// is a position that `usize` can hold.
    pub fn neighbour(self, x: usize, y: usize) -> (r: Option<(usize, usize)>)
        ensures
            match r {
                Some(p) => (p.0 as int, p.1 as int) == self.target(x as int, y as int),
                None => self.target(x as int, y as int).0 < 0
                    || self.target(x as int, y as int).1 < 0
                    || self.target(x as int, y as int).0 > usize::MAX
                    || self.target(x as int, y as int).1 > usize::MAX,
            },
    {
        match self {
            Path::Up => if x == 0 { None } else { Some((x - 1, y)) },
            Path::Down => if x == usize::MAX { None } else { Some((x + 1, y)) },
            Path::Left => if y == 0 { None } else { Some((x, y - 1)) },
            Path::Right => if y == usize::MAX { None } else { Some((x, y + 1)) },
        }
    }

    /// Where tile `k` of a passage in this direction lies, as a horizontal
    /// and a vertical offset in tiles from the top left tile of the cell
    /// that the passage leaves. The body of a cell is a square of
    /// `path_width` by `path_width` tiles, and a passage is a row of
    /// `path_width` tiles along one of its sides, just outside it.
    pub open spec fn spec_tile(self, k: int, path_width: int) -> (int, int) {
        match self {
            Path::Right => (path_width, k),
            Path::Up => (k, -1),
            Path::Left => (-1, k),
            Path::Down => (k, path_width),
        }
    }

    /// Where tile `k` of a passage in this direction lies: see
    /// [`Path::spec_tile`].
    pub fn tile(self, k: usize, path_width: usize) -> (r: (isize, isize))
        requires
            k < path_width <= isize::MAX,
        ensures
            (r.0 as int, r.1 as int) == self.spec_tile(k as int, path_width as int),
    {
        match self {
            Path::Right => (path_width as isize, k as isize),
            Path::Up => (k as isize, -1),
            Path::Left => (-1, k as isize),
            Path::Down => (k as isize, path_width as isize),
        }
    }

    /// The tiles of a passage lie on the side of the cell towards which the
    /// passage leads: above the body for a passage to the previous row, below
    /// it for one to the next row, and likewise to the left and to the right.
    pub proof fn lemma_tile_faces_target(self, k: int, path_width: int, x: int, y: int)
        requires
            0 <= k < path_width,
        ensures
            ({
                let (px, py) = self.spec_tile(k, path_width);
                let (tx, ty) = self.target(x, y);
                &&& tx < x <==> py < 0
                &&& tx > x <==> py >= path_width
                &&& ty < y <==> px < 0
                &&& ty > y <==> px >= path_width
                &&& tx == x ==> py == k
                &&& ty == y ==> px == k
            }),
    {
    }
}

} // verus!
