//! One position of the lattice.

use vstd::prelude::*;
use vstd::std_specs::cmp::PartialEqSpecImpl;
use crate::path::Path;

verus! {

/// What a [`Cell`] holds, as mathematical values.
pub struct CellView {
    pub visited: bool,
    pub x: nat,
    pub y: nat,
    pub paths: Seq<Path>,
}

impl CellView {
    /// Whether a passage leaves this cell in direction `p`.
    pub open spec fn opens(self, p: Path) -> bool {
        self.paths.contains(p)
    }

    /// This cell once the walk has reached it.
    pub open spec fn mark(self) -> CellView {
        CellView { visited: true, ..self }
    }

    /// This cell with one more passage, leaving in direction `p`.
    pub open spec fn carve(self, p: Path) -> CellView {
        CellView { paths: self.paths.push(p), ..self }
    }
}

/// A cell of the lattice: its row `x`, its column `y`, whether the walk has
/// reached it, and the directions of the passages carved out of it, in the
/// order in which they were carved.
#[derive(Debug)]
pub struct Cell {
    pub visited: bool,
    pub x: usize,
    pub y: usize,
    pub paths: Vec<Path>,
}

impl View for Cell {
    type V = CellView;

    open spec fn view(&self) -> CellView {
        CellView { visited: self.visited, x: self.x as nat, y: self.y as nat, paths: self.paths@ }
    }
}

impl Cell {
    /// A cell at row `x`, column `y` that the walk has not reached.
    pub fn new(x: usize, y: usize) -> (c: Cell)
        ensures
            c@ == (CellView { visited: false, x: x as nat, y: y as nat, paths: Seq::empty() }),
    {
        Cell { visited: false, x, y, paths: Vec::new() }
    }

    /// Whether a passage leaves this cell in direction `p`.
    pub fn opens(&self, p: Path) -> (r: bool)
        ensures
            r == self@.opens(p),
    {
        let mut i: usize = 0;
        while i < self.paths.len()
            invariant
                i <= self.paths.len(),
                forall|j: int| 0 <= j < i ==> self.paths@[j] != p,
            decreases self.paths.len() - i,
        {
            if self.paths[i] == p {
                return true;
            }
            i += 1;
        }
        false
    }
}

impl Clone for Cell {
    /// A copy that agrees with this cell in every field.
    fn clone(&self) -> (c: Cell)
        ensures
            c@ == self@,
    {
        let mut paths: Vec<Path> = Vec::with_capacity(self.paths.len());
        let mut i: usize = 0;
        while i < self.paths.len()
            invariant
                i <= self.paths.len(),
                paths@ == self.paths@.subrange(0, i as int),
            decreases self.paths.len() - i,
        {
            paths.push(self.paths[i]);
            i += 1;
        }
        assert(paths@ == self.paths@);
        Cell { visited: self.visited, x: self.x, y: self.y, paths }
    }
}

impl PartialEq for Cell {
    /// Two cells are the same cell when they stand at the same position.
    fn eq(&self, other: &Cell) -> (r: bool) {
        self.x == other.x && self.y == other.y
    }
}

impl PartialEqSpecImpl for Cell {
    open spec fn obeys_eq_spec() -> bool {
        true
    }

    open spec fn eq_spec(&self, other: &Cell) -> bool {
        self.x == other.x && self.y == other.y
    }
}

} // verus!
