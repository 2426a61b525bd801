//! The walk as an abstract machine over mathematical values.
//!
//! A [`MazeView`] is the state of a maze; [`MazeView::step`] is the one
//! transition function of the walk. The executable [`crate::Maze`] follows it
//! step for step, and the `laws` module proves what holds along every run.

use vstd::prelude::*;
use crate::cell::CellView;
use crate::path::Path;

verus! {

/// The transition that one step of the walk performs.
#[derive(Debug, Clone, Copy, PartialEq, Eq, Structural)]
pub enum Step {
    /// The walk entered the lattice at row 0, column 0.
    Begin,
    /// A passage was carved in this direction and the walk moved through it.
    Carve(Path),
    /// The walk left a dead end.
    Backtrack,
    /// The maze was complete already and nothing changed.
    Done,
}

impl Step {
    /// Whether this transition puts a cell on the stack.
    pub open spec fn spec_is_push(self) -> bool {
        self is Begin || self is Carve
    }

    /// Whether this transition takes a cell off the stack.
    pub open spec fn spec_is_pop(self) -> bool {
        self is Backtrack
    }

    /// Whether this transition puts a cell on the stack.
    #[verifier::when_used_as_spec(spec_is_push)]
    pub fn is_push(self) -> (r: bool)
        ensures
            r == self.spec_is_push(),
    {
        match self {
            Step::Begin => true,
            Step::Carve(_) => true,
            _ => false,
        }
    }

    /// Whether this transition takes a cell off the stack.
    #[verifier::when_used_as_spec(spec_is_pop)]
    pub fn is_pop(self) -> (r: bool)
        ensures
            r == self.spec_is_pop(),
    {
        match self {
            Step::Backtrack => true,
            _ => false,
        }
    }
}

/// How a cell stands in the walk, for whoever draws it.
#[derive(Debug, Clone, Copy, PartialEq, Eq, Structural)]
pub enum Shade {
    /// The cell is the frontier of the walk.
    Current,
    /// The walk has reached the cell.
    Visited,
    /// The walk has not reached the cell.
    Unvisited,
}

/// The number of cells in `cells` that the walk has reached.
pub open spec fn visited_in(cells: Seq<CellView>) -> nat
    decreases cells.len(),
{
    if cells.len() == 0 {
        0
    } else {
        visited_in(cells.drop_last()) + if cells.last().visited { 1nat } else { 0nat }
    }
}

/// The number of passages recorded in `cells`. A passage is recorded once, on
/// the cell that it was carved out of.
pub open spec fn passages_in(cells: Seq<CellView>) -> nat
    decreases cells.len(),
{
    if cells.len() == 0 {
        0
    } else {
        passages_in(cells.drop_last()) + cells.last().paths.len()
    }
}

/// The state of a maze: a lattice of `height` rows and `width` columns, stored
/// row by row, and the stack of the walk, oldest position first.
pub struct MazeView {
    pub width: nat,
    pub height: nat,
    pub path_width: nat,
    pub cells: Seq<CellView>,
    pub stack: Seq<(int, int)>,
}

impl MazeView {
    /// The untouched lattice of the given dimensions: no cell reached, no
    /// passage carved, the stack empty.
    pub open spec fn fresh(width: nat, height: nat, path_width: nat) -> MazeView {
        MazeView {
            width,
            height,
            path_width,
            cells: Seq::new(
                width * height,
                |i: int|
                    CellView {
                        visited: false,
                        x: (i / width as int) as nat,
                        y: (i % width as int) as nat,
                        paths: Seq::empty(),
                    },
            ),
            stack: Seq::empty(),
        }
    }

    /// The number of cells of the lattice.
    pub open spec fn size(self) -> nat {
        self.width * self.height
    }

    /// Whether row `x`, column `y` lies on the lattice.
    pub open spec fn in_bounds(self, x: int, y: int) -> bool {
        0 <= x < self.height && 0 <= y < self.width
    }

    /// Where the cell at row `x`, column `y` is stored.
    pub open spec fn index_of(self, x: int, y: int) -> int {
        x * self.width + y
    }

    /// The cell at row `x`, column `y`.
    pub open spec fn cell(self, x: int, y: int) -> CellView {
        self.cells[self.index_of(x, y)]
    }

    /// What every maze satisfies: both dimensions are positive, there is one
    /// cell per position, and the stack holds positions of the lattice.
    pub open spec fn wf(self) -> bool {
        &&& self.width >= 1
        &&& self.height >= 1
        &&& self.cells.len() == self.width * self.height
        &&& forall|i: int|
            0 <= i < self.stack.len() ==> self.in_bounds(
                (#[trigger] self.stack[i]).0,
                self.stack[i].1,
            )
    }

    /// The cell at row `x`, column `y`, if that position lies on the lattice.
    pub open spec fn get(self, x: int, y: int) -> Option<CellView> {
        if self.in_bounds(x, y) {
            Some(self.cell(x, y))
        } else {
            None
        }
    }

    /// This maze with the cell at row `x`, column `y` replaced by `c`; the
    /// same maze if that position lies off the lattice.
    pub open spec fn set(self, x: int, y: int, c: CellView) -> MazeView {
        if self.in_bounds(x, y) {
            MazeView { cells: self.cells.update(self.index_of(x, y), c), ..self }
        } else {
            self
        }
    }

    /// Whether row `x`, column `y` lies on the lattice and the walk has not
    /// reached it.
    pub open spec fn unvisited(self, x: int, y: int) -> bool {
        self.in_bounds(x, y) && !self.cell(x, y).visited
    }

    /// Whether the walk may move from row `x`, column `y` in direction `p`.
    pub open spec fn can_go(self, x: int, y: int, p: Path) -> bool {
        self.unvisited(p.target(x, y).0, p.target(x, y).1)
    }

    /// `p` alone if the walk may move from row `x`, column `y` in direction
    /// `p`, and nothing otherwise.
    pub open spec fn candidate(self, x: int, y: int, p: Path) -> Seq<Path> {
        if self.can_go(x, y, p) {
            seq![p]
        } else {
            Seq::empty()
        }
    }

    /// The directions in which the walk may move from row `x`, column `y`, in
    /// the order up, down, left, right.
    pub open spec fn candidates(self, x: int, y: int) -> Seq<Path> {
        self.candidate(x, y, Path::Up) + self.candidate(x, y, Path::Down) + self.candidate(
            x,
            y,
            Path::Left,
        ) + self.candidate(x, y, Path::Right)
    }

    /// The number of cells that the walk has reached.
    pub open spec fn visited_count(self) -> nat {
        visited_in(self.cells)
    }

    /// The number of passages carved so far.
    pub open spec fn passages(self) -> nat {
        passages_in(self.cells)
    }

    /// Whether the walk has reached every cell.
    pub open spec fn all_visited(self) -> bool {
        self.visited_count() == self.cells.len()
    }

    /// Whether the walk is over: every cell reached and the stack empty.
    pub open spec fn is_complete(self) -> bool {
        self.stack.len() == 0 && self.all_visited()
    }

    /// The position from which the next step starts: the top of the stack.
    pub open spec fn frontier(self) -> Option<(int, int)> {
        if self.stack.len() > 0 {
            Some(self.stack.last())
        } else {
            None
        }
    }

    /// How the cell `c` stands in the walk: as the frontier if it stands at
    /// the frontier's position, and else by its own flag.
    pub open spec fn shade(self, c: CellView) -> Shade {
        if self.frontier() == Some((c.x as int, c.y as int)) {
            Shade::Current
        } else if c.visited {
            Shade::Visited
        } else {
            Shade::Unvisited
        }
    }

    /// The number of directions between which the next step has to choose.
    pub open spec fn choices(self) -> nat {
        match self.frontier() {
            Some(p) => self.candidates(p.0, p.1).len(),
            None => 0,
        }
    }

    /// This maze after the walk has entered row `x`, column `y`: the cell is
    /// marked and its position is on top of the stack.
    pub open spec fn enter(self, x: int, y: int) -> MazeView {
        MazeView { stack: self.stack.push((x, y)), ..self.set(x, y, self.cell(x, y).mark()) }
    }

    /// This maze with a passage recorded on the cell at row `x`, column `y`,
    /// leaving in direction `p`.
    pub open spec fn open_passage(self, x: int, y: int, p: Path) -> MazeView {
        self.set(x, y, self.cell(x, y).carve(p))
    }

    /// This maze after a passage was carved from the frontier in direction
    /// `p` and the walk moved through it.
    pub open spec fn carve(self, p: Path) -> MazeView {
        let (x, y) = self.stack.last();
        let (nx, ny) = p.target(x, y);
        self.open_passage(x, y, p).enter(nx, ny)
    }

    /// This maze after the walk has left its frontier.
    pub open spec fn backtrack(self) -> MazeView {
        MazeView { stack: self.stack.drop_last(), ..self }
    }

    /// The direction that `choice` selects among the candidates `c`: the
    /// candidate at index `choice` modulo the number of candidates.
    pub open spec fn pick(c: Seq<Path>, choice: nat) -> Path {
        c[(choice % c.len()) as int]
    }

    /// The transition that the next step performs when its choice is
    /// `choice`.
    pub open spec fn step_kind(self, choice: nat) -> Step {
        if self.is_complete() {
            Step::Done
        } else if self.stack.len() == 0 {
            Step::Begin
        } else {
            let (x, y) = self.stack.last();
            let c = self.candidates(x, y);
            if c.len() == 0 {
                Step::Backtrack
            } else {
                Step::Carve(Self::pick(c, choice))
            }
        }
    }

    /// The maze after one step of the walk whose choice is `choice`.
    ///
    /// A complete maze stays as it is. With an empty stack the walk enters
    /// the lattice at row 0, column 0. Otherwise it looks at the unvisited
    /// neighbours of its frontier: if there is none it backtracks, and else it
    /// carves towards the one that `choice` selects.
    pub open spec fn step(self, choice: nat) -> MazeView {
        match self.step_kind(choice) {
            Step::Done => self,
            Step::Begin => self.enter(0, 0),
            Step::Backtrack => self.backtrack(),
            Step::Carve(p) => self.carve(p),
        }
    }

    /// The maze after one step per element of `choices`, taken in order.
    pub open spec fn run(self, choices: Seq<nat>) -> MazeView
        decreases choices.len(),
    {
        if choices.len() == 0 {
            self
        } else {
            self.run(choices.drop_last()).step(choices.last())
        }
    }

    /// How many of the steps of [`Self::run`] put a cell on the stack.
    pub open spec fn pushes(self, choices: Seq<nat>) -> nat
        decreases choices.len(),
    {
        if choices.len() == 0 {
            0
        } else {
            self.pushes(choices.drop_last()) + if self.run(choices.drop_last()).step_kind(
                choices.last(),
            ).spec_is_push() {
                1nat
            } else {
                0nat
            }
        }
    }

    /// How many of the steps of [`Self::run`] take a cell off the stack.
    pub open spec fn pops(self, choices: Seq<nat>) -> nat
        decreases choices.len(),
    {
        if choices.len() == 0 {
            0
        } else {
            self.pops(choices.drop_last()) + if self.run(choices.drop_last()).step_kind(
                choices.last(),
            ).spec_is_pop() {
                1nat
            } else {
                0nat
            }
        }
    }

    /// The number of steps that separate this maze from completion: two for
    /// each cell still to reach, one for each position on the stack.
    pub open spec fn remaining(self) -> int {
        2 * (self.cells.len() - self.visited_count()) + self.stack.len()
    }
}

} // verus!
