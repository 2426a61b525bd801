//! The maze itself: the lattice, the stack of the walk, and the operations
//! that read and advance them.

use vstd::prelude::*;
use crate::cell::Cell;
use crate::counting::{
    lemma_index_in_range,
    lemma_index_split,
    lemma_visited_bound,
    lemma_visited_none,
    lemma_visited_update,
};
use crate::laws::lemma_fresh_inv;
use crate::model::{MazeView, Shade, Step};
use crate::path::Path;
use crate::rng::random_below;

verus! {

/// Why a maze could not be built.
#[derive(Debug, Clone, Copy, PartialEq, Eq, Structural)]
pub enum MazeError {
    /// The width or the height was zero.
    InvalidDimensions,
}

/// A rectangular maze in the making.
///
/// The cells are stored row by row. `visited_cells` is the stack of the walk:
/// the positions from the entry of the lattice to the frontier, oldest first.
#[derive(Debug)]
pub struct Maze {
    height: usize,
    width: usize,
    cell_path_width: usize,
    cells: Vec<Cell>,
    visited_cells: Vec<(usize, usize)>,
    visited_count: usize,
}

impl View for Maze {
    type V = MazeView;

    closed spec fn view(&self) -> MazeView {
        MazeView {
            width: self.width as nat,
            height: self.height as nat,
            path_width: self.cell_path_width as nat,
            cells: self.cells@.map_values(|c: Cell| c@),
            stack: self.visited_cells@.map_values(|p: (usize, usize)| (p.0 as int, p.1 as int)),
        }
    }
}

impl Maze {
    /// What holds of every maze that this module hands out: its model is
    /// well formed and the stored count of visited cells is the true one.
    pub closed spec fn wf(&self) -> bool {
        &&& self@.wf()
        &&& self.visited_count == self@.visited_count()
    }

    /// A well-formed maze has a well-formed model whose cells fit in memory.
    pub proof fn lemma_wf(&self)
        requires
            self.wf(),
        ensures
            self@.wf(),
            self@.size() <= usize::MAX,
            self@.width <= usize::MAX,
            self@.height <= usize::MAX,
            self@.path_width <= usize::MAX,
    {
        assert(self@.cells.len() == self.cells.len());
    }

    /// A position of the lattice is stored at an index of the vector of
    /// cells, and the model's cell there is the view of the stored one.
    proof fn lemma_slot(&self, x: int, y: int)
        requires
            self.wf(),
            self@.in_bounds(x, y),
        ensures
            0 <= x * self.width + y < self.cells.len(),
            x * self.width + y == self@.index_of(x, y),
            self@.cells.len() == self.cells.len(),
            self@.cell(x, y) == self.cells[x * self.width + y]@,
    {
        lemma_index_in_range(self@.width, self@.height, x, y);
    }

    /// Builds the untouched lattice of `height` rows and `width` columns.
    ///
    /// `cell_path_width` is the thickness of a passage in tiles; the walk
    /// never reads it, it is kept for whoever draws the maze.
    pub fn new(width: usize, height: usize, cell_path_width: usize) -> (r: Result<Maze, MazeError>)
        requires
            width * height <= usize::MAX,
        ensures
            r is Err <==> width == 0 || height == 0,
            r matches Err(e) ==> e == MazeError::InvalidDimensions,
            r matches Ok(m) ==> m.wf() && m@.inv() && m@ == MazeView::fresh(
                width as nat,
                height as nat,
                cell_path_width as nat,
            ),
    {
        if width == 0 || height == 0 {
            return Err(MazeError::InvalidDimensions);
        }
        let ghost goal = MazeView::fresh(width as nat, height as nat, cell_path_width as nat);
        let mut cells: Vec<Cell> = Vec::new();
        let mut x: usize = 0;
        while x < height
            invariant
                x <= height,
                width >= 1,
                width * height <= usize::MAX,
                goal == MazeView::fresh(width as nat, height as nat, cell_path_width as nat),
                cells@.len() == x * width,
                forall|i: int| 0 <= i < cells@.len() ==> (#[trigger] cells@[i])@ == goal.cells[i],
            decreases height - x,
        {
            let mut y: usize = 0;
            while y < width
                invariant
                    x < height,
                    y <= width,
                    width >= 1,
                    width * height <= usize::MAX,
                    goal == MazeView::fresh(width as nat, height as nat, cell_path_width as nat),
                    cells@.len() == x * width + y,
                    forall|i: int|
                        0 <= i < cells@.len() ==> (#[trigger] cells@[i])@ == goal.cells[i],
                decreases width - y,
            {
                proof {
                    lemma_index_in_range(width as nat, height as nat, x as int, y as int);
                    lemma_index_split(width as nat, x as int, y as int);
                }
                cells.push(Cell::new(x, y));
                y += 1;
            }
            assert(x * width + width == (x + 1) * width) by (nonlinear_arith);
            x += 1;
        }
        assert(cells@.len() == width * height) by (nonlinear_arith)
            requires
                cells@.len() == x * width,
                x == height,
        ;
        let m = Maze {
            height,
            width,
            cell_path_width,
            cells,
            visited_cells: Vec::new(),
            visited_count: 0,
        };
        proof {
            assert(m@.cells =~= goal.cells);
            assert(m@.stack =~= goal.stack);
            lemma_visited_none(m@.cells);
            lemma_fresh_inv(width as nat, height as nat, cell_path_width as nat);
        }
        Ok(m)
    }

    /// The number of columns.
    pub fn width(&self) -> (r: usize)
        ensures
            r == self@.width,
    {
        self.width
    }

    /// The number of rows.
    pub fn height(&self) -> (r: usize)
        ensures
            r == self@.height,
    {
        self.height
    }

    /// The thickness of a passage in tiles, as given to [`Maze::new`].
    pub fn cell_path_width(&self) -> (r: usize)
        ensures
            r == self@.path_width,
    {
        self.cell_path_width
    }

    /// The cells, row by row.
    pub fn cells(&self) -> (r: &Vec<Cell>)
        ensures
            r@.map_values(|c: Cell| c@) == self@.cells,
    {
        &self.cells
    }

    /// The number of cells that the walk has reached.
    pub fn visited_count(&self) -> (r: usize)
        requires
            self.wf(),
        ensures
            r == self@.visited_count(),
    {
        self.visited_count
    }

    /// The number of positions on the stack of the walk.
    pub fn depth(&self) -> (r: usize)
        ensures
            r == self@.stack.len(),
    {
        self.visited_cells.len()
    }

    /// The position from which the next step starts, if the stack holds one.
    pub fn current(&self) -> (r: Option<(usize, usize)>)
        ensures
            match r {
                Some(p) => self@.frontier() == Some((p.0 as int, p.1 as int)),
                None => self@.frontier() is None,
            },
    {
        let n = self.visited_cells.len();
        if n == 0 {
            None
        } else {
            Some(self.visited_cells[n - 1])
        }
    }

    /// How `cell` stands in the walk: as the frontier if it stands at the
    /// frontier's position, and else by its own flag.
    pub fn shade(&self, cell: &Cell) -> (r: Shade)
        ensures
            r == self@.shade(cell@),
    {
        match self.current() {
            Some((x, y)) => {
                if cell.x == x && cell.y == y {
                    return Shade::Current;
                }
            },
            None => {},
        }
        if cell.visited {
            Shade::Visited
        } else {
            Shade::Unvisited
        }
    }

    /// Whether the walk is over: every cell reached and the stack empty.
    pub fn is_complete(&self) -> (r: bool)
        requires
            self.wf(),
        ensures
            r == self@.is_complete(),
    {
        self.visited_cells.len() == 0 && self.visited_count == self.cells.len()
    }

    /// A copy of the cell at row `x`, column `y`, or `None` if that position
    /// lies off the lattice.
    pub fn get_cell(&self, x: usize, y: usize) -> (r: Option<Cell>)
        requires
            self.wf(),
        ensures
            match r {
                Some(c) => self@.get(x as int, y as int) == Some(c@),
                None => self@.get(x as int, y as int) is None,
            },
    {
        if x < self.height && y < self.width {
            proof {
                self.lemma_slot(x as int, y as int);
            }
            let idx = x * self.width + y;
            Some(self.cells[idx].clone())
        } else {
            None
        }
    }

    /// Replaces the cell at row `x`, column `y` by `value`; does nothing if
    /// that position lies off the lattice. No other cell changes, nor does
    /// the stack.
    pub fn set_cell(&mut self, x: usize, y: usize, value: Cell)
        requires
            old(self).wf(),
        ensures
            final(self).wf(),
            final(self)@ == old(self)@.set(x as int, y as int, value@),
    {
        if x < self.height && y < self.width {
            proof {
                self.lemma_slot(x as int, y as int);
                lemma_visited_update(self@.cells, x * self.width + y, value@);
                lemma_visited_bound(self@.cells.update(x * self.width + y, value@));
            }
            let idx = x * self.width + y;
            let was = self.cells[idx].visited;
            let now = value.visited;
            self.cells.set(idx, value);
            if was && !now {
                self.visited_count = self.visited_count - 1;
            } else if !was && now {
                self.visited_count = self.visited_count + 1;
            }
            assert(self@.cells =~= old(self)@.cells.update(idx as int, value@));
            assert(self@.stack == old(self)@.stack);
        }
    }

    /// Whether row `x`, column `y` lies on the lattice and the walk has not
    /// reached it.
    pub fn is_unvisited(&self, x: usize, y: usize) -> (r: bool)
        requires
            self.wf(),
        ensures
            r == self@.unvisited(x as int, y as int),
    {
        if x < self.height && y < self.width {
            proof {
                self.lemma_slot(x as int, y as int);
            }
            !self.cells[x * self.width + y].visited
        } else {
            false
        }
    }

    /// Whether the walk may move from row `x`, column `y` in direction `p`.
    pub fn can_go(&self, x: usize, y: usize, p: Path) -> (r: bool)
        requires
            self.wf(),
        ensures
            r == self@.can_go(x as int, y as int, p),
    {
        match p.neighbour(x, y) {
            Some((nx, ny)) => self.is_unvisited(nx, ny),
            None => false,
        }
    }

    /// The directions in which the walk may move from row `x`, column `y`:
    /// those that lead to a cell of the lattice that it has not reached, in
    /// the order up, down, left, right.
    pub fn candidates(&self, x: usize, y: usize) -> (r: Vec<Path>)
        requires
            self.wf(),
        ensures
            r@ == self@.candidates(x as int, y as int),
    {
        let mut found: Vec<Path> = Vec::new();
        if self.can_go(x, y, Path::Up) {
            found.push(Path::Up);
        }
        if self.can_go(x, y, Path::Down) {
            found.push(Path::Down);
        }
        if self.can_go(x, y, Path::Left) {
            found.push(Path::Left);
        }
        if self.can_go(x, y, Path::Right) {
            found.push(Path::Right);
        }
        found
    }

    /// The neighbour of row `x`, column `y` that `choice` selects among the
    /// unvisited ones, with the direction that leads to it; `None` if every
    /// neighbour is visited or off the lattice.
    ///
    /// The candidates are numbered from 0 in the order up, down, left, right,
    /// and `choice` counts modulo their number.
    pub fn select_cell(&self, x: usize, y: usize, choice: usize) -> (r: Option<(Cell, Path)>)
        requires
            self.wf(),
        ensures
            match r {
                None => self@.candidates(x as int, y as int).len() == 0,
                Some((c, p)) => {
                    let found = self@.candidates(x as int, y as int);
                    &&& found.len() > 0
                    &&& p == MazeView::pick(found, choice as nat)
                    &&& self@.can_go(x as int, y as int, p)
                    &&& c@ == self@.cell(p.target(x as int, y as int).0, p.target(x as int, y as int).1)
                },
            },
    {
        let found = self.candidates(x, y);
        if found.len() == 0 {
            return None;
        }
        let p = found[choice % found.len()];
        proof {
            self@.lemma_candidates(x as int, y as int);
        }
        match p.neighbour(x, y) {
            Some((nx, ny)) => match self.get_cell(nx, ny) {
                Some(c) => Some((c, p)),
                None => None,
            },
            None => None,
        }
    }

    /// A neighbour of row `x`, column `y` drawn uniformly among the unvisited
    /// ones, with the direction that leads to it; `None` if every neighbour
    /// is visited or off the lattice.
    ///
    /// Which candidate comes back is up to the random draw: the result is
    /// what [`Maze::select_cell`] returns for some choice below the number of
    /// candidates.
    pub fn get_random_cell(&self, x: usize, y: usize) -> (r: Option<(Cell, Path)>)
        requires
            self.wf(),
        ensures
            match r {
                None => self@.candidates(x as int, y as int).len() == 0,
                Some((c, p)) => {
                    &&& self@.candidates(x as int, y as int).contains(p)
                    &&& self@.can_go(x as int, y as int, p)
                    &&& c@ == self@.cell(p.target(x as int, y as int).0, p.target(x as int, y as int).1)
                },
            },
    {
        let found = self.candidates(x, y);
        if found.len() == 0 {
            return None;
        }
        let choice = random_below(found.len());
        self.select_cell(x, y, choice)
    }

    /// Records a passage on the cell at row `x`, column `y`, leaving in
    /// direction `p`.
    fn open_passage(&mut self, x: usize, y: usize, p: Path)
        requires
            old(self).wf(),
            old(self)@.in_bounds(x as int, y as int),
        ensures
            final(self).wf(),
            final(self)@ == old(self)@.open_passage(x as int, y as int, p),
    {
        proof {
            self.lemma_slot(x as int, y as int);
            lemma_visited_update(
                self@.cells,
                x * self.width + y,
                self@.cell(x as int, y as int).carve(p),
            );
        }
        let idx = x * self.width + y;
        self.cells[idx].paths.push(p);
        assert(self@.cells =~= old(self)@.cells.update(
            idx as int,
            old(self)@.cell(x as int, y as int).carve(p),
        ));
        assert(self@.stack == old(self)@.stack);
    }

    /// Marks the cell at row `x`, column `y` as visited and puts its position
    /// on the stack.
    fn enter(&mut self, x: usize, y: usize)
        requires
            old(self).wf(),
            old(self)@.in_bounds(x as int, y as int),
        ensures
            final(self).wf(),
            final(self)@ == old(self)@.enter(x as int, y as int),
    {
        proof {
            self.lemma_slot(x as int, y as int);
            lemma_visited_update(
                self@.cells,
                x * self.width + y,
                self@.cell(x as int, y as int).mark(),
            );
            lemma_visited_bound(
                self@.cells.update(x * self.width + y, self@.cell(x as int, y as int).mark()),
            );
        }
        let idx = x * self.width + y;
        if !self.cells[idx].visited {
            self.cells[idx].visited = true;
            self.visited_count = self.visited_count + 1;
        }
        self.visited_cells.push((x, y));
        assert(self@.cells =~= old(self)@.cells.update(
            idx as int,
            old(self)@.cell(x as int, y as int).mark(),
        ));
        assert(self@.stack =~= old(self)@.stack.push((x as int, y as int)));
    }

    /// Performs one step of the walk, with `choice` deciding between the
    /// candidates where there are several, and says which transition it was.
    ///
    /// A complete maze is left as it is. With an empty stack the walk enters
    /// the lattice at row 0, column 0. Otherwise the unvisited neighbours of
    /// the frontier are numbered from 0 in the order up, down, left, right:
    /// if there is none the frontier leaves the stack, and else a passage is
    /// carved towards the one numbered `choice` modulo their number, which is
    /// marked as visited and becomes the frontier.
    pub fn advance_with(&mut self, choice: usize) -> (r: Step)
        requires
            old(self).wf(),
        ensures
            final(self).wf(),
            r == old(self)@.step_kind(choice as nat),
            final(self)@ == old(self)@.step(choice as nat),
            old(self)@.inv() ==> final(self)@.inv(),
    {
        proof {
            self.lemma_wf();
            if self@.inv() {
                self@.lemma_step_keeps_inv(choice as nat);
            }
        }
        if self.is_complete() {
            return Step::Done;
        }
        let n = self.visited_cells.len();
        if n == 0 {
            self.enter(0, 0);
            return Step::Begin;
        }
        let (x, y) = self.visited_cells[n - 1];
        let found = self.candidates(x, y);
        if found.len() == 0 {
            self.visited_cells.pop();
            assert(self@.stack =~= old(self)@.stack.drop_last());
            return Step::Backtrack;
        }
        let p = found[choice % found.len()];
        proof {
            self@.lemma_candidates(x as int, y as int);
        }
        match p.neighbour(x, y) {
            Some((nx, ny)) => {
                self.open_passage(x, y, p);
                self.enter(nx, ny);
            },
            None => {},
        }
        Step::Carve(p)
    }

    /// The number of directions between which the next step has to choose:
    /// the number of unvisited neighbours of the frontier, and zero where the
    /// stack is empty.
    pub fn choices(&self) -> (r: usize)
        requires
            self.wf(),
        ensures
            r == self@.choices(),
    {
        match self.current() {
            Some((x, y)) => self.candidates(x, y).len(),
            None => 0,
        }
    }

    /// Performs one step of the walk, drawing the choice between several
    /// candidates uniformly at random, and says which transition it was.
    ///
    /// The step is the one that [`Maze::advance_with`] performs for some
    /// choice below the number of candidates.
    pub fn advance(&mut self) -> (r: Step)
        requires
            old(self).wf(),
        ensures
            final(self).wf(),
            exists|choice: nat|
                {
                    &&& choice < old(self)@.choices() || choice == 0
                    &&& r == #[trigger] old(self)@.step_kind(choice)
                    &&& final(self)@ == old(self)@.step(choice)
                },
            old(self)@.inv() ==> final(self)@.inv(),
    {
        let n = self.choices();
        let choice = if n > 0 {
            random_below(n)
        } else {
            0
        };
        self.advance_with(choice)
    }

    /// Performs one step of the walk per element of `choices`, in order, each
    /// as [`Maze::advance_with`] does: the same maze and the same choices
    /// always give the same result.
    pub fn replay(&mut self, choices: &[usize])
        requires
            old(self).wf(),
        ensures
            final(self).wf(),
            final(self)@ == old(self)@.run(choices@.map_values(|c: usize| c as nat)),
            old(self)@.inv() ==> final(self)@.inv(),
    {
        let ghost script = choices@.map_values(|c: usize| c as nat);
        let mut i: usize = 0;
        while i < choices.len()
            invariant
                i <= choices.len(),
                script == choices@.map_values(|c: usize| c as nat),
                self.wf(),
                self@ == old(self)@.run(script.subrange(0, i as int)),
                old(self)@.inv() ==> self@.inv(),
            decreases choices.len() - i,
        {
            proof {
                let next = script.subrange(0, i + 1);
                assert(next.drop_last() =~= script.subrange(0, i as int));
            }
            self.advance_with(choices[i]);
            i += 1;
        }
        assert(script.subrange(0, i as int) =~= script);
    }
}

} // verus!
