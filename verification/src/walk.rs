//! What holds of a maze at every moment of a walk that started on an
//! untouched lattice, and the proof that each step keeps it.

use vstd::prelude::*;
use crate::cell::CellView;
use crate::counting::{
    lemma_index_unsplit,
    lemma_passages_update,
    lemma_visited_all,
    lemma_visited_bound,
    lemma_visited_none,
    lemma_visited_update,
};
use crate::model::{MazeView, Step};
use crate::path::Path;

verus! {

impl MazeView {
    /// Whether a passage leaves the cell at row `x`, column `y` in direction
    /// `p`.
    pub open spec fn passage(self, x: int, y: int, p: Path) -> bool {
        self.in_bounds(x, y) && self.cell(x, y).opens(p)
    }

    /// Whether a passage leads from position `a` to position `b`.
    pub open spec fn linked(self, a: (int, int), b: (int, int)) -> bool {
        exists|p: Path| #[trigger] self.passage(a.0, a.1, p) && p.target(a.0, a.1) == b
    }

    /// Whether `w` is a walk through passages that starts at row 0, column 0
    /// and stays on the lattice.
    pub open spec fn is_walk(self, w: Seq<(int, int)>) -> bool {
        &&& w.len() > 0
        &&& w[0] == (0int, 0int)
        &&& forall|i: int| 0 <= i < w.len() ==> self.in_bounds((#[trigger] w[i]).0, w[i].1)
        &&& forall|i: int| 0 < i < w.len() ==> self.linked(w[i - 1], #[trigger] w[i])
    }

    /// Whether a walk through passages leads from row 0, column 0 to row `x`,
    /// column `y`.
    pub open spec fn reachable(self, x: int, y: int) -> bool {
        exists|w: Seq<(int, int)>| #[trigger] self.is_walk(w) && w.last() == (x, y)
    }

    /// Whether some passage leads into row `x`, column `y`.
    pub open spec fn entered(self, x: int, y: int) -> bool {
        exists|a: int, b: int, p: Path| #[trigger] self.passage(a, b, p) && p.target(a, b) == (x, y)
    }

    /// Whether row `x`, column `y` is on the stack of the walk.
    pub open spec fn on_stack(self, x: int, y: int) -> bool {
        self.stack.contains((x, y))
    }

    /// Whether the cell at row `x`, column `y` is in order: it knows its own
    /// position, it lists no direction twice, and each of its passages leaves
    /// a visited cell and ends in a visited cell of the lattice.
    pub open spec fn cell_ok(self, x: int, y: int) -> bool {
        let c = self.cell(x, y);
        &&& c.x == x
        &&& c.y == y
        &&& c.paths.no_duplicates()
        &&& forall|p: Path| #[trigger]
            c.opens(p) ==> c.visited && self.in_bounds(p.target(x, y).0, p.target(x, y).1)
                && self.cell(p.target(x, y).0, p.target(x, y).1).visited
    }

    /// Whether every cell is in order.
    pub open spec fn cells_ok(self) -> bool {
        forall|x: int, y: int| self.in_bounds(x, y) ==> #[trigger] self.cell_ok(x, y)
    }

    /// Whether the stack is the path of the walk: empty, or a walk through
    /// passages from row 0, column 0 to the frontier over visited cells.
    pub open spec fn stack_ok(self) -> bool {
        &&& self.stack.len() > 0 ==> self.is_walk(self.stack)
        &&& forall|i: int|
            0 <= i < self.stack.len() ==> self.cell(
                (#[trigger] self.stack[i]).0,
                self.stack[i].1,
            ).visited
    }

    /// Whether the walk is done with every cell that it has left: a visited
    /// cell that is not on the stack has no unvisited neighbour.
    pub open spec fn settled(self) -> bool {
        forall|x: int, y: int, p: Path|
            self.in_bounds(x, y) && self.cell(x, y).visited && !self.on_stack(x, y)
                ==> !#[trigger] self.can_go(x, y, p)
    }

    /// Whether every visited cell can be reached from row 0, column 0, which
    /// is then visited itself.
    pub open spec fn rooted(self) -> bool {
        forall|x: int, y: int|
            self.in_bounds(x, y) && (#[trigger] self.cell(x, y)).visited ==> self.cell(
                0,
                0,
            ).visited && self.reachable(x, y)
    }

    /// Whether the passages are as many as a tree on the visited cells has
    /// edges: one fewer than the visited cells, and none while no cell is
    /// visited.
    pub open spec fn counted(self) -> bool {
        if self.visited_count() == 0 {
            self.passages() == 0
        } else {
            self.passages() + 1 == self.visited_count()
        }
    }

    /// Whether the passages form a forest: no passage leads into row 0,
    /// column 0, and no two passages lead into the same cell.
    pub open spec fn single_entry(self) -> bool {
        &&& forall|a: int, b: int, p: Path| #[trigger]
            self.passage(a, b, p) ==> p.target(a, b) != (0int, 0int)
        &&& forall|a: int, b: int, p: Path, c: int, d: int, q: Path|
            #[trigger] self.passage(a, b, p) && #[trigger] self.passage(c, d, q) && p.target(a, b)
                == q.target(c, d) ==> a == c && b == d && p == q
    }

    /// The invariant of the walk. It holds of the untouched lattice and every
    /// step keeps it; replacing a cell from outside may break it.
    pub open spec fn inv(self) -> bool {
        &&& self.wf()
        &&& self.cells_ok()
        &&& self.stack_ok()
        &&& self.settled()
        &&& self.rooted()
        &&& self.counted()
        &&& self.single_entry()
    }

    /// A cell other than row 0, column 0 that a walk reaches has a passage
    /// leading into it: the last one of the walk.
    pub proof fn lemma_reachable_is_entered(self, x: int, y: int)
        requires
            self.reachable(x, y),
            (x, y) != (0int, 0int),
        ensures
            self.entered(x, y),
    {
        let w = choose|w: Seq<(int, int)>| #[trigger] self.is_walk(w) && w.last() == (x, y);
        let n = w.len() as int;
        let p = choose|p: Path| #[trigger]
            self.passage(w[n - 2].0, w[n - 2].1, p) && p.target(w[n - 2].0, w[n - 2].1) == w[n
                - 1];
        assert(self.passage(w[n - 2].0, w[n - 2].1, p) && p.target(w[n - 2].0, w[n - 2].1) == (
            x,
            y,
        ));
    }

    /// Replacing the cell at a position of the lattice changes that cell and
    /// no other.
    pub proof fn lemma_set(self, x: int, y: int, c: CellView)
        requires
            self.wf(),
            self.in_bounds(x, y),
        ensures
            self.set(x, y, c).wf(),
            self.set(x, y, c).cell(x, y) == c,
            forall|a: int, b: int|
                self.in_bounds(a, b) && !(a == x && b == y) ==> #[trigger] self.set(x, y, c).cell(
                    a,
                    b,
                ) == self.cell(a, b),
            forall|a: int, b: int| #[trigger] self.set(x, y, c).in_bounds(a, b) == self.in_bounds(a, b),
    {
        self.lemma_positions();
        let after = self.set(x, y, c);
        assert forall|a: int, b: int| self.in_bounds(a, b) && !(a == x && b == y) implies #[trigger]
            after.cell(a, b) == self.cell(a, b) by {}
    }

    /// What entering a position of the lattice changes: the cell there is
    /// marked, its position is on top of the stack, and no other cell changes.
    pub proof fn lemma_enter(self, x: int, y: int)
        requires
            self.wf(),
            self.in_bounds(x, y),
        ensures
            self.enter(x, y).wf(),
            self.enter(x, y).stack == self.stack.push((x, y)),
            self.enter(x, y).cell(x, y) == self.cell(x, y).mark(),
            forall|a: int, b: int|
                self.in_bounds(a, b) && !(a == x && b == y) ==> #[trigger] self.enter(x, y).cell(
                    a,
                    b,
                ) == self.cell(a, b),
            forall|a: int, b: int| #[trigger] self.enter(x, y).in_bounds(a, b) == self.in_bounds(a, b),
            self.enter(x, y).visited_count() == self.visited_count() + if self.cell(x, y).visited {
                0int
            } else {
                1int
            },
            self.enter(x, y).passages() == self.passages(),
    {
        let c = self.cell(x, y).mark();
        self.lemma_set(x, y, c);
        self.lemma_positions();
        let after = self.enter(x, y);
        assert forall|a: int, b: int| self.in_bounds(a, b) && !(a == x && b == y) implies #[trigger]
            after.cell(a, b) == self.cell(a, b) by {}
        assert forall|i: int| 0 <= i < after.stack.len() implies after.in_bounds(
            (#[trigger] after.stack[i]).0,
            after.stack[i].1,
        ) by {}
        lemma_visited_update(self.cells, self.index_of(x, y), c);
        lemma_passages_update(self.cells, self.index_of(x, y), c);
    }

    /// What carving from the frontier changes: the frontier's cell gains the
    /// passage, the cell behind it is marked and becomes the frontier, and no
    /// other cell changes.
    pub proof fn lemma_carve(self, p: Path)
        requires
            self.wf(),
            self.stack.len() > 0,
            self.can_go(self.stack.last().0, self.stack.last().1, p),
        ensures
            self.carve(p).wf(),
            self.carve(p).stack == self.stack.push(p.target(self.stack.last().0, self.stack.last().1)),
            self.carve(p).cell(self.stack.last().0, self.stack.last().1) == self.cell(
                self.stack.last().0,
                self.stack.last().1,
            ).carve(p),
            self.carve(p).cell(
                p.target(self.stack.last().0, self.stack.last().1).0,
                p.target(self.stack.last().0, self.stack.last().1).1,
            ) == self.cell(
                p.target(self.stack.last().0, self.stack.last().1).0,
                p.target(self.stack.last().0, self.stack.last().1).1,
            ).mark(),
            forall|a: int, b: int|
                self.in_bounds(a, b) && (a, b) != self.stack.last() && (a, b) != p.target(
                    self.stack.last().0,
                    self.stack.last().1,
                ) ==> #[trigger] self.carve(p).cell(a, b) == self.cell(a, b),
            forall|a: int, b: int| #[trigger] self.carve(p).in_bounds(a, b) == self.in_bounds(a, b),
            self.carve(p).visited_count() == self.visited_count() + 1,
            self.carve(p).passages() == self.passages() + 1,
    {
        let (x, y) = self.stack.last();
        let (nx, ny) = p.target(x, y);
        let c = self.cell(x, y).carve(p);
        let mid = self.open_passage(x, y, p);
        self.lemma_set(x, y, c);
        mid.lemma_enter(nx, ny);
        let after = self.carve(p);
        assert forall|a: int, b: int|
            self.in_bounds(a, b) && (a, b) != self.stack.last() && (a, b) != p.target(
                self.stack.last().0,
                self.stack.last().1,
            ) implies #[trigger] after.cell(a, b) == self.cell(a, b) by {}
        self.lemma_positions();
        lemma_visited_update(self.cells, self.index_of(x, y), c);
        lemma_passages_update(self.cells, self.index_of(x, y), c);
    }

    /// Whether `after` has the dimensions of this maze, every cell that is
    /// visited here visited there, and every passage of this maze among its
    /// own.
    pub open spec fn grows_to(self, after: MazeView) -> bool {
        &&& after.width == self.width
        &&& after.height == self.height
        &&& after.path_width == self.path_width
        &&& after.cells.len() == self.cells.len()
        &&& forall|a: int, b: int|
            self.in_bounds(a, b) && self.cell(a, b).visited ==> (#[trigger] after.cell(
                a,
                b,
            )).visited
        &&& forall|a: int, b: int, p: Path|
            self.passage(a, b, p) ==> #[trigger] after.passage(a, b, p)
    }

    /// A walk stays a walk when the maze grows.
    pub proof fn lemma_walk_grows(self, after: MazeView, w: Seq<(int, int)>)
        requires
            self.grows_to(after),
            self.is_walk(w),
        ensures
            after.is_walk(w),
    {
        assert forall|i: int| 0 < i < w.len() implies after.linked(w[i - 1], #[trigger] w[i]) by {
            let p = choose|p: Path| #[trigger]
                self.passage(w[i - 1].0, w[i - 1].1, p) && p.target(w[i - 1].0, w[i - 1].1)
                    == w[i];
            assert(after.passage(w[i - 1].0, w[i - 1].1, p));
        }
        assert forall|i: int| 0 <= i < w.len() implies after.in_bounds(
            (#[trigger] w[i]).0,
            w[i].1,
        ) by {}
    }

    /// Once the walk has left every visited cell, the visited cells are all
    /// cells or none: from row 0, column 0 the whole lattice is visited,
    /// neighbour by neighbour.
    pub proof fn lemma_settled_spreads(self, x: int, y: int)
        requires
            self.wf(),
            self.settled(),
            self.stack.len() == 0,
            self.cell(0, 0).visited,
            self.in_bounds(x, y),
        ensures
            self.cell(x, y).visited,
        decreases x + y,
    {
        if y > 0 {
            self.lemma_settled_spreads(x, y - 1);
            assert(!self.can_go(x, y - 1, Path::Right));
        } else if x > 0 {
            self.lemma_settled_spreads(x - 1, y);
            assert(!self.can_go(x - 1, y, Path::Down));
        }
    }

    /// The count of visited cells is zero exactly where no cell of the
    /// lattice is visited, and the number of cells exactly where all are.
    pub proof fn lemma_visited_extremes(self)
        requires
            self.wf(),
        ensures
            self.visited_count() == 0 <==> forall|x: int, y: int|
                self.in_bounds(x, y) ==> !(#[trigger] self.cell(x, y)).visited,
            self.all_visited() <==> forall|x: int, y: int|
                self.in_bounds(x, y) ==> (#[trigger] self.cell(x, y)).visited,
            self.visited_count() <= self.cells.len(),
    {
        lemma_visited_none(self.cells);
        lemma_visited_all(self.cells);
        lemma_visited_bound(self.cells);
        self.lemma_positions();
        if forall|x: int, y: int| self.in_bounds(x, y) ==> !(#[trigger] self.cell(x, y)).visited {
            assert forall|i: int| 0 <= i < self.cells.len() implies !self.cells[i].visited by {
                lemma_index_unsplit(self.width, self.height, i);
                let w = self.width as int;
                assert(self.cell(i / w, i % w) == self.cells[i]);
            }
        }
        if forall|x: int, y: int| self.in_bounds(x, y) ==> (#[trigger] self.cell(x, y)).visited {
            assert forall|i: int| 0 <= i < self.cells.len() implies self.cells[i].visited by {
                lemma_index_unsplit(self.width, self.height, i);
                let w = self.width as int;
                assert(self.cell(i / w, i % w) == self.cells[i]);
            }
        }
    }

    /// A maze that keeps the invariant and has an empty stack is untouched
    /// or complete.
    pub proof fn lemma_empty_stack(self)
        requires
            self.inv(),
            self.stack.len() == 0,
        ensures
            self.is_complete() || self.visited_count() == 0,
    {
        self.lemma_visited_extremes();
        if self.cell(0, 0).visited {
            assert forall|x: int, y: int| self.in_bounds(x, y) implies (#[trigger] self.cell(
                x,
                y,
            )).visited by {
                self.lemma_settled_spreads(x, y);
            }
        }
    }

    /// Entering the untouched lattice keeps the invariant.
    pub proof fn lemma_begin_keeps_inv(self)
        requires
            self.inv(),
            self.stack.len() == 0,
            !self.is_complete(),
        ensures
            self.enter(0, 0).inv(),
            self.grows_to(self.enter(0, 0)),
            self.enter(0, 0).visited_count() == self.visited_count() + 1,
    {
        let after = self.enter(0, 0);
        self.lemma_empty_stack();
        self.lemma_visited_extremes();
        self.lemma_enter(0, 0);
        after.lemma_visited_extremes();
        assert(self.grows_to(after)) by {
            assert forall|a: int, b: int, p: Path| self.passage(a, b, p) implies #[trigger]
                after.passage(a, b, p) by {}
        }
        assert(after.cells_ok()) by {
            assert forall|x: int, y: int| after.in_bounds(x, y) implies #[trigger] after.cell_ok(
                x,
                y,
            ) by {
                assert(self.cell_ok(x, y));
                assert forall|q: Path| !#[trigger] after.cell(x, y).opens(q) by {
                    assert(!self.cell(x, y).opens(q));
                }
            }
        }
        assert(after.is_walk(after.stack));
        assert(after.settled()) by {
            assert forall|x: int, y: int, p: Path|
                after.in_bounds(x, y) && after.cell(x, y).visited && !after.on_stack(
                    x,
                    y,
                ) implies !#[trigger] after.can_go(x, y, p) by {}
        }
        assert(after.rooted()) by {
            assert forall|x: int, y: int|
                after.in_bounds(x, y) && (#[trigger] after.cell(x, y)).visited implies after.cell(
                0,
                0,
            ).visited && after.reachable(x, y) by {}
        }
        assert(after.single_entry()) by {
            assert forall|a: int, b: int, p: Path| #[trigger] after.passage(a, b, p) implies false by {
                assert(after.cell_ok(a, b));
            }
        }
    }

    /// Leaving a dead end keeps the invariant.
    pub proof fn lemma_backtrack_keeps_inv(self)
        requires
            self.inv(),
            self.stack.len() > 0,
            self.candidates(self.stack.last().0, self.stack.last().1).len() == 0,
        ensures
            self.backtrack().inv(),
            self.grows_to(self.backtrack()),
    {
        let after = self.backtrack();
        let top = self.stack.last();
        self.lemma_candidates(top.0, top.1);
        assert forall|a: int, b: int| #[trigger] after.cell(a, b) == self.cell(a, b) by {}
        assert(after.wf()) by {
            assert forall|i: int| 0 <= i < after.stack.len() implies after.in_bounds(
                (#[trigger] after.stack[i]).0,
                after.stack[i].1,
            ) by {}
        }
        assert(after.cells_ok()) by {
            assert forall|x: int, y: int| after.in_bounds(x, y) implies #[trigger] after.cell_ok(
                x,
                y,
            ) by {
                assert(self.cell_ok(x, y));
            }
        }
        assert(after.stack_ok()) by {
            assert forall|i: int| 0 <= i < after.stack.len() implies after.cell(
                (#[trigger] after.stack[i]).0,
                after.stack[i].1,
            ).visited by {}
            if after.stack.len() > 0 {
                assert forall|i: int| 0 < i < after.stack.len() implies after.linked(
                    after.stack[i - 1],
                    #[trigger] after.stack[i],
                ) by {
                    let p = choose|p: Path| #[trigger]
                        self.passage(self.stack[i - 1].0, self.stack[i - 1].1, p) && p.target(
                            self.stack[i - 1].0,
                            self.stack[i - 1].1,
                        ) == self.stack[i];
                    assert(after.passage(self.stack[i - 1].0, self.stack[i - 1].1, p));
                }
            }
        }
        assert(after.settled()) by {
            assert forall|x: int, y: int, p: Path|
                after.in_bounds(x, y) && after.cell(x, y).visited && !after.on_stack(
                    x,
                    y,
                ) implies !#[trigger] after.can_go(x, y, p) by {
                if self.on_stack(x, y) {
                    let i = choose|i: int| 0 <= i < self.stack.len() && self.stack[i] == (x, y);
                    if i < self.stack.len() - 1 {
                        assert(after.stack[i] == (x, y));
                    }
                } else {
                    assert(!self.can_go(x, y, p));
                }
            }
        }
        assert(after.rooted()) by {
            assert forall|x: int, y: int|
                after.in_bounds(x, y) && (#[trigger] after.cell(x, y)).visited implies after.cell(
                0,
                0,
            ).visited && after.reachable(x, y) by {
                let w = choose|w: Seq<(int, int)>| #[trigger]
                    self.is_walk(w) && w.last() == (x, y);
                self.lemma_walk_grows(after, w);
            }
        }
        assert(after.single_entry()) by {
            assert forall|a: int, b: int, p: Path| #[trigger]
                after.passage(a, b, p) == self.passage(a, b, p) by {}
        }
    }

    /// Carving from the frontier makes the maze grow.
    proof fn lemma_carve_grows(self, p: Path)
        requires
            self.inv(),
            self.stack.len() > 0,
            self.can_go(self.stack.last().0, self.stack.last().1, p),
        ensures
            self.grows_to(self.carve(p)),
            self.carve(p).passage(self.stack.last().0, self.stack.last().1, p),
            !self.passage(self.stack.last().0, self.stack.last().1, p),
            forall|a: int, b: int, q: Path| #[trigger]
                self.carve(p).passage(a, b, q) ==> self.passage(a, b, q) || ((a, b)
                    == self.stack.last() && q == p),
    {
        let after = self.carve(p);
        let (x, y) = self.stack.last();
        self.lemma_carve(p);
        assert(self.cell_ok(x, y));
        assert(after.cell(x, y).opens(p)) by {
            assert(after.cell(x, y).paths[self.cell(x, y).paths.len() as int] == p);
        }
        assert forall|a: int, b: int, q: Path| self.passage(a, b, q) implies #[trigger]
            after.passage(a, b, q) by {
            if a == x && b == y {
                let i = choose|i: int|
                    0 <= i < self.cell(x, y).paths.len() && self.cell(x, y).paths[i] == q;
                assert(after.cell(x, y).paths[i] == q);
            }
        }
        assert forall|a: int, b: int|
            self.in_bounds(a, b) && self.cell(a, b).visited implies (#[trigger] after.cell(
            a,
            b,
        )).visited by {}
        assert forall|a: int, b: int, q: Path| #[trigger] after.passage(a, b, q) implies self.passage(
            a,
            b,
            q,
        ) || ((a, b) == self.stack.last() && q == p) by {}
    }

    /// After carving, no two passages lead into the same cell.
    proof fn lemma_carve_single_entry(self, p: Path)
        requires
            self.inv(),
            self.stack.len() > 0,
            self.can_go(self.stack.last().0, self.stack.last().1, p),
        ensures
            self.carve(p).single_entry(),
    {
        let after = self.carve(p);
        self.lemma_carve_grows(p);
        assert forall|a: int, b: int, q: Path| #[trigger] after.passage(a, b, q) implies q.target(
            a,
            b,
        ) != (0int, 0int) by {}
        assert forall|a: int, b: int, q: Path, c: int, d: int, r: Path|
            #[trigger] after.passage(a, b, q) && #[trigger] after.passage(c, d, r) && q.target(a, b)
                == r.target(c, d) implies a == c && b == d && q == r by {
            if self.passage(a, b, q) {
                assert(self.cell_ok(a, b));
            }
            if self.passage(c, d, r) {
                assert(self.cell_ok(c, d));
            }
        }
    }

    /// Carving from the frontier leaves every cell in order.
    proof fn lemma_carve_cells_ok(self, p: Path)
        requires
            self.inv(),
            self.stack.len() > 0,
            self.can_go(self.stack.last().0, self.stack.last().1, p),
        ensures
            self.carve(p).cells_ok(),
    {
        let after = self.carve(p);
        let (x, y) = self.stack.last();
        let (nx, ny) = p.target(x, y);
        self.lemma_carve(p);
        self.lemma_carve_grows(p);
        assert forall|a: int, b: int| after.in_bounds(a, b) implies #[trigger] after.cell_ok(
            a,
            b,
        ) by {
            assert(self.cell_ok(a, b));
            let c = after.cell(a, b);
            let c0 = self.cell(a, b);
            if a == x && b == y {
                assert forall|q: Path| #[trigger] c.opens(q) implies c.visited && after.in_bounds(
                    q.target(a, b).0,
                    q.target(a, b).1,
                ) && after.cell(q.target(a, b).0, q.target(a, b).1).visited by {
                    if q != p {
                        assert(c0.opens(q));
                    }
                }
            } else if a == nx && b == ny {
                assert forall|q: Path| !#[trigger] c.opens(q) by {
                    assert(!c0.opens(q));
                }
            } else {
                assert forall|q: Path| #[trigger] c.opens(q) implies c.visited && after.in_bounds(
                    q.target(a, b).0,
                    q.target(a, b).1,
                ) && after.cell(q.target(a, b).0, q.target(a, b).1).visited by {}
            }
        }
    }

    /// After carving, the stack is still the path of the walk.
    proof fn lemma_carve_stack_ok(self, p: Path)
        requires
            self.inv(),
            self.stack.len() > 0,
            self.can_go(self.stack.last().0, self.stack.last().1, p),
        ensures
            self.carve(p).stack_ok(),
            self.carve(p).is_walk(self.carve(p).stack),
    {
        let after = self.carve(p);
        self.lemma_carve(p);
        self.lemma_carve_grows(p);
        assert forall|i: int| 0 < i < after.stack.len() implies after.linked(
            after.stack[i - 1],
            #[trigger] after.stack[i],
        ) by {
            if i < self.stack.len() {
                let q = choose|q: Path| #[trigger]
                    self.passage(self.stack[i - 1].0, self.stack[i - 1].1, q) && q.target(
                        self.stack[i - 1].0,
                        self.stack[i - 1].1,
                    ) == self.stack[i];
                assert(after.passage(self.stack[i - 1].0, self.stack[i - 1].1, q));
            }
        }
        assert forall|i: int| 0 <= i < after.stack.len() implies after.cell(
            (#[trigger] after.stack[i]).0,
            after.stack[i].1,
        ).visited by {}
    }

    /// After carving, the walk is still done with every cell that it has
    /// left.
    proof fn lemma_carve_settled(self, p: Path)
        requires
            self.inv(),
            self.stack.len() > 0,
            self.can_go(self.stack.last().0, self.stack.last().1, p),
        ensures
            self.carve(p).settled(),
    {
        let after = self.carve(p);
        let (x, y) = self.stack.last();
        let (nx, ny) = p.target(x, y);
        self.lemma_carve(p);
        self.lemma_carve_grows(p);
        assert(after.on_stack(nx, ny)) by {
            assert(after.stack[self.stack.len() as int] == (nx, ny));
        }
        assert forall|a: int, b: int, q: Path|
            after.in_bounds(a, b) && after.cell(a, b).visited && !after.on_stack(
                a,
                b,
            ) implies !#[trigger] after.can_go(a, b, q) by {
            if self.on_stack(a, b) {
                let i = choose|i: int| 0 <= i < self.stack.len() && self.stack[i] == (a, b);
                assert(after.stack[i] == (a, b));
            }
            assert(!self.can_go(a, b, q));
        }
    }

    /// After carving, every visited cell can still be reached.
    proof fn lemma_carve_rooted(self, p: Path)
        requires
            self.inv(),
            self.stack.len() > 0,
            self.can_go(self.stack.last().0, self.stack.last().1, p),
        ensures
            self.carve(p).rooted(),
    {
        let after = self.carve(p);
        let (x, y) = self.stack.last();
        let (nx, ny) = p.target(x, y);
        self.lemma_carve(p);
        self.lemma_carve_grows(p);
        self.lemma_carve_stack_ok(p);
        assert forall|a: int, b: int|
            after.in_bounds(a, b) && (#[trigger] after.cell(a, b)).visited implies after.cell(
            0,
            0,
        ).visited && after.reachable(a, b) by {
            if a == nx && b == ny {
            } else {
                let w = choose|w: Seq<(int, int)>| #[trigger]
                    self.is_walk(w) && w.last() == (a, b);
                self.lemma_walk_grows(after, w);
            }
        }
    }

    /// Carving from the frontier towards an unvisited neighbour keeps the
    /// invariant.
    pub proof fn lemma_carve_keeps_inv(self, p: Path)
        requires
            self.inv(),
            self.stack.len() > 0,
            self.can_go(self.stack.last().0, self.stack.last().1, p),
        ensures
            self.carve(p).inv(),
            self.grows_to(self.carve(p)),
    {
        self.lemma_carve(p);
        self.lemma_carve_grows(p);
        self.lemma_carve_cells_ok(p);
        self.lemma_carve_stack_ok(p);
        self.lemma_carve_settled(p);
        self.lemma_carve_rooted(p);
        self.lemma_carve_single_entry(p);
        self.lemma_visited_extremes();
    }

    /// Every step keeps the invariant, and the maze only grows: no cell
    /// loses its mark and no passage disappears.
    pub proof fn lemma_step_keeps_inv(self, choice: nat)
        requires
            self.inv(),
        ensures
            self.step(choice).inv(),
            self.grows_to(self.step(choice)),
    {
        match self.step_kind(choice) {
            Step::Done => {
            },
            Step::Begin => {
                self.lemma_begin_keeps_inv();
            },
            Step::Backtrack => {
                self.lemma_backtrack_keeps_inv();
            },
            Step::Carve(p) => {
                let top = self.stack.last();
                self.lemma_candidates(top.0, top.1);
                let c = self.candidates(top.0, top.1);
                assert(c.contains(Self::pick(c, choice))) by {}
                self.lemma_carve_keeps_inv(p);
            },
        }
    }
}

} // verus!
