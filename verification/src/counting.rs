//! Facts about positions, their storage indices and the two counts of the
//! model, on which the proofs about the walk rest.

use vstd::prelude::*;
use crate::cell::CellView;
use crate::model::{passages_in, visited_in, MazeView};
use crate::path::Path;

verus! {

/// A position of the lattice is stored at an index below `width * height`.
pub proof fn lemma_index_in_range(width: nat, height: nat, x: int, y: int)
    requires
        0 <= x < height,
        0 <= y < width,
    ensures
        0 <= x * width + y < width * height,
{
    assert(x * width >= 0) by (nonlinear_arith)
        requires
            x >= 0,
            width >= 0,
    ;
    assert((x + 1) * width <= height * width) by (nonlinear_arith)
        requires
            x + 1 <= height,
            width >= 0,
    ;
    assert((x + 1) * width == x * width + width) by (nonlinear_arith);
}

/// Two positions of the lattice that are stored at the same index are the
/// same position.
pub proof fn lemma_index_injective(width: nat, x1: int, y1: int, x2: int, y2: int)
    requires
        0 <= y1 < width,
        0 <= y2 < width,
        x1 * width + y1 == x2 * width + y2,
    ensures
        x1 == x2,
        y1 == y2,
{
    if x1 < x2 {
        assert((x1 + 1) * width <= x2 * width) by (nonlinear_arith)
            requires
                x1 + 1 <= x2,
                width >= 0,
        ;
        assert((x1 + 1) * width == x1 * width + width) by (nonlinear_arith);
    } else if x2 < x1 {
        assert((x2 + 1) * width <= x1 * width) by (nonlinear_arith)
            requires
                x2 + 1 <= x1,
                width >= 0,
        ;
        assert((x2 + 1) * width == x2 * width + width) by (nonlinear_arith);
    }
}

/// The index `x * width + y` of a position with `y < width` splits back into
/// its row and its column by division.
pub proof fn lemma_index_split(width: nat, x: int, y: int)
    requires
        0 <= x,
        0 <= y < width,
    ensures
        (x * width + y) / (width as int) == x,
        (x * width + y) % (width as int) == y,
{
    let w = width as int;
    let i = x * w + y;
    assert(i == w * (i / w) + i % w && 0 <= i % w < w) by (nonlinear_arith)
        requires
            w > 0,
    ;
    lemma_index_injective(width, x, y, i / w, i % w);
}

/// An index below `width * height` is the index of the position whose row is
/// the quotient and whose column is the remainder of its division by `width`.
pub proof fn lemma_index_unsplit(width: nat, height: nat, i: int)
    requires
        width >= 1,
        0 <= i < width * height,
    ensures
        0 <= i / (width as int) < height,
        0 <= i % (width as int) < width,
        (i / (width as int)) * width + i % (width as int) == i,
{
    let w = width as int;
    assert(i == w * (i / w) + i % w && 0 <= i % w < w) by (nonlinear_arith)
        requires
            w > 0,
    ;
    assert(i / w >= 0) by (nonlinear_arith)
        requires
            w > 0,
            i >= 0,
    ;
    if i / w >= height {
        assert((i / w) * w >= height * w) by (nonlinear_arith)
            requires
                i / w >= height,
                w > 0,
        ;
        assert(height * w == width * height) by (nonlinear_arith)
            requires
                w == width,
        ;
    }
}

/// No more cells are visited than there are cells.
pub proof fn lemma_visited_bound(cells: Seq<CellView>)
    ensures
        visited_in(cells) <= cells.len(),
    decreases cells.len(),
{
    if cells.len() > 0 {
        lemma_visited_bound(cells.drop_last());
    }
}

/// Replacing one cell changes the number of visited cells by the difference
/// between the new cell and the old one.
pub proof fn lemma_visited_update(cells: Seq<CellView>, i: int, c: CellView)
    requires
        0 <= i < cells.len(),
    ensures
        visited_in(cells.update(i, c)) + (if cells[i].visited { 1int } else { 0int })
            == visited_in(cells) + (if c.visited { 1int } else { 0int }),
    decreases cells.len(),
{
    let after = cells.update(i, c);
    if i == cells.len() - 1 {
        assert(after.drop_last() == cells.drop_last());
    } else {
        assert(after.drop_last() == cells.drop_last().update(i, c));
        lemma_visited_update(cells.drop_last(), i, c);
    }
}

/// Replacing one cell changes the number of passages by the difference
/// between the new cell and the old one.
pub proof fn lemma_passages_update(cells: Seq<CellView>, i: int, c: CellView)
    requires
        0 <= i < cells.len(),
    ensures
        passages_in(cells.update(i, c)) + cells[i].paths.len() == passages_in(cells)
            + c.paths.len(),
    decreases cells.len(),
{
    let after = cells.update(i, c);
    if i == cells.len() - 1 {
        assert(after.drop_last() == cells.drop_last());
    } else {
        assert(after.drop_last() == cells.drop_last().update(i, c));
        lemma_passages_update(cells.drop_last(), i, c);
    }
}

/// Where no cell is visited, the count of visited cells is zero, and the
/// other way round.
pub proof fn lemma_visited_none(cells: Seq<CellView>)
    ensures
        visited_in(cells) == 0 <==> forall|i: int| 0 <= i < cells.len() ==> !cells[i].visited,
    decreases cells.len(),
{
    if cells.len() > 0 {
        let front = cells.drop_last();
        lemma_visited_none(front);
        if visited_in(cells) == 0 {
            assert forall|i: int| 0 <= i < cells.len() implies !cells[i].visited by {
                if i < cells.len() - 1 {
                    assert(front[i] == cells[i]);
                }
            }
        }
        if forall|i: int| 0 <= i < cells.len() ==> !cells[i].visited {
            assert forall|i: int| 0 <= i < front.len() implies !front[i].visited by {}
        }
    }
}

/// Where every cell is visited, the count of visited cells is the number of
/// cells, and the other way round.
pub proof fn lemma_visited_all(cells: Seq<CellView>)
    ensures
        visited_in(cells) == cells.len() <==> forall|i: int|
            0 <= i < cells.len() ==> cells[i].visited,
    decreases cells.len(),
{
    if cells.len() > 0 {
        let front = cells.drop_last();
        lemma_visited_all(front);
        lemma_visited_bound(front);
        if visited_in(cells) == cells.len() {
            assert forall|i: int| 0 <= i < cells.len() implies cells[i].visited by {
                if i < cells.len() - 1 {
                    assert(front[i] == cells[i]);
                }
            }
        }
        if forall|i: int| 0 <= i < cells.len() ==> cells[i].visited {
            assert forall|i: int| 0 <= i < front.len() implies front[i].visited by {}
        }
    }
}

/// Where no cell has a passage, the count of passages is zero.
pub proof fn lemma_passages_none(cells: Seq<CellView>)
    requires
        forall|i: int| 0 <= i < cells.len() ==> cells[i].paths.len() == 0,
    ensures
        passages_in(cells) == 0,
    decreases cells.len(),
{
    if cells.len() > 0 {
        let front = cells.drop_last();
        assert forall|i: int| 0 <= i < front.len() implies front[i].paths.len() == 0 by {}
        lemma_passages_none(front);
    }
}

impl MazeView {
    /// On a well-formed maze every position of the lattice has a cell, and
    /// distinct positions have distinct cells.
    pub proof fn lemma_positions(self)
        requires
            self.wf(),
        ensures
            forall|x: int, y: int|
                self.in_bounds(x, y) ==> 0 <= #[trigger] self.index_of(x, y) < self.cells.len(),
            forall|x1: int, y1: int, x2: int, y2: int|
                self.in_bounds(x1, y1) && self.in_bounds(x2, y2) && #[trigger] self.index_of(x1, y1)
                    == #[trigger] self.index_of(x2, y2) ==> x1 == x2 && y1 == y2,
    {
        assert forall|x: int, y: int| self.in_bounds(x, y) implies 0 <= #[trigger] self.index_of(
            x,
            y,
        ) < self.cells.len() by {
            lemma_index_in_range(self.width, self.height, x, y);
        }
        assert forall|x1: int, y1: int, x2: int, y2: int|
            self.in_bounds(x1, y1) && self.in_bounds(x2, y2) && #[trigger] self.index_of(x1, y1)
                == #[trigger] self.index_of(x2, y2) implies x1 == x2 && y1 == y2 by {
            lemma_index_injective(self.width, x1, y1, x2, y2);
        }
    }

    /// The candidates at a position are exactly the directions in which the
    /// walk may move from it, each listed once, and there are at most four.
    pub proof fn lemma_candidates(self, x: int, y: int)
        ensures
            forall|p: Path| self.candidates(x, y).contains(p) <==> self.can_go(x, y, p),
            self.candidates(x, y).no_duplicates(),
            self.candidates(x, y).len() <= 4,
    {
        let c = self.candidates(x, y);
        let up = self.candidate(x, y, Path::Up);
        let down = self.candidate(x, y, Path::Down);
        let left = self.candidate(x, y, Path::Left);
        assert forall|p: Path| self.can_go(x, y, p) implies c.contains(p) by {
            match p {
                Path::Up => {
                    assert(c[0] == p);
                },
                Path::Down => {
                    assert(c[up.len() as int] == p);
                },
                Path::Left => {
                    assert(c[(up.len() + down.len()) as int] == p);
                },
                Path::Right => {
                    assert(c[(up.len() + down.len() + left.len()) as int] == p);
                },
            }
        }
        assert forall|p: Path| c.contains(p) implies self.can_go(x, y, p) by {}
        assert forall|i: int, j: int| 0 <= i < j < c.len() implies c[i] != c[j] by {
            assert(c[i] == if i < up.len() {
                Path::Up
            } else if i < up.len() + down.len() {
                Path::Down
            } else if i < up.len() + down.len() + left.len() {
                Path::Left
            } else {
                Path::Right
            });
            assert(c[j] == if j < up.len() {
                Path::Up
            } else if j < up.len() + down.len() {
                Path::Down
            } else if j < up.len() + down.len() + left.len() {
                Path::Left
            } else {
                Path::Right
            });
        }
    }
}

} // verus!
