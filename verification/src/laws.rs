//! What the walk guarantees, proved of the abstract machine that the
//! executable maze follows.

use vstd::prelude::*;
use crate::counting::{
    lemma_index_in_range,
    lemma_index_split,
    lemma_passages_none,
    lemma_visited_all,
    lemma_visited_none,
};
use crate::model::{MazeView, Step};
use crate::path::Path;

verus! {

/// The untouched lattice satisfies the invariant of the walk.
pub proof fn lemma_fresh_inv(width: nat, height: nat, path_width: nat)
    requires
        width >= 1,
        height >= 1,
    ensures
        MazeView::fresh(width, height, path_width).inv(),
        MazeView::fresh(width, height, path_width).visited_count() == 0,
        MazeView::fresh(width, height, path_width).passages() == 0,
        MazeView::fresh(width, height, path_width).remaining() == 2 * (width * height),
{
    let m = MazeView::fresh(width, height, path_width);
    lemma_visited_none(m.cells);
    lemma_passages_none(m.cells);
    assert forall|x: int, y: int| m.in_bounds(x, y) implies #[trigger] m.cell_ok(x, y) by {
        lemma_index_in_range(width, height, x, y);
        lemma_index_split(width, x, y);
    }
    assert forall|x: int, y: int| m.in_bounds(x, y) implies !(#[trigger] m.cell(x, y)).visited by {
        lemma_index_in_range(width, height, x, y);
    }
    assert forall|a: int, b: int, p: Path| !#[trigger] m.passage(a, b, p) by {
        if m.in_bounds(a, b) {
            lemma_index_in_range(width, height, a, b);
        }
    }
}

/// Spanning tree: in a complete maze that the walk has built, the passages
/// are one fewer than the cells, and a walk through passages leads from row
/// 0, column 0 to every cell. The passages thus connect all cells with the
/// fewest edges that can do so, which leaves no room for a cycle. They form
/// the tree rooted at row 0, column 0: no passage leads into the root, and
/// into every other cell leads exactly one.
pub proof fn lemma_complete_is_spanning_tree(m: MazeView)
    requires
        m.inv(),
        m.is_complete(),
    ensures
        m.passages() + 1 == m.size(),
        forall|x: int, y: int| m.in_bounds(x, y) ==> #[trigger] m.reachable(x, y),
        m.single_entry(),
        forall|x: int, y: int|
            m.in_bounds(x, y) && (x, y) != (0int, 0int) ==> #[trigger] m.entered(x, y),
{
    m.lemma_visited_extremes();
    assert(m.size() >= 1) by (nonlinear_arith)
        requires
            m.width >= 1,
            m.height >= 1,
            m.size() == m.width * m.height,
    ;
    assert forall|x: int, y: int| m.in_bounds(x, y) implies #[trigger] m.reachable(x, y) by {
        assert(m.cell(x, y).visited);
    }
    assert forall|x: int, y: int|
        m.in_bounds(x, y) && (x, y) != (0int, 0int) implies #[trigger] m.entered(x, y) by {
        m.lemma_reachable_is_entered(x, y);
    }
}

/// Visitation: in a complete maze every cell of the lattice is visited.
pub proof fn lemma_complete_all_visited(m: MazeView)
    requires
        m.wf(),
        m.is_complete(),
    ensures
        forall|x: int, y: int| m.in_bounds(x, y) ==> (#[trigger] m.cell(x, y)).visited,
        forall|i: int| 0 <= i < m.cells.len() ==> (#[trigger] m.cells[i]).visited,
{
    m.lemma_visited_extremes();
    lemma_visited_all(m.cells);
}

/// No revisit: a step never takes the mark from a cell, it marks at most one
/// cell, and on a maze that the walk has built the cell that a push puts on
/// the stack was unvisited before.
pub proof fn lemma_step_visits_at_most_one(m: MazeView, choice: nat)
    requires
        m.wf(),
    ensures
        m.step(choice).wf(),
        forall|x: int, y: int|
            m.in_bounds(x, y) && m.cell(x, y).visited ==> (#[trigger] m.step(choice).cell(
                x,
                y,
            )).visited,
        m.visited_count() <= m.step(choice).visited_count() <= m.visited_count() + 1,
        m.inv() && m.step_kind(choice).spec_is_push() ==> {
            let top = m.step(choice).stack.last();
            &&& m.unvisited(top.0, top.1)
            &&& m.step(choice).visited_count() == m.visited_count() + 1
        },
        !m.step_kind(choice).spec_is_push() ==> m.step(choice).cells == m.cells,
{
    let after = m.step(choice);
    match m.step_kind(choice) {
        Step::Done => {},
        Step::Begin => {
            m.lemma_enter(0, 0);
            if m.inv() {
                m.lemma_begin_keeps_inv();
                m.lemma_empty_stack();
                m.lemma_visited_extremes();
            }
            assert forall|x: int, y: int|
                m.in_bounds(x, y) && m.cell(x, y).visited implies (#[trigger] after.cell(
                x,
                y,
            )).visited by {}
        },
        Step::Backtrack => {
            assert forall|i: int| 0 <= i < after.stack.len() implies after.in_bounds(
                (#[trigger] after.stack[i]).0,
                after.stack[i].1,
            ) by {}
        },
        Step::Carve(p) => {
            let top = m.stack.last();
            m.lemma_candidates(top.0, top.1);
            m.lemma_carve(p);
            assert forall|x: int, y: int|
                m.in_bounds(x, y) && m.cell(x, y).visited implies (#[trigger] after.cell(
                x,
                y,
            )).visited by {}
        },
    }
}

/// Progress: on a maze that the walk has built and that is not complete, a
/// step is a push or a pop and brings completion one step closer; completion
/// is reached exactly when no step remains.
pub proof fn lemma_step_progress(m: MazeView, choice: nat)
    requires
        m.inv(),
    ensures
        m.remaining() >= 0,
        m.is_complete() <==> m.remaining() == 0,
        !m.is_complete() ==> m.step(choice).remaining() == m.remaining() - 1,
        !m.is_complete() ==> m.step_kind(choice).spec_is_push() || m.step_kind(
            choice,
        ).spec_is_pop(),
{
    m.lemma_visited_extremes();
    lemma_step_visits_at_most_one(m, choice);
    match m.step_kind(choice) {
        Step::Done => {},
        Step::Begin => {
            m.lemma_enter(0, 0);
        },
        Step::Backtrack => {},
        Step::Carve(p) => {
            let top = m.stack.last();
            m.lemma_candidates(top.0, top.1);
            m.lemma_carve(p);
        },
    }
}

/// Idempotent completion: a step on a complete maze changes nothing.
pub proof fn lemma_complete_is_fixed(m: MazeView, choice: nat)
    requires
        m.is_complete(),
    ensures
        m.step_kind(choice) == Step::Done,
        m.step(choice) == m,
{
}

/// Along a run from the untouched lattice the invariant holds, each push has
/// marked one cell, each pop has taken one visited cell off the stack, and
/// each step before completion has brought it one step closer.
pub proof fn lemma_run(width: nat, height: nat, path_width: nat, choices: Seq<nat>)
    requires
        width >= 1,
        height >= 1,
    ensures
        ({
            let start = MazeView::fresh(width, height, path_width);
            let m = start.run(choices);
            &&& m.inv()
            &&& m.width == width
            &&& m.height == height
            &&& m.path_width == path_width
            &&& start.pushes(choices) == m.visited_count()
            &&& start.pops(choices) + m.stack.len() == m.visited_count()
            &&& m.remaining() == if choices.len() <= 2 * (width * height) {
                2 * (width * height) - choices.len()
            } else {
                0
            }
        }),
    decreases choices.len(),
{
    let start = MazeView::fresh(width, height, path_width);
    lemma_fresh_inv(width, height, path_width);
    if choices.len() > 0 {
        let front = choices.drop_last();
        lemma_run(width, height, path_width, front);
        let before = start.run(front);
        lemma_step_progress(before, choices.last());
        lemma_step_visits_at_most_one(before, choices.last());
        before.lemma_step_keeps_inv(choices.last());
    }
}

/// Stack balance: a run of `2 * width * height` steps or more from the
/// untouched lattice ends in a complete maze, and it holds as many pushes as
/// there are cells and as many pops: every cell enters the stack once and
/// leaves it once.
pub proof fn lemma_full_run_balance(width: nat, height: nat, path_width: nat, choices: Seq<nat>)
    requires
        width >= 1,
        height >= 1,
        choices.len() >= 2 * (width * height),
    ensures
        MazeView::fresh(width, height, path_width).run(choices).is_complete(),
        MazeView::fresh(width, height, path_width).pushes(choices) == width * height,
        MazeView::fresh(width, height, path_width).pops(choices) == width * height,
{
    let start = MazeView::fresh(width, height, path_width);
    lemma_run(width, height, path_width, choices);
    lemma_step_progress(start.run(choices), 0);
}

/// A run of fewer than `2 * width * height` steps from the untouched lattice
/// is not complete yet.
pub proof fn lemma_short_run_incomplete(width: nat, height: nat, path_width: nat, choices: Seq<nat>)
    requires
        width >= 1,
        height >= 1,
        choices.len() < 2 * (width * height),
    ensures
        !MazeView::fresh(width, height, path_width).run(choices).is_complete(),
{
    let start = MazeView::fresh(width, height, path_width);
    lemma_run(width, height, path_width, choices);
    lemma_step_progress(start.run(choices), 0);
}

} // verus!
