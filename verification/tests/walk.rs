use maze::{Cell, Maze, Path, Step};

fn fresh(width: usize, height: usize) -> Maze {
    Maze::new(width, height, 1).expect("both dimensions are positive")
}

/// The passages as (row, column, direction) in storage order.
fn passages(m: &Maze) -> Vec<(usize, usize, Path)> {
    let mut out = Vec::new();
    for c in m.cells().iter() {
        for p in c.paths.iter() {
            out.push((c.x, c.y, *p));
        }
    }
    out
}

fn visited(m: &Maze) -> usize {
    m.cells().iter().filter(|c| c.visited).count()
}

/// The number of cells that can be reached from row 0, column 0 through
/// passages, whichever way a passage is walked.
fn connected_cells(m: &Maze) -> usize {
    let (w, h) = (m.width(), m.height());
    let mut seen = vec![false; w * h];
    let mut todo = vec![(0usize, 0usize)];
    seen[0] = true;
    let mut count = 0;
    while let Some((x, y)) = todo.pop() {
        count += 1;
        for c in m.cells().iter() {
            for p in c.paths.iter() {
                let to = p.neighbour(c.x, c.y).expect("a passage ends on the lattice");
                let next = if (c.x, c.y) == (x, y) {
                    to
                } else if to == (x, y) {
                    (c.x, c.y)
                } else {
                    continue;
                };
                if !seen[next.0 * w + next.1] {
                    seen[next.0 * w + next.1] = true;
                    todo.push(next);
                }
            }
        }
    }
    count
}

/// How many passages lead into each cell, in storage order.
fn entries(m: &Maze) -> Vec<usize> {
    let mut count = vec![0; m.width() * m.height()];
    for (x, y, p) in passages(m) {
        let (tx, ty) = p.neighbour(x, y).expect("a passage ends on the lattice");
        count[tx * m.width() + ty] += 1;
    }
    count
}

fn check_spanning_tree(m: &Maze) {
    let n = m.width() * m.height();
    let mut expect = vec![1; n];
    expect[0] = 0;
    assert_eq!(entries(m), expect);
    assert!(m.is_complete());
    assert_eq!(visited(m), n);
    assert_eq!(m.visited_count(), n);
    assert_eq!(passages(m).len(), n - 1);
    assert_eq!(connected_cells(m), n);
    assert_eq!(m.depth(), 0);
    assert_eq!(m.current(), None);
}

#[test]
fn first_step_enters_at_the_origin() {
    let mut m = fresh(3, 2);
    assert_eq!(m.advance_with(7), Step::Begin);
    assert_eq!(m.current(), Some((0, 0)));
    assert_eq!(m.depth(), 1);
    assert_eq!(m.visited_count(), 1);
    assert!(m.get_cell(0, 0).expect("on the lattice").visited);
    assert!(passages(&m).is_empty());
    assert!(!m.is_complete());
}

#[test]
fn carve_marks_the_neighbour_and_records_the_passage_on_the_frontier() {
    let mut m = fresh(3, 3);
    m.advance_with(0);
    assert_eq!(m.choices(), 2);
    assert_eq!(m.advance_with(1), Step::Carve(Path::Right));
    assert_eq!(m.current(), Some((0, 1)));
    assert_eq!(m.depth(), 2);
    assert_eq!(m.visited_count(), 2);
    let from = m.get_cell(0, 0).expect("on the lattice");
    let to = m.get_cell(0, 1).expect("on the lattice");
    assert_eq!(from.paths, vec![Path::Right]);
    assert!(to.visited);
    assert!(to.paths.is_empty());
    assert_eq!(m.choices(), 2);
    assert_eq!(m.candidates(0, 1), vec![Path::Down, Path::Right]);
}

#[test]
fn a_dead_end_backtracks() {
    let mut m = fresh(2, 1);
    assert_eq!(m.advance_with(0), Step::Begin);
    assert_eq!(m.advance_with(0), Step::Carve(Path::Right));
    assert_eq!(m.choices(), 0);
    assert_eq!(m.advance_with(0), Step::Backtrack);
    assert_eq!(m.current(), Some((0, 0)));
    assert_eq!(m.depth(), 1);
    assert_eq!(m.visited_count(), 2);
    assert!(!m.is_complete());
    assert_eq!(m.advance_with(0), Step::Backtrack);
    assert!(m.is_complete());
    assert_eq!(m.advance_with(0), Step::Done);
}

#[test]
fn one_cell_is_complete_after_two_steps() {
    let mut m = fresh(1, 1);
    assert!(!m.is_complete());
    assert_eq!(m.advance(), Step::Begin);
    assert!(!m.is_complete());
    assert_eq!(m.advance(), Step::Backtrack);
    assert!(m.is_complete());
    assert_eq!(m.advance(), Step::Done);
    assert!(passages(&m).is_empty());
    assert_eq!(m.visited_count(), 1);
}

#[test]
fn scripted_two_by_two_prefers_right_down_left_up() {
    // Preferring right, then down, then left, then up means choosing, among
    // the candidates in the order up, down, left, right: the second of
    // [down, right] at row 0, column 0, and then the only candidate twice.
    let mut m = fresh(2, 2);
    assert_eq!(m.advance_with(0), Step::Begin);
    assert_eq!(m.candidates(0, 0), vec![Path::Down, Path::Right]);
    assert_eq!(m.advance_with(1), Step::Carve(Path::Right));
    assert_eq!(m.candidates(0, 1), vec![Path::Down]);
    assert_eq!(m.advance_with(0), Step::Carve(Path::Down));
    assert_eq!(m.candidates(1, 1), vec![Path::Left]);
    assert_eq!(m.advance_with(0), Step::Carve(Path::Left));
    // Three carve steps have reached all four cells.
    assert_eq!(m.visited_count(), 4);
    assert_eq!(visited(&m), 4);
    assert_eq!(
        passages(&m),
        vec![(0, 0, Path::Right), (0, 1, Path::Down), (1, 1, Path::Left)]
    );
    assert_eq!(m.current(), Some((1, 0)));
    assert_eq!(m.depth(), 4);
    assert!(!m.is_complete());
    for _ in 0..4 {
        assert_eq!(m.advance_with(0), Step::Backtrack);
    }
    check_spanning_tree(&m);
    assert_eq!(
        passages(&m),
        vec![(0, 0, Path::Right), (0, 1, Path::Down), (1, 1, Path::Left)]
    );
}

#[test]
fn scripted_three_by_three_always_takes_the_first_candidate() {
    let mut m = fresh(3, 3);
    let mut kinds = Vec::new();
    while !m.is_complete() {
        kinds.push(m.advance_with(0));
    }
    let mut expect = vec![
        Step::Begin,
        Step::Carve(Path::Down),
        Step::Carve(Path::Down),
        Step::Carve(Path::Right),
        Step::Carve(Path::Up),
        Step::Carve(Path::Up),
        Step::Carve(Path::Right),
        Step::Carve(Path::Down),
        Step::Carve(Path::Down),
    ];
    for _ in 0..9 {
        expect.push(Step::Backtrack);
    }
    assert_eq!(kinds, expect);
    assert_eq!(
        passages(&m),
        vec![
            (0, 0, Path::Down),
            (0, 1, Path::Right),
            (0, 2, Path::Down),
            (1, 0, Path::Down),
            (1, 1, Path::Up),
            (1, 2, Path::Down),
            (2, 0, Path::Right),
            (2, 1, Path::Up),
        ]
    );
    check_spanning_tree(&m);
}

#[test]
fn the_same_script_gives_the_same_maze() {
    let script: Vec<usize> = (0..200).map(|i| (i * 7 + 3) % 11).collect();
    let mut a = fresh(5, 4);
    let mut b = fresh(5, 4);
    for &c in script.iter() {
        assert_eq!(a.advance_with(c), b.advance_with(c));
        assert_eq!(a.current(), b.current());
    }
    assert_eq!(passages(&a), passages(&b));
    assert!(a.is_complete());
    check_spanning_tree(&a);
}

#[test]
fn different_scripts_give_different_mazes() {
    let mut a = fresh(3, 3);
    let mut b = fresh(3, 3);
    for _ in 0..18 {
        a.advance_with(0);
        b.advance_with(1);
    }
    check_spanning_tree(&a);
    check_spanning_tree(&b);
    assert_ne!(passages(&a), passages(&b));
}

#[test]
fn a_random_run_builds_a_spanning_tree() {
    for (w, h) in [(1, 1), (1, 6), (6, 1), (2, 2), (3, 5), (8, 8), (30, 18)] {
        let mut m = fresh(w, h);
        let mut steps = 0;
        while !m.is_complete() {
            m.advance();
            steps += 1;
            assert!(steps <= 2 * w * h);
        }
        assert_eq!(steps, 2 * w * h);
        check_spanning_tree(&m);
    }
}

#[test]
fn a_full_run_pushes_and_pops_every_cell_once() {
    for (w, h) in [(1, 1), (2, 3), (7, 4)] {
        let mut m = fresh(w, h);
        let (mut pushes, mut pops) = (0, 0);
        let mut depth = 0;
        while !m.is_complete() {
            let step = m.advance();
            if step.is_push() {
                pushes += 1;
                depth += 1;
            }
            if step.is_pop() {
                pops += 1;
                depth -= 1;
            }
            assert!(step.is_push() != step.is_pop());
            assert_eq!(m.depth(), depth);
            assert!(m.is_complete() || depth > 0);
        }
        assert_eq!(pushes, w * h);
        assert_eq!(pops, w * h);
    }
}

#[test]
fn the_count_of_visited_cells_never_falls_and_rises_by_one_at_most() {
    let mut m = fresh(6, 5);
    let mut before = m.visited_count();
    let mut marks: Vec<bool> = m.cells().iter().map(|c| c.visited).collect();
    while !m.is_complete() {
        let frontier_before = m.current();
        let step = m.advance();
        let now = m.visited_count();
        assert_eq!(now, visited(&m));
        if step.is_push() {
            assert_eq!(now, before + 1);
            let (x, y) = m.current().expect("a push leaves a frontier");
            assert!(!marks[x * 6 + y]);
            assert_ne!(m.current(), frontier_before);
        } else {
            assert_eq!(now, before);
        }
        for (i, c) in m.cells().iter().enumerate() {
            assert!(c.visited || !marks[i]);
            marks[i] = c.visited;
        }
        before = now;
    }
}

#[test]
fn advance_after_completion_changes_nothing() {
    let mut m = fresh(4, 3);
    while !m.is_complete() {
        m.advance();
    }
    let grid = passages(&m);
    for choice in 0..10 {
        assert_eq!(m.advance_with(choice), Step::Done);
        assert_eq!(m.advance(), Step::Done);
        assert!(m.is_complete());
        assert_eq!(passages(&m), grid);
        assert_eq!(m.depth(), 0);
        assert_eq!(m.current(), None);
        assert_eq!(m.visited_count(), 12);
        assert_eq!(visited(&m), 12);
        assert_eq!(m.width(), 4);
        assert_eq!(m.height(), 3);
        assert_eq!(m.cell_path_width(), 1);
    }
}

#[test]
fn every_passage_ends_on_a_visited_cell_during_the_run() {
    let mut m = fresh(5, 5);
    while !m.is_complete() {
        m.advance();
        for c in m.cells().iter() {
            let mut seen: Vec<Path> = Vec::new();
            for p in c.paths.iter() {
                assert!(c.visited);
                assert!(!seen.contains(p));
                seen.push(*p);
                let (x, y) = p.neighbour(c.x, c.y).expect("a passage ends on the lattice");
                assert!(m.get_cell(x, y).expect("a passage ends on the lattice").visited);
            }
        }
        let n = visited(&m);
        assert_eq!(passages(&m).len(), n - 1);
    }
}

#[test]
fn advance_draws_among_the_candidates() {
    // From the origin of a 2x2 lattice the walk can go down or right. Over
    // many walks both must occur.
    let (mut down, mut right) = (0, 0);
    for _ in 0..200 {
        let mut m = fresh(2, 2);
        m.advance();
        match m.advance() {
            Step::Carve(Path::Down) => down += 1,
            Step::Carve(Path::Right) => right += 1,
            other => panic!("unexpected step {:?}", other),
        }
    }
    assert!(down > 0);
    assert!(right > 0);
}

#[test]
fn a_step_on_a_tampered_maze_still_follows_the_rules() {
    // With the neighbour below marked from outside, the walk at the origin
    // of a 2x2 lattice can only go right.
    let mut m = fresh(2, 2);
    m.advance_with(0);
    let mut c = Cell::new(1, 0);
    c.visited = true;
    m.set_cell(1, 0, c);
    assert_eq!(m.visited_count(), 2);
    assert_eq!(m.candidates(0, 0), vec![Path::Right]);
    assert_eq!(m.advance_with(0), Step::Carve(Path::Right));
    assert_eq!(m.advance_with(0), Step::Carve(Path::Down));
    assert_eq!(m.visited_count(), 4);
    assert_eq!(m.advance_with(0), Step::Backtrack);
}

#[test]
fn replay_takes_the_steps_in_order() {
    let mut a = fresh(2, 2);
    a.replay(&[0, 1, 0, 0]);
    assert_eq!(
        passages(&a),
        vec![(0, 0, Path::Right), (0, 1, Path::Down), (1, 1, Path::Left)]
    );
    assert_eq!(a.current(), Some((1, 0)));
    assert_eq!(a.depth(), 4);
    let mut b = fresh(2, 2);
    for c in [0, 1, 0, 0] {
        b.advance_with(c);
    }
    assert_eq!(passages(&a), passages(&b));
    assert_eq!(a.current(), b.current());
}

#[test]
fn replay_of_nothing_changes_nothing() {
    let mut m = fresh(3, 2);
    m.replay(&[]);
    assert_eq!(m.depth(), 0);
    assert_eq!(m.visited_count(), 0);
    m.replay(&[4, 4]);
    let before = (passages(&m), m.current(), m.depth());
    m.replay(&[]);
    assert_eq!((passages(&m), m.current(), m.depth()), before);
}

#[test]
fn replay_of_two_steps_per_cell_completes_the_maze() {
    for (w, h) in [(1, 1), (2, 2), (4, 3), (5, 7)] {
        for seed in 0..5usize {
            let script: Vec<usize> = (0..2 * w * h).map(|i| i * (seed + 3) + seed).collect();
            let mut m = fresh(w, h);
            m.replay(&script[..2 * w * h - 1]);
            assert!(!m.is_complete());
            m.replay(&script[2 * w * h - 1..]);
            check_spanning_tree(&m);
        }
    }
}
