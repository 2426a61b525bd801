use maze::{Cell, Maze, MazeCell, MazeError, Path, PixelRect, Shade};

fn build(width: usize, height: usize) -> Maze {
    match Maze::new(width, height, 3) {
        Ok(m) => m,
        Err(e) => panic!("the dimensions {}x{} were refused: {:?}", width, height, e),
    }
}

#[test]
fn new_rejects_zero_width() {
    assert_eq!(Maze::new(0, 5, 3).err(), Some(MazeError::InvalidDimensions));
}

#[test]
fn new_rejects_zero_height() {
    assert_eq!(Maze::new(5, 0, 3).err(), Some(MazeError::InvalidDimensions));
}

#[test]
fn new_rejects_zero_by_zero() {
    assert_eq!(Maze::new(0, 0, 1).err(), Some(MazeError::InvalidDimensions));
}

#[test]
fn new_accepts_one_by_one() {
    let m = build(1, 1);
    assert_eq!(m.width(), 1);
    assert_eq!(m.height(), 1);
    assert_eq!(m.cells().len(), 1);
}

#[test]
fn new_lays_cells_out_row_by_row() {
    let m = build(4, 3);
    assert_eq!(m.width(), 4);
    assert_eq!(m.height(), 3);
    assert_eq!(m.cell_path_width(), 3);
    assert_eq!(m.cells().len(), 12);
    for (i, c) in m.cells().iter().enumerate() {
        assert_eq!(c.x, i / 4);
        assert_eq!(c.y, i % 4);
        assert!(!c.visited);
        assert!(c.paths.is_empty());
    }
    assert_eq!(m.visited_count(), 0);
    assert_eq!(m.depth(), 0);
    assert_eq!(m.current(), None);
    assert!(!m.is_complete());
}

#[test]
fn get_cell_finds_every_position() {
    let m = build(5, 2);
    for x in 0..2 {
        for y in 0..5 {
            let c = m.get_cell(x, y).expect("a position of the lattice has a cell");
            assert_eq!((c.x, c.y), (x, y));
            assert!(!c.visited);
        }
    }
}

#[test]
fn get_cell_is_absent_off_the_lattice() {
    let m = build(5, 2);
    assert!(m.get_cell(2, 0).is_none());
    assert!(m.get_cell(0, 5).is_none());
    assert!(m.get_cell(1, 5).is_none());
    assert!(m.get_cell(2, 5).is_none());
    assert!(m.get_cell(usize::MAX, 0).is_none());
    assert!(m.get_cell(0, usize::MAX).is_none());
    assert!(m.get_cell(usize::MAX, usize::MAX).is_none());
}

#[test]
fn get_cell_does_not_wrap_into_the_next_row() {
    let mut m = build(3, 3);
    let mut marked = Cell::new(1, 0);
    marked.visited = true;
    m.set_cell(1, 0, marked);
    // Row 0, column 3 would be stored where row 1, column 0 is.
    assert!(m.get_cell(0, 3).is_none());
    assert!(m.get_cell(1, 0).expect("on the lattice").visited);
}

#[test]
fn set_cell_replaces_one_cell() {
    let mut m = build(3, 2);
    let mut c = Cell::new(1, 2);
    c.visited = true;
    c.paths.push(Path::Left);
    m.set_cell(1, 2, c);
    for x in 0..2 {
        for y in 0..3 {
            let got = m.get_cell(x, y).expect("on the lattice");
            if (x, y) == (1, 2) {
                assert!(got.visited);
                assert_eq!(got.paths, vec![Path::Left]);
            } else {
                assert!(!got.visited);
                assert!(got.paths.is_empty());
            }
            assert_eq!((got.x, got.y), (x, y));
        }
    }
    assert_eq!(m.visited_count(), 1);
    assert_eq!(m.depth(), 0);
}

#[test]
fn set_cell_keeps_the_count_of_visited_cells() {
    let mut m = build(2, 2);
    let mut c = Cell::new(0, 1);
    c.visited = true;
    m.set_cell(0, 1, c.clone());
    assert_eq!(m.visited_count(), 1);
    m.set_cell(0, 1, c);
    assert_eq!(m.visited_count(), 1);
    m.set_cell(0, 1, Cell::new(0, 1));
    assert_eq!(m.visited_count(), 0);
}

#[test]
fn set_cell_off_the_lattice_changes_nothing() {
    let mut m = build(3, 2);
    let mut c = Cell::new(2, 0);
    c.visited = true;
    m.set_cell(2, 0, c.clone());
    m.set_cell(0, 3, c.clone());
    m.set_cell(usize::MAX, usize::MAX, c);
    assert_eq!(m.visited_count(), 0);
    assert!(m.cells().iter().all(|c| !c.visited && c.paths.is_empty()));
    assert_eq!(m.cells().len(), 6);
}

#[test]
fn cell_new_is_unvisited() {
    let c = Cell::new(7, 9);
    assert_eq!(c.x, 7);
    assert_eq!(c.y, 9);
    assert!(!c.visited);
    assert!(c.paths.is_empty());
}

#[test]
fn cell_clone_keeps_every_field() {
    let mut c = Cell::new(3, 4);
    c.visited = true;
    c.paths.push(Path::Down);
    c.paths.push(Path::Right);
    let d = c.clone();
    assert_eq!(d.x, 3);
    assert_eq!(d.y, 4);
    assert!(d.visited);
    assert_eq!(d.paths, vec![Path::Down, Path::Right]);
}

#[test]
fn cells_are_equal_when_they_stand_at_the_same_position() {
    let a = Cell::new(1, 2);
    let mut b = Cell::new(1, 2);
    b.visited = true;
    b.paths.push(Path::Up);
    assert!(a == b);
    assert!(a != Cell::new(2, 1));
    assert!(a != Cell::new(1, 3));
}

#[test]
fn cell_opens_looks_through_its_passages() {
    let mut c = Cell::new(0, 0);
    assert!(!c.opens(Path::Down));
    c.paths.push(Path::Down);
    c.paths.push(Path::Right);
    assert!(c.opens(Path::Down));
    assert!(c.opens(Path::Right));
    assert!(!c.opens(Path::Up));
    assert!(!c.opens(Path::Left));
}

#[test]
fn path_neighbour_follows_the_delta_table() {
    assert_eq!(Path::Up.neighbour(4, 7), Some((3, 7)));
    assert_eq!(Path::Down.neighbour(4, 7), Some((5, 7)));
    assert_eq!(Path::Left.neighbour(4, 7), Some((4, 6)));
    assert_eq!(Path::Right.neighbour(4, 7), Some((4, 8)));
}

#[test]
fn path_neighbour_stops_at_the_ends_of_usize() {
    assert_eq!(Path::Up.neighbour(0, 7), None);
    assert_eq!(Path::Left.neighbour(4, 0), None);
    assert_eq!(Path::Down.neighbour(usize::MAX, 7), None);
    assert_eq!(Path::Right.neighbour(4, usize::MAX), None);
    assert_eq!(Path::Down.neighbour(usize::MAX - 1, 7), Some((usize::MAX, 7)));
}

#[test]
fn path_tile_lies_along_the_side_of_the_body() {
    assert_eq!(Path::Right.tile(0, 3), (3, 0));
    assert_eq!(Path::Right.tile(2, 3), (3, 2));
    assert_eq!(Path::Up.tile(0, 3), (0, -1));
    assert_eq!(Path::Up.tile(2, 3), (2, -1));
    assert_eq!(Path::Left.tile(1, 3), (-1, 1));
    assert_eq!(Path::Down.tile(1, 3), (1, 3));
    assert_eq!(Path::Down.tile(0, 1), (0, 1));
}

#[test]
fn candidates_come_in_the_order_up_down_left_right() {
    let m = build(3, 3);
    assert_eq!(m.candidates(1, 1), vec![Path::Up, Path::Down, Path::Left, Path::Right]);
    assert_eq!(m.candidates(0, 0), vec![Path::Down, Path::Right]);
    assert_eq!(m.candidates(0, 2), vec![Path::Down, Path::Left]);
    assert_eq!(m.candidates(2, 0), vec![Path::Up, Path::Right]);
    assert_eq!(m.candidates(2, 2), vec![Path::Up, Path::Left]);
    assert_eq!(m.candidates(1, 0), vec![Path::Up, Path::Down, Path::Right]);
}

#[test]
fn candidates_leave_out_visited_cells() {
    let mut m = build(3, 3);
    let mut c = Cell::new(0, 1);
    c.visited = true;
    m.set_cell(0, 1, c);
    let mut d = Cell::new(1, 2);
    d.visited = true;
    m.set_cell(1, 2, d);
    assert_eq!(m.candidates(1, 1), vec![Path::Down, Path::Left]);
    assert!(m.is_unvisited(1, 1));
    assert!(!m.is_unvisited(0, 1));
    assert!(!m.is_unvisited(3, 1));
    assert!(m.can_go(1, 1, Path::Down));
    assert!(!m.can_go(1, 1, Path::Up));
    assert!(!m.can_go(0, 0, Path::Up));
}

#[test]
fn candidates_of_a_position_off_the_lattice() {
    let m = build(2, 2);
    // Row 2 lies below the lattice; only its upper neighbour is a cell.
    assert_eq!(m.candidates(2, 1), vec![Path::Up]);
    assert_eq!(m.candidates(0, 2), vec![Path::Left]);
    assert!(m.candidates(5, 5).is_empty());
    assert!(m.candidates(usize::MAX, usize::MAX).is_empty());
}

#[test]
fn a_single_cell_has_no_candidates() {
    let m = build(1, 1);
    assert!(m.candidates(0, 0).is_empty());
    assert!(m.select_cell(0, 0, 0).is_none());
    assert!(m.get_random_cell(0, 0).is_none());
    assert_eq!(m.choices(), 0);
}

#[test]
fn select_cell_counts_modulo_the_number_of_candidates() {
    let m = build(3, 3);
    let expect = [
        (Path::Up, (0, 1)),
        (Path::Down, (2, 1)),
        (Path::Left, (1, 0)),
        (Path::Right, (1, 2)),
    ];
    for choice in 0..12 {
        let (c, p) = m.select_cell(1, 1, choice).expect("four candidates");
        assert_eq!(p, expect[choice % 4].0);
        assert_eq!((c.x, c.y), expect[choice % 4].1);
        assert!(!c.visited);
    }
    let (c, p) = m.select_cell(0, 0, 1).expect("two candidates");
    assert_eq!(p, Path::Right);
    assert_eq!((c.x, c.y), (0, 1));
    let (c, p) = m.select_cell(0, 0, 2).expect("two candidates");
    assert_eq!(p, Path::Down);
    assert_eq!((c.x, c.y), (1, 0));
    let (_, p) = m.select_cell(0, 0, usize::MAX).expect("two candidates");
    assert_eq!(p, Path::Right);
}

#[test]
fn get_random_cell_returns_a_candidate() {
    let m = build(3, 3);
    for _ in 0..50 {
        let (c, p) = m.get_random_cell(0, 0).expect("two candidates");
        assert!(p == Path::Down || p == Path::Right);
        assert_eq!(Some((c.x, c.y)), p.neighbour(0, 0));
        assert!(!c.visited);
    }
}

#[test]
fn get_random_cell_reaches_every_candidate() {
    let m = build(3, 3);
    let mut seen = [false; 4];
    for _ in 0..400 {
        let (_, p) = m.get_random_cell(1, 1).expect("four candidates");
        match p {
            Path::Up => seen[0] = true,
            Path::Down => seen[1] = true,
            Path::Left => seen[2] = true,
            Path::Right => seen[3] = true,
        }
    }
    assert_eq!(seen, [true, true, true, true]);
}

#[test]
fn get_random_cell_is_absent_when_every_neighbour_is_visited() {
    let mut m = build(2, 1);
    let mut c = Cell::new(0, 1);
    c.visited = true;
    m.set_cell(0, 1, c);
    assert!(m.get_random_cell(0, 0).is_none());
    assert!(m.get_random_cell(0, 1).is_some());
}

#[test]
fn shade_tells_the_frontier_from_the_rest() {
    let mut m = build(2, 2);
    let fresh = Cell::new(0, 0);
    assert_eq!(m.shade(&fresh), Shade::Unvisited);
    m.advance_with(0);
    m.advance_with(0);
    // The walk stands at row 1, column 0 and has left row 0, column 0.
    let cells: Vec<Cell> = m.cells().clone();
    assert_eq!(m.shade(&cells[0]), Shade::Visited);
    assert_eq!(m.shade(&cells[1]), Shade::Unvisited);
    assert_eq!(m.shade(&cells[2]), Shade::Current);
    assert_eq!(m.shade(&cells[3]), Shade::Unvisited);
}

#[test]
fn maze_cell_new_keeps_its_arguments() {
    let c = MazeCell::new(3, -4, true);
    assert_eq!(c.x, 3);
    assert_eq!(c.y, -4);
    assert!(c.visited);
    assert_eq!(c, MazeCell { x: 3, y: -4, visited: true });
}

#[test]
fn maze_cell_from_a_pair_is_unvisited() {
    let c = MazeCell::from((5, 6));
    assert_eq!(c, MazeCell::new(5, 6, false));
    let d: MazeCell = (i16::MIN, i16::MAX).into();
    assert_eq!(d, MazeCell::new(i16::MIN, i16::MAX, false));
}

#[test]
fn maze_cell_rect_scales_by_the_size_of_a_square() {
    assert_eq!(
        MazeCell::new(0, 0, false).rect(),
        PixelRect { left: 0, top: 0, width: 10, height: 10 }
    );
    assert_eq!(
        MazeCell::new(3, 7, true).rect(),
        PixelRect { left: 30, top: 70, width: 10, height: 10 }
    );
    assert_eq!(
        MazeCell::new(i16::MAX, i16::MIN, true).rect(),
        PixelRect { left: 327670, top: -327680, width: 10, height: 10 }
    );
}
