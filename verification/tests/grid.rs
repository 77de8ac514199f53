use wilson_maze::{
    direction_between, direction_reverse, generate_grid, CellMap, CellSet, Direction, MazeError,
    Passages, WilsonMaze,
};

#[test]
fn directions_are_listed_up_down_left_right() {
    assert_eq!(
        Direction::as_list(),
        vec![Direction::Up, Direction::Down, Direction::Left, Direction::Right]
    );
}

#[test]
fn reversing_swaps_up_with_down_and_left_with_right() {
    assert_eq!(direction_reverse(&Direction::Up), Direction::Down);
    assert_eq!(direction_reverse(&Direction::Down), Direction::Up);
    assert_eq!(direction_reverse(&Direction::Left), Direction::Right);
    assert_eq!(direction_reverse(&Direction::Right), Direction::Left);
}

#[test]
fn reversing_twice_gives_the_direction_back() {
    for d in Direction::as_list() {
        assert_eq!(direction_reverse(&direction_reverse(&d)), d);
        assert_ne!(direction_reverse(&d), d);
    }
}

#[test]
fn offsets_are_fixed() {
    let maze = WilsonMaze::new(2, 2, (0, 0), (1, 1));
    assert_eq!(maze.direction_lookup(&Direction::Up), (-1, 0));
    assert_eq!(maze.direction_lookup(&Direction::Down), (1, 0));
    assert_eq!(maze.direction_lookup(&Direction::Left), (0, -1));
    assert_eq!(maze.direction_lookup(&Direction::Right), (0, 1));
}

#[test]
fn direction_between_adjacent_cells() {
    assert_eq!(direction_between((3, 3), (2, 3)), Direction::Up);
    assert_eq!(direction_between((3, 3), (4, 3)), Direction::Down);
    assert_eq!(direction_between((3, 3), (3, 2)), Direction::Left);
    assert_eq!(direction_between((3, 3), (3, 4)), Direction::Right);
}

#[test]
fn fresh_grid_is_walled_in() {
    let grid = generate_grid(3, 4);
    assert_eq!(grid.len(), 3);
    for row in &grid {
        assert_eq!(row.len(), 4);
        for cell in row {
            assert_eq!(cell.len(), 0);
            for d in Direction::as_list() {
                assert!(!cell.contains(&d));
            }
        }
    }
}

#[test]
fn empty_grid_has_no_rows() {
    assert_eq!(generate_grid(0, 5).len(), 0);
    let grid = generate_grid(2, 0);
    assert_eq!(grid.len(), 2);
    assert_eq!(grid[0].len(), 0);
}

#[test]
fn new_maze_keeps_its_configuration() {
    let maze = WilsonMaze::new(4, 6, (1, 2), (3, 5));
    assert_eq!(maze.rows, 4);
    assert_eq!(maze.cols, 6);
    assert_eq!(maze.start_cell, (1, 2));
    assert_eq!(maze.end_cell, (3, 5));
    assert_eq!(maze.grid.len(), 4);
    assert_eq!(maze.grid[0].len(), 6);
    assert_eq!(maze.visited.len(), 0);
    for r in 0..4 {
        for c in 0..6 {
            assert_eq!(maze.grid[r][c].len(), 0);
            assert!(!maze.visited.contains(&(r, c)));
        }
    }
}

#[test]
fn try_new_accepts_valid_configuration() {
    let maze = WilsonMaze::try_new(3, 3, (0, 0), (2, 2)).unwrap();
    assert_eq!(maze.rows, 3);
    assert_eq!(maze.cols, 3);
    assert_eq!(maze.start_cell, (0, 0));
    assert_eq!(maze.end_cell, (2, 2));
}

#[test]
fn try_new_accepts_start_equal_to_end() {
    assert!(WilsonMaze::try_new(1, 1, (0, 0), (0, 0)).is_ok());
}

#[test]
fn try_new_rejects_zero_dimensions() {
    assert_eq!(WilsonMaze::try_new(0, 3, (0, 0), (0, 0)).err(), Some(MazeError::BadDimensions));
    assert_eq!(WilsonMaze::try_new(3, 0, (0, 0), (0, 0)).err(), Some(MazeError::BadDimensions));
    assert_eq!(WilsonMaze::try_new(0, 0, (0, 0), (0, 0)).err(), Some(MazeError::BadDimensions));
}

#[test]
fn try_new_rejects_dimensions_beyond_signed_coordinates() {
    assert_eq!(
        WilsonMaze::try_new(0x8000_0000, 1, (0, 0), (0, 0)).err(),
        Some(MazeError::BadDimensions)
    );
    assert_eq!(
        WilsonMaze::try_new(1, 0x8000_0000, (0, 0), (0, 0)).err(),
        Some(MazeError::BadDimensions)
    );
    assert_eq!(
        WilsonMaze::try_new(usize::MAX, usize::MAX, (0, 0), (0, 0)).err(),
        Some(MazeError::BadDimensions)
    );
}

#[test]
fn try_new_rejects_start_outside() {
    assert_eq!(
        WilsonMaze::try_new(3, 3, (3, 0), (2, 2)).err(),
        Some(MazeError::StartOutOfBounds)
    );
    assert_eq!(
        WilsonMaze::try_new(3, 3, (0, 3), (2, 2)).err(),
        Some(MazeError::StartOutOfBounds)
    );
    // The start cell is looked at before the end cell.
    assert_eq!(
        WilsonMaze::try_new(3, 3, (9, 9), (9, 9)).err(),
        Some(MazeError::StartOutOfBounds)
    );
}

#[test]
fn try_new_rejects_end_outside() {
    assert_eq!(WilsonMaze::try_new(3, 3, (0, 0), (3, 2)).err(), Some(MazeError::EndOutOfBounds));
    assert_eq!(WilsonMaze::try_new(3, 3, (0, 0), (2, 3)).err(), Some(MazeError::EndOutOfBounds));
}

#[test]
fn max_dist_is_rows_plus_cols() {
    assert_eq!(WilsonMaze::new(10, 10, (0, 0), (9, 9)).max_dist(), 20);
    assert_eq!(WilsonMaze::new(1, 1, (0, 0), (0, 0)).max_dist(), 2);
    assert_eq!(WilsonMaze::new(3, 7, (0, 0), (2, 6)).max_dist(), 10);
}

#[test]
fn in_bounds_accepts_cells_of_the_grid() {
    let maze = WilsonMaze::new(3, 4, (0, 0), (2, 3));
    assert!(maze.in_bounds(0, 0));
    assert!(maze.in_bounds(2, 3));
    assert!(maze.in_bounds(1, 2));
}

#[test]
fn in_bounds_rejects_negative_and_large_coordinates() {
    let maze = WilsonMaze::new(3, 4, (0, 0), (2, 3));
    assert!(!maze.in_bounds(-1, 0));
    assert!(!maze.in_bounds(0, -1));
    assert!(!maze.in_bounds(3, 0));
    assert!(!maze.in_bounds(0, 4));
    assert!(!maze.in_bounds(i32::MIN, i32::MIN));
    assert!(!maze.in_bounds(i32::MAX, i32::MAX));
}

#[test]
fn neighbors_of_a_middle_cell() {
    let maze = WilsonMaze::new(3, 3, (0, 0), (2, 2));
    assert_eq!(
        maze.neighbors(1, 1),
        vec![
            (Direction::Up, (0, 1)),
            (Direction::Down, (2, 1)),
            (Direction::Left, (1, 0)),
            (Direction::Right, (1, 2)),
        ]
    );
}

#[test]
fn neighbors_of_the_corners() {
    let maze = WilsonMaze::new(3, 4, (0, 0), (2, 3));
    assert_eq!(maze.neighbors(0, 0), vec![(Direction::Down, (1, 0)), (Direction::Right, (0, 1))]);
    assert_eq!(maze.neighbors(0, 3), vec![(Direction::Down, (1, 3)), (Direction::Left, (0, 2))]);
    assert_eq!(maze.neighbors(2, 0), vec![(Direction::Up, (1, 0)), (Direction::Right, (2, 1))]);
    assert_eq!(maze.neighbors(2, 3), vec![(Direction::Up, (1, 3)), (Direction::Left, (2, 2))]);
}

#[test]
fn neighbors_of_an_edge_cell() {
    let maze = WilsonMaze::new(3, 4, (0, 0), (2, 3));
    assert_eq!(
        maze.neighbors(0, 1),
        vec![(Direction::Down, (1, 1)), (Direction::Left, (0, 0)), (Direction::Right, (0, 2))]
    );
}

#[test]
fn the_only_cell_has_no_neighbors() {
    let maze = WilsonMaze::new(1, 1, (0, 0), (0, 0));
    assert_eq!(maze.neighbors(0, 0), vec![]);
}

#[test]
fn neighbors_do_not_depend_on_passages() {
    let mut maze = WilsonMaze::new(2, 2, (0, 0), (1, 1));
    let before = maze.neighbors(0, 0);
    maze.generate();
    assert_eq!(maze.neighbors(0, 0), before);
}

#[test]
fn passages_start_closed_and_open_one_by_one() {
    let mut p = Passages::new();
    assert_eq!(p.len(), 0);
    assert!(p.insert(Direction::Left));
    assert!(p.contains(&Direction::Left));
    assert!(!p.contains(&Direction::Right));
    assert_eq!(p.len(), 1);
    assert!(!p.insert(Direction::Left));
    assert_eq!(p.len(), 1);
    assert!(p.insert(Direction::Up));
    assert!(p.insert(Direction::Down));
    assert!(p.insert(Direction::Right));
    assert_eq!(p.len(), 4);
    for d in Direction::as_list() {
        assert!(p.contains(&d));
    }
}

#[test]
fn cell_set_holds_what_was_inserted() {
    let mut set = CellSet::new(3, 4);
    assert_eq!(set.len(), 0);
    assert!(!set.contains(&(1, 2)));
    set.insert((1, 2));
    set.insert((0, 3));
    set.insert((1, 2));
    assert!(set.contains(&(1, 2)));
    assert!(set.contains(&(0, 3)));
    assert!(!set.contains(&(2, 2)));
    assert_eq!(set.len(), 2);
    assert_eq!(set.to_vec(), vec![(0, 3), (1, 2)]);
}

#[test]
fn cell_set_holds_no_cell_outside_the_grid() {
    let mut set = CellSet::new(2, 2);
    set.insert((1, 1));
    assert!(!set.contains(&(2, 1)));
    assert!(!set.contains(&(1, 2)));
    assert!(!set.contains(&(usize::MAX, usize::MAX)));
}

#[test]
fn cell_set_extend_is_union() {
    let mut a = CellSet::new(2, 3);
    a.insert((0, 0));
    a.insert((1, 2));
    let mut b = CellSet::new(2, 3);
    b.insert((1, 2));
    b.insert((1, 0));
    a.extend(&b);
    assert_eq!(a.to_vec(), vec![(0, 0), (1, 0), (1, 2)]);
    assert_eq!(b.to_vec(), vec![(1, 0), (1, 2)]);
}

#[test]
fn cell_map_gives_the_latest_entry() {
    let mut map = CellMap::new(2, 2);
    assert_eq!(map.get(&(0, 1)), None);
    map.insert((0, 1), (0, 0));
    assert_eq!(map.get(&(0, 1)), Some((0, 0)));
    map.insert((0, 1), (1, 1));
    assert_eq!(map.get(&(0, 1)), Some((1, 1)));
    assert_eq!(map.get(&(1, 1)), None);
    assert_eq!(map.get(&(5, 5)), None);
}

#[test]
fn clone_of_a_cell_set_has_the_same_members() {
    let mut set = CellSet::new(3, 3);
    set.insert((0, 2));
    set.insert((2, 1));
    let mut copy = set.clone();
    assert_eq!(copy.to_vec(), vec![(0, 2), (2, 1)]);
    copy.insert((1, 1));
    assert_eq!(set.to_vec(), vec![(0, 2), (2, 1)]);
    assert_eq!(copy.to_vec(), vec![(0, 2), (1, 1), (2, 1)]);
}

#[test]
fn try_new_accepts_a_long_row_of_cells() {
    let maze = WilsonMaze::try_new(1, 100_000, (0, 0), (0, 99_999)).unwrap();
    assert_eq!(maze.cols, 100_000);
    assert_eq!(maze.max_dist(), 100_001);
}

#[test]
fn first_member_of_a_cell_set() {
    let mut set = CellSet::new(3, 4);
    assert_eq!(set.first(), None);
    set.insert((2, 1));
    assert_eq!(set.first(), Some((2, 1)));
    set.insert((1, 3));
    assert_eq!(set.first(), Some((1, 3)));
    set.insert((1, 0));
    assert_eq!(set.first(), Some((1, 0)));
}
