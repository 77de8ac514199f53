use wilson_maze::{
    direction_reverse, get_backtrack_solution, get_bfs_solution, Cell, Direction, Priority,
    WilsonMaze,
};

fn generated(rows: usize, cols: usize, start: Cell, end: Cell) -> WilsonMaze {
    let mut maze = WilsonMaze::new(rows, cols, start, end);
    maze.generate();
    maze
}

fn sizes() -> Vec<(usize, usize)> {
    vec![(1, 1), (1, 2), (2, 1), (2, 2), (1, 7), (7, 1), (3, 3), (4, 6), (10, 10), (13, 5)]
}

/// The cell that one step in direction `d` leads to. The step stays inside
/// the grid wherever the passage is open.
fn step(cell: Cell, d: Direction) -> Cell {
    match d {
        Direction::Up => (cell.0 - 1, cell.1),
        Direction::Down => (cell.0 + 1, cell.1),
        Direction::Left => (cell.0, cell.1 - 1),
        Direction::Right => (cell.0, cell.1 + 1),
    }
}

fn open_neighbors(maze: &WilsonMaze, cell: Cell) -> Vec<Cell> {
    maze.neighbors(cell.0 as i32, cell.1 as i32)
        .into_iter()
        .filter(|(d, _)| maze.grid[cell.0][cell.1].contains(d))
        .map(|(_, next)| next)
        .collect()
}

/// The cells that can be reached from `from` through open passages.
fn flood(maze: &WilsonMaze, from: Cell) -> Vec<Cell> {
    let mut seen = vec![from];
    let mut at = 0;
    while at < seen.len() {
        for next in open_neighbors(maze, seen[at]) {
            if !seen.contains(&next) {
                seen.push(next);
            }
        }
        at += 1;
    }
    seen
}

/// The number of passages, each counted once.
fn count_edges(maze: &WilsonMaze) -> usize {
    let mut edges = 0;
    for r in 0..maze.rows {
        for c in 0..maze.cols {
            if maze.grid[r][c].contains(&Direction::Down) {
                edges += 1;
            }
            if maze.grid[r][c].contains(&Direction::Right) {
                edges += 1;
            }
        }
    }
    edges
}

/// The number of simple paths from `at` to `to` that go on from `trail`.
fn count_simple_paths(maze: &WilsonMaze, at: Cell, to: Cell, trail: &mut Vec<Cell>) -> usize {
    if at == to {
        return 1;
    }
    trail.push(at);
    let mut found = 0;
    for next in open_neighbors(maze, at) {
        if !trail.contains(&next) {
            found += count_simple_paths(maze, next, to, trail);
        }
    }
    trail.pop();
    found
}

#[test]
fn every_cell_is_reachable_from_every_other() {
    for (rows, cols) in sizes() {
        let maze = generated(rows, cols, (0, 0), (rows - 1, cols - 1));
        for r in 0..rows {
            for c in 0..cols {
                assert_eq!(flood(&maze, (r, c)).len(), rows * cols);
            }
        }
    }
}

#[test]
fn there_is_one_passage_less_than_cells() {
    for (rows, cols) in sizes() {
        for _ in 0..5 {
            let maze = generated(rows, cols, (0, 0), (rows - 1, cols - 1));
            assert_eq!(count_edges(&maze), rows * cols - 1);
        }
    }
}

#[test]
fn passages_are_open_from_both_sides() {
    for (rows, cols) in sizes() {
        let maze = generated(rows, cols, (0, 0), (rows - 1, cols - 1));
        for r in 0..rows {
            for c in 0..cols {
                for d in Direction::as_list() {
                    if maze.grid[r][c].contains(&d) {
                        assert!(maze.in_bounds(
                            r as i32 + maze.direction_lookup(&d).0,
                            c as i32 + maze.direction_lookup(&d).1
                        ));
                        let (nr, nc) = step((r, c), d);
                        assert!(maze.grid[nr][nc].contains(&direction_reverse(&d)));
                    }
                }
            }
        }
    }
}

#[test]
fn exactly_one_simple_path_joins_two_cells() {
    for (rows, cols) in [(1, 1), (1, 4), (2, 2), (3, 3), (4, 5)] {
        let maze = generated(rows, cols, (0, 0), (rows - 1, cols - 1));
        for a in 0..rows * cols {
            for b in 0..rows * cols {
                let from = (a / cols, a % cols);
                let to = (b / cols, b % cols);
                assert_eq!(count_simple_paths(&maze, from, to, &mut vec![]), 1);
            }
        }
    }
}

#[test]
fn generation_joins_every_cell_to_the_tree() {
    for (rows, cols) in sizes() {
        let maze = generated(rows, cols, (0, 0), (rows - 1, cols - 1));
        assert_eq!(maze.visited.len(), rows * cols);
    }
}

#[test]
fn generation_keeps_the_configuration() {
    let maze = generated(6, 4, (5, 1), (2, 3));
    assert_eq!(maze.rows, 6);
    assert_eq!(maze.cols, 4);
    assert_eq!(maze.start_cell, (5, 1));
    assert_eq!(maze.end_cell, (2, 3));
    assert_eq!(maze.grid.len(), 6);
    assert_eq!(maze.grid[5].len(), 4);
}

#[test]
fn generation_works_from_any_start_cell() {
    for r in 0..3 {
        for c in 0..4 {
            let maze = generated(3, 4, (r, c), (0, 0));
            assert_eq!(count_edges(&maze), 11);
            assert_eq!(flood(&maze, (r, c)).len(), 12);
        }
    }
}

#[test]
fn single_cell_maze_has_no_passages() {
    let maze = generated(1, 1, (0, 0), (0, 0));
    assert_eq!(maze.grid[0][0].len(), 0);
    assert_eq!(count_edges(&maze), 0);
    assert_eq!(maze.visited.to_vec(), vec![(0, 0)]);
}

#[test]
fn two_cells_are_joined_by_one_passage() {
    let maze = generated(1, 2, (0, 0), (0, 1));
    assert!(maze.grid[0][0].contains(&Direction::Right));
    assert!(maze.grid[0][1].contains(&Direction::Left));
    assert_eq!(maze.grid[0][0].len(), 1);
    assert_eq!(maze.grid[0][1].len(), 1);
}

#[test]
fn two_by_two_maze_has_three_passages() {
    for _ in 0..20 {
        let maze = generated(2, 2, (0, 0), (1, 1));
        assert_eq!(count_edges(&maze), 3);
        for policy in [Priority::Disabled, Priority::Close, Priority::Prio, Priority::Random] {
            let (solution, visited) = get_bfs_solution(&maze, policy).unwrap();
            assert!(solution.len() == 2 || solution.len() == 3);
            // The two corners are not adjacent, so a third cell lies between.
            assert_eq!(solution.len(), 3);
            assert!(solution.contains(&(0, 0)));
            assert!(solution.contains(&(1, 1)));
            assert!(visited.contains(&(0, 0)));
            assert!(visited.contains(&(1, 1)));
        }
        let (solution, _) = get_backtrack_solution(&maze).unwrap();
        assert_eq!(solution.len(), 3);
        assert!(solution.contains(&(0, 0)));
        assert!(solution.contains(&(1, 1)));
    }
}

#[test]
fn two_by_two_maze_with_adjacent_ends_has_a_solution_of_two_or_four() {
    for _ in 0..20 {
        let maze = generated(2, 2, (0, 0), (0, 1));
        let (solution, _) = get_bfs_solution(&maze, Priority::Disabled).unwrap();
        assert!(solution.len() == 2 || solution.len() == 4);
        assert!(solution.contains(&(0, 0)));
        assert!(solution.contains(&(0, 1)));
    }
}

#[test]
fn all_solvers_agree_on_a_generated_maze() {
    for (rows, cols) in sizes() {
        let maze = generated(rows, cols, (0, 0), (rows - 1, cols - 1));
        let (reference, _) = get_backtrack_solution(&maze).unwrap();
        for policy in [Priority::Disabled, Priority::Close, Priority::Prio, Priority::Random] {
            let (solution, visited) = get_bfs_solution(&maze, policy).unwrap();
            assert_eq!(solution.to_vec(), reference.to_vec());
            for cell in solution.to_vec() {
                assert!(visited.contains(&cell));
            }
        }
    }
}

#[test]
fn solution_of_a_generated_maze_is_the_simple_path() {
    let maze = generated(5, 5, (0, 0), (4, 4));
    let (solution, _) = get_bfs_solution(&maze, Priority::Disabled).unwrap();
    // Each cell of a path has two neighbours on it, the ends have one.
    for cell in solution.to_vec() {
        let on_path =
            open_neighbors(&maze, cell).into_iter().filter(|n| solution.contains(n)).count();
        if cell == (0, 0) || cell == (4, 4) {
            assert_eq!(on_path, 1);
        } else {
            assert_eq!(on_path, 2);
        }
    }
}

#[test]
fn generated_maze_is_solved_the_same_way_twice() {
    let maze = generated(8, 8, (0, 0), (7, 7));
    for policy in [Priority::Disabled, Priority::Close, Priority::Prio, Priority::Random] {
        let (first, _) = get_bfs_solution(&maze, policy).unwrap();
        let (second, _) = get_bfs_solution(&maze, policy).unwrap();
        assert_eq!(first.to_vec(), second.to_vec());
    }
}

#[test]
fn walk_from_a_tree_cell_is_empty() {
    let mut maze = WilsonMaze::new(3, 3, (1, 1), (2, 2));
    maze.visited.insert((1, 1));
    assert_eq!(maze.random_walk((1, 1)), vec![]);
    assert_eq!(maze.random_walk_within((1, 1), 0), vec![]);
}

#[test]
fn walk_without_random_steps_heads_for_the_start_cell() {
    let mut maze = WilsonMaze::new(3, 3, (0, 0), (2, 2));
    maze.visited.insert((0, 0));
    assert_eq!(
        maze.random_walk_within((2, 2), 0),
        vec![
            ((2, 2), Direction::Up, (1, 2)),
            ((1, 2), Direction::Up, (0, 2)),
            ((0, 2), Direction::Left, (0, 1)),
            ((0, 1), Direction::Left, (0, 0)),
        ]
    );
}

#[test]
fn walk_without_random_steps_stops_at_the_first_tree_cell() {
    let mut maze = WilsonMaze::new(3, 3, (0, 0), (2, 2));
    maze.visited.insert((0, 0));
    maze.visited.insert((1, 2));
    assert_eq!(maze.random_walk_within((2, 2), 0), vec![((2, 2), Direction::Up, (1, 2))]);
}

#[test]
fn step_towards_goes_along_the_column_first() {
    let maze = WilsonMaze::new(4, 4, (0, 0), (3, 3));
    assert_eq!(maze.step_towards((3, 0), (1, 2)), (Direction::Up, (2, 0)));
    assert_eq!(maze.step_towards((0, 3), (1, 2)), (Direction::Down, (1, 3)));
    assert_eq!(maze.step_towards((1, 3), (1, 2)), (Direction::Left, (1, 2)));
    assert_eq!(maze.step_towards((1, 0), (1, 2)), (Direction::Right, (1, 1)));
}

#[test]
fn home_cell_is_the_start_cell_where_it_is_in_the_tree() {
    let mut maze = WilsonMaze::new(3, 3, (1, 1), (2, 2));
    maze.visited.insert((0, 2));
    maze.visited.insert((1, 1));
    maze.visited.insert((0, 0));
    assert_eq!(maze.home_cell(), (1, 1));
}

#[test]
fn home_cell_is_the_first_tree_cell_otherwise() {
    let mut maze = WilsonMaze::new(3, 3, (1, 1), (2, 2));
    maze.visited.insert((2, 0));
    maze.visited.insert((1, 2));
    assert_eq!(maze.home_cell(), (1, 2));
}

#[test]
fn walk_ends_in_a_tree_without_the_start_cell() {
    let mut maze = WilsonMaze::new(3, 3, (0, 0), (2, 2));
    maze.visited.insert((2, 2));
    assert_eq!(
        maze.random_walk_within((0, 0), 0),
        vec![
            ((0, 0), Direction::Down, (1, 0)),
            ((1, 0), Direction::Down, (2, 0)),
            ((2, 0), Direction::Right, (2, 1)),
            ((2, 1), Direction::Right, (2, 2)),
        ]
    );
    for _ in 0..50 {
        let walk = maze.random_walk((0, 0));
        assert_eq!(walk[0].0, (0, 0));
        assert_eq!(walk[walk.len() - 1].2, (2, 2));
    }
}

#[test]
fn random_walk_is_a_simple_chain_that_ends_in_the_tree() {
    for budget in [0, 1, 2, 5, 50, usize::MAX] {
        for _ in 0..20 {
            let mut maze = WilsonMaze::new(5, 5, (2, 2), (4, 4));
            maze.visited.insert((2, 2));
            let walk = maze.random_walk_within((4, 0), budget);
            assert!(!walk.is_empty());
            assert_eq!(walk[0].0, (4, 0));
            assert_eq!(walk[walk.len() - 1].2, (2, 2));
            let mut left: Vec<Cell> = vec![];
            for (i, (from, d, to)) in walk.iter().enumerate() {
                assert_eq!(step(*from, *d), *to);
                assert!(maze.in_bounds(to.0 as i32, to.1 as i32));
                assert!(!maze.visited.contains(from));
                assert!(!left.contains(from));
                left.push(*from);
                if i + 1 < walk.len() {
                    assert_eq!(walk[i + 1].0, *to);
                }
            }
        }
    }
}

#[test]
fn random_walk_changes_nothing() {
    let mut maze = WilsonMaze::new(4, 4, (0, 0), (3, 3));
    maze.visited.insert((0, 0));
    let _ = maze.random_walk((3, 3));
    assert_eq!(maze.visited.to_vec(), vec![(0, 0)]);
    assert_eq!(count_edges(&maze), 0);
}

#[test]
fn random_walks_take_different_ways() {
    let mut maze = WilsonMaze::new(6, 6, (0, 0), (5, 5));
    maze.visited.insert((0, 0));
    let first = maze.random_walk((5, 5));
    let mut differs = false;
    for _ in 0..200 {
        if maze.random_walk((5, 5)) != first {
            differs = true;
        }
    }
    assert!(differs);
}

#[test]
fn generation_gives_different_mazes() {
    let first = generated(5, 5, (0, 0), (4, 4));
    let mut differs = false;
    for _ in 0..50 {
        let other = generated(5, 5, (0, 0), (4, 4));
        for r in 0..5 {
            for c in 0..5 {
                for d in Direction::as_list() {
                    if first.grid[r][c].contains(&d) != other.grid[r][c].contains(&d) {
                        differs = true;
                    }
                }
            }
        }
    }
    assert!(differs);
}

#[test]
fn every_spanning_tree_of_two_by_two_is_generated() {
    // A grid of two by two cells has four spanning trees: each leaves out
    // one of the four possible passages.
    let mut left_out = [false; 4];
    for _ in 0..400 {
        let maze = generated(2, 2, (0, 0), (1, 1));
        let open = [
            maze.grid[0][0].contains(&Direction::Right),
            maze.grid[0][0].contains(&Direction::Down),
            maze.grid[0][1].contains(&Direction::Down),
            maze.grid[1][0].contains(&Direction::Right),
        ];
        assert_eq!(open.iter().filter(|is_open| **is_open).count(), 3);
        for i in 0..4 {
            if !open[i] {
                left_out[i] = true;
            }
        }
    }
    assert_eq!(left_out, [true; 4]);
}

#[test]
fn open_directions_are_twice_the_passages() {
    for (rows, cols) in sizes() {
        let maze = generated(rows, cols, (0, 0), (rows - 1, cols - 1));
        let mut total = 0;
        for row in &maze.grid {
            for cell in row {
                total += cell.len();
            }
        }
        assert_eq!(total, 2 * (rows * cols - 1));
    }
}

#[test]
fn two_by_two_maze_holds_six_open_directions() {
    let maze = generated(2, 2, (0, 0), (1, 1));
    let total: usize = maze.grid.iter().flatten().map(|cell| cell.len()).sum();
    assert_eq!(total, 6);
}

#[test]
fn a_row_of_three_cells_has_one_maze() {
    for _ in 0..20 {
        let maze = generated(1, 3, (0, 0), (0, 2));
        assert!(maze.grid[0][0].contains(&Direction::Right));
        assert_eq!(maze.grid[0][0].len(), 1);
        assert!(maze.grid[0][1].contains(&Direction::Left));
        assert!(maze.grid[0][1].contains(&Direction::Right));
        assert_eq!(maze.grid[0][1].len(), 2);
        assert!(maze.grid[0][2].contains(&Direction::Left));
        assert_eq!(maze.grid[0][2].len(), 1);
    }
}

#[test]
fn clone_of_a_maze_is_the_same_maze() {
    let maze = generated(4, 5, (1, 1), (3, 4));
    let copy = maze.clone();
    assert_eq!(copy.rows, 4);
    assert_eq!(copy.cols, 5);
    assert_eq!(copy.start_cell, (1, 1));
    assert_eq!(copy.end_cell, (3, 4));
    assert_eq!(copy.grid, maze.grid);
    assert_eq!(copy.visited.to_vec(), maze.visited.to_vec());
    let (first, _) = get_backtrack_solution(&maze).unwrap();
    let (second, _) = get_backtrack_solution(&copy).unwrap();
    assert_eq!(first.to_vec(), second.to_vec());
}

#[test]
fn clone_does_not_share_with_the_maze() {
    let maze = WilsonMaze::new(2, 2, (0, 0), (1, 1));
    let mut copy = maze.clone();
    copy.generate();
    assert_eq!(count_edges(&maze), 0);
    assert_eq!(maze.visited.len(), 0);
    assert_eq!(count_edges(&copy), 3);
}
