use wilson_maze::{
    backtrack, bfs_solve, get_backtrack_solution, get_bfs_solution, solve, solve_with, Cell,
    CellSet, Direction, Priority, SolveError, Solver, WilsonMaze,
};

fn policies() -> Vec<Priority> {
    vec![Priority::Disabled, Priority::Close, Priority::Prio, Priority::Random]
}

/// A single row of `cols` cells, open from one end to the other.
fn corridor(cols: usize, start: Cell, end: Cell) -> WilsonMaze {
    let mut maze = WilsonMaze::new(1, cols, start, end);
    for c in 0..cols - 1 {
        maze.carve(((0, c), Direction::Right, (0, c + 1)));
    }
    maze
}

/// A 3 by 3 maze:
///
/// ```text
/// S - . - .
///         |
/// . - . - .
/// |
/// . - . - E
/// ```
fn snake() -> WilsonMaze {
    let mut maze = WilsonMaze::new(3, 3, (0, 0), (2, 2));
    maze.carve(((0, 0), Direction::Right, (0, 1)));
    maze.carve(((0, 1), Direction::Right, (0, 2)));
    maze.carve(((0, 2), Direction::Down, (1, 2)));
    maze.carve(((1, 2), Direction::Left, (1, 1)));
    maze.carve(((1, 1), Direction::Left, (1, 0)));
    maze.carve(((1, 0), Direction::Down, (2, 0)));
    maze.carve(((2, 0), Direction::Right, (2, 1)));
    maze.carve(((2, 1), Direction::Right, (2, 2)));
    maze
}

/// A 3 by 3 maze with a dead end: the way from `(0, 0)` to `(0, 2)` runs
/// along the top row, and a branch hangs down from `(0, 0)`.
///
/// ```text
/// S - . - E
/// |
/// . - . - .
/// |
/// . - . - .
/// ```
fn comb() -> WilsonMaze {
    let mut maze = WilsonMaze::new(3, 3, (0, 0), (0, 2));
    maze.carve(((0, 0), Direction::Right, (0, 1)));
    maze.carve(((0, 1), Direction::Right, (0, 2)));
    maze.carve(((0, 0), Direction::Down, (1, 0)));
    maze.carve(((1, 0), Direction::Right, (1, 1)));
    maze.carve(((1, 1), Direction::Right, (1, 2)));
    maze.carve(((1, 0), Direction::Down, (2, 0)));
    maze.carve(((2, 0), Direction::Right, (2, 1)));
    maze.carve(((2, 1), Direction::Right, (2, 2)));
    maze
}

fn is_subset(small: &CellSet, large: &CellSet) -> bool {
    small.to_vec().iter().all(|cell| large.contains(cell))
}

#[test]
fn carve_opens_both_sides_and_joins_both_cells() {
    let mut maze = WilsonMaze::new(2, 2, (0, 0), (1, 1));
    maze.carve(((0, 0), Direction::Down, (1, 0)));
    assert!(maze.grid[0][0].contains(&Direction::Down));
    assert!(maze.grid[1][0].contains(&Direction::Up));
    assert_eq!(maze.grid[0][0].len(), 1);
    assert_eq!(maze.grid[1][0].len(), 1);
    assert_eq!(maze.grid[0][1].len(), 0);
    assert_eq!(maze.grid[1][1].len(), 0);
    assert_eq!(maze.visited.to_vec(), vec![(0, 0), (1, 0)]);
}

#[test]
fn bfs_finds_the_only_path_of_the_snake() {
    for policy in policies() {
        let (solution, visited) = get_bfs_solution(&snake(), policy).unwrap();
        assert_eq!(
            solution.to_vec(),
            vec![(0, 0), (0, 1), (0, 2), (1, 0), (1, 1), (1, 2), (2, 0), (2, 1), (2, 2)]
        );
        assert_eq!(visited.len(), 9);
    }
}

#[test]
fn backtrack_finds_the_only_path_of_the_snake() {
    let (solution, visited) = get_backtrack_solution(&snake()).unwrap();
    assert_eq!(solution.len(), 9);
    assert_eq!(
        visited.to_vec(),
        vec![(0, 0), (0, 1), (0, 2), (1, 0), (1, 1), (1, 2), (2, 0), (2, 1)]
    );
}

#[test]
fn solution_of_the_comb_is_the_top_row() {
    let top = vec![(0, 0), (0, 1), (0, 2)];
    for policy in policies() {
        let (solution, _) = get_bfs_solution(&comb(), policy).unwrap();
        assert_eq!(solution.to_vec(), top);
    }
    let (solution, _) = get_backtrack_solution(&comb()).unwrap();
    assert_eq!(solution.to_vec(), top);
}

#[test]
fn backtrack_visits_the_abandoned_branch_of_the_comb() {
    // Down comes before right, so the whole branch below the start cell is
    // walked and given up before the top row is tried.
    let (solution, visited) = get_backtrack_solution(&comb()).unwrap();
    assert_eq!(solution.to_vec(), vec![(0, 0), (0, 1), (0, 2)]);
    assert_eq!(
        visited.to_vec(),
        vec![(0, 0), (0, 1), (1, 0), (1, 1), (1, 2), (2, 0), (2, 1), (2, 2)]
    );
    assert!(!visited.contains(&(0, 2)));
}

#[test]
fn close_policy_goes_straight_for_the_end() {
    // From the middle of a corridor the neighbour nearer to the end has the
    // lower score and leaves the frontier first.
    let maze = corridor(5, (0, 2), (0, 4));
    let (solution, visited) = get_bfs_solution(&maze, Priority::Close).unwrap();
    assert_eq!(solution.to_vec(), vec![(0, 2), (0, 3), (0, 4)]);
    assert_eq!(visited.to_vec(), vec![(0, 2), (0, 3), (0, 4)]);
}

#[test]
fn prio_policy_expands_low_scores_first() {
    // Scores: (0,1) 6+1-3 = 4, (0,3) 6+1-1 = 6, (0,0) 6+2-4 = 4, (0,4) 8.
    let maze = corridor(5, (0, 2), (0, 4));
    let (solution, visited) = get_bfs_solution(&maze, Priority::Prio).unwrap();
    assert_eq!(solution.to_vec(), vec![(0, 2), (0, 3), (0, 4)]);
    assert_eq!(visited.to_vec(), vec![(0, 0), (0, 1), (0, 2), (0, 3), (0, 4)]);
}

#[test]
fn bfs_solve_records_where_each_cell_was_reached_from() {
    let maze = corridor(4, (0, 0), (0, 3));
    let (path, visited) = bfs_solve(&maze, Priority::Disabled).unwrap();
    assert_eq!(path.get(&(0, 0)), None);
    assert_eq!(path.get(&(0, 1)), Some((0, 0)));
    assert_eq!(path.get(&(0, 2)), Some((0, 1)));
    assert_eq!(path.get(&(0, 3)), Some((0, 2)));
    assert_eq!(visited.to_vec(), vec![(0, 0), (0, 1), (0, 2), (0, 3)]);
}

#[test]
fn visited_holds_the_solution_for_every_policy() {
    for maze in [snake(), comb(), corridor(6, (0, 1), (0, 4))] {
        for policy in policies() {
            let (solution, visited) = get_bfs_solution(&maze, policy).unwrap();
            assert!(is_subset(&solution, &visited));
            assert!(visited.contains(&maze.start_cell));
            assert!(visited.contains(&maze.end_cell));
        }
    }
}

#[test]
fn backtrack_visits_the_solution_but_for_the_end_cell() {
    for maze in [snake(), comb(), corridor(6, (0, 1), (0, 4))] {
        let (solution, visited) = get_backtrack_solution(&maze).unwrap();
        assert!(solution.contains(&maze.end_cell));
        assert!(!visited.contains(&maze.end_cell));
        for cell in solution.to_vec() {
            assert!(cell == maze.end_cell || visited.contains(&cell));
        }
    }
}

#[test]
fn solving_twice_gives_the_same_solution() {
    let maze = comb();
    for policy in policies() {
        let (first, _) = get_bfs_solution(&maze, policy).unwrap();
        let (second, _) = get_bfs_solution(&maze, policy).unwrap();
        assert_eq!(first.to_vec(), second.to_vec());
    }
    let (first, first_visited) = get_backtrack_solution(&maze).unwrap();
    let (second, second_visited) = get_backtrack_solution(&maze).unwrap();
    assert_eq!(first.to_vec(), second.to_vec());
    assert_eq!(first_visited.to_vec(), second_visited.to_vec());
}

#[test]
fn single_cell_maze_is_solved_at_once() {
    let mut maze = WilsonMaze::new(1, 1, (0, 0), (0, 0));
    maze.generate();
    assert_eq!(maze.grid[0][0].len(), 0);
    for policy in policies() {
        let (solution, visited) = get_bfs_solution(&maze, policy).unwrap();
        assert_eq!(solution.to_vec(), vec![(0, 0)]);
        assert_eq!(visited.to_vec(), vec![(0, 0)]);
    }
}

#[test]
fn single_cell_maze_by_backtracking() {
    let mut maze = WilsonMaze::new(1, 1, (0, 0), (0, 0));
    maze.generate();
    let (solution, visited) = get_backtrack_solution(&maze).unwrap();
    assert_eq!(solution.to_vec(), vec![(0, 0)]);
    // The end cell is never marked visited.
    assert_eq!(visited.to_vec(), vec![]);
}

#[test]
fn start_equal_to_end_in_a_larger_maze() {
    let mut maze = WilsonMaze::new(3, 3, (1, 1), (1, 1));
    maze.generate();
    for policy in policies() {
        let (solution, visited) = get_bfs_solution(&maze, policy).unwrap();
        assert_eq!(solution.to_vec(), vec![(1, 1)]);
        assert_eq!(visited.to_vec(), vec![(1, 1)]);
    }
}

#[test]
fn walled_in_maze_has_no_solution() {
    let maze = WilsonMaze::new(2, 2, (0, 0), (1, 1));
    for policy in policies() {
        assert_eq!(get_bfs_solution(&maze, policy).err(), Some(SolveError::NoSolution));
        assert_eq!(bfs_solve(&maze, policy).err(), Some(SolveError::NoSolution));
    }
    assert_eq!(get_backtrack_solution(&maze).err(), Some(SolveError::NoSolution));
}

#[test]
fn end_behind_a_wall_has_no_solution() {
    let mut maze = WilsonMaze::new(2, 2, (0, 0), (1, 1));
    maze.carve(((0, 0), Direction::Right, (0, 1)));
    maze.carve(((0, 0), Direction::Down, (1, 0)));
    for policy in policies() {
        assert_eq!(get_bfs_solution(&maze, policy).err(), Some(SolveError::NoSolution));
    }
    assert_eq!(get_backtrack_solution(&maze).err(), Some(SolveError::NoSolution));
}

#[test]
fn one_way_passage_is_walked_one_way_only() {
    let mut maze = WilsonMaze::new(1, 2, (0, 0), (0, 1));
    maze.grid[0][0].insert(Direction::Right);
    assert!(get_bfs_solution(&maze, Priority::Disabled).is_ok());
    assert!(get_backtrack_solution(&maze).is_ok());
    let mut back = WilsonMaze::new(1, 2, (0, 1), (0, 0));
    back.grid[0][0].insert(Direction::Right);
    assert_eq!(
        get_bfs_solution(&back, Priority::Disabled).err(),
        Some(SolveError::NoSolution)
    );
    assert_eq!(get_backtrack_solution(&back).err(), Some(SolveError::NoSolution));
}

#[test]
fn backtrack_call_copies_the_trail_on_success() {
    let maze = corridor(3, (0, 0), (0, 2));
    let mut path = vec![];
    let mut solution = vec![];
    let mut visited = CellSet::new(1, 3);
    let mut visited_to_return = CellSet::new(1, 3);
    backtrack(
        &maze,
        (0, 0),
        (0, 2),
        &mut path,
        &mut solution,
        &mut visited,
        &mut visited_to_return,
    );
    assert_eq!(solution, vec![(0, 0), (0, 1), (0, 2)]);
    assert_eq!(visited_to_return.to_vec(), vec![(0, 0), (0, 1)]);
    assert_eq!(path, vec![(0, 0)]);
}

#[test]
fn backtrack_call_without_success_leaves_the_cell_on_the_trail() {
    let maze = WilsonMaze::new(1, 3, (0, 0), (0, 2));
    let mut path = vec![];
    let mut solution = vec![];
    let mut visited = CellSet::new(1, 3);
    let mut visited_to_return = CellSet::new(1, 3);
    backtrack(
        &maze,
        (0, 0),
        (0, 2),
        &mut path,
        &mut solution,
        &mut visited,
        &mut visited_to_return,
    );
    assert_eq!(solution, vec![]);
    assert_eq!(path, vec![(0, 0)]);
    assert_eq!(visited.to_vec(), vec![(0, 0)]);
    assert_eq!(visited_to_return.len(), 0);
}

#[test]
fn solver_names_are_recognized() {
    assert_eq!(Solver::from_name("plain-bfs"), Some(Solver::Bfs));
    assert_eq!(Solver::from_name("prio"), Some(Solver::BfsPrio));
    assert_eq!(Solver::from_name("close"), Some(Solver::BfsClose));
    assert_eq!(Solver::from_name("random"), Some(Solver::BfsRandom));
    assert_eq!(Solver::from_name("backtrack"), Some(Solver::Backtrack));
}

#[test]
fn other_names_stand_for_no_solver() {
    for name in [
        "", "bfs", "bfs-prio", "bfs-close", "bfs-random", "Prio", "prio ", " close", "dfs",
        "plain", "backtrack2", "plain_bfs",
    ] {
        assert_eq!(Solver::from_name(name), None);
    }
}

#[test]
fn unknown_solver_is_refused() {
    let mut maze = WilsonMaze::new(4, 4, (0, 0), (3, 3));
    maze.generate();
    for name in ["", "dijkstra", "bfs", "Random", "plain-bfs-fast"] {
        assert_eq!(solve(&maze, name).err(), Some(SolveError::UnknownSolver));
    }
}

#[test]
fn unknown_solver_is_refused_before_the_maze_is_looked_at() {
    let maze = WilsonMaze::new(2, 2, (0, 0), (1, 1));
    assert_eq!(solve(&maze, "nope").err(), Some(SolveError::UnknownSolver));
    assert_eq!(solve(&maze, "plain-bfs").err(), Some(SolveError::NoSolution));
}

#[test]
fn solve_by_name_agrees_with_the_typed_solvers() {
    let maze = comb();
    let top = vec![(0, 0), (0, 1), (0, 2)];
    for name in ["plain-bfs", "prio", "close", "random", "backtrack"] {
        let (solution, _) = solve(&maze, name).unwrap();
        assert_eq!(solution.to_vec(), top);
    }
    for solver in [
        Solver::Bfs,
        Solver::BfsPrio,
        Solver::BfsClose,
        Solver::BfsRandom,
        Solver::Backtrack,
    ] {
        let (solution, _) = solve_with(&maze, solver).unwrap();
        assert_eq!(solution.to_vec(), top);
    }
}

#[test]
fn random_policy_visits_in_different_orders() {
    // A cross: from the centre four arms of two cells each; the end cell is
    // the tip of the right arm. Which arms are visited before the end cell
    // leaves the frontier depends on the scores drawn.
    let mut maze = WilsonMaze::new(5, 5, (2, 2), (2, 4));
    maze.carve(((2, 2), Direction::Up, (1, 2)));
    maze.carve(((1, 2), Direction::Up, (0, 2)));
    maze.carve(((2, 2), Direction::Down, (3, 2)));
    maze.carve(((3, 2), Direction::Down, (4, 2)));
    maze.carve(((2, 2), Direction::Left, (2, 1)));
    maze.carve(((2, 1), Direction::Left, (2, 0)));
    maze.carve(((2, 2), Direction::Right, (2, 3)));
    maze.carve(((2, 3), Direction::Right, (2, 4)));
    let (_, first) = get_bfs_solution(&maze, Priority::Random).unwrap();
    let mut differs = false;
    for _ in 0..200 {
        let (solution, visited) = get_bfs_solution(&maze, Priority::Random).unwrap();
        assert_eq!(solution.to_vec(), vec![(2, 2), (2, 3), (2, 4)]);
        assert!(is_subset(&solution, &visited));
        if visited.to_vec() != first.to_vec() {
            differs = true;
        }
    }
    assert!(differs);
}

#[test]
fn bfs_solve_records_only_cells_reached_before_the_end() {
    // (0,0) is open down, (1,0) up and right, (1,1) left and up, (0,1)
    // down. The end cell (1,1) is never expanded, so (0,1) has no record.
    let mut maze = WilsonMaze::new(2, 2, (0, 0), (1, 1));
    maze.carve(((0, 0), Direction::Down, (1, 0)));
    maze.carve(((1, 0), Direction::Right, (1, 1)));
    maze.carve(((1, 1), Direction::Up, (0, 1)));
    for policy in policies() {
        let (path, visited) = bfs_solve(&maze, policy).unwrap();
        assert_eq!(path.get(&(0, 0)), None);
        assert_eq!(path.get(&(1, 0)), Some((0, 0)));
        assert_eq!(path.get(&(1, 1)), Some((1, 0)));
        assert_eq!(path.get(&(0, 1)), None);
        assert_eq!(visited.to_vec(), vec![(0, 0), (1, 0), (1, 1)]);
    }
}

#[test]
fn bfs_solve_records_each_cell_from_a_visited_neighbor() {
    let maze = comb();
    for policy in policies() {
        let (path, visited) = bfs_solve(&maze, policy).unwrap();
        assert_eq!(path.get(&maze.start_cell), None);
        for r in 0..3 {
            for c in 0..3 {
                if let Some(from) = path.get(&(r, c)) {
                    assert!(visited.contains(&from));
                    assert_ne!(from, maze.end_cell);
                    assert_eq!(from.0.abs_diff(r) + from.1.abs_diff(c), 1);
                }
            }
        }
    }
}

#[test]
fn backtrack_call_takes_every_deeper_cell_off_the_trail() {
    let maze = comb();
    let mut path = vec![];
    let mut solution = vec![];
    let mut visited = CellSet::new(3, 3);
    let mut visited_to_return = CellSet::new(3, 3);
    backtrack(
        &maze,
        (0, 0),
        (0, 2),
        &mut path,
        &mut solution,
        &mut visited,
        &mut visited_to_return,
    );
    assert_eq!(solution, vec![(0, 0), (0, 1), (0, 2)]);
    assert_eq!(path, vec![(0, 0)]);
}

#[test]
fn backtrack_call_in_the_middle_of_a_search_leaves_the_old_trail_with_the_cell() {
    let maze = snake();
    let mut path = vec![(0, 0), (0, 1)];
    let mut solution = vec![];
    let mut visited = CellSet::new(3, 3);
    visited.insert((0, 0));
    visited.insert((0, 1));
    let mut visited_to_return = CellSet::new(3, 3);
    backtrack(
        &maze,
        (0, 2),
        (2, 2),
        &mut path,
        &mut solution,
        &mut visited,
        &mut visited_to_return,
    );
    assert_eq!(path, vec![(0, 0), (0, 1), (0, 2)]);
    assert_eq!(
        solution,
        vec![(0, 0), (0, 1), (0, 2), (1, 2), (1, 1), (1, 0), (2, 0), (2, 1), (2, 2)]
    );
    assert_eq!(visited_to_return.len(), 8);
}

#[test]
fn backtrack_call_at_the_end_cell_visits_nothing() {
    let maze = corridor(3, (0, 0), (0, 2));
    let mut path = vec![(0, 0), (0, 1)];
    let mut solution = vec![];
    let mut visited = CellSet::new(1, 3);
    visited.insert((0, 0));
    visited.insert((0, 1));
    let mut visited_to_return = CellSet::new(1, 3);
    backtrack(
        &maze,
        (0, 2),
        (0, 2),
        &mut path,
        &mut solution,
        &mut visited,
        &mut visited_to_return,
    );
    assert_eq!(path, vec![(0, 0), (0, 1), (0, 2)]);
    assert_eq!(solution, vec![(0, 0), (0, 1), (0, 2)]);
    assert_eq!(visited.to_vec(), vec![(0, 0), (0, 1)]);
    assert_eq!(visited_to_return.to_vec(), vec![(0, 0), (0, 1)]);
}
