use wilson_maze::{get_class_name, Direction, WilsonMaze};

/// A maze of two rows and three columns:
///
/// ```text
/// . - . - .
///     |
/// .   . - .
/// ```
fn small() -> WilsonMaze {
    let mut maze = WilsonMaze::new(2, 3, (0, 0), (1, 2));
    maze.carve(((0, 0), Direction::Right, (0, 1)));
    maze.carve(((0, 1), Direction::Right, (0, 2)));
    maze.carve(((0, 1), Direction::Down, (1, 1)));
    maze.carve(((1, 1), Direction::Right, (1, 2)));
    maze
}

#[test]
fn walled_in_cell_has_the_class_no() {
    let maze = small();
    assert_eq!(get_class_name(&maze.grid, 1, 0, false, false), "maze-cell no");
    assert_eq!(get_class_name(&maze.grid, 1, 0, true, true), "maze-cell no");
}

#[test]
fn walled_in_first_cell_has_the_class_no() {
    let maze = WilsonMaze::new(2, 2, (0, 0), (1, 1));
    assert_eq!(get_class_name(&maze.grid, 0, 0, true, false), "maze-cell no");
    assert_eq!(get_class_name(&maze.grid, 1, 1, false, true), "maze-cell no");
}

#[test]
fn first_cell_is_open_to_the_left_and_is_the_start() {
    let maze = small();
    assert_eq!(get_class_name(&maze.grid, 0, 0, false, false), "maze-cell lr start");
}

#[test]
fn last_cell_is_open_to_the_right_and_is_the_end() {
    let maze = small();
    assert_eq!(get_class_name(&maze.grid, 1, 2, false, false), "maze-cell lr end");
}

#[test]
fn open_sides_come_in_the_order_left_right_up_down() {
    let maze = small();
    assert_eq!(get_class_name(&maze.grid, 0, 1, false, false), "maze-cell lrd");
    assert_eq!(get_class_name(&maze.grid, 0, 2, false, false), "maze-cell l");
    assert_eq!(get_class_name(&maze.grid, 1, 1, false, false), "maze-cell ru");
    let mut all = WilsonMaze::new(3, 3, (0, 0), (2, 2));
    all.carve(((1, 1), Direction::Up, (0, 1)));
    all.carve(((1, 1), Direction::Down, (2, 1)));
    all.carve(((1, 1), Direction::Left, (1, 0)));
    all.carve(((1, 1), Direction::Right, (1, 2)));
    assert_eq!(get_class_name(&all.grid, 1, 1, false, false), "maze-cell lrud");
}

#[test]
fn solution_comes_before_visited() {
    let maze = small();
    assert_eq!(get_class_name(&maze.grid, 0, 1, true, false), "maze-cell lrd solution");
    assert_eq!(get_class_name(&maze.grid, 0, 1, true, true), "maze-cell lrd solution");
    assert_eq!(get_class_name(&maze.grid, 0, 1, false, true), "maze-cell lrd visited");
    assert_eq!(get_class_name(&maze.grid, 0, 0, true, true), "maze-cell lr start solution");
    assert_eq!(get_class_name(&maze.grid, 1, 2, false, true), "maze-cell lr end visited");
}

#[test]
fn the_only_cell_is_first_and_last() {
    let mut maze = WilsonMaze::new(1, 1, (0, 0), (0, 0));
    assert_eq!(get_class_name(&maze.grid, 0, 0, false, false), "maze-cell no");
    maze.grid[0][0].insert(Direction::Up);
    assert_eq!(get_class_name(&maze.grid, 0, 0, true, false), "maze-cell lru start end solution");
}
