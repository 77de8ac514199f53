use wilson_maze::{abs_dist, close_priority, score_cell, weighted_priority, Priority, WilsonMaze};

#[test]
fn abs_dist_is_symmetric_difference() {
    assert_eq!(abs_dist(3, 10), 7);
    assert_eq!(abs_dist(10, 3), 7);
    assert_eq!(abs_dist(5, 5), 0);
    assert_eq!(abs_dist(0, usize::MAX), usize::MAX);
}

#[test]
fn close_priority_is_manhattan_distance_to_end() {
    assert_eq!(close_priority((1, 1), (4, 5)), 7);
    assert_eq!(close_priority((4, 5), (1, 1)), 7);
    assert_eq!(close_priority((4, 5), (4, 5)), 0);
    assert_eq!(close_priority((0, 9), (9, 0)), 18);
}

#[test]
fn weighted_priority_adds_start_distance_and_subtracts_end_distance() {
    // 8 + (2 + 3) - (2 + 1)
    assert_eq!(weighted_priority((2, 3), (0, 0), (4, 4), 8), 10);
    // At the start cell: 20 + 0 - 18
    assert_eq!(weighted_priority((0, 0), (0, 0), (9, 9), 20), 2);
    // At the end cell: 20 + 18 - 0
    assert_eq!(weighted_priority((9, 9), (0, 0), (9, 9), 20), 38);
}

#[test]
fn score_of_disabled_policy_is_constant() {
    let maze = WilsonMaze::new(5, 5, (0, 0), (4, 4));
    assert_eq!(score_cell(&maze, Priority::Disabled, (0, 0), 7), 1);
    assert_eq!(score_cell(&maze, Priority::Disabled, (3, 2), 7), 1);
    assert_eq!(score_cell(&maze, Priority::Disabled, (4, 4), 0), 1);
}

#[test]
fn score_of_close_policy_is_distance_to_end() {
    let maze = WilsonMaze::new(5, 5, (0, 0), (4, 4));
    assert_eq!(score_cell(&maze, Priority::Close, (0, 0), 7), 8);
    assert_eq!(score_cell(&maze, Priority::Close, (3, 2), 7), 3);
    assert_eq!(score_cell(&maze, Priority::Close, (4, 4), 7), 0);
}

#[test]
fn score_of_prio_policy_uses_max_dist() {
    let maze = WilsonMaze::new(5, 5, (0, 0), (4, 4));
    // 10 + 0 - 8
    assert_eq!(score_cell(&maze, Priority::Prio, (0, 0), 7), 2);
    // 10 + 5 - 3
    assert_eq!(score_cell(&maze, Priority::Prio, (3, 2), 7), 12);
    // 10 + 8 - 0
    assert_eq!(score_cell(&maze, Priority::Prio, (4, 4), 7), 18);
}

#[test]
fn score_of_random_policy_is_the_draw() {
    let maze = WilsonMaze::new(5, 5, (0, 0), (4, 4));
    for draw in 1..10 {
        assert_eq!(score_cell(&maze, Priority::Random, (3, 2), draw), draw as u64);
    }
}
