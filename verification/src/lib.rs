//! Perfect mazes on a rectangular grid: generation by loop-erased random
//! walks (Wilson's algorithm) and path search by ranked breadth-first
//! search or depth-first backtracking.

pub mod bfs_invariant;
pub mod bfs_solver;
pub mod cell_map;
pub mod cell_set;
pub mod class_name;
pub mod dfs_invariant;
pub mod dfs_solver;
pub mod direction;
pub mod frontier;
pub mod generate;
pub mod graph;
pub mod maze;
pub mod passages;
pub mod random;
pub mod solver;
pub mod tree;

pub use bfs_solver::{
    abs_dist, bfs_solve, close_priority, get_bfs_solution, score_cell, weighted_priority, Priority,
};
pub use cell_map::CellMap;
pub use cell_set::{Cell, CellSet};
pub use class_name::get_class_name;
pub use dfs_solver::{backtrack, get_backtrack_solution};
pub use direction::{direction_reverse, Direction};
pub use generate::{direction_between, Step, WALK_BUDGET};
pub use maze::{generate_grid, MazeError, WilsonMaze};
pub use passages::Passages;
pub use solver::{solve, solve_with, SolveError, Solver};
