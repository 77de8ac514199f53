//! The choice among the searches, by a typed selector or by name.

use vstd::prelude::*;
use crate::bfs_solver::{get_bfs_solution, Priority};
use crate::cell_set::{Cell, CellSet};
use crate::dfs_solver::get_backtrack_solution;
use crate::maze::WilsonMaze;

verus! {

/// Why a search gave no solution.
#[derive(Clone, Copy, Debug, PartialEq, Eq, Structural)]
pub enum SolveError {
    /// The end cell cannot be reached from the start cell. A generated maze
    /// never gives this: it tells that the passages do not form a maze.
    NoSolution,
    /// The name given for the solver is none of the known ones.
    UnknownSolver,
}

/// The searches that can solve a maze.
#[derive(Clone, Copy, Debug, PartialEq, Eq, Structural)]
pub enum Solver {
    /// Breadth-first search in which every cell has the same score.
    Bfs,
    /// Breadth-first search ranked by the policy `Prio`.
    BfsPrio,
    /// Breadth-first search ranked by the policy `Close`.
    BfsClose,
    /// Breadth-first search ranked by the policy `Random`.
    BfsRandom,
    /// Depth-first search with backtracking.
    Backtrack,
}

impl Solver {
    /// The solver that `name` stands for, if it stands for one.
    pub open spec fn named(name: Seq<char>) -> Option<Solver> {
        if name == "plain-bfs"@ {
            Some(Solver::Bfs)
        } else if name == "prio"@ {
            Some(Solver::BfsPrio)
        } else if name == "close"@ {
            Some(Solver::BfsClose)
        } else if name == "random"@ {
            Some(Solver::BfsRandom)
        } else if name == "backtrack"@ {
            Some(Solver::Backtrack)
        } else {
            None
        }
    }

    /// The ranking policy of a breadth-first search; the backtracking
    /// search has none.
    pub open spec fn priority(self) -> Option<Priority> {
        match self {
            Solver::Bfs => Some(Priority::Disabled),
            Solver::BfsPrio => Some(Priority::Prio),
            Solver::BfsClose => Some(Priority::Close),
            Solver::BfsRandom => Some(Priority::Random),
            Solver::Backtrack => None,
        }
    }

    /// The solver that `name` stands for: one of `plain-bfs`, `prio`,
    /// `close`, `random` and `backtrack`. Any other name stands for none.
    pub fn from_name(name: &str) -> (solver: Option<Solver>)
        ensures
            solver == Solver::named(name@),
    {
        let given = name.to_owned();
        if given.eq(&"plain-bfs".to_owned()) {
            Some(Solver::Bfs)
        } else if given.eq(&"prio".to_owned()) {
            Some(Solver::BfsPrio)
        } else if given.eq(&"close".to_owned()) {
            Some(Solver::BfsClose)
        } else if given.eq(&"random".to_owned()) {
            Some(Solver::BfsRandom)
        } else if given.eq(&"backtrack".to_owned()) {
            Some(Solver::Backtrack)
        } else {
            None
        }
    }
}

impl WilsonMaze {
    /// What the search `solver` hands over where it succeeds: `solution`
    /// is the set of cells of a simple path from the start cell to the end
    /// cell, and every cell of `visited` can be reached from the start cell.
    /// A breadth-first search has visited every cell of the solution, and
    /// its visited cells are those that left the frontier under its ranking
    /// policy; the backtracking search has visited each cell of the solution
    /// but the end cell, and its visited cells are those that a depth-first
    /// search enters before the end cell.
    pub open spec fn solved_by(&self, solver: Solver, solution: CellSet, visited: CellSet) -> bool {
        &&& solution.wf()
        &&& solution.spec_rows() == self.rows
        &&& solution.spec_cols() == self.cols
        &&& visited.wf()
        &&& visited.spec_rows() == self.rows
        &&& visited.spec_cols() == self.cols
        &&& self.is_solution(solution@)
        &&& forall|cell: Cell| #[trigger]
            visited.has(cell) ==> self.reachable(self.start_cell, cell)
        &&& match solver.priority() {
            Some(priority) => solution@.subset_of(visited@) && self.is_ranked_visit(
                priority,
                visited@,
            ),
            None => !visited.has(self.end_cell) && solution@.remove(self.end_cell).subset_of(
                visited@,
            ) && self.is_depth_first_visit(visited@),
        }
    }
}

/// Solves the maze with the search `solver`. Fails exactly where no walk
/// leads from the start cell to the end cell.
pub fn solve_with(maze: &WilsonMaze, solver: Solver) -> (found: Result<
    (CellSet, CellSet),
    SolveError,
>)
    requires
        maze.wf(),
    ensures
        found is Ok <==> maze.reachable(maze.start_cell, maze.end_cell),
        found matches Err(e) ==> e == SolveError::NoSolution,
        found matches Ok((solution, visited)) ==> maze.solved_by(solver, solution, visited),
{
    match solver {
        Solver::Bfs => get_bfs_solution(maze, Priority::Disabled),
        Solver::BfsPrio => get_bfs_solution(maze, Priority::Prio),
        Solver::BfsClose => get_bfs_solution(maze, Priority::Close),
        Solver::BfsRandom => get_bfs_solution(maze, Priority::Random),
        Solver::Backtrack => get_backtrack_solution(maze),
    }
}

/// Solves the maze with the search that `name` stands for. A name that
/// stands for no search is refused, whatever the maze; otherwise the search
/// fails exactly where no walk leads from the start cell to the end cell.
pub fn solve(maze: &WilsonMaze, name: &str) -> (found: Result<(CellSet, CellSet), SolveError>)
    requires
        maze.wf(),
    ensures
        found == Err::<(CellSet, CellSet), SolveError>(SolveError::UnknownSolver)
            <==> Solver::named(name@) is None,
        found == Err::<(CellSet, CellSet), SolveError>(SolveError::NoSolution) <==> Solver::named(
            name@,
        ) is Some && !maze.reachable(maze.start_cell, maze.end_cell),
        found is Ok <==> Solver::named(name@) is Some && maze.reachable(
            maze.start_cell,
            maze.end_cell,
        ),
        found matches Ok((solution, visited)) ==> maze.solved_by(
            Solver::named(name@)->0,
            solution,
            visited,
        ),
{
    match Solver::from_name(name) {
        Some(solver) => solve_with(maze, solver),
        None => Err(SolveError::UnknownSolver),
    }
}

} // verus!
