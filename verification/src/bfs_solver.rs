//! Ranked breadth-first search: the frontier hands out the waiting cell of
//! least score, and the ranking policy decides the scores.

use vstd::prelude::*;
use crate::bfs_invariant::route_to;
use crate::cell_map::CellMap;
use crate::cell_set::{Cell, CellSet};
use crate::frontier::{
    frontier_len, frontier_new, frontier_pop, frontier_push, frontier_scores, Frontier,
};
use crate::graph::runs_between;
use crate::maze::{adjacent, heading, WilsonMaze};
use crate::random::random_range;
use crate::solver::SolveError;

verus! {

/// How the frontier ranks the cells that wait.
#[derive(Clone, Copy, Debug, PartialEq, Eq, Structural)]
pub enum Priority {
    /// Every cell gets the same score.
    Disabled,
    /// The score is the Manhattan distance to the end cell.
    Close,
    /// The score grows with the distance from the start cell and falls with
    /// the distance to the end cell.
    Prio,
    /// The score is a random number from 1 to 9.
    Random,
}

/// The distance between two coordinates.
pub open spec fn distance(x: usize, y: usize) -> int {
    if x >= y {
        x - y
    } else {
        y - x
    }
}

/// The Manhattan distance between two cells.
pub open spec fn manhattan(a: Cell, b: Cell) -> int {
    distance(a.0, b.0) + distance(a.1, b.1)
}

/// The score that `priority` gives to `cell` in a grid of `rows` by `cols`
/// cells, where `draw` is the number drawn for the cell.
pub open spec fn policy_score(
    priority: Priority,
    cell: Cell,
    start_cell: Cell,
    end_cell: Cell,
    max_dist: int,
    draw: int,
) -> int {
    match priority {
        Priority::Disabled => 1,
        Priority::Close => manhattan(cell, end_cell),
        Priority::Prio => max_dist + manhattan(cell, start_cell) - manhattan(cell, end_cell),
        Priority::Random => draw,
    }
}

/// Whether `b` is recorded as reached from `a`.
pub open spec fn reached_from(path: CellMap, a: Cell, b: Cell) -> bool {
    path.at(b) == Some(a)
}

impl WilsonMaze {
    /// Whether `p` is a simple path from the start cell to `target` along
    /// which each cell is recorded in `path` as reached from the one before.
    pub open spec fn traces(&self, path: CellMap, p: Seq<Cell>, target: Cell) -> bool {
        &&& self.is_simple_path(p)
        &&& runs_between(p, self.start_cell, target)
        &&& forall|i: int, j: int|
            0 <= i && j == i + 1 && j < p.len() ==> #[trigger] reached_from(path, p[i], p[j])
    }

    /// The score that `priority` gives to `cell` where nothing is drawn.
    pub open spec fn rank(&self, priority: Priority, cell: Cell) -> int {
        policy_score(priority, cell, self.start_cell, self.end_cell, self.rows + self.cols, 0)
    }

    /// Whether `cell` waits in the frontier when the cell at index `i` of
    /// `trace` leaves it: a cell before that index is open towards `cell`,
    /// and `cell` itself has not left the frontier yet.
    pub open spec fn waits(&self, trace: Seq<Cell>, i: int, cell: Cell) -> bool {
        &&& !trace.subrange(0, i).contains(cell)
        &&& exists|j: int| 0 <= j < i && #[trigger] self.linked(trace[j], cell)
    }

    /// Whether `trace` can be the order in which cells leave the frontier
    /// of a search ranked by `priority`: it begins with the start cell, ends
    /// with the end cell, holds no cell twice, and each cell after the first
    /// waits when it leaves. Unless the scores are drawn at random, no
    /// waiting cell has a lower score than the cell that leaves.
    pub open spec fn is_visit_order(&self, priority: Priority, trace: Seq<Cell>) -> bool {
        &&& trace.len() >= 1
        &&& trace.no_duplicates()
        &&& trace[0] == self.start_cell
        &&& trace[trace.len() - 1] == self.end_cell
        &&& forall|i: int| 1 <= i < trace.len() ==> self.waits(trace, i, #[trigger] trace[i])
        &&& priority != Priority::Random ==> forall|i: int, c: Cell|
            1 <= i < trace.len() && #[trigger] self.waits(trace, i, c) ==> self.rank(
                priority,
                trace[i],
            ) <= self.rank(priority, c)
    }

    /// Whether `visited` is the set of cells that leave the frontier of a
    /// search ranked by `priority`, up to and with the end cell.
    pub open spec fn is_ranked_visit(&self, priority: Priority, visited: Set<Cell>) -> bool {
        exists|trace: Seq<Cell>|
            #[trigger] self.is_visit_order(priority, trace) && visited == trace.to_set()
    }

    /// What a finished search hands over: `path` leads back from the end
    /// cell to the start cell along a simple path of visited cells, every
    /// visited cell can be reached from the start cell, and the visited
    /// cells are those that left the frontier, ranked by `priority`. The
    /// cells with a record in `path` are those, other than the start cell,
    /// that a visited cell other than the end cell is open towards, and each
    /// record names such a cell.
    pub open spec fn search_done(&self, priority: Priority, path: CellMap, visited: CellSet) -> bool {
        &&& path.wf()
        &&& path.spec_rows() == self.rows
        &&& path.spec_cols() == self.cols
        &&& visited.wf()
        &&& visited.spec_rows() == self.rows
        &&& visited.spec_cols() == self.cols
        &&& exists|p: Seq<Cell>|
            #[trigger] self.traces(path, p, self.end_cell) && forall|i: int|
                0 <= i < p.len() ==> visited.has(#[trigger] p[i])
        &&& forall|cell: Cell| #[trigger]
            visited.has(cell) ==> self.reachable(self.start_cell, cell)
        &&& self.is_ranked_visit(priority, visited@)
        &&& path.at(self.start_cell) is None
        &&& forall|c: Cell| #[trigger]
            path.at(c) is Some ==> visited.has(path.at(c)->0) && path.at(c)->0 != self.end_cell
                && self.linked(path.at(c)->0, c)
        &&& forall|b: Cell, c: Cell|
            visited.has(b) && b != self.end_cell && #[trigger] self.linked(b, c) && c
                != self.start_cell ==> path.at(c) is Some
    }

    /// A cell that waits when a cell of a trace leaves the frontier waits
    /// as well when the trace goes on beyond that cell.
    pub proof fn lemma_waits_in_longer_trace(&self, trace: Seq<Cell>, next: Cell, i: int, c: Cell)
        requires
            0 <= i <= trace.len(),
        ensures
            self.waits(trace.push(next), i, c) <==> self.waits(trace, i, c),
    {
        let longer = trace.push(next);
        assert(longer.subrange(0, i) =~= trace.subrange(0, i));
        if self.waits(trace, i, c) {
            let j = choose|j: int| 0 <= j < i && #[trigger] self.linked(trace[j], c);
            assert(self.linked(longer[j], c));
        }
        if self.waits(longer, i, c) {
            let j = choose|j: int| 0 <= j < i && #[trigger] self.linked(longer[j], c);
            assert(self.linked(trace[j], c));
        }
    }
}

/// The distance between `x` and `y`.
#[inline]
pub fn abs_dist(x: usize, y: usize) -> (d: usize)
    ensures
        d == distance(x, y),
{
    if x >= y {
        x - y
    } else {
        y - x
    }
}

/// The score of the policy `Prio`: `max_dist`, plus the Manhattan distance
/// from the start cell, minus the Manhattan distance to the end cell.
#[inline]
pub fn weighted_priority(cell: Cell, start_cell: Cell, end_cell: Cell, max_dist: usize) -> (score:
    usize)
    requires
        max_dist + manhattan(cell, start_cell) <= usize::MAX,
        manhattan(cell, end_cell) <= max_dist + manhattan(cell, start_cell),
    ensures
        score == max_dist + manhattan(cell, start_cell) - manhattan(cell, end_cell),
{
    let dx_end = abs_dist(cell.0, end_cell.0);
    let dy_end = abs_dist(cell.1, end_cell.1);

    let dx_start = abs_dist(cell.0, start_cell.0);
    let dy_start = abs_dist(cell.1, start_cell.1);

    max_dist + (dx_start + dy_start) - (dx_end + dy_end)
}

/// The score of the policy `Close`: the Manhattan distance to the end cell.
#[inline]
pub fn close_priority(cell: Cell, end_cell: Cell) -> (score: usize)
    requires
        manhattan(cell, end_cell) <= usize::MAX,
    ensures
        score == manhattan(cell, end_cell),
{
    let dx = abs_dist(end_cell.0, cell.0);
    let dy = abs_dist(end_cell.1, cell.1);

    dx + dy
}

/// The score that `priority` gives to `cell`, a cell of the maze. `draw` is
/// the number drawn for the cell; only the policy `Random` looks at it. The
/// score is a 64-bit number, which holds it for every maze.
pub fn score_cell(maze: &WilsonMaze, priority: Priority, cell: Cell, draw: usize) -> (score: u64)
    requires
        maze.wf(),
        maze.in_grid(cell),
    ensures
        score == policy_score(
            priority,
            cell,
            maze.start_cell,
            maze.end_cell,
            maze.rows + maze.cols,
            draw as int,
        ),
{
    match priority {
        Priority::Prio => {
            let from_start = close_priority(cell, maze.start_cell) as u64;
            let to_end = close_priority(cell, maze.end_cell) as u64;
            maze.max_dist() as u64 + from_start - to_end
        },
        Priority::Close => close_priority(cell, maze.end_cell) as u64,
        Priority::Disabled => 1,
        Priority::Random => draw as u64,
    }
}

/// Searches the maze from its start cell, always going on from the waiting
/// cell of least score, until the end cell leaves the frontier. Hands over,
/// for each cell that was reached, the cell it was reached from, and the set
/// of cells that left the frontier. Fails exactly where no walk leads from
/// the start cell to the end cell.
pub fn bfs_solve(maze: &WilsonMaze, priority: Priority) -> (found: Result<
    (CellMap, CellSet),
    SolveError,
>)
    requires
        maze.wf(),
    ensures
        found is Ok <==> maze.reachable(maze.start_cell, maze.end_cell),
        found matches Err(e) ==> e == SolveError::NoSolution,
        found matches Ok((path, visited)) ==> maze.search_done(priority, path, visited),
{
    let end_cell = maze.end_cell;
    let start_cell = maze.start_cell;

    let mut visited = CellSet::new(maze.rows, maze.cols);
    let mut path = CellMap::new(maze.rows, maze.cols);

    let mut queue: Frontier = frontier_new();
    frontier_push(&mut queue, start_cell, 1);

    let ghost mut order: Seq<Cell> = Seq::empty();
    let ghost mut routes: Map<Cell, Seq<Cell>> = Map::empty();
    proof {
        assert(frontier_scores(queue).dom() =~= set![start_cell]);
        maze.lemma_search_begins(priority, path, visited, frontier_scores(queue));
    }

    while frontier_len(&queue) > 0
        invariant
            maze.wf(),
            end_cell == maze.end_cell,
            start_cell == maze.start_cell,
            path.wf(),
            path.spec_rows() == maze.rows,
            path.spec_cols() == maze.cols,
            visited.wf(),
            visited.spec_rows() == maze.rows,
            visited.spec_cols() == maze.cols,
            maze.routes_hold(path, visited, routes),
            maze.entries_hold(path, visited),
            maze.frontier_holds(path, visited, frontier_scores(queue)),
            maze.closed_but(visited, frontier_scores(queue), None),
            maze.order_holds(priority, visited, order),
            order.len() > 0 ==> maze.scores_hold(priority, frontier_scores(queue)),
            order.len() == 0 ==> forall|c: Cell|
                frontier_scores(queue).contains_key(c) ==> c == start_cell,
            visited.has(start_cell) || (frontier_scores(queue).contains_key(start_cell)
                && order.len() == 0),
            !visited.has(end_cell),
            order.len() <= maze.rows * maze.cols,
        decreases maze.rows * maze.cols - order.len(),
    {
        let ghost waiting = frontier_scores(queue);
        let ghost seen = visited;
        proof {
            maze.lemma_frontier_finite(path, visited, waiting);
        }
        let popped = frontier_pop(&mut queue);
        proof {
            if popped is None {
                assert(waiting.dom().len() == 0);
            }
        }
        let (current, _) = popped.unwrap();
        proof {
            maze.lemma_waiting_cell(path, visited, waiting, current);
        }
        visited.insert(current);
        proof {
            maze.lemma_leave_routes(path, seen, visited, routes, waiting, current);
            maze.lemma_leave_frontier(path, seen, visited, waiting, current);
            maze.lemma_leave_order(priority, path, seen, visited, order, waiting, current);
            routes = routes.insert(current, route_to(routes, path, current, start_cell));
            order = order.push(current);
        }

        // The search ends when the end cell leaves the frontier.
        if current.0 == end_cell.0 && current.1 == end_cell.1 {
            proof {
                maze.lemma_found(priority, path, visited, routes, order, frontier_scores(queue));
            }
            return Ok((path, visited));
        }
        let neighbors = maze.neighbors(current.0 as i32, current.1 as i32);
        proof {
            maze.lemma_first_examined(visited, frontier_scores(queue), current);
        }
        let mut k: usize = 0;
        while k < neighbors.len()
            invariant
                maze.wf(),
                end_cell == maze.end_cell,
                start_cell == maze.start_cell,
                maze.in_grid(current),
                neighbors@ == maze.neighbor_list(current.0 as int, current.1 as int),
                k <= neighbors.len(),
                path.wf(),
                path.spec_rows() == maze.rows,
                path.spec_cols() == maze.cols,
                visited.wf(),
                visited.spec_rows() == maze.rows,
                visited.spec_cols() == maze.cols,
                visited.has(current),
                visited.has(start_cell),
                current != end_cell,
                maze.entries_hold(path, visited),
                maze.routes_hold(path, visited, routes),
                maze.frontier_holds(path, visited, frontier_scores(queue)),
                maze.closed_but(visited, frontier_scores(queue), Some(current)),
                maze.examined(visited, frontier_scores(queue), current, k as int),
                maze.scores_hold(priority, frontier_scores(queue)),
            decreases neighbors.len() - k,
        {
            let (direction, next) = neighbors[k];
            proof {
                maze.lemma_neighbor_list(current);
                let entry = maze.neighbor_list(current.0 as int, current.1 as int)[k as int];
                assert(entry == (direction, next));
                assert(maze.in_grid(next));
                assert(adjacent(current, next) && heading(current, next) == direction);
            }
            // Only cells behind an open passage that have not left the
            // frontier yet are of interest.
            if !visited.contains(&next) && maze.grid[current.0][current.1].contains(&direction) {
                let ghost before = path;
                let ghost waiting = frontier_scores(queue);
                path.insert(next, current);
                let draw = match priority {
                    Priority::Random => random_range(1, 10),
                    _ => 1,
                };
                let score = score_cell(maze, priority, next, draw);
                frontier_push(&mut queue, next, score);
                proof {
                    maze.lemma_reach(
                        priority,
                        before,
                        path,
                        visited,
                        routes,
                        waiting,
                        current,
                        next,
                        score,
                        k as int,
                    );
                }
            } else {
                proof {
                    maze.lemma_pass(visited, frontier_scores(queue), current, k as int);
                }
            }
            k += 1;
        }
        proof {
            maze.lemma_expanded(visited, frontier_scores(queue), current);
        }
    }
    proof {
        maze.lemma_frontier_finite(path, visited, frontier_scores(queue));
        assert(frontier_scores(queue).dom().len() == 0);
        assert(frontier_scores(queue).dom() =~= Set::<Cell>::empty());
        maze.lemma_exhausted(visited, frontier_scores(queue));
    }
    Err(SolveError::NoSolution)
}

/// Solves the maze by ranked breadth-first search. Hands over the set of
/// cells of the path found from the start cell to the end cell, both
/// included, and the set of cells that left the frontier. Fails exactly
/// where no walk leads from the start cell to the end cell.
pub fn get_bfs_solution(maze: &WilsonMaze, priority: Priority) -> (found: Result<
    (CellSet, CellSet),
    SolveError,
>)
    requires
        maze.wf(),
    ensures
        found is Ok <==> maze.reachable(maze.start_cell, maze.end_cell),
        found matches Err(e) ==> e == SolveError::NoSolution,
        found matches Ok((solution, visited)) ==> {
            &&& solution.wf()
            &&& solution.spec_rows() == maze.rows
            &&& solution.spec_cols() == maze.cols
            &&& visited.wf()
            &&& visited.spec_rows() == maze.rows
            &&& visited.spec_cols() == maze.cols
            &&& maze.is_solution(solution@)
            &&& solution@.subset_of(visited@)
            &&& forall|cell: Cell| #[trigger]
                visited.has(cell) ==> maze.reachable(maze.start_cell, cell)
            &&& maze.is_ranked_visit(priority, visited@)
        },
{
    let (bfs_path, visited) = match bfs_solve(maze, priority) {
        Ok(pair) => pair,
        Err(e) => {
            return Err(e);
        },
    };

    let mut s = maze.end_cell;
    let start = maze.start_cell;

    let mut path = CellSet::new(maze.rows, maze.cols);
    path.insert(s);

    let ghost route = choose|p: Seq<Cell>|
        #[trigger] maze.traces(bfs_path, p, maze.end_cell) && forall|i: int|
            0 <= i < p.len() ==> visited.has(#[trigger] p[i]);
    let ghost mut at: int = route.len() - 1;

    while s.0 != start.0 || s.1 != start.1
        invariant
            maze.wf(),
            start == maze.start_cell,
            bfs_path.wf(),
            maze.traces(bfs_path, route, maze.end_cell),
            0 <= at < route.len(),
            s == route[at],
            path.wf(),
            path.spec_rows() == maze.rows,
            path.spec_cols() == maze.cols,
            forall|c: Cell|
                path.has(c) <==> exists|i: int| at <= i < route.len() && #[trigger] route[i] == c,
        decreases at,
    {
        proof {
            assert(reached_from(bfs_path, route[at - 1], route[at]));
        }
        let ghost members = path;
        s = bfs_path.get(&s).unwrap();
        path.insert(s);
        proof {
            at = at - 1;
            assert forall|c: Cell| path.has(c) <==> exists|i: int|
                at <= i < route.len() && #[trigger] route[i] == c by {
                if c == s {
                    assert(route[at] == c);
                } else if members.has(c) {
                    let i = choose|i: int| at + 1 <= i < route.len() && #[trigger] route[i] == c;
                    assert(route[i] == c);
                }
            }
        }
    }
    proof {
        assert(at == 0);
        assert(path@ =~= route.to_set()) by {
            assert forall|c: Cell| path@.contains(c) <==> route.to_set().contains(c) by {
                if path.has(c) {
                    let i = choose|i: int| at <= i < route.len() && #[trigger] route[i] == c;
                    assert(route.contains(c));
                }
                if route.contains(c) {
                    let i = choose|i: int| 0 <= i < route.len() && route[i] == c;
                    assert(route[i] == c);
                }
            }
        }
        assert(maze.is_simple_path(route));
        assert(path@.subset_of(visited@)) by {
            assert forall|c: Cell| path@.contains(c) implies visited@.contains(c) by {
                let i = choose|i: int| 0 <= i < route.len() && route[i] == c;
                assert(visited.has(route[i]));
            }
        }
    }
    Ok((path, visited))
}

} // verus!
