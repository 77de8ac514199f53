//! Depth-first search with backtracking.

use vstd::prelude::*;
use vstd::set_lib::lemma_len_subset;
use crate::cell_set::{Cell, CellSet};
use crate::graph::runs_between;
use crate::maze::{adjacent, heading, WilsonMaze};
use crate::solver::SolveError;

verus! {

impl WilsonMaze {
    /// Whether `trail` can be the trail of a depth-first search that is
    /// about to enter `next`: a simple path of visited cells whose last cell
    /// is open towards `next`.
    pub open spec fn on_trail(&self, trail: Seq<Cell>, visited: CellSet, next: Cell) -> bool {
        &&& trail.no_duplicates()
        &&& forall|i: int|
            0 <= i < trail.len() ==> visited.has(#[trigger] trail[i]) && self.in_grid(trail[i])
        &&& forall|i: int, j: int|
            0 <= i && j == i + 1 && j < trail.len() ==> #[trigger] self.linked(trail[i], trail[j])
        &&& trail.len() > 0 ==> self.linked(trail[trail.len() - 1], next)
    }

    /// Whether `solution` is the trail `trail` followed by a path from
    /// `from` to `target` that adds only cells of the grid, each open
    /// towards the next, and meets no cell twice.
    pub open spec fn extends_trail(
        &self,
        trail: Seq<Cell>,
        solution: Seq<Cell>,
        from: Cell,
        target: Cell,
    ) -> bool {
        &&& solution.len() > trail.len()
        &&& solution.subrange(0, trail.len() as int) == trail
        &&& solution[trail.len() as int] == from
        &&& solution[solution.len() - 1] == target
        &&& solution.no_duplicates()
        &&& forall|i: int| trail.len() <= i < solution.len() ==> self.in_grid(#[trigger] solution[i])
        &&& forall|i: int, j: int|
            trail.len() <= i && j == i + 1 && j < solution.len() ==> #[trigger] self.linked(
                solution[i],
                solution[j],
            )
    }
}

/// The search behind `backtrack`: one call of the depth-first search,
/// entering the unvisited cell `start`, together with the order in which
/// the cells have been entered.
///
/// `trace` is the order in which cells were entered before the call. Where
/// the call is a step of a search that began at the maze's start cell and
/// looks for the maze's end cell (`may_enter`), the order that is handed
/// over is the order in which cells have been entered when the call ends:
/// with the end cell last where a solution was found, and otherwise with
/// `start` and all that was entered from it.
fn explore(
    maze: &WilsonMaze,
    start: Cell,
    end_cell: Cell,
    path: &mut Vec<Cell>,
    solution: &mut Vec<Cell>,
    visited: &mut CellSet,
    visited_to_return: &mut CellSet,
    Ghost(trace): Ghost<Seq<Cell>>,
) -> (entered: Ghost<Seq<Cell>>)
    requires
        maze.wf(),
        maze.in_grid(start),
        maze.in_grid(end_cell),
        old(visited).wf(),
        old(visited).spec_rows() == maze.rows,
        old(visited).spec_cols() == maze.cols,
        old(visited_to_return).wf(),
        old(visited_to_return).spec_rows() == maze.rows,
        old(visited_to_return).spec_cols() == maze.cols,
        !old(visited).has(start),
        !old(visited).has(end_cell),
        old(solution)@.len() == 0,
        maze.on_trail(old(path)@, *old(visited), start),
    ensures
        final(visited).wf(),
        final(visited).spec_rows() == maze.rows,
        final(visited).spec_cols() == maze.cols,
        final(visited_to_return).wf(),
        final(visited_to_return).spec_rows() == maze.rows,
        final(visited_to_return).spec_cols() == maze.cols,
        old(visited)@.subset_of(final(visited)@),
        !final(visited).has(end_cell),
        forall|c: Cell|
            final(visited).has(c) && !old(visited).has(c) ==> #[trigger] maze.reachable(start, c),
        final(solution)@.len() > 0 <==> maze.reachable_avoiding(start, end_cell, old(visited)@),
        final(path)@ == old(path)@.push(start),
        final(solution)@.len() == 0 ==> {
            &&& final(visited).has(start)
            &&& final(visited_to_return)@ == old(visited_to_return)@
            &&& forall|u: Cell, v: Cell|
                final(visited).has(u) && !old(visited).has(u) && #[trigger] maze.linked(u, v)
                    ==> final(visited).has(v)
        },
        final(solution)@.len() > 0 ==> {
            &&& maze.extends_trail(old(path)@, final(solution)@, start, end_cell)
            &&& forall|i: int|
                0 <= i < final(solution)@.len() - 1 ==> final(visited).has(
                    #[trigger] final(solution)@[i],
                )
            &&& forall|i: int|
                old(path)@.len() <= i < final(solution)@.len() ==> !old(visited).has(
                    #[trigger] final(solution)@[i],
                )
            &&& final(visited_to_return)@ == old(visited_to_return)@.union(final(visited)@)
        },
        start == end_cell ==> final(visited)@ == old(visited)@,
        end_cell == maze.end_cell && maze.may_enter(trace, old(path)@, *old(visited), start) ==> {
            &&& final(solution)@.len() > 0 ==> maze.is_depth_first_order(entered@)
                && final(visited)@ == entered@.drop_last().to_set()
            &&& final(solution)@.len() == 0 ==> entered@.len() > trace.len() && entered@.subrange(
                0,
                trace.len() as int,
            ) == trace && entered@[trace.len() as int] == start && maze.dfs_holds(
                entered@,
                old(path)@.push(start),
                *final(visited),
            ) && !maze.has_unentered(entered@, entered@.len() as int, start)
        },
    decreases maze.rows * maze.cols - old(visited)@.len(),
{
    let ghost ordered = end_cell == maze.end_cell && maze.may_enter(
        trace,
        old(path)@,
        *old(visited),
        start,
    );
    if start.0 == end_cell.0 && start.1 == end_cell.1 {
        path.push(end_cell);
        let mut i: usize = 0;
        while i < path.len()
            invariant
                i <= path@.len(),
                solution@ == path@.subrange(0, i as int),
            decreases path@.len() - i,
        {
            solution.push(path[i]);
            i += 1;
            assert(solution@ =~= path@.subrange(0, i as int));
        }
        visited_to_return.extend(visited);
        proof {
            assert(solution@ =~= old(path)@.push(end_cell));
            assert(solution@.subrange(0, old(path)@.len() as int) =~= old(path)@);
            let p = seq![start];
            assert(maze.is_walk(p) && runs_between(p, start, end_cell) && forall|i: int|
                0 <= i < p.len() ==> !old(visited)@.contains(#[trigger] p[i]));
            if ordered {
                maze.lemma_meet_end(trace, old(path)@, *visited);
            }
        }
        return Ghost(trace.push(end_cell));
    }
    proof {
        old(visited).lemma_finite();
    }
    visited.insert(start);
    path.push(start);
    let ghost entered = *visited;
    let ghost trail = path@;
    let ghost mut order = trace.push(start);
    proof {
        if ordered {
            maze.lemma_enter(trace, old(path)@, *old(visited), *visited, start);
            assert(order.subrange(0, trace.len() as int) =~= trace);
        }
        maze.lemma_reachable_self(start);
        visited.lemma_finite();
        assert forall|i: int, j: int| 0 <= i && j == i + 1 && j < trail.len() implies #[trigger] maze.linked(
            trail[i],
            trail[j],
        ) by {
            if j < old(path)@.len() {
                assert(maze.linked(old(path)@[i], old(path)@[j]));
            }
        }
    }

    let neighbors = maze.neighbors(start.0 as i32, start.1 as i32);
    let mut k: usize = 0;
    while k < neighbors.len()
        invariant
            maze.wf(),
            maze.in_grid(start),
            maze.in_grid(end_cell),
            start != end_cell,
            neighbors@ == maze.neighbor_list(start.0 as int, start.1 as int),
            k <= neighbors.len(),
            visited.wf(),
            visited.spec_rows() == maze.rows,
            visited.spec_cols() == maze.cols,
            visited_to_return.wf(),
            visited_to_return.spec_rows() == maze.rows,
            visited_to_return.spec_cols() == maze.cols,
            visited_to_return@ == old(visited_to_return)@,
            solution@.len() == 0,
            path@ == trail,
            trail == old(path)@.push(start),
            trail.no_duplicates(),
            forall|i: int|
                0 <= i < trail.len() ==> entered.has(#[trigger] trail[i]) && maze.in_grid(trail[i]),
            forall|i: int, j: int|
                0 <= i && j == i + 1 && j < trail.len() ==> #[trigger] maze.linked(
                    trail[i],
                    trail[j],
                ),
            entered@ == old(visited)@.insert(start),
            entered@.subset_of(visited@),
            old(visited)@.finite(),
            !old(visited).has(start),
            !visited.has(end_cell),
            forall|c: Cell|
                visited.has(c) && !old(visited).has(c) ==> #[trigger] maze.reachable(start, c),
            forall|u: Cell, v: Cell|
                visited.has(u) && !entered.has(u) && #[trigger] maze.linked(u, v) ==> visited.has(
                    v,
                ),
            forall|j: int|
                0 <= j < k && maze.linked(start, (#[trigger] neighbors@[j]).1) ==> visited.has(
                    neighbors@[j].1,
                ),
            ordered == (end_cell == maze.end_cell && maze.may_enter(
                trace,
                old(path)@,
                *old(visited),
                start,
            )),
            ordered ==> end_cell == maze.end_cell && order.len() > trace.len() && order.subrange(
                0,
                trace.len() as int,
            ) == trace && order[trace.len() as int] == start && maze.dfs_holds(
                order,
                trail,
                *visited,
            ),
        decreases neighbors.len() - k,
    {
        let (direction, next) = neighbors[k];
        proof {
            maze.lemma_neighbor_list(start);
            let entry = maze.neighbor_list(start.0 as int, start.1 as int)[k as int];
            assert(entry == (direction, next));
            assert(maze.in_grid(next));
            assert(adjacent(start, next) && heading(start, next) == direction);
        }
        if !visited.contains(&next) && maze.grid[start.0][start.1].contains(&direction) {
            let ghost before = *visited;
            proof {
                visited.lemma_finite();
                entered.lemma_finite();
                lemma_len_subset(entered@, visited@);
                assert(maze.linked(start, next));
                assert forall|i: int| 0 <= i < trail.len() implies visited.has(
                    #[trigger] trail[i],
                ) by {
                    assert(entered.has(trail[i]));
                    assert(entered@.contains(trail[i]));
                }
            }
            proof {
                if ordered {
                    assert forall|j: int|
                        0 <= j < k && maze.linked(
                            start,
                            (#[trigger] maze.neighbor_list(start.0 as int, start.1 as int)[j]).1,
                        ) implies order.contains(
                        maze.neighbor_list(start.0 as int, start.1 as int)[j].1,
                    ) by {
                        assert(visited.has(neighbors@[j].1));
                        maze.lemma_entered_is_visited(order, trail, *visited, neighbors@[j].1);
                    }
                    maze.lemma_first_unentered(order, start, k as int);
                    maze.lemma_entered_is_visited(order, trail, *visited, next);
                    assert(trail[trail.len() - 1] == start);
                    assert(maze.may_enter(order, trail, *visited, next));
                }
            }
            // Go deeper, and come back where that leads nowhere.
            let deeper = explore(
                maze,
                next,
                end_cell,
                path,
                solution,
                visited,
                visited_to_return,
                Ghost(order),
            );
            proof {
                assert forall|c: Cell| visited.has(c) && !old(visited).has(c) implies #[trigger] maze.reachable(
                    start,
                    c,
                ) by {
                    if !before.has(c) {
                        assert(maze.reachable(next, c));
                        maze.lemma_reachable_step(start, next, c);
                    }
                }
                assert(before@.subset_of(visited@));
                assert(entered@.subset_of(visited@));
            }
            if solution.len() > 0 {
                proof {
                    let sol = solution@;
                    assert(sol.subrange(0, trail.len() as int) == trail);
                    assert(sol.subrange(0, old(path)@.len() as int) =~= old(path)@) by {
                        assert forall|i: int| 0 <= i < old(path)@.len() implies sol[i] == old(
                            path,
                        )@[i] by {
                            assert(sol.subrange(0, trail.len() as int)[i] == trail[i]);
                        }
                    }
                    assert(sol[old(path)@.len() as int] == start) by {
                        assert(sol.subrange(0, trail.len() as int)[old(path)@.len() as int]
                            == trail[old(path)@.len() as int]);
                    }
                    assert forall|i: int, j: int|
                        old(path)@.len() <= i && j == i + 1 && j < sol.len() implies #[trigger] maze.linked(
                        sol[i],
                        sol[j],
                    ) by {
                        if i == old(path)@.len() {
                            assert(sol[j] == next);
                        }
                    }
                    assert forall|i: int| old(path)@.len() <= i < sol.len() implies maze.in_grid(
                        #[trigger] sol[i],
                    ) by {}
                    assert(maze.extends_trail(old(path)@, sol, start, end_cell));
                    assert forall|i: int| old(path)@.len() <= i < sol.len() implies !old(
                        visited,
                    ).has(#[trigger] sol[i]) by {
                        if i >= trail.len() {
                            assert(!before.has(sol[i]));
                            assert(!before@.contains(sol[i]));
                            assert(!entered@.contains(sol[i]));
                            assert(!old(visited)@.contains(sol[i]));
                        }
                    }
                    assert(visited_to_return@ =~= old(visited_to_return)@.union(visited@));
                    let p = sol.subrange(old(path)@.len() as int, sol.len() as int);
                    assert forall|i: int, j: int|
                        0 <= i && j == i + 1 && j < p.len() implies #[trigger] maze.linked(
                        p[i],
                        p[j],
                    ) by {
                        assert(maze.linked(sol[old(path)@.len() + i], sol[old(path)@.len() + j]));
                    }
                    assert forall|i: int| 0 <= i < p.len() implies !old(visited)@.contains(
                        #[trigger] p[i],
                    ) by {
                        let at = old(path)@.len() + i;
                        if at >= trail.len() {
                            assert(!before.has(sol[at]));
                            assert(!before@.contains(sol[at]));
                        }
                    }
                    assert(maze.is_walk(p) && runs_between(p, start, end_cell));
                }
                path.pop();
                proof {
                    assert(path@ =~= trail);
                }
                return deeper;
            }
            path.pop();
            proof {
                if ordered {
                    let shorter = order;
                    maze.lemma_come_back(shorter, deeper@, trail, before, *visited, next);
                    order = deeper@;
                    assert(order.subrange(0, trace.len() as int) =~= trace) by {
                        assert forall|a: int| 0 <= a < trace.len() implies order[a] == trace[a] by {
                            assert(order.subrange(0, shorter.len() as int)[a] == shorter[a]);
                            assert(shorter.subrange(0, trace.len() as int)[a] == trace[a]);
                        }
                    }
                    assert(order[trace.len() as int] == start) by {
                        assert(order.subrange(0, shorter.len() as int)[trace.len() as int]
                            == shorter[trace.len() as int]);
                    }
                }
                assert(path@ =~= trail);
                assert(visited.has(next));
                assert forall|j: int|
                    0 <= j < k && maze.linked(start, (#[trigger] neighbors@[j]).1) implies visited.has(
                    neighbors@[j].1,
                ) by {
                    assert(before.has(neighbors@[j].1));
                    assert(before@.contains(neighbors@[j].1));
                }
                assert forall|u: Cell, v: Cell|
                    visited.has(u) && !entered.has(u) && #[trigger] maze.linked(
                        u,
                        v,
                    ) implies visited.has(v) by {
                    if before.has(u) {
                        assert(before.has(v));
                        assert(before@.contains(v));
                    }
                }
            }
        }
        k += 1;
    }
    proof {
        assert forall|u: Cell, v: Cell|
            visited.has(u) && !old(visited).has(u) && #[trigger] maze.linked(
                u,
                v,
            ) implies visited.has(v) by {
            if u == start {
                maze.lemma_neighbor_list(start);
                let entry = (heading(start, v), v);
                assert(neighbors@.contains(entry));
                let j = choose|j: int| 0 <= j < neighbors@.len() && neighbors@[j] == entry;
                assert(neighbors@[j].1 == v);
            } else {
                assert(!entered@.contains(u));
            }
        }
        assert(entered@.contains(start));
        assert(visited@.contains(start));
        if maze.reachable_avoiding(start, end_cell, old(visited)@) {
            let p = choose|p: Seq<Cell>|
                #[trigger] maze.is_walk(p) && runs_between(p, start, end_cell) && forall|i: int|
                    0 <= i < p.len() ==> !old(visited)@.contains(#[trigger] p[i]);
            let inside = Set::new(|c: Cell| visited.has(c) && !old(visited).has(c));
            maze.lemma_closed_holds_walk(inside, old(visited)@, p, p.len() - 1);
        }
        if ordered {
            assert forall|j: int|
                0 <= j < maze.neighbor_list(start.0 as int, start.1 as int).len() && maze.linked(
                    start,
                    (#[trigger] maze.neighbor_list(start.0 as int, start.1 as int)[j]).1,
                ) implies order.contains(
                maze.neighbor_list(start.0 as int, start.1 as int)[j].1,
            ) by {
                assert(visited.has(neighbors@[j].1));
                maze.lemma_entered_is_visited(order, trail, *visited, neighbors@[j].1);
            }
            maze.lemma_nothing_unentered(order, start);
        }
    }
    Ghost(order)
}

/// One call of the depth-first search, entering the unvisited cell `start`.
///
/// Where `start` is the end cell, the trail `path` with the end cell at its
/// end is copied to `solution`, and `visited` is added to
/// `visited_to_return`. Otherwise `start` is marked visited and put on the
/// trail, and the search enters, one after the other, each neighbour behind
/// an open passage that is not visited by then, taking the neighbour off the
/// trail again when the search comes back from it. The search enters no
/// further cell once a solution is found.
///
/// Whether or not a solution is found, the call leaves the trail as it was
/// with `start` at its end: the caller takes `start` off. A call that finds
/// no solution has visited, with each cell that it visited, every cell that
/// the cell is open towards.
pub fn backtrack(
    maze: &WilsonMaze,
    start: Cell,
    end_cell: Cell,
    path: &mut Vec<Cell>,
    solution: &mut Vec<Cell>,
    visited: &mut CellSet,
    visited_to_return: &mut CellSet,
)
    requires
        maze.wf(),
        maze.in_grid(start),
        maze.in_grid(end_cell),
        old(visited).wf(),
        old(visited).spec_rows() == maze.rows,
        old(visited).spec_cols() == maze.cols,
        old(visited_to_return).wf(),
        old(visited_to_return).spec_rows() == maze.rows,
        old(visited_to_return).spec_cols() == maze.cols,
        !old(visited).has(start),
        !old(visited).has(end_cell),
        old(solution)@.len() == 0,
        maze.on_trail(old(path)@, *old(visited), start),
    ensures
        final(visited).wf(),
        final(visited).spec_rows() == maze.rows,
        final(visited).spec_cols() == maze.cols,
        final(visited_to_return).wf(),
        final(visited_to_return).spec_rows() == maze.rows,
        final(visited_to_return).spec_cols() == maze.cols,
        old(visited)@.subset_of(final(visited)@),
        !final(visited).has(end_cell),
        forall|c: Cell|
            final(visited).has(c) && !old(visited).has(c) ==> #[trigger] maze.reachable(start, c),
        final(solution)@.len() > 0 <==> maze.reachable_avoiding(start, end_cell, old(visited)@),
        final(path)@ == old(path)@.push(start),
        final(solution)@.len() == 0 ==> {
            &&& final(visited).has(start)
            &&& final(visited_to_return)@ == old(visited_to_return)@
            &&& forall|u: Cell, v: Cell|
                final(visited).has(u) && !old(visited).has(u) && #[trigger] maze.linked(u, v)
                    ==> final(visited).has(v)
        },
        final(solution)@.len() > 0 ==> {
            &&& maze.extends_trail(old(path)@, final(solution)@, start, end_cell)
            &&& forall|i: int|
                0 <= i < final(solution)@.len() - 1 ==> final(visited).has(
                    #[trigger] final(solution)@[i],
                )
            &&& forall|i: int|
                old(path)@.len() <= i < final(solution)@.len() ==> !old(visited).has(
                    #[trigger] final(solution)@[i],
                )
            &&& final(visited_to_return)@ == old(visited_to_return)@.union(final(visited)@)
        },
        start == end_cell ==> final(visited)@ == old(visited)@,
{
    let _ = explore(
        maze,
        start,
        end_cell,
        path,
        solution,
        visited,
        visited_to_return,
        Ghost(Seq::empty()),
    );
}

/// Solves the maze by depth-first search with backtracking. Hands over the
/// set of cells of the path found from the start cell to the end cell, both
/// included, and the set of cells that the search had marked visited when it
/// met the end cell; the end cell itself is never marked. The search enters
/// the neighbours of a cell in the order up, down, left, right. Fails
/// exactly where no walk leads from the start cell to the end cell.
pub fn get_backtrack_solution(maze: &WilsonMaze) -> (found: Result<(CellSet, CellSet), SolveError>)
    requires
        maze.wf(),
    ensures
        found is Ok <==> maze.reachable(maze.start_cell, maze.end_cell),
        found matches Err(e) ==> e == SolveError::NoSolution,
        found matches Ok((solution, visited)) ==> {
            &&& solution.wf()
            &&& solution.spec_rows() == maze.rows
            &&& solution.spec_cols() == maze.cols
            &&& visited.wf()
            &&& visited.spec_rows() == maze.rows
            &&& visited.spec_cols() == maze.cols
            &&& maze.is_solution(solution@)
            &&& !visited.has(maze.end_cell)
            &&& solution@.remove(maze.end_cell).subset_of(visited@)
            &&& forall|cell: Cell| #[trigger]
                visited.has(cell) ==> maze.reachable(maze.start_cell, cell)
            &&& maze.is_depth_first_visit(visited@)
        },
{
    let mut solution: Vec<Cell> = Vec::new();
    let mut path: Vec<Cell> = Vec::new();
    let mut visited = CellSet::new(maze.rows, maze.cols);
    let mut visited_to_return = CellSet::new(maze.rows, maze.cols);
    let ghost nothing = visited;

    proof {
        maze.lemma_dfs_begins(visited);
        assert(maze.may_enter(Seq::empty(), path@, visited, maze.start_cell));
    }
    let entered = explore(
        maze,
        maze.start_cell,
        maze.end_cell,
        &mut path,
        &mut solution,
        &mut visited,
        &mut visited_to_return,
        Ghost(Seq::empty()),
    );
    proof {
        assert(nothing@ =~= Set::<Cell>::empty());
        maze.lemma_avoiding_nothing(maze.start_cell, maze.end_cell);
    }
    if solution.len() == 0 {
        return Err(SolveError::NoSolution);
    }
    let mut solution_as_set = CellSet::new(maze.rows, maze.cols);
    let mut i: usize = 0;
    while i < solution.len()
        invariant
            i <= solution@.len(),
            solution_as_set.wf(),
            solution_as_set.spec_rows() == maze.rows,
            solution_as_set.spec_cols() == maze.cols,
            forall|k: int| 0 <= k < solution@.len() ==> maze.in_grid(#[trigger] solution@[k]),
            solution_as_set@ == solution@.subrange(0, i as int).to_set(),
        decreases solution@.len() - i,
    {
        let ghost before = solution_as_set@;
        solution_as_set.insert(solution[i]);
        i += 1;
        proof {
            let shorter = solution@.subrange(0, i - 1);
            let longer = solution@.subrange(0, i as int);
            assert(longer =~= shorter.push(solution@[i - 1]));
            assert(longer.to_set() =~= shorter.to_set().insert(solution@[i - 1])) by {
                assert forall|c: Cell| longer.to_set().contains(c) <==> shorter.to_set().insert(
                    solution@[i - 1],
                ).contains(c) by {
                    if longer.contains(c) {
                        let k = choose|k: int| 0 <= k < longer.len() && longer[k] == c;
                        if k < i - 1 {
                            assert(shorter[k] == c);
                        }
                    }
                    if shorter.contains(c) {
                        let k = choose|k: int| 0 <= k < shorter.len() && shorter[k] == c;
                        assert(longer[k] == c);
                    }
                    if c == solution@[i - 1] {
                        assert(longer[i - 1] == c);
                    }
                }
            }
        }
    }
    proof {
        let sol = solution@;
        assert(sol.subrange(0, sol.len() as int) =~= sol);
        assert(maze.is_simple_path(sol));
        assert(runs_between(sol, maze.start_cell, maze.end_cell));
        assert(visited_to_return@ =~= visited@);
        assert(maze.is_depth_first_order(entered@));
        assert forall|c: Cell| solution_as_set@.remove(maze.end_cell).contains(c) implies visited_to_return@.contains(
            c,
        ) by {
            let k = choose|k: int| 0 <= k < sol.len() && sol[k] == c;
            assert(visited.has(sol[k]));
        }
        assert forall|cell: Cell| #[trigger] visited_to_return.has(cell) implies maze.reachable(
            maze.start_cell,
            cell,
        ) by {
            assert(visited@.contains(cell));
        }
        assert(!visited@.contains(maze.end_cell));
    }
    Ok((solution_as_set, visited_to_return))
}

} // verus!
