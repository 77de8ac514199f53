//! What holds while a ranked breadth-first search runs, and why each step
//! of the search keeps it.

use vstd::prelude::*;
use crate::bfs_solver::{reached_from, Priority};
use crate::cell_map::CellMap;
use crate::cell_set::{grown_by, Cell, CellSet};
use crate::graph::{lemma_distinct_cells_bound, runs_between};
use crate::maze::{heading, WilsonMaze};

verus! {

/// The route to `current`: for the start cell the cell alone, for another
/// cell the route to the cell it was reached from, then the cell.
pub open spec fn route_to(
    routes: Map<Cell, Seq<Cell>>,
    path: CellMap,
    current: Cell,
    start_cell: Cell,
) -> Seq<Cell> {
    if current == start_cell {
        seq![current]
    } else {
        routes[path.at(current)->0].push(current)
    }
}

/// Whether `now` is `before` with `next` recorded as reached from `current`.
pub open spec fn recorded(before: CellMap, now: CellMap, next: Cell, current: Cell) -> bool {
    forall|c: Cell|
        #[trigger] now.at(c) == (if c == next {
            Some(current)
        } else {
            before.at(c)
        })
}

impl WilsonMaze {
    /// Each visited cell has a route: a simple path of visited cells from
    /// the start cell to it, along which `path` leads back.
    #[verifier::opaque]
    pub open spec fn routes_hold(
        &self,
        path: CellMap,
        visited: CellSet,
        routes: Map<Cell, Seq<Cell>>,
    ) -> bool {
        forall|c: Cell| #[trigger]
            visited.has(c) ==> routes.contains_key(c) && self.traces(path, routes[c], c)
                && forall|i: int| 0 <= i < routes[c].len() ==> visited.has(#[trigger] routes[c][i])
    }

    /// The waiting cells are finitely many unvisited cells of the grid, and
    /// each but the start cell is recorded as reached from a visited cell
    /// that is open towards it.
    #[verifier::opaque]
    pub open spec fn frontier_holds(
        &self,
        path: CellMap,
        visited: CellSet,
        waiting: Map<Cell, u64>,
    ) -> bool {
        &&& waiting.dom().finite()
        &&& forall|c: Cell| #[trigger]
            waiting.contains_key(c) ==> self.in_grid(c) && !visited.has(c)
        &&& forall|c: Cell| #[trigger]
            waiting.contains_key(c) && c != self.start_cell ==> path.at(c) is Some && visited.has(
                path.at(c)->0,
            ) && self.linked(path.at(c)->0, c)
    }

    /// Each cell that a visited cell other than `skip` is open towards is
    /// visited or waits.
    #[verifier::opaque]
    pub open spec fn closed_but(
        &self,
        visited: CellSet,
        waiting: Map<Cell, u64>,
        skip: Option<Cell>,
    ) -> bool {
        forall|u: Cell, v: Cell|
            visited.has(u) && Some(u) != skip && #[trigger] self.linked(u, v) ==> visited.has(v)
                || waiting.contains_key(v)
    }

    /// Each of the first `k` neighbours that `current` is open towards is
    /// visited or waits.
    #[verifier::opaque]
    pub open spec fn examined(
        &self,
        visited: CellSet,
        waiting: Map<Cell, u64>,
        current: Cell,
        k: int,
    ) -> bool {
        forall|j: int|
            0 <= j < k && j < self.neighbor_list(current.0 as int, current.1 as int).len()
                && self.linked(
                current,
                (#[trigger] self.neighbor_list(current.0 as int, current.1 as int)[j]).1,
            ) ==> visited.has(self.neighbor_list(current.0 as int, current.1 as int)[j].1)
                || waiting.contains_key(
                self.neighbor_list(current.0 as int, current.1 as int)[j].1,
            )
    }

    /// `order` holds the visited cells, each once, in the order in which
    /// they left the frontier: the start cell first, and after it only cells
    /// that waited, none of them before a waiting cell of lower score unless
    /// the scores are drawn at random.
    #[verifier::opaque]
    pub open spec fn order_holds(&self, priority: Priority, visited: CellSet, order: Seq<Cell>) -> bool {
        &&& order.no_duplicates()
        &&& forall|c: Cell| visited.has(c) <==> order.contains(c)
        &&& order.len() > 0 ==> order[0] == self.start_cell
        &&& forall|i: int| 1 <= i < order.len() ==> self.waits(order, i, #[trigger] order[i])
        &&& priority != Priority::Random ==> forall|i: int, c: Cell|
            1 <= i < order.len() && #[trigger] self.waits(order, i, c) ==> self.rank(
                priority,
                order[i],
            ) <= self.rank(priority, c)
    }

    /// The start cell is recorded as reached from no cell, and every other
    /// record leads from a visited cell other than the end cell that is open
    /// towards the cell of the record.
    #[verifier::opaque]
    pub open spec fn entries_hold(&self, path: CellMap, visited: CellSet) -> bool {
        &&& path.at(self.start_cell) is None
        &&& forall|c: Cell| #[trigger]
            path.at(c) is Some ==> visited.has(path.at(c)->0) && path.at(c)->0 != self.end_cell
                && self.linked(path.at(c)->0, c)
    }

    /// Unless the scores are drawn at random, each waiting cell has the
    /// score that the policy gives it.
    #[verifier::opaque]
    pub open spec fn scores_hold(&self, priority: Priority, waiting: Map<Cell, u64>) -> bool {
        priority != Priority::Random ==> forall|c: Cell| #[trigger]
            waiting.contains_key(c) ==> waiting[c] == self.rank(priority, c)
    }

    /// Before the search begins nothing is visited and the start cell
    /// waits alone.
    pub proof fn lemma_search_begins(
        &self,
        priority: Priority,
        path: CellMap,
        visited: CellSet,
        waiting: Map<Cell, u64>,
    )
        requires
            self.wf(),
            forall|c: Cell| !visited.has(c),
            forall|c: Cell| path.at(c) is None,
            waiting.dom() =~= set![self.start_cell],
        ensures
            self.routes_hold(path, visited, Map::empty()),
            self.frontier_holds(path, visited, waiting),
            self.closed_but(visited, waiting, None),
            self.order_holds(priority, visited, Seq::empty()),
            self.entries_hold(path, visited),
    {
        reveal(WilsonMaze::entries_hold);
        reveal(WilsonMaze::routes_hold);
        reveal(WilsonMaze::frontier_holds);
        reveal(WilsonMaze::closed_but);
        reveal(WilsonMaze::order_holds);
    }

    /// A waiting cell is an unvisited cell of the grid.
    pub proof fn lemma_waiting_cell(
        &self,
        path: CellMap,
        visited: CellSet,
        waiting: Map<Cell, u64>,
        c: Cell,
    )
        requires
            self.frontier_holds(path, visited, waiting),
            waiting.contains_key(c),
        ensures
            self.in_grid(c),
            !visited.has(c),
            waiting.dom().finite(),
    {
        reveal(WilsonMaze::frontier_holds);
    }

    /// The frontier is finite.
    pub proof fn lemma_frontier_finite(
        &self,
        path: CellMap,
        visited: CellSet,
        waiting: Map<Cell, u64>,
    )
        requires
            self.frontier_holds(path, visited, waiting),
        ensures
            waiting.dom().finite(),
    {
        reveal(WilsonMaze::frontier_holds);
    }

    /// When a cell leaves the frontier and is marked visited, it has a
    /// route, and the routes of the other visited cells stay.
    pub proof fn lemma_leave_routes(
        &self,
        path: CellMap,
        seen: CellSet,
        visited: CellSet,
        routes: Map<Cell, Seq<Cell>>,
        waiting: Map<Cell, u64>,
        current: Cell,
    )
        requires
            self.wf(),
            self.routes_hold(path, seen, routes),
            self.frontier_holds(path, seen, waiting),
            waiting.contains_key(current),
            grown_by(seen, visited, current),
        ensures
            self.routes_hold(
                path,
                visited,
                routes.insert(current, route_to(routes, path, current, self.start_cell)),
            ),
    {
        reveal(WilsonMaze::routes_hold);
        reveal(WilsonMaze::frontier_holds);
        let route = route_to(routes, path, current, self.start_cell);
        let longer = routes.insert(current, route);
        if current != self.start_cell {
            let before = path.at(current)->0;
            let prior = routes[before];
            assert(seen.has(before));
            assert(self.traces(path, prior, before));
            self.lemma_walk_push(prior, current);
            assert forall|i: int, j: int|
                0 <= i < route.len() && 0 <= j < route.len() && i != j implies route[i]
                != route[j] by {
                if i < prior.len() {
                    assert(seen.has(prior[i]));
                }
                if j < prior.len() {
                    assert(seen.has(prior[j]));
                }
            }
            assert forall|i: int, j: int| 0 <= i && j == i + 1 && j < route.len() implies #[trigger] reached_from(
                path,
                route[i],
                route[j],
            ) by {
                if j < prior.len() {
                    assert(reached_from(path, prior[i], prior[j]));
                }
            }
            assert(self.traces(path, route, current));
            assert forall|i: int| 0 <= i < route.len() implies visited.has(#[trigger] route[i]) by {
                if i < prior.len() {
                    assert(seen.has(prior[i]));
                }
            }
        } else {
            assert(self.traces(path, route, current));
        }
        assert forall|c: Cell| #[trigger] visited.has(c) implies longer.contains_key(c)
            && self.traces(path, longer[c], c) && forall|i: int|
            0 <= i < longer[c].len() ==> visited.has(#[trigger] longer[c][i]) by {
            if c != current {
                assert(seen.has(c));
                assert forall|i: int| 0 <= i < routes[c].len() implies visited.has(
                    #[trigger] routes[c][i],
                ) by {
                    assert(seen.has(routes[c][i]));
                }
            }
        }
    }

    /// When a cell leaves the frontier and is marked visited, the other
    /// waiting cells go on waiting, and only the cell itself may be open
    /// towards cells that neither are visited nor wait.
    pub proof fn lemma_leave_frontier(
        &self,
        path: CellMap,
        seen: CellSet,
        visited: CellSet,
        waiting: Map<Cell, u64>,
        current: Cell,
    )
        requires
            self.frontier_holds(path, seen, waiting),
            self.closed_but(seen, waiting, None),
            self.entries_hold(path, seen),
            waiting.contains_key(current),
            grown_by(seen, visited, current),
        ensures
            self.frontier_holds(path, visited, waiting.remove(current)),
            self.closed_but(visited, waiting.remove(current), Some(current)),
            self.entries_hold(path, visited),
    {
        reveal(WilsonMaze::entries_hold);
        assert forall|c: Cell| #[trigger] path.at(c) is Some implies visited.has(path.at(c)->0) by {
            assert(seen.has(path.at(c)->0));
        }
        reveal(WilsonMaze::frontier_holds);
        reveal(WilsonMaze::closed_but);
        let rest = waiting.remove(current);
        assert forall|c: Cell| #[trigger] rest.contains_key(c) && c != self.start_cell implies path.at(
            c,
        ) is Some && visited.has(path.at(c)->0) && self.linked(path.at(c)->0, c) by {
            assert(waiting.contains_key(c));
            assert(seen.has(path.at(c)->0));
        }
        assert forall|u: Cell, v: Cell|
            visited.has(u) && Some(u) != Some(current) && #[trigger] self.linked(
                u,
                v,
            ) implies visited.has(v) || rest.contains_key(v) by {
            assert(seen.has(u));
            if !seen.has(v) {
                assert(waiting.contains_key(v));
            }
        }
    }

    /// When the waiting cell of least score leaves the frontier, the order
    /// in which cells have left goes on by that cell.
    pub proof fn lemma_leave_order(
        &self,
        priority: Priority,
        path: CellMap,
        seen: CellSet,
        visited: CellSet,
        order: Seq<Cell>,
        waiting: Map<Cell, u64>,
        current: Cell,
    )
        requires
            self.wf(),
            seen.spec_rows() == self.rows,
            seen.spec_cols() == self.cols,
            visited.spec_rows() == self.rows,
            visited.spec_cols() == self.cols,
            self.order_holds(priority, seen, order),
            self.frontier_holds(path, seen, waiting),
            self.closed_but(seen, waiting, None),
            order.len() > 0 ==> self.scores_hold(priority, waiting),
            seen.has(self.start_cell) || (waiting.contains_key(self.start_cell) && order.len() == 0),
            order.len() == 0 ==> forall|c: Cell| waiting.contains_key(c) ==> c == self.start_cell,
            waiting.contains_key(current),
            forall|other: Cell| #[trigger]
                waiting.contains_key(other) ==> waiting[current] <= waiting[other],
            grown_by(seen, visited, current),
        ensures
            self.order_holds(priority, visited, order.push(current)),
            order.len() + 1 <= self.rows * self.cols,
            visited.has(self.start_cell),
            self.scores_hold(priority, waiting.remove(current)),
    {
        reveal(WilsonMaze::order_holds);
        reveal(WilsonMaze::frontier_holds);
        reveal(WilsonMaze::closed_but);
        reveal(WilsonMaze::scores_hold);
        let longer = order.push(current);
        let last = order.len() as int;
        assert(!seen.has(current));
        assert(order.subrange(0, last) =~= order);
        assert(longer.subrange(0, last) =~= order);
        assert forall|c: Cell| visited.has(c) <==> longer.contains(c) by {
            if c == current {
                assert(longer[last] == current);
            } else if seen.has(c) {
                assert(order.contains(c));
                let k = choose|k: int| 0 <= k < order.len() && order[k] == c;
                assert(longer[k] == c);
            } else if longer.contains(c) {
                let k = choose|k: int| 0 <= k < longer.len() && longer[k] == c;
                assert(order[k] == c);
            }
        }
        if last >= 1 {
            assert(order.contains(order[0]));
            assert(current != self.start_cell);
            let before = path.at(current)->0;
            assert(seen.has(before));
            assert(order.contains(before));
            let j = choose|j: int| 0 <= j < order.len() && order[j] == before;
            assert(self.linked(longer[j], current));
            assert(self.waits(longer, last, current));
        } else {
            assert(current == self.start_cell);
        }
        assert forall|i: int| 1 <= i < longer.len() implies self.waits(
            longer,
            i,
            #[trigger] longer[i],
        ) by {
            if i < last {
                self.lemma_waits_in_longer_trace(order, current, i, order[i]);
            }
        }
        if priority != Priority::Random {
            assert forall|i: int, c: Cell|
                1 <= i < longer.len() && #[trigger] self.waits(longer, i, c) implies self.rank(
                priority,
                longer[i],
            ) <= self.rank(priority, c) by {
                self.lemma_waits_in_longer_trace(order, current, i, c);
                if i == last {
                    let j = choose|j: int| 0 <= j < i && #[trigger] self.linked(order[j], c);
                    assert(order.contains(order[j]));
                    assert(seen.has(order[j]));
                    assert(!order.contains(c));
                    assert(!seen.has(c));
                    assert(waiting.contains_key(c));
                }
            }
        }
        assert forall|i: int| 0 <= i < longer.len() implies (#[trigger] longer[i]).0 < self.rows
            && longer[i].1 < self.cols by {
            assert(longer.contains(longer[i]));
            visited.lemma_has_in_grid(longer[i]);
        }
        lemma_distinct_cells_bound(self.rows as int, self.cols as int, longer);
    }

    /// Before any neighbour has been looked at, nothing is asked of them.
    pub proof fn lemma_first_examined(
        &self,
        visited: CellSet,
        waiting: Map<Cell, u64>,
        current: Cell,
    )
        ensures
            self.examined(visited, waiting, current, 0),
    {
        reveal(WilsonMaze::examined);
    }

    /// A neighbour that is visited already, or that the cell is not open
    /// towards, needs no entry in the frontier.
    pub proof fn lemma_pass(
        &self,
        visited: CellSet,
        waiting: Map<Cell, u64>,
        current: Cell,
        k: int,
    )
        requires
            self.in_grid(current),
            0 <= k < self.neighbor_list(current.0 as int, current.1 as int).len(),
            self.examined(visited, waiting, current, k),
            visited.has(self.neighbor_list(current.0 as int, current.1 as int)[k].1)
                || !self.linked(
                current,
                self.neighbor_list(current.0 as int, current.1 as int)[k].1,
            ),
        ensures
            self.examined(visited, waiting, current, k + 1),
    {
        reveal(WilsonMaze::examined);
    }

    /// When an unvisited neighbour behind an open passage is recorded as
    /// reached from the current cell and enters the frontier with its score,
    /// everything that held goes on to hold.
    pub proof fn lemma_reach(
        &self,
        priority: Priority,
        before: CellMap,
        path: CellMap,
        visited: CellSet,
        routes: Map<Cell, Seq<Cell>>,
        waiting: Map<Cell, u64>,
        current: Cell,
        next: Cell,
        score: u64,
        k: int,
    )
        requires
            self.in_grid(current),
            self.in_grid(next),
            0 <= k < self.neighbor_list(current.0 as int, current.1 as int).len(),
            self.neighbor_list(current.0 as int, current.1 as int)[k].1 == next,
            self.routes_hold(before, visited, routes),
            self.frontier_holds(before, visited, waiting),
            self.closed_but(visited, waiting, Some(current)),
            self.examined(visited, waiting, current, k),
            self.scores_hold(priority, waiting),
            self.entries_hold(before, visited),
            visited.has(current),
            visited.has(self.start_cell),
            !visited.has(next),
            current != self.end_cell,
            self.linked(current, next),
            recorded(before, path, next, current),
            priority != Priority::Random ==> score == self.rank(priority, next),
        ensures
            self.entries_hold(path, visited),
            self.routes_hold(path, visited, routes),
            self.frontier_holds(path, visited, waiting.insert(next, score)),
            self.closed_but(visited, waiting.insert(next, score), Some(current)),
            self.examined(visited, waiting.insert(next, score), current, k + 1),
            self.scores_hold(priority, waiting.insert(next, score)),
    {
        reveal(WilsonMaze::routes_hold);
        reveal(WilsonMaze::frontier_holds);
        reveal(WilsonMaze::closed_but);
        reveal(WilsonMaze::examined);
        reveal(WilsonMaze::scores_hold);
        reveal(WilsonMaze::entries_hold);
        let more = waiting.insert(next, score);
        assert forall|c: Cell| #[trigger] visited.has(c) implies routes.contains_key(c)
            && self.traces(path, routes[c], c) && forall|i: int|
            0 <= i < routes[c].len() ==> visited.has(#[trigger] routes[c][i]) by {
            let route = routes[c];
            assert(self.traces(before, route, c));
            assert forall|i: int, j: int| 0 <= i && j == i + 1 && j < route.len() implies #[trigger] reached_from(
                path,
                route[i],
                route[j],
            ) by {
                assert(reached_from(before, route[i], route[j]));
                assert(visited.has(route[j]));
            }
        }
        assert forall|c: Cell| #[trigger] more.contains_key(c) && c != self.start_cell implies path.at(
            c,
        ) is Some && visited.has(path.at(c)->0) && self.linked(path.at(c)->0, c) by {
            if c != next {
                assert(waiting.contains_key(c));
            }
        }
        assert forall|c: Cell| #[trigger] more.contains_key(c) implies self.in_grid(c)
            && !visited.has(c) by {
            if c != next {
                assert(waiting.contains_key(c));
            }
        }
        assert forall|u: Cell, v: Cell|
            visited.has(u) && Some(u) != Some(current) && #[trigger] self.linked(
                u,
                v,
            ) implies visited.has(v) || more.contains_key(v) by {
            if !visited.has(v) {
                assert(waiting.contains_key(v));
            }
        }
    }

    /// Once every neighbour of the current cell has been looked at, each
    /// cell that a visited cell is open towards is visited or waits.
    pub proof fn lemma_expanded(&self, visited: CellSet, waiting: Map<Cell, u64>, current: Cell)
        requires
            self.in_grid(current),
            self.closed_but(visited, waiting, Some(current)),
            self.examined(
                visited,
                waiting,
                current,
                self.neighbor_list(current.0 as int, current.1 as int).len() as int,
            ),
        ensures
            self.closed_but(visited, waiting, None),
    {
        reveal(WilsonMaze::closed_but);
        reveal(WilsonMaze::examined);
        self.lemma_neighbor_list(current);
        let list = self.neighbor_list(current.0 as int, current.1 as int);
        assert forall|u: Cell, v: Cell| visited.has(u) && #[trigger] self.linked(u, v) implies visited.has(
            v,
        ) || waiting.contains_key(v) by {
            if u == current {
                let entry = (heading(current, v), v);
                assert(list.contains(entry));
                let j = choose|j: int| 0 <= j < list.len() && list[j] == entry;
                assert(list[j].1 == v);
            }
        }
    }

    /// When the end cell has left the frontier, the search is done.
    pub proof fn lemma_found(
        &self,
        priority: Priority,
        path: CellMap,
        visited: CellSet,
        routes: Map<Cell, Seq<Cell>>,
        order: Seq<Cell>,
        waiting: Map<Cell, u64>,
    )
        requires
            path.wf(),
            path.spec_rows() == self.rows,
            path.spec_cols() == self.cols,
            visited.wf(),
            visited.spec_rows() == self.rows,
            visited.spec_cols() == self.cols,
            self.routes_hold(path, visited, routes),
            self.order_holds(priority, visited, order),
            self.entries_hold(path, visited),
            self.frontier_holds(path, visited, waiting),
            self.closed_but(visited, waiting, Some(self.end_cell)),
            order.len() > 0,
            order[order.len() - 1] == self.end_cell,
        ensures
            self.search_done(priority, path, visited),
            self.reachable(self.start_cell, self.end_cell),
    {
        reveal(WilsonMaze::routes_hold);
        reveal(WilsonMaze::order_holds);
        reveal(WilsonMaze::entries_hold);
        reveal(WilsonMaze::frontier_holds);
        reveal(WilsonMaze::closed_but);
        assert forall|b: Cell, c: Cell|
            visited.has(b) && b != self.end_cell && #[trigger] self.linked(b, c) && c
                != self.start_cell implies path.at(c) is Some by {
            if visited.has(c) {
                let way = routes[c];
                assert(self.traces(path, way, c));
                assert(way.len() >= 2);
                assert(reached_from(path, way[way.len() - 2], way[way.len() - 1]));
            } else {
                assert(waiting.contains_key(c));
            }
        }
        assert(order.contains(order[order.len() - 1]));
        assert(visited.has(self.end_cell));
        let route = routes[self.end_cell];
        assert(self.traces(path, route, self.end_cell));
        assert(self.is_walk(route) && runs_between(route, self.start_cell, self.end_cell));
        assert(self.is_visit_order(priority, order));
        assert(visited@ =~= order.to_set());
        assert forall|cell: Cell| #[trigger] visited.has(cell) implies self.reachable(
            self.start_cell,
            cell,
        ) by {
            assert(self.traces(path, routes[cell], cell));
            assert(self.is_walk(routes[cell]));
        }
    }

    /// When no cell waits and the end cell has not been visited, no walk
    /// leads from the start cell to the end cell.
    pub proof fn lemma_exhausted(&self, visited: CellSet, waiting: Map<Cell, u64>)
        requires
            self.closed_but(visited, waiting, None),
            waiting.dom() =~= Set::<Cell>::empty(),
            visited.has(self.start_cell),
            !visited.has(self.end_cell),
        ensures
            !self.reachable(self.start_cell, self.end_cell),
    {
        reveal(WilsonMaze::closed_but);
        if self.reachable(self.start_cell, self.end_cell) {
            let inside = Set::new(|c: Cell| visited.has(c));
            assert forall|u: Cell, v: Cell| inside.contains(u) && #[trigger] self.linked(
                u,
                v,
            ) implies inside.contains(v) by {
                assert(!waiting.contains_key(v));
            }
            self.lemma_closed_holds_reachable(inside, self.start_cell, self.end_cell);
        }
    }
}

} // verus!
