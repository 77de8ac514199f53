//! The order in which a depth-first search enters cells, and why each
//! step of the search keeps to it.

use vstd::prelude::*;
use crate::cell_set::{grown_by, Cell, CellSet};
use crate::maze::{heading, WilsonMaze};
use crate::tree::lemma_heading;

verus! {

impl WilsonMaze {
    /// Whether `u` is open towards a cell that is not among the first `i`
    /// cells of `trace`.
    pub open spec fn has_unentered(&self, trace: Seq<Cell>, i: int, u: Cell) -> bool {
        exists|v: Cell| #[trigger] self.linked(u, v) && !trace.subrange(0, i).contains(v)
    }

    /// Whether the cell at index `i` of `trace` is entered from the cell at
    /// index `j` as a depth-first search does it: no cell entered after the
    /// one at `j` is open towards a cell that is not entered yet, and of the
    /// cells not entered yet that the cell at `j` is open towards, the one
    /// at `i` comes first in the order up, down, left, right.
    pub open spec fn enters_from(&self, trace: Seq<Cell>, i: int, j: int) -> bool {
        &&& 0 <= j < i
        &&& self.linked(trace[j], trace[i])
        &&& forall|l: int| j < l < i ==> !#[trigger] self.has_unentered(trace, i, trace[l])
        &&& forall|v: Cell| #[trigger]
            self.linked(trace[j], v) && !trace.subrange(0, i).contains(v) ==> heading(
                trace[j],
                trace[i],
            ).index() <= heading(trace[j], v).index()
    }

    /// Whether the cell at index `i` of `trace` is the cell that a
    /// depth-first search enters after the `i` cells before it.
    pub open spec fn enters_next(&self, trace: Seq<Cell>, i: int) -> bool {
        exists|j: int| #[trigger] self.enters_from(trace, i, j)
    }

    /// Whether `trace` is the order in which the depth-first search enters
    /// cells: the start cell first, then always the next cell, until the end
    /// cell is entered.
    pub open spec fn is_depth_first_order(&self, trace: Seq<Cell>) -> bool {
        &&& trace.len() >= 1
        &&& trace.no_duplicates()
        &&& trace[0] == self.start_cell
        &&& trace[trace.len() - 1] == self.end_cell
        &&& forall|i: int| 1 <= i < trace.len() ==> #[trigger] self.enters_next(trace, i)
    }

    /// Whether `visited` is the set of cells that the depth-first search
    /// enters before it enters the end cell.
    pub open spec fn is_depth_first_visit(&self, visited: Set<Cell>) -> bool {
        exists|trace: Seq<Cell>|
            #[trigger] self.is_depth_first_order(trace) && visited == trace.drop_last().to_set()
    }

    /// What holds of a depth-first search that has entered the cells of
    /// `trace`, in that order, and has the cells of `path` on its trail:
    /// the visited cells are those of `trace`, each was entered as the next
    /// cell, the trail holds entered cells only and its last cell was
    /// entered after every other cell that is still on it, and a cell that
    /// has left the trail is open towards entered cells only.
    #[verifier::opaque]
    pub open spec fn dfs_holds(&self, trace: Seq<Cell>, path: Seq<Cell>, visited: CellSet) -> bool {
        &&& trace.no_duplicates()
        &&& forall|c: Cell| visited.has(c) <==> trace.contains(c)
        &&& trace.len() > 0 ==> trace[0] == self.start_cell
        &&& forall|i: int| 1 <= i < trace.len() ==> #[trigger] self.enters_next(trace, i)
        &&& forall|l: int|
            0 <= l < trace.len() && !path.contains(trace[l]) ==> !#[trigger] self.has_unentered(
                trace,
                trace.len() as int,
                trace[l],
            )
        &&& forall|i: int| 0 <= i < path.len() ==> trace.contains(#[trigger] path[i])
        &&& path.len() > 0 ==> exists|top: int|
            0 <= top < trace.len() && #[trigger] trace[top] == path[path.len() - 1] && forall|l: int|
                top < l < trace.len() ==> !path.contains(#[trigger] trace[l])
        &&& path.len() == 0 ==> trace.len() == 0
    }

    /// Whether a depth-first search in the state that `dfs_holds` describes
    /// enters `cell` next: the search begins at the start cell, and later
    /// goes to the first cell not entered yet that the last cell of the
    /// trail is open towards.
    pub open spec fn may_enter(
        &self,
        trace: Seq<Cell>,
        path: Seq<Cell>,
        visited: CellSet,
        cell: Cell,
    ) -> bool {
        &&& self.dfs_holds(trace, path, visited)
        &&& !trace.contains(cell)
        &&& path.len() == 0 ==> cell == self.start_cell
        &&& path.len() > 0 ==> self.linked(path[path.len() - 1], cell) && forall|v: Cell| #[trigger]
            self.linked(path[path.len() - 1], v) && !trace.contains(v) ==> heading(
                path[path.len() - 1],
                cell,
            ).index() <= heading(path[path.len() - 1], v).index()
    }

    /// Before the search begins nothing is entered.
    pub proof fn lemma_dfs_begins(&self, visited: CellSet)
        requires
            forall|c: Cell| !visited.has(c),
        ensures
            self.dfs_holds(Seq::empty(), Seq::empty(), visited),
    {
        reveal(WilsonMaze::dfs_holds);
    }

    /// In the state that `dfs_holds` describes, the visited cells are the
    /// entered cells.
    pub proof fn lemma_entered_is_visited(
        &self,
        trace: Seq<Cell>,
        path: Seq<Cell>,
        visited: CellSet,
        c: Cell,
    )
        requires
            self.dfs_holds(trace, path, visited),
        ensures
            visited.has(c) <==> trace.contains(c),
    {
        reveal(WilsonMaze::dfs_holds);
    }

    /// Whether a cell was entered as the next cell depends only on the
    /// cells up to it.
    pub proof fn lemma_enters_next_prefix(&self, trace: Seq<Cell>, longer: Seq<Cell>, i: int)
        requires
            0 <= i < trace.len() <= longer.len(),
            longer.subrange(0, trace.len() as int) == trace,
            self.enters_next(trace, i),
        ensures
            self.enters_next(longer, i),
    {
        let j = choose|j: int| #[trigger] self.enters_from(trace, i, j);
        assert(longer.subrange(0, i) =~= trace.subrange(0, i)) by {
            assert forall|a: int| 0 <= a < i implies longer[a] == trace[a] by {
                assert(longer.subrange(0, trace.len() as int)[a] == trace[a]);
            }
        }
        assert(longer[i] == trace[i] && longer[j] == trace[j]) by {
            assert(longer.subrange(0, trace.len() as int)[i] == trace[i]);
            assert(longer.subrange(0, trace.len() as int)[j] == trace[j]);
        }
        assert forall|l: int| j < l < i implies !#[trigger] self.has_unentered(
            longer,
            i,
            longer[l],
        ) by {
            assert(longer.subrange(0, trace.len() as int)[l] == trace[l]);
            assert(!self.has_unentered(trace, i, trace[l]));
        }
        assert(self.enters_from(longer, i, j));
    }

    /// When the search enters `cell`, the order of entered cells goes on by
    /// `cell`.
    pub proof fn lemma_next_entered(
        &self,
        trace: Seq<Cell>,
        path: Seq<Cell>,
        visited: CellSet,
        cell: Cell,
    )
        requires
            self.may_enter(trace, path, visited, cell),
        ensures
            trace.push(cell).no_duplicates(),
            trace.push(cell)[0] == self.start_cell,
            forall|i: int|
                1 <= i < trace.push(cell).len() ==> #[trigger] self.enters_next(
                    trace.push(cell),
                    i,
                ),
    {
        reveal(WilsonMaze::dfs_holds);
        let longer = trace.push(cell);
        let n = trace.len() as int;
        assert(longer.subrange(0, n) =~= trace);
        assert forall|i: int| 1 <= i < longer.len() implies #[trigger] self.enters_next(
            longer,
            i,
        ) by {
            if i < n {
                assert(self.enters_next(trace, i));
                self.lemma_enters_next_prefix(trace, longer, i);
            } else {
                let last = path[path.len() - 1];
                let top = choose|top: int|
                    0 <= top < trace.len() && #[trigger] trace[top] == last && forall|l: int|
                        top < l < trace.len() ==> !path.contains(#[trigger] trace[l]);
                assert forall|l: int| top < l < n implies !#[trigger] self.has_unentered(
                    longer,
                    n,
                    longer[l],
                ) by {
                    assert(!path.contains(trace[l]));
                    assert(!self.has_unentered(trace, n, trace[l]));
                    assert(trace.subrange(0, n) =~= trace);
                }
                assert(self.enters_from(longer, n, top));
            }
        }
    }

    /// When the search enters the end cell, the entered cells are in
    /// depth-first order, and the visited cells are those entered before.
    pub proof fn lemma_meet_end(
        &self,
        trace: Seq<Cell>,
        path: Seq<Cell>,
        visited: CellSet,
    )
        requires
            self.may_enter(trace, path, visited, self.end_cell),
        ensures
            self.is_depth_first_order(trace.push(self.end_cell)),
            visited@ == trace.push(self.end_cell).drop_last().to_set(),
    {
        self.lemma_next_entered(trace, path, visited, self.end_cell);
        reveal(WilsonMaze::dfs_holds);
        assert(trace.push(self.end_cell).drop_last() =~= trace);
        assert(visited@ =~= trace.to_set());
    }

    /// When the search enters a cell other than the end cell, marks it
    /// visited and puts it on the trail, the state is as `dfs_holds`
    /// describes again.
    pub proof fn lemma_enter(
        &self,
        trace: Seq<Cell>,
        path: Seq<Cell>,
        seen: CellSet,
        visited: CellSet,
        cell: Cell,
    )
        requires
            self.may_enter(trace, path, seen, cell),
            grown_by(seen, visited, cell),
        ensures
            self.dfs_holds(trace.push(cell), path.push(cell), visited),
    {
        self.lemma_next_entered(trace, path, seen, cell);
        reveal(WilsonMaze::dfs_holds);
        let longer = trace.push(cell);
        let trail = path.push(cell);
        let n = trace.len() as int;
        assert(longer.subrange(0, n + 1) =~= longer);
        assert(trace.subrange(0, n) =~= trace);
        assert forall|c: Cell| visited.has(c) <==> longer.contains(c) by {
            if c == cell {
                assert(longer[n] == c);
            } else if seen.has(c) {
                let k = choose|k: int| 0 <= k < trace.len() && trace[k] == c;
                assert(longer[k] == c);
            } else if longer.contains(c) {
                let k = choose|k: int| 0 <= k < longer.len() && longer[k] == c;
                assert(trace[k] == c);
            }
        }
        assert forall|l: int| 0 <= l < longer.len() && !trail.contains(longer[l]) implies !#[trigger] self.has_unentered(
            longer,
            longer.len() as int,
            longer[l],
        ) by {
            if l == n {
                assert(trail[trail.len() - 1] == cell);
            } else {
                if path.contains(trace[l]) {
                    let k = choose|k: int| 0 <= k < path.len() && path[k] == trace[l];
                    assert(trail[k] == trace[l]);
                }
                assert(!self.has_unentered(trace, n, trace[l]));
                if self.has_unentered(longer, n + 1, longer[l]) {
                    let v = choose|v: Cell| #[trigger]
                        self.linked(longer[l], v) && !longer.subrange(0, n + 1).contains(v);
                    if trace.contains(v) {
                        let k = choose|k: int| 0 <= k < trace.len() && trace[k] == v;
                        assert(longer[k] == v);
                    }
                    assert(self.linked(trace[l], v) && !trace.subrange(0, n).contains(v));
                }
            }
        }
        assert forall|i: int| 0 <= i < trail.len() implies longer.contains(#[trigger] trail[i]) by {
            if i < path.len() {
                assert(trace.contains(path[i]));
                let k = choose|k: int| 0 <= k < trace.len() && trace[k] == path[i];
                assert(longer[k] == trail[i]);
            } else {
                assert(longer[n] == trail[i]);
            }
        }
        assert(longer[n] == trail[trail.len() - 1]);
    }

    /// The first of the neighbours not looked at yet that the cell is open
    /// towards and that is not entered yet comes, in the order up, down,
    /// left, right, before every other cell not entered yet that the cell
    /// is open towards.
    pub proof fn lemma_first_unentered(&self, trace: Seq<Cell>, cell: Cell, k: int)
        requires
            self.in_grid(cell),
            0 <= k < self.neighbor_list(cell.0 as int, cell.1 as int).len(),
            forall|j: int|
                0 <= j < k && self.linked(
                    cell,
                    (#[trigger] self.neighbor_list(cell.0 as int, cell.1 as int)[j]).1,
                ) ==> trace.contains(self.neighbor_list(cell.0 as int, cell.1 as int)[j].1),
        ensures
            forall|v: Cell| #[trigger]
                self.linked(cell, v) && !trace.contains(v) ==> heading(
                    cell,
                    self.neighbor_list(cell.0 as int, cell.1 as int)[k].1,
                ).index() <= heading(cell, v).index(),
    {
        self.lemma_neighbor_list(cell);
        self.lemma_neighbor_order(cell);
        let list = self.neighbor_list(cell.0 as int, cell.1 as int);
        assert(heading(cell, list[k].1) == list[k].0);
        assert forall|v: Cell| #[trigger] self.linked(cell, v) && !trace.contains(v) implies heading(
            cell,
            list[k].1,
        ).index() <= heading(cell, v).index() by {
            let entry = (heading(cell, v), v);
            assert(list.contains(entry));
            let j = choose|j: int| 0 <= j < list.len() && list[j] == entry;
            assert(list[j].1 == v);
            if j < k {
                assert(trace.contains(list[j].1));
            } else if j > k {
                assert(list[k].0.index() < list[j].0.index());
            }
        }
    }

    /// A cell that is open towards entered cells only is open towards no
    /// cell that is not entered yet.
    pub proof fn lemma_nothing_unentered(&self, trace: Seq<Cell>, cell: Cell)
        requires
            self.in_grid(cell),
            forall|j: int|
                0 <= j < self.neighbor_list(cell.0 as int, cell.1 as int).len() && self.linked(
                    cell,
                    (#[trigger] self.neighbor_list(cell.0 as int, cell.1 as int)[j]).1,
                ) ==> trace.contains(self.neighbor_list(cell.0 as int, cell.1 as int)[j].1),
        ensures
            !self.has_unentered(trace, trace.len() as int, cell),
    {
        self.lemma_neighbor_list(cell);
        let list = self.neighbor_list(cell.0 as int, cell.1 as int);
        assert(trace.subrange(0, trace.len() as int) =~= trace);
        if self.has_unentered(trace, trace.len() as int, cell) {
            let v = choose|v: Cell| #[trigger]
                self.linked(cell, v) && !trace.subrange(0, trace.len() as int).contains(v);
            let entry = (heading(cell, v), v);
            assert(list.contains(entry));
            let j = choose|j: int| 0 <= j < list.len() && list[j] == entry;
            assert(list[j].1 == v);
        }
    }

    /// When the search comes back from `next` without a solution and takes
    /// `next` off the trail, the state is as `dfs_holds` describes again.
    pub proof fn lemma_come_back(
        &self,
        before: Seq<Cell>,
        trace: Seq<Cell>,
        path: Seq<Cell>,
        seen: CellSet,
        visited: CellSet,
        next: Cell,
    )
        requires
            path.len() > 0,
            self.dfs_holds(before, path, seen),
            !before.contains(next),
            trace.len() > before.len(),
            trace.subrange(0, before.len() as int) == before,
            trace[before.len() as int] == next,
            self.dfs_holds(trace, path.push(next), visited),
            !self.has_unentered(trace, trace.len() as int, next),
        ensures
            self.dfs_holds(trace, path, visited),
    {
        reveal(WilsonMaze::dfs_holds);
        let trail = path.push(next);
        let m = before.len() as int;
        let last = path[path.len() - 1];
        assert forall|a: int| 0 <= a < m implies trace[a] == before[a] by {
            assert(trace.subrange(0, m)[a] == before[a]);
        }
        assert(!path.contains(next)) by {
            if path.contains(next) {
                let i = choose|i: int| 0 <= i < path.len() && path[i] == next;
                assert(before.contains(path[i]));
            }
        }
        assert forall|l: int| 0 <= l < trace.len() && !path.contains(trace[l]) implies !#[trigger] self.has_unentered(
            trace,
            trace.len() as int,
            trace[l],
        ) by {
            if trace[l] != next {
                if trail.contains(trace[l]) {
                    let i = choose|i: int| 0 <= i < trail.len() && trail[i] == trace[l];
                    assert(path[i] == trace[l]);
                }
            }
        }
        assert forall|i: int| 0 <= i < path.len() implies trace.contains(#[trigger] path[i]) by {
            assert(trail[i] == path[i]);
        }
        let top = choose|top: int|
            0 <= top < before.len() && #[trigger] before[top] == last && forall|l: int|
                top < l < before.len() ==> !path.contains(#[trigger] before[l]);
        let above = choose|above: int|
            0 <= above < trace.len() && #[trigger] trace[above] == trail[trail.len() - 1]
                && forall|l: int| above < l < trace.len() ==> !trail.contains(#[trigger] trace[l]);
        assert(above == m);
        assert(trace[top] == last);
        assert forall|l: int| top < l < trace.len() implies !path.contains(#[trigger] trace[l]) by {
            if l < m {
                assert(!path.contains(before[l]));
            } else if l > m {
                if path.contains(trace[l]) {
                    let i = choose|i: int| 0 <= i < path.len() && path[i] == trace[l];
                    assert(trail[i] == trace[l]);
                }
            }
        }
    }

    /// Two orders in which a depth-first search can enter cells agree as
    /// far as both go.
    pub proof fn lemma_depth_first_orders_agree(&self, first: Seq<Cell>, second: Seq<Cell>, i: int)
        requires
            self.is_depth_first_order(first),
            self.is_depth_first_order(second),
            0 <= i < first.len(),
            i < second.len(),
        ensures
            first.subrange(0, i + 1) == second.subrange(0, i + 1),
        decreases i,
    {
        if i == 0 {
            assert(first.subrange(0, 1) =~= second.subrange(0, 1));
        } else {
            self.lemma_depth_first_orders_agree(first, second, i - 1);
            let shared = first.subrange(0, i);
            assert(shared == second.subrange(0, i));
            assert forall|a: int| 0 <= a < i implies first[a] == second[a] by {
                assert(shared[a] == first[a]);
                assert(second.subrange(0, i)[a] == second[a]);
            }
            assert(self.enters_next(first, i));
            assert(self.enters_next(second, i));
            let j = choose|j: int| #[trigger] self.enters_from(first, i, j);
            let k = choose|k: int| #[trigger] self.enters_from(second, i, k);
            assert(!shared.contains(first[i])) by {
                if shared.contains(first[i]) {
                    let a = choose|a: int| 0 <= a < shared.len() && shared[a] == first[i];
                    assert(first[a] == first[i]);
                }
            }
            assert(!shared.contains(second[i])) by {
                if shared.contains(second[i]) {
                    let a = choose|a: int| 0 <= a < shared.len() && shared[a] == second[i];
                    assert(second[a] == second[i]);
                }
            }
            assert(self.has_unentered(first, i, first[j]));
            assert(self.has_unentered(second, i, second[k]));
            assert(self.has_unentered(second, i, second[j]) == self.has_unentered(
                first,
                i,
                first[j],
            ));
            assert(self.has_unentered(first, i, first[k]) == self.has_unentered(
                second,
                i,
                second[k],
            ));
            assert(j == k);
            lemma_heading(first[j], first[i], second[i]);
            lemma_heading(first[j], second[i], first[i]);
            assert(first[i] == second[i]);
            assert(first.subrange(0, i + 1) =~= second.subrange(0, i + 1));
        }
    }

    /// There is one order only in which a depth-first search can enter
    /// cells.
    pub proof fn lemma_depth_first_order_unique(&self, first: Seq<Cell>, second: Seq<Cell>)
        requires
            self.is_depth_first_order(first),
            self.is_depth_first_order(second),
        ensures
            first == second,
    {
        let n = first.len() as int;
        let m = second.len() as int;
        if n <= m {
            self.lemma_depth_first_orders_agree(first, second, n - 1);
            assert(first.subrange(0, n) =~= first);
            if n < m {
                assert(second.subrange(0, n)[n - 1] == first[n - 1]);
                assert(second[n - 1] == second[m - 1]);
            }
            assert(second.subrange(0, m) =~= second);
        } else {
            self.lemma_depth_first_orders_agree(first, second, m - 1);
            assert(first.subrange(0, m)[m - 1] == second.subrange(0, m)[m - 1]);
            assert(first[m - 1] == first[n - 1]);
        }
    }

    /// The depth-first search visits the same cells each time: two sets
    /// that are each the cells that the search enters before the end cell
    /// are the same set.
    pub proof fn lemma_depth_first_visit_unique(&self, first: Set<Cell>, second: Set<Cell>)
        requires
            self.is_depth_first_visit(first),
            self.is_depth_first_visit(second),
        ensures
            first == second,
    {
        let t = choose|t: Seq<Cell>|
            #[trigger] self.is_depth_first_order(t) && first == t.drop_last().to_set();
        let u = choose|u: Seq<Cell>|
            #[trigger] self.is_depth_first_order(u) && second == u.drop_last().to_set();
        self.lemma_depth_first_order_unique(t, u);
    }
}

} // verus!
