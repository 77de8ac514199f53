//! Perfect mazes: the passages form a tree that spans the grid.
//!
//! A tree is described by the order in which it can be grown: each cell
//! after the first is linked to exactly one cell before it.

use vstd::prelude::*;
use vstd::relations::injective_on;
use vstd::set_lib::*;
use crate::cell_set::Cell;
use crate::direction::Direction;
use crate::generate::{step_opens, walk_meets, walk_opens, Step};
use crate::graph::runs_between;
use crate::maze::{adjacent, heading, WilsonMaze};

verus! {

/// Adjacent cells differ, the way back is the reverse of the way there, and
/// a cell has one neighbour only in each direction.
pub proof fn lemma_heading(a: Cell, b: Cell, c: Cell)
    requires
        adjacent(a, b),
    ensures
        a != b,
        adjacent(b, a),
        heading(b, a) == heading(a, b).inverse(),
        adjacent(a, c) && heading(a, c) == heading(a, b) ==> c == b,
{
}

/// Whether a step of `walk` joins `a` and `b`, in either direction.
pub open spec fn joined_by(walk: Seq<Step>, a: Cell, b: Cell) -> bool {
    exists|i: int|
        0 <= i < walk.len() && (((#[trigger] walk[i]).0 == a && walk[i].2 == b) || (walk[i].2 == a
            && walk[i].0 == b))
}

/// The order in which a tree grows when the branch `walk` is joined to it:
/// the cells of `order`, then the cells that the walk left, the last one
/// first.
pub open spec fn branch_order(order: Seq<Cell>, walk: Seq<Step>) -> Seq<Cell> {
    order + Seq::new(walk.len(), |t: int| walk[walk.len() - 1 - t].0)
}

/// The parents in the tree that has grown by the branch `walk`: the cell
/// that a step leaves has for its parent the cell that the step enters.
pub open spec fn branch_parent(order: Seq<Cell>, parent: Seq<int>, walk: Seq<Step>) -> Seq<int> {
    parent + Seq::new(
        walk.len(),
        |t: int|
            if t == 0 {
                order.index_of(walk[walk.len() - 1].2)
            } else {
                order.len() + t - 1
            },
    )
}

impl WilsonMaze {
    /// The passages, each counted once: the pairs of linked cells of which
    /// the second lies below or to the right of the first.
    pub open spec fn edges(&self) -> Set<(Cell, Cell)> {
        Set::new(
            |e: (Cell, Cell)|
                self.linked(e.0, e.1) && (heading(e.0, e.1) == Direction::Down || heading(e.0, e.1)
                    == Direction::Right),
        )
    }

    /// Every open direction of a cell leads to a cell of the grid: no cell
    /// is open towards the outside.
    pub open spec fn passages_inside(&self) -> bool {
        forall|cell: Cell, d: Direction|
            self.in_grid(cell) && #[trigger] self.open(cell, d) ==> self.in_bounds_at(
                cell.0 + d.row_offset(),
                cell.1 + d.col_offset(),
            )
    }

    /// Whether the maze is perfect: no cell is open towards the outside,
    /// every passage can be walked both ways, every cell can be reached from
    /// every other, no two simple paths join the same two cells, and there
    /// is one passage less than there are cells.
    pub open spec fn is_perfect(&self) -> bool {
        &&& self.passages_inside()
        &&& self.symmetric()
        &&& self.connected()
        &&& self.paths_unique()
        &&& self.edges().finite()
        &&& self.edges().len() + 1 == self.rows * self.cols
    }

    /// Whether the passages form a tree on the cells of `order` that can be
    /// grown in that order: links go both ways and join cells of `order`
    /// only, and each cell after the first is linked to exactly one earlier
    /// cell, the one at the index that `parent` gives.
    pub open spec fn grown(&self, order: Seq<Cell>, parent: Seq<int>) -> bool {
        &&& order.len() >= 1
        &&& parent.len() == order.len()
        &&& order.no_duplicates()
        &&& forall|i: int| 0 <= i < order.len() ==> self.in_grid(#[trigger] order[i])
        &&& forall|a: Cell, b: Cell| #[trigger]
            self.linked(a, b) ==> self.linked(b, a) && order.contains(a) && order.contains(b)
        &&& forall|k: int|
            1 <= k < order.len() ==> 0 <= #[trigger] parent[k] < k && self.linked(
                order[k],
                order[parent[k]],
            )
        &&& forall|k: int, j: int|
            0 <= j < k < order.len() && #[trigger] self.linked(order[k], order[j]) ==> j
                == parent[k]
    }

    /// In a grown tree each cell reaches the first cell, and the first cell
    /// reaches each cell.
    pub proof fn lemma_grown_root(&self, order: Seq<Cell>, parent: Seq<int>, k: int)
        requires
            self.grown(order, parent),
            0 <= k < order.len(),
        ensures
            self.reachable(order[k], order[0]),
            self.reachable(order[0], order[k]),
        decreases k,
    {
        if k == 0 {
            self.lemma_reachable_self(order[0]);
        } else {
            self.lemma_grown_root(order, parent, parent[k]);
            self.lemma_reachable_step(order[k], order[parent[k]], order[0]);
            assert(self.linked(order[parent[k]], order[k]));
            self.lemma_reachable_push(order[0], order[parent[k]], order[k]);
        }
    }

    /// A grown tree that holds every cell of the grid joins every cell to
    /// every other.
    pub proof fn lemma_grown_connected(&self, order: Seq<Cell>, parent: Seq<int>)
        requires
            self.grown(order, parent),
            forall|c: Cell| self.in_grid(c) ==> order.contains(c),
        ensures
            self.connected(),
    {
        assert forall|a: Cell, b: Cell| self.in_grid(a) && self.in_grid(b) implies #[trigger] self.reachable(
            a,
            b,
        ) by {
            let i = choose|i: int| 0 <= i < order.len() && order[i] == a;
            let j = choose|j: int| 0 <= j < order.len() && order[j] == b;
            self.lemma_grown_root(order, parent, i);
            self.lemma_grown_root(order, parent, j);
            self.lemma_reachable_trans(a, order[0], b);
        }
    }

    /// The passage that joins the cell at index `k` of `order` to its
    /// parent, written as the passages of `edges` are.
    pub open spec fn parent_edge(order: Seq<Cell>, parent: Seq<int>, k: int) -> (Cell, Cell) {
        let child = order[k];
        let elder = order[parent[k]];
        if heading(child, elder) == Direction::Down || heading(child, elder) == Direction::Right {
            (child, elder)
        } else {
            (elder, child)
        }
    }

    /// A grown tree has one passage less than it has cells.
    pub proof fn lemma_grown_edge_count(&self, order: Seq<Cell>, parent: Seq<int>)
        requires
            self.grown(order, parent),
        ensures
            self.edges().finite(),
            self.edges().len() + 1 == order.len(),
    {
        let n = order.len() as int;
        let range = set_int_range(1, n);
        let to_edge = |k: int| Self::parent_edge(order, parent, k);
        lemma_int_range(1, n);
        assert forall|k1: int, k2: int|
            range.contains(k1) && range.contains(k2) && #[trigger] to_edge(k1) == #[trigger] to_edge(
                k2,
            ) implies k1 == k2 by {
            let (c1, e1) = (order[k1], order[parent[k1]]);
            let (c2, e2) = (order[k2], order[parent[k2]]);
            assert(0 <= parent[k1] < k1 && 0 <= parent[k2] < k2);
            if c1 == c2 {
            } else {
                assert(c1 == e2 && e1 == c2);
                assert(k1 == parent[k2]);
                assert(parent[k1] == k2);
            }
        }
        assert(injective_on(to_edge, range));
        assert(range.map(to_edge) =~= self.edges()) by {
            assert forall|e: (Cell, Cell)| self.edges().contains(e) implies range.map(
                to_edge,
            ).contains(e) by {
                assert(self.linked(e.0, e.1));
                assert(self.linked(e.1, e.0));
                let i = choose|i: int| 0 <= i < order.len() && order[i] == e.0;
                let j = choose|j: int| 0 <= j < order.len() && order[j] == e.1;
                if i > j {
                    assert(self.linked(order[i], order[j]));
                    assert(j == parent[i]);
                    assert(range.contains(i));
                    assert(to_edge(i) == e);
                } else {
                    assert(i != j);
                    assert(self.linked(order[j], order[i]));
                    assert(i == parent[j]);
                    assert(range.contains(j));
                    assert(to_edge(j) == e);
                }
            }
            assert forall|e: (Cell, Cell)| range.map(to_edge).contains(e) implies self.edges().contains(
                e,
            ) by {
                let k = choose|k: int| range.contains(k) && e == to_edge(k);
                assert(0 <= parent[k] < k);
                assert(self.linked(order[k], order[parent[k]]));
                assert(self.linked(order[parent[k]], order[k]));
            }
        }
        lemma_map_size(range, self.edges(), to_edge);
    }

    /// Whether each cell of `p` is among the first `n` cells of `order`.
    pub open spec fn within(order: Seq<Cell>, n: int, p: Seq<Cell>) -> bool {
        forall|i: int| 0 <= i < p.len() ==> order.subrange(0, n).contains(#[trigger] p[i])
    }

    /// Among the first `n` cells of a grown tree, the last is linked to its
    /// parent only.
    pub proof fn lemma_leaf_neighbor(&self, order: Seq<Cell>, parent: Seq<int>, n: int, x: Cell)
        requires
            self.grown(order, parent),
            1 <= n <= order.len(),
            order.subrange(0, n).contains(x),
            x != order[n - 1],
            self.linked(order[n - 1], x) || self.linked(x, order[n - 1]),
        ensures
            n >= 2,
            x == order[parent[n - 1]],
            order.subrange(0, n - 1).contains(x),
    {
        let front = order.subrange(0, n);
        let a = choose|a: int| 0 <= a < front.len() && front[a] == x;
        assert(order[a] == x);
        assert(a < n - 1);
        assert(self.linked(order[n - 1], order[a]));
        assert(order.subrange(0, n - 1)[a] == x);
    }

    /// A simple path among the first `n` cells of a grown tree meets the
    /// last of them at one of its ends only.
    pub proof fn lemma_leaf_at_end(&self, order: Seq<Cell>, parent: Seq<int>, n: int, p: Seq<Cell>)
        requires
            self.grown(order, parent),
            1 <= n <= order.len(),
            self.is_simple_path(p),
            Self::within(order, n, p),
        ensures
            forall|i: int|
                0 <= i < p.len() && #[trigger] p[i] == order[n - 1] ==> i == 0 || i == p.len() - 1,
    {
        assert forall|i: int| 0 <= i < p.len() && #[trigger] p[i] == order[n - 1] implies i == 0
            || i == p.len() - 1 by {
            if 0 < i < p.len() - 1 {
                let x = p[i - 1];
                let y = p[i + 1];
                assert(self.linked(p[i - 1], p[i]));
                assert(self.linked(p[i], p[i + 1]));
                self.lemma_leaf_neighbor(order, parent, n, x);
                self.lemma_leaf_neighbor(order, parent, n, y);
                assert(p[i - 1] == p[i + 1]);
            }
        }
    }

    /// A stretch of a simple path is a simple path.
    pub proof fn lemma_subpath(&self, p: Seq<Cell>, from: int, to: int)
        requires
            self.is_simple_path(p),
            0 <= from < to <= p.len(),
        ensures
            self.is_simple_path(p.subrange(from, to)),
    {
        let r = p.subrange(from, to);
        assert forall|i: int, j: int| 0 <= i && j == i + 1 && j < r.len() implies #[trigger] self.linked(
            r[i],
            r[j],
        ) by {
            assert(self.linked(p[from + i], p[from + j]));
        }
    }

    /// Among the first `n` cells of a grown tree, two simple paths with the
    /// same ends are the same path.
    pub proof fn lemma_within_unique(
        &self,
        order: Seq<Cell>,
        parent: Seq<int>,
        n: int,
        p: Seq<Cell>,
        q: Seq<Cell>,
    )
        requires
            self.grown(order, parent),
            1 <= n <= order.len(),
            self.is_simple_path(p),
            self.is_simple_path(q),
            Self::within(order, n, p),
            Self::within(order, n, q),
            p[0] == q[0],
            p[p.len() - 1] == q[q.len() - 1],
        ensures
            p == q,
        decreases n,
    {
        let v = order[n - 1];
        let front = order.subrange(0, n);
        self.lemma_leaf_at_end(order, parent, n, p);
        self.lemma_leaf_at_end(order, parent, n, q);
        if !p.contains(v) && !q.contains(v) {
            assert(front.contains(p[0]));
            let a0 = choose|a: int| 0 <= a < front.len() && front[a] == p[0];
            assert(order[a0] == p[0]);
            assert(p.contains(p[0]));
            assert(n >= 2);
            assert forall|i: int| 0 <= i < p.len() implies order.subrange(0, n - 1).contains(
                #[trigger] p[i],
            ) by {
                assert(front.contains(p[i]));
                let a = choose|a: int| 0 <= a < front.len() && front[a] == p[i];
                assert(order[a] == p[i]);
                assert(p.contains(p[i]));
                assert(order.subrange(0, n - 1)[a] == p[i]);
            }
            assert forall|i: int| 0 <= i < q.len() implies order.subrange(0, n - 1).contains(
                #[trigger] q[i],
            ) by {
                assert(front.contains(q[i]));
                let a = choose|a: int| 0 <= a < front.len() && front[a] == q[i];
                assert(order[a] == q[i]);
                assert(q.contains(q[i]));
                assert(order.subrange(0, n - 1)[a] == q[i]);
            }
            self.lemma_within_unique(order, parent, n - 1, p, q);
        } else if p[0] == v {
            if p.len() == 1 || q.len() == 1 {
                assert(p[p.len() - 1] == q[0]);
                assert(q[q.len() - 1] == p[0]);
                assert(p.len() == 1);
                assert(q.len() == 1);
                assert(p =~= q);
            } else {
                assert(self.linked(p[0], p[1]));
                assert(self.linked(q[0], q[1]));
                assert(front.contains(p[1]) && front.contains(q[1]));
                self.lemma_leaf_neighbor(order, parent, n, p[1]);
                self.lemma_leaf_neighbor(order, parent, n, q[1]);
                let p_rest = p.subrange(1, p.len() as int);
                let q_rest = q.subrange(1, q.len() as int);
                self.lemma_subpath(p, 1, p.len() as int);
                self.lemma_subpath(q, 1, q.len() as int);
                assert forall|i: int| 0 <= i < p_rest.len() implies order.subrange(0, n - 1).contains(
                    #[trigger] p_rest[i],
                ) by {
                    let c = p[i + 1];
                    assert(front.contains(c));
                    let a = choose|a: int| 0 <= a < front.len() && front[a] == c;
                    assert(order[a] == c);
                    assert(order.subrange(0, n - 1)[a] == c);
                }
                assert forall|i: int| 0 <= i < q_rest.len() implies order.subrange(0, n - 1).contains(
                    #[trigger] q_rest[i],
                ) by {
                    let c = q[i + 1];
                    assert(front.contains(c));
                    let a = choose|a: int| 0 <= a < front.len() && front[a] == c;
                    assert(order[a] == c);
                    assert(order.subrange(0, n - 1)[a] == c);
                }
                self.lemma_within_unique(order, parent, n - 1, p_rest, q_rest);
                assert(p =~= seq![v] + p_rest);
                assert(q =~= seq![v] + q_rest);
            }
        } else if p[p.len() - 1] == v {
            assert(p.len() >= 2 && q.len() >= 2);
            let pl = p.len() as int;
            let ql = q.len() as int;
            assert(self.linked(p[pl - 2], p[pl - 1]));
            assert(self.linked(q[ql - 2], q[ql - 1]));
            assert(front.contains(p[pl - 2]) && front.contains(q[ql - 2]));
            self.lemma_leaf_neighbor(order, parent, n, p[pl - 2]);
            self.lemma_leaf_neighbor(order, parent, n, q[ql - 2]);
            let p_rest = p.subrange(0, pl - 1);
            let q_rest = q.subrange(0, ql - 1);
            self.lemma_subpath(p, 0, pl - 1);
            self.lemma_subpath(q, 0, ql - 1);
            assert forall|i: int| 0 <= i < p_rest.len() implies order.subrange(0, n - 1).contains(
                #[trigger] p_rest[i],
            ) by {
                let c = p[i];
                assert(front.contains(c));
                let a = choose|a: int| 0 <= a < front.len() && front[a] == c;
                assert(order[a] == c);
                assert(order.subrange(0, n - 1)[a] == c);
            }
            assert forall|i: int| 0 <= i < q_rest.len() implies order.subrange(0, n - 1).contains(
                #[trigger] q_rest[i],
            ) by {
                let c = q[i];
                assert(front.contains(c));
                let a = choose|a: int| 0 <= a < front.len() && front[a] == c;
                assert(order[a] == c);
                assert(order.subrange(0, n - 1)[a] == c);
            }
            self.lemma_within_unique(order, parent, n - 1, p_rest, q_rest);
            assert(p =~= p_rest.push(v));
            assert(q =~= q_rest.push(v));
        } else {
            if p.contains(v) {
                let i = choose|i: int| 0 <= i < p.len() && p[i] == v;
                assert(false);
            } else {
                let i = choose|i: int| 0 <= i < q.len() && q[i] == v;
                assert(false);
            }
        }
    }

    /// In a grown tree no two simple paths join the same two cells.
    pub proof fn lemma_grown_paths_unique(&self, order: Seq<Cell>, parent: Seq<int>)
        requires
            self.grown(order, parent),
            forall|c: Cell| self.in_grid(c) ==> order.contains(c),
        ensures
            self.paths_unique(),
    {
        let n = order.len() as int;
        assert(order.subrange(0, n) =~= order);
        assert forall|p: Seq<Cell>, q: Seq<Cell>|
            #[trigger] self.is_simple_path(p) && #[trigger] self.is_simple_path(q) && p[0] == q[0]
                && p[p.len() - 1] == q[q.len() - 1] implies p == q by {
            self.lemma_within_unique(order, parent, n, p, q);
        }
    }

    /// After a branch has been carved, two cells are linked exactly where
    /// they were linked before or a step of the branch joins them.
    pub proof fn lemma_carved_links(&self, before: WilsonMaze, walk: Seq<Step>, start: Cell)
        requires
            before.is_branch(walk, start),
            self.carved(before, walk, walk.len() as int),
        ensures
            forall|a: Cell, b: Cell| #[trigger]
                self.linked(a, b) <==> before.linked(a, b) || joined_by(walk, a, b),
    {
        let m = walk.len() as int;
        assert forall|a: Cell, b: Cell| #[trigger] self.linked(a, b) implies before.linked(a, b)
            || joined_by(walk, a, b) by {
            let h = heading(a, b);
            assert(self.open(a, h));
            if !before.open(a, h) {
                assert(walk_opens(walk, m, a, h));
                let i = choose|i: int| 0 <= i < m && step_opens(#[trigger] walk[i], a, h);
                lemma_heading(walk[i].0, walk[i].2, b);
                lemma_heading(walk[i].2, walk[i].0, b);
                assert((walk[i].0 == a && walk[i].2 == b) || (walk[i].2 == a && walk[i].0 == b));
            }
        }
        assert forall|a: Cell, b: Cell| before.linked(a, b) || joined_by(walk, a, b) implies #[trigger] self.linked(
            a,
            b,
        ) by {
            if before.linked(a, b) {
                assert(self.open(a, heading(a, b)));
            } else {
                let i = choose|i: int|
                    0 <= i < walk.len() && (((#[trigger] walk[i]).0 == a && walk[i].2 == b) || (
                    walk[i].2 == a && walk[i].0 == b));
                lemma_heading(walk[i].0, walk[i].2, b);
                assert(step_opens(walk[i], a, heading(a, b)));
                assert(walk_opens(walk, m, a, heading(a, b)));
                assert(self.open(a, heading(a, b)));
            }
        }
    }

    /// Where the cells of a branch stand in the order of the tree that has
    /// grown by it.
    pub proof fn lemma_branch_cells(
        &self,
        order: Seq<Cell>,
        parent: Seq<int>,
        walk: Seq<Step>,
        start: Cell,
    )
        requires
            self.grown(order, parent),
            forall|c: Cell| self.visited.has(c) <==> order.contains(c),
            self.is_branch(walk, start),
            walk.len() > 0,
        ensures
            branch_order(order, walk).len() == order.len() + walk.len(),
            branch_parent(order, parent, walk).len() == order.len() + walk.len(),
            branch_order(order, walk).no_duplicates(),
            forall|k: int|
                0 <= k < order.len() ==> #[trigger] branch_order(order, walk)[k] == order[k]
                    && branch_parent(order, parent, walk)[k] == parent[k],
            forall|i: int|
                0 <= i < walk.len() ==> branch_order(order, walk)[order.len() + walk.len() - 1 - i]
                    == (#[trigger] walk[i]).0,
            forall|i: int|
                0 <= i < walk.len() - 1 ==> branch_parent(order, parent, walk)[order.len()
                    + walk.len() - 1 - i] == order.len() + walk.len() - 2 - i && (
                #[trigger] walk[i]).2 == branch_order(order, walk)[order.len() + walk.len() - 2
                    - i],
            0 <= branch_parent(order, parent, walk)[order.len() as int] < order.len(),
            order[branch_parent(order, parent, walk)[order.len() as int]] == walk[walk.len()
                - 1].2,
    {
        let m = walk.len() as int;
        let n = order.len() as int;
        let cells = branch_order(order, walk);
        let elders = branch_parent(order, parent, walk);
        assert(order.contains(walk[m - 1].2));
        order.index_of_first_ensures(walk[m - 1].2);
        assert forall|i: int| 0 <= i < m - 1 implies elders[n + m - 1 - i] == n + m - 2 - i && (
        #[trigger] walk[i]).2 == cells[n + m - 2 - i] by {
            assert(walk[i].2 == walk[i + 1].0);
        }
        assert forall|i: int, j: int| 0 <= i < cells.len() && 0 <= j < cells.len() && i != j implies cells[i]
            != cells[j] by {
            if i >= n {
                let wi = m - 1 - (i - n);
                assert(cells[i] == walk[wi].0);
                assert(!self.visited.has(walk[wi].0));
                if j >= n {
                    let wj = m - 1 - (j - n);
                    assert(cells[j] == walk[wj].0);
                } else {
                    assert(order.contains(order[j]));
                }
            } else if j >= n {
                let wj = m - 1 - (j - n);
                assert(cells[j] == walk[wj].0);
                assert(!self.visited.has(walk[wj].0));
                assert(order.contains(order[i]));
            }
        }
    }

    /// The tree that has grown by a branch holds the cells of the tree
    /// before and every cell that a step of the branch leaves or enters,
    /// all of them cells of the grid.
    pub proof fn lemma_attach_members(
        &self,
        before: WilsonMaze,
        order: Seq<Cell>,
        parent: Seq<int>,
        walk: Seq<Step>,
        start: Cell,
    )
        requires
            before.grown(order, parent),
            forall|c: Cell| before.visited.has(c) <==> order.contains(c),
            before.is_branch(walk, start),
            walk.len() > 0,
            self.carved(before, walk, walk.len() as int),
        ensures
            forall|i: int|
                0 <= i < walk.len() ==> branch_order(order, walk).contains((#[trigger] walk[i]).0)
                    && branch_order(order, walk).contains(walk[i].2),
            forall|c: Cell| order.contains(c) ==> branch_order(order, walk).contains(c),
            forall|i: int|
                0 <= i < branch_order(order, walk).len() ==> self.in_grid(
                    #[trigger] branch_order(order, walk)[i],
                ),
    {
        let m = walk.len() as int;
        let n = order.len() as int;
        let cells = branch_order(order, walk);
        let elders = branch_parent(order, parent, walk);
        before.lemma_branch_cells(order, parent, walk, start);
        assert forall|i: int| 0 <= i < m implies cells.contains((#[trigger] walk[i]).0) && cells.contains(
            walk[i].2,
        ) by {
            assert(cells[n + m - 1 - i] == walk[i].0);
            if i < m - 1 {
                assert(cells[n + m - 2 - i] == walk[i].2);
            } else {
                assert(cells[elders[n]] == walk[i].2);
            }
        }
        assert forall|c: Cell| order.contains(c) implies cells.contains(c) by {
            let k = choose|k: int| 0 <= k < order.len() && order[k] == c;
            assert(cells[k] == c);
        }
        assert forall|i: int| 0 <= i < cells.len() implies self.in_grid(#[trigger] cells[i]) by {
            if i >= n {
                assert(cells[i] == walk[m - 1 - (i - n)].0);
            } else {
                assert(cells[i] == order[i]);
            }
        }
    }

    /// In the maze with the branch carved, links go both ways and join
    /// cells of the grown tree only.
    pub proof fn lemma_attach_links(
        &self,
        before: WilsonMaze,
        order: Seq<Cell>,
        parent: Seq<int>,
        walk: Seq<Step>,
        start: Cell,
    )
        requires
            before.grown(order, parent),
            forall|c: Cell| before.visited.has(c) <==> order.contains(c),
            before.is_branch(walk, start),
            walk.len() > 0,
            self.carved(before, walk, walk.len() as int),
        ensures
            forall|a: Cell, b: Cell| #[trigger]
                self.linked(a, b) ==> self.linked(b, a) && branch_order(order, walk).contains(a)
                    && branch_order(order, walk).contains(b),
    {
        let cells = branch_order(order, walk);
        self.lemma_carved_links(before, walk, start);
        self.lemma_attach_members(before, order, parent, walk, start);
        assert forall|a: Cell, b: Cell| #[trigger] self.linked(a, b) implies self.linked(b, a)
            && cells.contains(a) && cells.contains(b) by {
            if before.linked(a, b) {
                assert(before.linked(b, a));
            } else {
                let i = choose|i: int|
                    0 <= i < walk.len() && (((#[trigger] walk[i]).0 == a && walk[i].2 == b) || (
                    walk[i].2 == a && walk[i].0 == b));
                assert(joined_by(walk, b, a));
            }
        }
    }

    /// In the maze with the branch carved, each cell of the grown tree but
    /// the first is linked to its parent, which stands before it.
    pub proof fn lemma_attach_parents(
        &self,
        before: WilsonMaze,
        order: Seq<Cell>,
        parent: Seq<int>,
        walk: Seq<Step>,
        start: Cell,
    )
        requires
            before.grown(order, parent),
            forall|c: Cell| before.visited.has(c) <==> order.contains(c),
            before.is_branch(walk, start),
            walk.len() > 0,
            self.carved(before, walk, walk.len() as int),
        ensures
            forall|k: int|
                1 <= k < branch_order(order, walk).len() ==> 0 <= #[trigger] branch_parent(
                    order,
                    parent,
                    walk,
                )[k] < k && self.linked(
                    branch_order(order, walk)[k],
                    branch_order(order, walk)[branch_parent(order, parent, walk)[k]],
                ),
    {
        let m = walk.len() as int;
        let n = order.len() as int;
        let cells = branch_order(order, walk);
        let elders = branch_parent(order, parent, walk);
        self.lemma_carved_links(before, walk, start);
        before.lemma_branch_cells(order, parent, walk, start);
        assert forall|k: int| 1 <= k < cells.len() implies 0 <= #[trigger] elders[k] < k && self.linked(
            cells[k],
            cells[elders[k]],
        ) by {
            if k < n {
                assert(cells[k] == order[k]);
                assert(before.linked(order[k], order[parent[k]]));
                assert(cells[parent[k]] == order[parent[k]]);
            } else {
                let i = m - 1 - (k - n);
                assert(cells[k] == walk[i].0);
                if i < m - 1 {
                    assert(cells[elders[k]] == walk[i].2);
                } else {
                    assert(cells[elders[n]] == walk[i].2);
                }
                assert(joined_by(walk, walk[i].0, walk[i].2));
            }
        }
    }

    /// In the maze with the branch carved, a cell of the grown tree is
    /// linked to no earlier cell but its parent.
    pub proof fn lemma_attach_only_parent(
        &self,
        before: WilsonMaze,
        order: Seq<Cell>,
        parent: Seq<int>,
        walk: Seq<Step>,
        start: Cell,
        k: int,
        j: int,
    )
        requires
            before.grown(order, parent),
            forall|c: Cell| before.visited.has(c) <==> order.contains(c),
            before.is_branch(walk, start),
            walk.len() > 0,
            self.carved(before, walk, walk.len() as int),
            0 <= j < k < branch_order(order, walk).len(),
            self.linked(branch_order(order, walk)[k], branch_order(order, walk)[j]),
        ensures
            j == branch_parent(order, parent, walk)[k],
    {
        let m = walk.len() as int;
        let n = order.len() as int;
        let cells = branch_order(order, walk);
        let elders = branch_parent(order, parent, walk);
        self.lemma_carved_links(before, walk, start);
        before.lemma_branch_cells(order, parent, walk, start);
        let a = cells[k];
        let b = cells[j];
        if before.linked(a, b) {
            assert(order.contains(a) && order.contains(b));
            let ka = choose|ka: int| 0 <= ka < order.len() && order[ka] == a;
            let kb = choose|kb: int| 0 <= kb < order.len() && order[kb] == b;
            assert(cells[ka] == a && cells[kb] == b);
            assert(ka == k && kb == j);
            assert(before.linked(order[k], order[j]));
        } else {
            let i = choose|i: int|
                0 <= i < walk.len() && (((#[trigger] walk[i]).0 == a && walk[i].2 == b) || (
                walk[i].2 == a && walk[i].0 == b));
            let at = n + m - 1 - i;
            assert(cells[at] == walk[i].0);
            if walk[i].0 == a {
                assert(at == k);
                if i < m - 1 {
                    assert(cells[n + m - 2 - i] == walk[i].2);
                    assert(n + m - 2 - i == j);
                } else {
                    assert(cells[elders[n]] == walk[i].2);
                    assert(elders[n] == j);
                }
            } else {
                assert(at == j);
                if i < m - 1 {
                    assert(cells[n + m - 2 - i] == walk[i].2);
                    assert(n + m - 2 - i == k);
                } else {
                    assert(cells[elders[n]] == walk[i].2);
                    assert(elders[n] == k);
                }
            }
        }
    }

    /// With the branch carved, the cells of the tree are those of the
    /// grown order.
    pub proof fn lemma_attach_visited(
        &self,
        before: WilsonMaze,
        order: Seq<Cell>,
        parent: Seq<int>,
        walk: Seq<Step>,
        start: Cell,
    )
        requires
            before.grown(order, parent),
            forall|c: Cell| before.visited.has(c) <==> order.contains(c),
            before.is_branch(walk, start),
            walk.len() > 0,
            self.carved(before, walk, walk.len() as int),
        ensures
            forall|c: Cell| self.visited.has(c) <==> branch_order(order, walk).contains(c),
    {
        let m = walk.len() as int;
        let n = order.len() as int;
        let cells = branch_order(order, walk);
        self.lemma_attach_members(before, order, parent, walk, start);
        before.lemma_branch_cells(order, parent, walk, start);
        assert forall|c: Cell| self.visited.has(c) <==> cells.contains(c) by {
            if self.visited.has(c) {
                if !before.visited.has(c) {
                    assert(walk_meets(walk, m, c));
                    let i = choose|i: int|
                        0 <= i < m && ((#[trigger] walk[i]).0 == c || walk[i].2 == c);
                    assert(cells.contains(walk[i].0) && cells.contains(walk[i].2));
                } else {
                    assert(order.contains(c));
                    assert(cells.contains(c));
                }
            }
            if cells.contains(c) {
                let k = choose|k: int| 0 <= k < cells.len() && cells[k] == c;
                if k < n {
                    assert(cells[k] == order[k]);
                    assert(order.contains(order[k]));
                    assert(before.visited.has(c));
                } else {
                    let i = m - 1 - (k - n);
                    assert(walk[i].0 == c);
                    assert(walk_meets(walk, m, c));
                }
            }
        }
    }

    /// Carving a branch opens no cell towards the outside.
    pub proof fn lemma_attach_inside(&self, before: WilsonMaze, walk: Seq<Step>, start: Cell)
        requires
            before.passages_inside(),
            before.is_branch(walk, start),
            self.carved(before, walk, walk.len() as int),
        ensures
            self.passages_inside(),
    {
        let m = walk.len() as int;
        assert forall|cell: Cell, d: Direction|
            self.in_grid(cell) && #[trigger] self.open(cell, d) implies self.in_bounds_at(
            cell.0 + d.row_offset(),
            cell.1 + d.col_offset(),
        ) by {
            if before.open(cell, d) {
                assert(before.in_grid(cell));
            } else {
                assert(walk_opens(walk, m, cell, d));
                let i = choose|i: int| 0 <= i < m && step_opens(#[trigger] walk[i], cell, d);
                lemma_heading(walk[i].0, walk[i].2, walk[i].2);
                assert(self.in_grid(walk[i].0) && self.in_grid(walk[i].2));
            }
        }
    }

    /// A tree to which a branch has been carved is a tree again: it has
    /// grown by the cells of the branch.
    pub proof fn lemma_attach_branch(
        &self,
        before: WilsonMaze,
        order: Seq<Cell>,
        parent: Seq<int>,
        walk: Seq<Step>,
        start: Cell,
    )
        requires
            before.grown(order, parent),
            forall|c: Cell| before.visited.has(c) <==> order.contains(c),
            before.is_branch(walk, start),
            walk.len() > 0,
            self.carved(before, walk, walk.len() as int),
        ensures
            self.grown(branch_order(order, walk), branch_parent(order, parent, walk)),
            forall|c: Cell| self.visited.has(c) <==> branch_order(order, walk).contains(c),
    {
        let cells = branch_order(order, walk);
        let elders = branch_parent(order, parent, walk);
        before.lemma_branch_cells(order, parent, walk, start);
        self.lemma_attach_members(before, order, parent, walk, start);
        self.lemma_attach_links(before, order, parent, walk, start);
        self.lemma_attach_parents(before, order, parent, walk, start);
        self.lemma_attach_visited(before, order, parent, walk, start);
        assert forall|k: int, j: int|
            0 <= j < k < cells.len() && #[trigger] self.linked(cells[k], cells[j]) implies j == elders[k] by {
            self.lemma_attach_only_parent(before, order, parent, walk, start, k, j);
        }
    }

    /// In a perfect maze every open direction of a cell leads to a cell of
    /// the grid that is open in the reverse direction.
    pub proof fn lemma_open_both_sides(&self, cell: Cell, d: Direction)
        requires
            self.is_perfect(),
            self.in_grid(cell),
            self.open(cell, d),
        ensures
            self.in_bounds_at(cell.0 + d.row_offset(), cell.1 + d.col_offset()),
            self.open(
                ((cell.0 + d.row_offset()) as usize, (cell.1 + d.col_offset()) as usize),
                d.inverse(),
            ),
    {
        let next: Cell = ((cell.0 + d.row_offset()) as usize, (cell.1 + d.col_offset()) as usize);
        assert(self.in_bounds_at(cell.0 + d.row_offset(), cell.1 + d.col_offset()));
        assert(adjacent(cell, next) && heading(cell, next) == d);
        lemma_heading(cell, next, next);
        assert(self.linked(cell, next));
        assert(self.linked(next, cell));
    }

    /// The open directions of the cells of the grid, each with its cell.
    pub open spec fn openings(&self) -> Set<(Cell, Direction)> {
        Set::new(|o: (Cell, Direction)| self.in_grid(o.0) && self.open(o.0, o.1))
    }

    /// In a perfect maze each passage is open from both of its cells and no
    /// cell is open otherwise: the open directions of all cells together
    /// are twice as many as the passages, two less than twice the cells.
    pub proof fn lemma_openings_count(&self)
        requires
            self.is_perfect(),
        ensures
            self.openings().finite(),
            self.openings().len() == 2 * self.edges().len(),
            self.openings().len() + 2 == 2 * (self.rows * self.cols),
    {
        let passages = self.edges();
        let there = |e: (Cell, Cell)| (e.0, heading(e.0, e.1));
        let back = |e: (Cell, Cell)| (e.1, heading(e.1, e.0));
        let forth = passages.map(there);
        let home = passages.map(back);
        assert forall|e1: (Cell, Cell), e2: (Cell, Cell)|
            passages.contains(e1) && passages.contains(e2) && #[trigger] there(e1)
                == #[trigger] there(e2) implies e1 == e2 by {
            lemma_heading(e1.0, e1.1, e2.1);
        }
        assert forall|e1: (Cell, Cell), e2: (Cell, Cell)|
            passages.contains(e1) && passages.contains(e2) && #[trigger] back(e1)
                == #[trigger] back(e2) implies e1 == e2 by {
            lemma_heading(e1.0, e1.1, e1.1);
            lemma_heading(e2.0, e2.1, e2.1);
            lemma_heading(e1.1, e1.0, e2.0);
        }
        assert(injective_on(there, passages));
        assert(injective_on(back, passages));
        lemma_map_size(passages, forth, there);
        lemma_map_size(passages, home, back);
        assert(forth.disjoint(home)) by {
            assert forall|o: (Cell, Direction)| !(forth.contains(o) && home.contains(o)) by {
                if forth.contains(o) && home.contains(o) {
                    let e1 = choose|e: (Cell, Cell)| passages.contains(e) && o == there(e);
                    let e2 = choose|e: (Cell, Cell)| passages.contains(e) && o == back(e);
                    lemma_heading(e2.0, e2.1, e2.1);
                }
            }
        }
        assert(forth.union(home) =~= self.openings()) by {
            assert forall|o: (Cell, Direction)| self.openings().contains(o) implies forth.union(
                home,
            ).contains(o) by {
                let cell = o.0;
                let d = o.1;
                self.lemma_open_both_sides(cell, d);
                let next: Cell = (
                    (cell.0 + d.row_offset()) as usize,
                    (cell.1 + d.col_offset()) as usize,
                );
                assert(adjacent(cell, next) && heading(cell, next) == d);
                lemma_heading(cell, next, next);
                assert(self.linked(cell, next) && self.linked(next, cell));
                if d == Direction::Down || d == Direction::Right {
                    let e = (cell, next);
                    assert(passages.contains(e));
                    assert(there(e) == o);
                    assert(forth.contains(o));
                } else {
                    let e = (next, cell);
                    assert(passages.contains(e));
                    assert(back(e) == o);
                    assert(home.contains(o));
                }
            }
            assert forall|o: (Cell, Direction)| forth.union(home).contains(
                o,
            ) implies self.openings().contains(o) by {
                if forth.contains(o) {
                    let e = choose|e: (Cell, Cell)| passages.contains(e) && o == there(e);
                    assert(self.linked(e.0, e.1));
                } else {
                    let e = choose|e: (Cell, Cell)| passages.contains(e) && o == back(e);
                    assert(self.linked(e.0, e.1));
                    assert(self.linked(e.1, e.0));
                }
            }
        }
        lemma_set_disjoint_lens(forth, home);
    }

    /// A walk can be cut down to a simple path with the same ends.
    pub proof fn lemma_walk_to_simple_path(&self, p: Seq<Cell>) -> (q: Seq<Cell>)
        requires
            self.is_walk(p),
        ensures
            self.is_simple_path(q),
            runs_between(q, p[0], p[p.len() - 1]),
        decreases p.len(),
    {
        if p.no_duplicates() {
            p
        } else {
            let (i, j) = choose|i: int, j: int|
                0 <= i < p.len() && 0 <= j < p.len() && i != j && p[i] == p[j];
            let (lo, hi) = if i < j {
                (i, j)
            } else {
                (j, i)
            };
            let r = p.subrange(0, lo + 1) + p.subrange(hi + 1, p.len() as int);
            assert forall|a: int, b: int| 0 <= a && b == a + 1 && b < r.len() implies #[trigger] self.linked(
                r[a],
                r[b],
            ) by {
                if b <= lo {
                    assert(self.linked(p[a], p[b]));
                } else if a == lo {
                    assert(self.linked(p[hi], p[hi + 1]));
                } else {
                    assert(self.linked(p[a + hi - lo], p[b + hi - lo]));
                }
            }
            assert forall|a: int| 0 <= a < r.len() implies self.in_grid(#[trigger] r[a]) by {
                if a <= lo {
                    assert(self.in_grid(p[a]));
                } else {
                    assert(self.in_grid(p[a + hi - lo]));
                }
            }
            self.lemma_walk_to_simple_path(r)
        }
    }

    /// In a perfect maze exactly one simple path leads from a cell to
    /// another: there is one, and any two are the same.
    pub proof fn lemma_exactly_one_path(&self, a: Cell, b: Cell)
        requires
            self.is_perfect(),
            self.in_grid(a),
            self.in_grid(b),
        ensures
            exists|p: Seq<Cell>| #[trigger] self.is_simple_path(p) && runs_between(p, a, b),
            forall|p: Seq<Cell>, q: Seq<Cell>|
                #[trigger] self.is_simple_path(p) && runs_between(p, a, b)
                    && #[trigger] self.is_simple_path(q) && runs_between(q, a, b) ==> p == q,
    {
        assert(self.reachable(a, b));
        let w = choose|w: Seq<Cell>| #[trigger] self.is_walk(w) && runs_between(w, a, b);
        let p = self.lemma_walk_to_simple_path(w);
        assert(self.is_simple_path(p) && runs_between(p, a, b));
    }

    /// Where no two simple paths join the same two cells, every search
    /// gives the same solution: two sets that are each the cells of a simple
    /// path from the start cell to the end cell are the same set. So the
    /// solution does not depend on the ranking policy, nor on whether the
    /// search goes breadth-first or depth-first, nor on which of two runs
    /// of one search gave it.
    pub proof fn lemma_solution_unique(&self, first: Set<Cell>, second: Set<Cell>)
        requires
            self.paths_unique(),
            self.is_solution(first),
            self.is_solution(second),
        ensures
            first == second,
    {
        let p = choose|p: Seq<Cell>|
            #[trigger] self.is_simple_path(p) && runs_between(p, self.start_cell, self.end_cell)
                && first == p.to_set();
        let q = choose|q: Seq<Cell>|
            #[trigger] self.is_simple_path(q) && runs_between(q, self.start_cell, self.end_cell)
                && second == q.to_set();
        assert(p == q);
    }

    /// In a perfect maze the end cell can be reached from the start cell,
    /// so that every search finds a solution.
    pub proof fn lemma_perfect_solvable(&self)
        requires
            self.wf(),
            self.is_perfect(),
        ensures
            self.reachable(self.start_cell, self.end_cell),
    {
    }
}

} // verus!
