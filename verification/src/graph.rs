//! The maze as a graph: walks along open passages, simple paths, and which
//! cells can be reached from which.

use vstd::prelude::*;
use vstd::arithmetic::div_mod::{lemma_fundamental_div_mod, lemma_fundamental_div_mod_converse};
use vstd::relations::injective_on;
use vstd::set_lib::*;
use crate::cell_set::Cell;
use crate::maze::WilsonMaze;

verus! {

/// Whether the sequence of cells `p` begins at `a` and ends at `b`.
pub open spec fn runs_between(p: Seq<Cell>, a: Cell, b: Cell) -> bool {
    p.len() >= 1 && p[0] == a && p[p.len() - 1] == b
}

/// The number of a cell when the cells of a grid with `cols` columns are
/// counted row by row.
pub open spec fn cell_number(cols: int, cell: Cell) -> int {
    cell.0 * cols + cell.1
}

/// The cells of a grid of `rows` by `cols` cells.
pub open spec fn grid_cells(rows: usize, cols: usize) -> Set<Cell> {
    Set::new(|cell: Cell| cell.0 < rows && cell.1 < cols)
}

/// The cell with the given number when the cells of a grid with `cols`
/// columns are counted row by row.
pub open spec fn numbered_cell(cols: int, number: int) -> Cell {
    ((number / cols) as usize, (number % cols) as usize)
}

impl WilsonMaze {
    /// Whether `p` is a walk: a sequence of at least one cell of the grid in
    /// which each cell is open towards the next, which is adjacent to it.
    pub open spec fn is_walk(&self, p: Seq<Cell>) -> bool {
        &&& p.len() >= 1
        &&& forall|i: int| 0 <= i < p.len() ==> self.in_grid(#[trigger] p[i])
        &&& forall|i: int, j: int|
            0 <= i && j == i + 1 && j < p.len() ==> #[trigger] self.linked(p[i], p[j])
    }

    /// Whether `p` is a simple path: a walk that meets no cell twice.
    pub open spec fn is_simple_path(&self, p: Seq<Cell>) -> bool {
        self.is_walk(p) && p.no_duplicates()
    }

    /// Whether a walk leads from `a` to `b`.
    pub open spec fn reachable(&self, a: Cell, b: Cell) -> bool {
        exists|p: Seq<Cell>| #[trigger] self.is_walk(p) && runs_between(p, a, b)
    }

    /// Whether `cells` is the set of cells of a simple path from the start
    /// cell to the end cell.
    pub open spec fn is_solution(&self, cells: Set<Cell>) -> bool {
        exists|p: Seq<Cell>|
            #[trigger] self.is_simple_path(p) && runs_between(p, self.start_cell, self.end_cell)
                && cells == p.to_set()
    }

    /// Every passage can be walked both ways.
    pub open spec fn symmetric(&self) -> bool {
        forall|a: Cell, b: Cell| #[trigger] self.linked(a, b) ==> self.linked(b, a)
    }

    /// Every cell of the grid can be reached from every other.
    pub open spec fn connected(&self) -> bool {
        forall|a: Cell, b: Cell|
            self.in_grid(a) && self.in_grid(b) ==> #[trigger] self.reachable(a, b)
    }

    /// Between two cells there is at most one simple path.
    pub open spec fn paths_unique(&self) -> bool {
        forall|p: Seq<Cell>, q: Seq<Cell>|
            #[trigger] self.is_simple_path(p) && #[trigger] self.is_simple_path(q) && p[0] == q[0]
                && p[p.len() - 1] == q[q.len() - 1] ==> p == q
    }

    /// A walk extended by one more step is a walk.
    pub proof fn lemma_walk_push(&self, p: Seq<Cell>, next: Cell)
        requires
            self.is_walk(p),
            self.linked(p[p.len() - 1], next),
        ensures
            self.is_walk(p.push(next)),
            runs_between(p.push(next), p[0], next),
    {
        let q = p.push(next);
        assert forall|i: int, j: int| 0 <= i && j == i + 1 && j < q.len() implies #[trigger] self.linked(
            q[i],
            q[j],
        ) by {
            if j < p.len() {
                assert(self.linked(p[i], p[j]));
            }
        }
    }

    /// Where one step leads to a cell from which a walk goes on, a walk
    /// leads all the way.
    pub proof fn lemma_reachable_step(&self, a: Cell, b: Cell, c: Cell)
        requires
            self.linked(a, b),
            self.reachable(b, c),
        ensures
            self.reachable(a, c),
    {
        let p = choose|p: Seq<Cell>| #[trigger] self.is_walk(p) && runs_between(p, b, c);
        let q = seq![a] + p;
        assert forall|i: int, j: int| 0 <= i && j == i + 1 && j < q.len() implies #[trigger] self.linked(
            q[i],
            q[j],
        ) by {
            if i > 0 {
                assert(self.linked(p[i - 1], p[j - 1]));
            }
        }
        assert(self.is_walk(q) && runs_between(q, a, c));
    }

    /// Every cell of the grid can be reached from itself.
    pub proof fn lemma_reachable_self(&self, a: Cell)
        requires
            self.in_grid(a),
        ensures
            self.reachable(a, a),
    {
        let p = seq![a];
        assert(self.is_walk(p) && runs_between(p, a, a));
    }

    /// Where a walk leads to a cell that is open towards another, a walk
    /// leads to that other cell.
    pub proof fn lemma_reachable_push(&self, a: Cell, b: Cell, c: Cell)
        requires
            self.reachable(a, b),
            self.linked(b, c),
        ensures
            self.reachable(a, c),
    {
        let p = choose|p: Seq<Cell>| #[trigger] self.is_walk(p) && runs_between(p, a, b);
        self.lemma_walk_push(p, c);
        assert(self.is_walk(p.push(c)) && runs_between(p.push(c), a, c));
    }

    /// Walks can be joined: what can be reached from a cell that can be
    /// reached can be reached.
    pub proof fn lemma_reachable_trans(&self, a: Cell, b: Cell, c: Cell)
        requires
            self.reachable(a, b),
            self.reachable(b, c),
        ensures
            self.reachable(a, c),
    {
        let q = choose|q: Seq<Cell>| #[trigger] self.is_walk(q) && runs_between(q, b, c);
        self.lemma_reachable_along(a, q, q.len() - 1);
    }

    /// What can be reached from a cell from which a walk starts, can be
    /// reached at each cell of the walk.
    pub proof fn lemma_reachable_along(&self, a: Cell, q: Seq<Cell>, k: int)
        requires
            self.is_walk(q),
            self.reachable(a, q[0]),
            0 <= k < q.len(),
        ensures
            self.reachable(a, q[k]),
        decreases k,
    {
        if k > 0 {
            self.lemma_reachable_along(a, q, k - 1);
            assert(self.linked(q[k - 1], q[k]));
            self.lemma_reachable_push(a, q[k - 1], q[k]);
        }
    }

    /// Whether a walk that meets no cell of `avoid` leads from `a` to `b`.
    pub open spec fn reachable_avoiding(&self, a: Cell, b: Cell, avoid: Set<Cell>) -> bool {
        exists|p: Seq<Cell>|
            #[trigger] self.is_walk(p) && runs_between(p, a, b) && forall|i: int|
                0 <= i < p.len() ==> !avoid.contains(#[trigger] p[i])
    }

    /// To avoid nothing is no restriction.
    pub proof fn lemma_avoiding_nothing(&self, a: Cell, b: Cell)
        ensures
            self.reachable_avoiding(a, b, Set::empty()) <==> self.reachable(a, b),
    {
        if self.reachable(a, b) {
            let p = choose|p: Seq<Cell>| #[trigger] self.is_walk(p) && runs_between(p, a, b);
            assert(self.is_walk(p) && runs_between(p, a, b) && forall|i: int|
                0 <= i < p.len() ==> !Set::<Cell>::empty().contains(#[trigger] p[i]));
        }
    }

    /// A set of cells that holds `a` and, with each cell, every cell that
    /// the cell is linked to, holds all that can be reached from `a`.
    pub proof fn lemma_closed_holds_reachable(&self, inside: Set<Cell>, a: Cell, b: Cell)
        requires
            inside.contains(a),
            forall|u: Cell, v: Cell|
                inside.contains(u) && #[trigger] self.linked(u, v) ==> inside.contains(v),
            self.reachable(a, b),
        ensures
            inside.contains(b),
    {
        let p = choose|p: Seq<Cell>| #[trigger] self.is_walk(p) && runs_between(p, a, b);
        self.lemma_closed_holds_walk(inside, Set::empty(), p, p.len() - 1);
    }

    /// A set that holds the first cell of a walk and, with each cell, every
    /// cell outside `avoid` that the cell is linked to, holds each cell of
    /// the walk, where the walk meets no cell of `avoid`.
    pub proof fn lemma_closed_holds_walk(
        &self,
        inside: Set<Cell>,
        avoid: Set<Cell>,
        p: Seq<Cell>,
        k: int,
    )
        requires
            self.is_walk(p),
            inside.contains(p[0]),
            forall|i: int| 0 <= i < p.len() ==> !avoid.contains(#[trigger] p[i]),
            forall|u: Cell, v: Cell|
                inside.contains(u) && #[trigger] self.linked(u, v) && !avoid.contains(v)
                    ==> inside.contains(v),
            0 <= k < p.len(),
        ensures
            inside.contains(p[k]),
        decreases k,
    {
        if k > 0 {
            self.lemma_closed_holds_walk(inside, avoid, p, k - 1);
            assert(self.linked(p[k - 1], p[k]));
        }
    }
}

/// Counting the cells of a grid row by row gives each cell a number of its
/// own, below the number of cells.
pub proof fn lemma_cell_number(rows: int, cols: int, a: Cell, b: Cell)
    requires
        a.0 < rows,
        a.1 < cols,
        b.0 < rows,
        b.1 < cols,
    ensures
        0 <= cell_number(cols, a) < rows * cols,
        cell_number(cols, a) == cell_number(cols, b) ==> a == b,
{
    let (ar, ac) = (a.0 as int, a.1 as int);
    let (br, bc) = (b.0 as int, b.1 as int);
    assert(0 <= ar * cols + ac < rows * cols) by (nonlinear_arith)
        requires
            0 <= ar < rows,
            0 <= ac < cols,
    ;
    assert(ar * cols + ac == br * cols + bc ==> ar == br) by (nonlinear_arith)
        requires
            0 <= ar,
            0 <= br,
            0 <= ac < cols,
            0 <= bc < cols,
    ;
}

/// Distinct cells of a grid are at most as many as the grid has cells.
pub proof fn lemma_distinct_cells_bound(rows: int, cols: int, cells: Seq<Cell>)
    requires
        0 <= rows,
        0 <= cols,
        cells.no_duplicates(),
        forall|i: int| 0 <= i < cells.len() ==> (#[trigger] cells[i]).0 < rows && cells[i].1 < cols,
    ensures
        cells.len() <= rows * cols,
{
    assert(0 <= rows * cols) by (nonlinear_arith)
        requires
            0 <= rows,
            0 <= cols,
    ;
    if cells.len() > 0 {
        lemma_cell_number(rows, cols, cells[0], cells[0]);
        let numbers = cells.map_values(|c: Cell| cell_number(cols, c));
        assert forall|i: int, j: int| 0 <= i < numbers.len() && 0 <= j < numbers.len() && i != j implies numbers[i]
            != numbers[j] by {
            lemma_cell_number(rows, cols, cells[i], cells[j]);
        }
        numbers.unique_seq_to_set();
        let range = set_int_range(0, rows * cols);
        lemma_int_range(0, rows * cols);
        assert forall|n: int| numbers.to_set().contains(n) implies range.contains(n) by {
            let i = choose|i: int| 0 <= i < numbers.len() && numbers[i] == n;
            lemma_cell_number(rows, cols, cells[i], cells[i]);
        }
        lemma_len_subset(numbers.to_set(), range);
        assert(numbers.len() == cells.len());
    }
}

/// A grid of `rows` by `cols` cells has `rows * cols` cells.
pub proof fn lemma_grid_cells(rows: usize, cols: usize)
    ensures
        grid_cells(rows, cols).finite(),
        grid_cells(rows, cols).len() == rows * cols,
{
    let n = rows * cols;
    let range = set_int_range(0, n);
    let cells = grid_cells(rows, cols);
    let to_cell = |number: int| numbered_cell(cols as int, number);
    assert(0 <= rows * cols) by (nonlinear_arith);
    lemma_int_range(0, n);
    if cols == 0 || rows == 0 {
        assert(rows * cols == 0) by (nonlinear_arith)
            requires
                cols == 0 || rows == 0,
        ;
        assert(cells =~= Set::<Cell>::empty());
    } else {
        assert forall|k: int| range.contains(k) implies 0 <= k / (cols as int) < rows && 0 <= k % (
        cols as int) < cols by {
            lemma_fundamental_div_mod(k, cols as int);
            let q = k / (cols as int);
            let r = k % (cols as int);
            assert(0 <= r < cols);
            assert(0 <= q < rows) by (nonlinear_arith)
                requires
                    k == cols * q + r,
                    0 <= r < cols,
                    0 <= k < rows * cols,
                    0 < cols,
            ;
        }
        assert forall|k1: int, k2: int|
            range.contains(k1) && range.contains(k2) && #[trigger] to_cell(k1) == #[trigger] to_cell(
                k2,
            ) implies k1 == k2 by {
            lemma_fundamental_div_mod(k1, cols as int);
            lemma_fundamental_div_mod(k2, cols as int);
        }
        assert(injective_on(to_cell, range));
        assert(range.map(to_cell) =~= cells) by {
            assert forall|cell: Cell| cells.contains(cell) implies range.map(to_cell).contains(
                cell,
            ) by {
                let k = cell_number(cols as int, cell);
                lemma_cell_number(rows as int, cols as int, cell, cell);
                lemma_fundamental_div_mod_converse(k, cols as int, cell.0 as int, cell.1 as int);
                assert(range.contains(k));
                assert(to_cell(k) == cell);
            }
            assert forall|cell: Cell| range.map(to_cell).contains(cell) implies cells.contains(
                cell,
            ) by {
                let k = choose|k: int| range.contains(k) && cell == to_cell(k);
                assert(0 <= k / (cols as int) < rows && 0 <= k % (cols as int) < cols);
            }
        }
        lemma_map_size(range, cells, to_cell);
    }
}

} // verus!
