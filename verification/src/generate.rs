//! Maze generation by loop-erased random walks.

use vstd::prelude::*;
use crate::bfs_solver::manhattan;
use crate::cell_map::CellMap;
use crate::cell_set::Cell;
use crate::direction::{direction_reverse, Direction};
use crate::graph::{grid_cells, lemma_grid_cells};
use crate::maze::{adjacent, heading, WilsonMaze};
use crate::random::random_range;
use crate::tree::{branch_order, branch_parent};

verus! {

/// One step of a walk: the cell left, the direction taken, the cell entered.
pub type Step = (Cell, Direction, Cell);

/// The number of random steps after which a walk that has not met the tree
/// goes on straight towards a cell of the tree.
pub const WALK_BUDGET: usize = usize::MAX;

/// The direction of the step from `a` to the adjacent cell `b`.
pub fn direction_between(a: Cell, b: Cell) -> (d: Direction)
    requires
        adjacent(a, b),
    ensures
        d == heading(a, b),
{
    if b.0 < a.0 {
        Direction::Up
    } else if a.0 < b.0 {
        Direction::Down
    } else if b.1 < a.1 {
        Direction::Left
    } else {
        Direction::Right
    }
}

/// Whether carving `step` opens `cell` towards `d`: a step opens the cell it
/// leaves in its direction, and the cell it enters in the reverse direction.
pub open spec fn step_opens(step: Step, cell: Cell, d: Direction) -> bool {
    (step.0 == cell && step.1 == d) || (step.2 == cell && step.1.inverse() == d)
}

/// Whether carving one of the first `k` steps of `walk` opens `cell`
/// towards `d`.
pub open spec fn walk_opens(walk: Seq<Step>, k: int, cell: Cell, d: Direction) -> bool {
    exists|i: int| 0 <= i < k && step_opens(#[trigger] walk[i], cell, d)
}

/// Whether one of the first `k` steps of `walk` leaves or enters `cell`.
pub open spec fn walk_meets(walk: Seq<Step>, k: int, cell: Cell) -> bool {
    exists|i: int| 0 <= i < k && ((#[trigger] walk[i]).0 == cell || walk[i].2 == cell)
}

/// One more step opens what the steps before opened and what the step
/// itself opens, and meets what they met and its own two cells.
pub proof fn lemma_one_more_step(walk: Seq<Step>, k: int, cell: Cell, d: Direction)
    requires
        0 <= k < walk.len(),
    ensures
        walk_opens(walk, k + 1, cell, d) <==> walk_opens(walk, k, cell, d) || step_opens(
            walk[k],
            cell,
            d,
        ),
        walk_meets(walk, k + 1, cell) <==> walk_meets(walk, k, cell) || walk[k].0 == cell
            || walk[k].2 == cell,
{
    if walk_opens(walk, k + 1, cell, d) {
        let i = choose|i: int| 0 <= i < k + 1 && step_opens(#[trigger] walk[i], cell, d);
        if i < k {
            assert(walk_opens(walk, k, cell, d));
        }
    }
    if walk_opens(walk, k, cell, d) {
        let i = choose|i: int| 0 <= i < k && step_opens(#[trigger] walk[i], cell, d);
        assert(step_opens(walk[i], cell, d));
    }
    if step_opens(walk[k], cell, d) {
        assert(walk_opens(walk, k + 1, cell, d));
    }
    if walk_meets(walk, k + 1, cell) {
        let i = choose|i: int| 0 <= i < k + 1 && ((#[trigger] walk[i]).0 == cell || walk[i].2 == cell);
        if i < k {
            assert(walk_meets(walk, k, cell));
        }
    }
    if walk_meets(walk, k, cell) {
        let i = choose|i: int| 0 <= i < k && ((#[trigger] walk[i]).0 == cell || walk[i].2 == cell);
        assert(walk[i].0 == cell || walk[i].2 == cell);
    }
    if walk[k].0 == cell || walk[k].2 == cell {
        assert(walk_meets(walk, k + 1, cell));
    }
}

/// Every cell of a grid of `rows` by `cols` cells.
fn all_cells(rows: usize, cols: usize) -> (cells: Vec<Cell>)
    ensures
        forall|i: int| 0 <= i < cells@.len() ==> (#[trigger] cells@[i]).0 < rows && cells@[i].1 < cols,
        forall|c: Cell| c.0 < rows && c.1 < cols ==> cells@.contains(c),
{
    let mut cells: Vec<Cell> = Vec::new();
    let mut row: usize = 0;
    while row < rows
        invariant
            row <= rows,
            forall|i: int|
                0 <= i < cells@.len() ==> (#[trigger] cells@[i]).0 < rows && cells@[i].1 < cols,
            forall|c: Cell| c.0 < row && c.1 < cols ==> cells@.contains(c),
        decreases rows - row,
    {
        let mut col: usize = 0;
        while col < cols
            invariant
                row < rows,
                col <= cols,
                forall|i: int|
                    0 <= i < cells@.len() ==> (#[trigger] cells@[i]).0 < rows && cells@[i].1 < cols,
                forall|c: Cell|
                    (c.0 < row || (c.0 == row && c.1 < col)) && c.1 < cols ==> cells@.contains(c),
            decreases cols - col,
        {
            let ghost before = cells@;
            cells.push((row, col));
            proof {
                assert forall|c: Cell|
                    (c.0 < row || (c.0 == row && c.1 < col + 1)) && c.1 < cols implies cells@.contains(
                    c,
                ) by {
                    if c == (row, col) {
                        assert(cells@[before.len() as int] == c);
                    } else {
                        assert(before.contains(c));
                        let i = choose|i: int| 0 <= i < before.len() && before[i] == c;
                        assert(cells@[i] == c);
                    }
                }
            }
            col += 1;
        }
        row += 1;
    }
    cells
}

impl WilsonMaze {
    /// Whether `self` is `before` with the first `k` steps of `walk`
    /// carved: the passages of those steps are open in both directions, the
    /// cells they join belong to the tree, and nothing else has changed.
    pub open spec fn carved(&self, before: WilsonMaze, walk: Seq<Step>, k: int) -> bool {
        &&& self.rows == before.rows
        &&& self.cols == before.cols
        &&& self.start_cell == before.start_cell
        &&& self.end_cell == before.end_cell
        &&& forall|cell: Cell, d: Direction|
            self.in_grid(cell) ==> (#[trigger] self.open(cell, d) <==> before.open(cell, d)
                || walk_opens(walk, k, cell, d))
        &&& forall|cell: Cell| #[trigger]
            self.visited.has(cell) <==> before.visited.has(cell) || walk_meets(walk, k, cell)
    }

    /// Carves one step: opens the passage between the two cells of `step`
    /// in both directions and joins both cells to the tree.
    pub fn carve(&mut self, step: Step)
        requires
            old(self).wf(),
            old(self).in_grid(step.0),
            old(self).in_grid(step.2),
        ensures
            final(self).wf(),
            final(self).rows == old(self).rows,
            final(self).cols == old(self).cols,
            final(self).start_cell == old(self).start_cell,
            final(self).end_cell == old(self).end_cell,
            forall|cell: Cell, d: Direction|
                old(self).in_grid(cell) ==> (#[trigger] final(self).open(cell, d) <==> old(
                    self,
                ).open(cell, d) || step_opens(step, cell, d)),
            forall|cell: Cell| #[trigger]
                final(self).visited.has(cell) <==> old(self).visited.has(cell) || cell == step.0
                    || cell == step.2,
    {
        let (cell, direction, next_cell) = step;
        let (cell_row, cell_col) = cell;
        let (next_cell_row, next_cell_col) = next_cell;

        self.grid[cell_row][cell_col].insert(direction);
        self.grid[next_cell_row][next_cell_col].insert(direction_reverse(&direction));

        self.visited.insert(cell);
        self.visited.insert(next_cell);
    }

    /// Whether `walk` is a branch that can be joined to the tree: it is
    /// empty where `start` belongs to the tree already; otherwise it leads
    /// from `start`, step by step through adjacent cells of the grid, to a
    /// cell of the tree, and leaves no cell twice and no cell of the tree.
    pub open spec fn is_branch(&self, walk: Seq<Step>, start: Cell) -> bool {
        &&& self.visited.has(start) ==> walk.len() == 0
        &&& !self.visited.has(start) ==> walk.len() > 0 && walk[0].0 == start
            && self.visited.has(walk[walk.len() - 1].2)
        &&& forall|i: int|
            0 <= i < walk.len() ==> {
                let step = #[trigger] walk[i];
                &&& self.in_grid(step.0)
                &&& self.in_grid(step.2)
                &&& adjacent(step.0, step.2)
                &&& heading(step.0, step.2) == step.1
                &&& !self.visited.has(step.0)
            }
        &&& forall|i: int, j: int|
            0 <= i && j == i + 1 && j < walk.len() ==> (#[trigger] walk[i]).2 == (
            #[trigger] walk[j]).0
        &&& forall|i: int, j: int|
            0 <= i < j < walk.len() ==> (#[trigger] walk[i]).0 != (#[trigger] walk[j]).0
    }

    /// The cell of the tree that a walk heads for once it has used up its
    /// random steps: the maze's start cell where it belongs to the tree, else
    /// the first cell of the tree, row by row and within a row from left to
    /// right.
    pub fn home_cell(&self) -> (home: Cell)
        requires
            self.wf(),
            exists|c: Cell| self.visited.has(c),
        ensures
            self.visited.has(home),
            self.in_grid(home),
            self.visited.has(self.start_cell) ==> home == self.start_cell,
            !self.visited.has(self.start_cell) ==> forall|other: Cell| #[trigger]
                self.visited.has(other) ==> home.0 < other.0 || (home.0 == other.0 && home.1
                    <= other.1),
    {
        if self.visited.contains(&self.start_cell) {
            self.start_cell
        } else {
            let found = self.visited.first();
            proof {
                let c = choose|c: Cell| self.visited.has(c);
                assert(self.visited.has(c));
                assert(found is Some);
                self.visited.lemma_has_in_grid(found->0);
            }
            found.unwrap()
        }
    }

    /// The step from `cell` that brings a walk nearer to `target`: along
    /// the column first, then along the row.
    pub fn step_towards(&self, cell: Cell, target: Cell) -> (step: (Direction, Cell))
        requires
            self.in_grid(cell),
            self.in_grid(target),
            cell != target,
        ensures
            self.in_grid(step.1),
            adjacent(cell, step.1),
            heading(cell, step.1) == step.0,
            manhattan(step.1, target) < manhattan(cell, target),
            cell.0 > target.0 ==> step == (Direction::Up, ((cell.0 - 1) as usize, cell.1)),
            cell.0 < target.0 ==> step == (Direction::Down, ((cell.0 + 1) as usize, cell.1)),
            cell.0 == target.0 && cell.1 > target.1 ==> step == (
                Direction::Left,
                (cell.0, (cell.1 - 1) as usize),
            ),
            cell.0 == target.0 && cell.1 < target.1 ==> step == (
                Direction::Right,
                (cell.0, (cell.1 + 1) as usize),
            ),
    {
        if cell.0 > target.0 {
            (Direction::Up, (cell.0 - 1, cell.1))
        } else if cell.0 < target.0 {
            (Direction::Down, (cell.0 + 1, cell.1))
        } else if cell.1 > target.1 {
            (Direction::Left, (cell.0, cell.1 - 1))
        } else {
            (Direction::Right, (cell.0, cell.1 + 1))
        }
    }

    /// A loop-erased walk from `start` to the tree. Each step goes to a
    /// neighbour drawn at random, whether or not a passage is open. Where
    /// the walk comes back to a cell that it has left before, the step that
    /// was recorded for that cell is overwritten, which drops the loop. The
    /// walk ends at the first cell that belongs to the tree; what is handed
    /// over are the steps that lead from `start` to that cell.
    ///
    /// After `budget` random steps the walk goes on straight towards a cell
    /// of the tree, the one that `home_cell` gives, so that it ends whatever
    /// is drawn.
    pub fn random_walk_within(&self, start: Cell, budget: usize) -> (walk: Vec<Step>)
        requires
            self.wf(),
            self.in_grid(start),
            exists|c: Cell| self.visited.has(c),
        ensures
            self.is_branch(walk@, start),
    {
        let home = self.home_cell();
        let mut steps = CellMap::new(self.rows, self.cols);
        let mut cell = start;
        let mut left = budget;
        let ghost mut trail: Seq<Cell> = seq![start];

        while !self.visited.contains(&cell)
            invariant
                self.wf(),
                self.visited.has(home),
                self.in_grid(home),
                self.in_grid(cell),
                steps.wf(),
                steps.spec_rows() == self.rows,
                steps.spec_cols() == self.cols,
                trail.len() >= 1,
                trail[0] == start,
                trail[trail.len() - 1] == cell,
                trail.no_duplicates(),
                forall|i: int|
                    0 <= i < trail.len() - 1 ==> {
                        &&& self.in_grid(#[trigger] trail[i])
                        &&& !self.visited.has(trail[i])
                        &&& steps.at(trail[i]) is Some
                    },
                forall|i: int, j: int|
                    0 <= i && j == i + 1 && j < trail.len() ==> steps.at(#[trigger] trail[i])
                        == Some(#[trigger] trail[j]) && adjacent(trail[i], trail[j]),
            decreases left, manhattan(cell, home),
        {
            let (direction, next_cell) = if left > 0 {
                left -= 1;
                let options = self.neighbors(cell.0 as i32, cell.1 as i32);
                proof {
                    self.lemma_neighbor_list(cell);
                    self.lemma_has_neighbor(cell, home);
                }
                let pick = random_range(0, options.len());
                proof {
                    let entry = self.neighbor_list(cell.0 as int, cell.1 as int)[pick as int];
                    assert(entry == options@[pick as int]);
                }
                options[pick]
            } else {
                self.step_towards(cell, home)
            };

            steps.insert(cell, next_cell);
            proof {
                let before = trail;
                if before.contains(next_cell) {
                    let at = choose|at: int| 0 <= at < before.len() && before[at] == next_cell;
                    trail = before.subrange(0, at + 1);
                } else {
                    trail = before.push(next_cell);
                }
            }
            cell = next_cell;
        }

        let mut final_path: Vec<Step> = Vec::new();
        cell = start;
        let ghost mut at: int = 0;

        while !self.visited.contains(&cell)
            invariant
                self.wf(),
                steps.wf(),
                0 <= at < trail.len(),
                cell == trail[at],
                trail[0] == start,
                trail.no_duplicates(),
                self.in_grid(trail[trail.len() - 1]),
                self.visited.has(trail[trail.len() - 1]),
                forall|i: int|
                    0 <= i < trail.len() - 1 ==> {
                        &&& self.in_grid(#[trigger] trail[i])
                        &&& !self.visited.has(trail[i])
                        &&& steps.at(trail[i]) is Some
                    },
                forall|i: int, j: int|
                    0 <= i && j == i + 1 && j < trail.len() ==> steps.at(#[trigger] trail[i])
                        == Some(#[trigger] trail[j]) && adjacent(trail[i], trail[j]),
                final_path@.len() == at,
                forall|i: int|
                    0 <= i < at ==> #[trigger] final_path@[i] == (
                        trail[i],
                        heading(trail[i], trail[i + 1]),
                        trail[i + 1],
                    ),
            decreases trail.len() - at,
        {
            proof {
                assert(steps.at(trail[at]) == Some(trail[at + 1]));
            }
            let next_cell = steps.get(&cell).unwrap();
            let direction = direction_between(cell, next_cell);

            final_path.push((cell, direction, next_cell));

            cell = next_cell;
            proof {
                at = at + 1;
            }
        }
        proof {
            assert(at == trail.len() - 1);
            assert forall|i: int| 0 <= i < final_path@.len() implies {
                let step = #[trigger] final_path@[i];
                &&& self.in_grid(step.0)
                &&& self.in_grid(step.2)
                &&& adjacent(step.0, step.2)
                &&& heading(step.0, step.2) == step.1
                &&& !self.visited.has(step.0)
            } by {
                assert(steps.at(trail[i]) == Some(trail[i + 1]));
                if i + 1 < trail.len() - 1 {
                    assert(self.in_grid(trail[i + 1]));
                }
            }
        }
        final_path
    }

    /// A loop-erased random walk from `start` to the tree: the steps that
    /// lead from `start` to the first cell of the tree that the walk met.
    pub fn random_walk(&self, start: Cell) -> (walk: Vec<Step>)
        requires
            self.wf(),
            self.in_grid(start),
            exists|c: Cell| self.visited.has(c),
        ensures
            self.is_branch(walk@, start),
    {
        self.random_walk_within(start, WALK_BUDGET)
    }

    /// Turns a maze in which every cell is walled in into a perfect maze.
    ///
    /// The start cell is the first cell of the tree. As long as cells
    /// outside the tree remain, one of them is drawn at random, a
    /// loop-erased random walk leads from it to the tree, and the walk is
    /// carved and joined to the tree.
    pub fn generate(&mut self)
        requires
            old(self).wf(),
            forall|cell: Cell, d: Direction| old(self).in_grid(cell) ==> !old(self).open(cell, d),
            forall|cell: Cell| !old(self).visited.has(cell),
        ensures
            final(self).wf(),
            final(self).rows == old(self).rows,
            final(self).cols == old(self).cols,
            final(self).start_cell == old(self).start_cell,
            final(self).end_cell == old(self).end_cell,
            final(self).is_perfect(),
            forall|cell: Cell| final(self).in_grid(cell) ==> final(self).visited.has(cell),
    {
        let mut start = self.start_cell;

        self.visited.insert(start);
        let ghost mut order: Seq<Cell> = seq![start];
        let ghost mut parent: Seq<int> = seq![0int];
        proof {
            assert forall|a: Cell, b: Cell| !#[trigger] self.linked(a, b) by {
                if self.in_grid(a) {
                    assert(!old(self).open(a, heading(a, b)));
                }
            }
            assert(self.grown(order, parent));
            assert(self.passages_inside()) by {
                assert forall|cell: Cell, d: Direction|
                    self.in_grid(cell) && #[trigger] self.open(
                        cell,
                        d,
                    ) implies self.in_bounds_at(
                    cell.0 + d.row_offset(),
                    cell.1 + d.col_offset(),
                ) by {
                    assert(!old(self).open(cell, d));
                }
            }
            assert forall|c: Cell| self.visited.has(c) <==> order.contains(c) by {
                if c == start {
                    assert(order[0] == c);
                }
            }
        }

        let mut unvisited = all_cells(self.rows, self.cols);

        while unvisited.len() > 0
            invariant
                self.wf(),
                self.rows == old(self).rows,
                self.cols == old(self).cols,
                self.start_cell == old(self).start_cell,
                self.end_cell == old(self).end_cell,
                self.visited.has(self.start_cell),
                self.grown(order, parent),
                self.passages_inside(),
                forall|c: Cell| self.visited.has(c) <==> order.contains(c),
                forall|i: int| 0 <= i < unvisited@.len() ==> self.in_grid(#[trigger] unvisited@[i]),
                forall|c: Cell| self.in_grid(c) && !self.visited.has(c) ==> unvisited@.contains(c),
            decreases unvisited@.len(),
        {
            let ghost listed = unvisited@;
            let pick = random_range(0, unvisited.len());
            start = unvisited.swap_remove(pick);
            proof {
                assert forall|c: Cell| listed.contains(c) && c != start implies unvisited@.contains(
                    c,
                ) by {
                    let i = choose|i: int| 0 <= i < listed.len() && listed[i] == c;
                    if i == listed.len() - 1 {
                        assert(unvisited@[pick as int] == c);
                    } else {
                        assert(unvisited@[i] == c);
                    }
                }
                assert forall|i: int| 0 <= i < unvisited@.len() implies self.in_grid(
                    #[trigger] unvisited@[i],
                ) by {
                    if i == pick {
                        assert(self.in_grid(listed[listed.len() - 1]));
                    } else {
                        assert(self.in_grid(listed[i]));
                    }
                }
                assert(self.in_grid(listed[pick as int]));
            }
            if !self.visited.contains(&start) {
                let walk = self.random_walk(start);
                let ghost before = *self;

                let mut k: usize = 0;
                while k < walk.len()
                    invariant
                        k <= walk@.len(),
                        before.wf(),
                        before.is_branch(walk@, start),
                        self.wf(),
                        self.carved(before, walk@, k as int),
                    decreases walk@.len() - k,
                {
                    let ghost prior = *self;
                    let step = walk[k];
                    self.carve(step);
                    proof {
                        assert forall|cell: Cell, d: Direction| self.in_grid(cell) implies (
                        #[trigger] self.open(cell, d) <==> before.open(cell, d) || walk_opens(
                            walk@,
                            k + 1,
                            cell,
                            d,
                        )) by {
                            lemma_one_more_step(walk@, k as int, cell, d);
                            assert(prior.open(cell, d) <==> before.open(cell, d) || walk_opens(
                                walk@,
                                k as int,
                                cell,
                                d,
                            ));
                        }
                        assert forall|cell: Cell| #[trigger]
                            self.visited.has(cell) <==> before.visited.has(cell) || walk_meets(
                                walk@,
                                k + 1,
                                cell,
                            ) by {
                            lemma_one_more_step(walk@, k as int, cell, Direction::Up);
                            assert(prior.visited.has(cell) <==> before.visited.has(cell)
                                || walk_meets(walk@, k as int, cell));
                        }
                    }
                    k += 1;
                }
                proof {
                    self.lemma_attach_branch(before, order, parent, walk@, start);
                    self.lemma_attach_inside(before, walk@, start);
                    let grown_order = branch_order(order, walk@);
                    let grown_parent = branch_parent(order, parent, walk@);
                    order = grown_order;
                    parent = grown_parent;
                    assert(walk_meets(walk@, walk@.len() as int, start)) by {
                        assert(walk@[0].0 == start);
                    }
                    assert forall|c: Cell|
                        self.in_grid(c) && !self.visited.has(c) implies unvisited@.contains(c) by {
                        assert(!before.visited.has(c));
                        assert(listed.contains(c));
                    }
                }
            }
        }
        proof {
            assert forall|c: Cell| self.in_grid(c) implies order.contains(c) by {
                if !self.visited.has(c) {
                    assert(unvisited@.contains(c));
                }
            }
            self.lemma_grown_connected(order, parent);
            self.lemma_grown_paths_unique(order, parent);
            self.lemma_grown_edge_count(order, parent);
            lemma_grid_cells(self.rows, self.cols);
            order.unique_seq_to_set();
            assert(order.to_set() =~= grid_cells(self.rows, self.cols)) by {
                assert forall|c: Cell| order.to_set().contains(c) implies grid_cells(
                    self.rows,
                    self.cols,
                ).contains(c) by {
                    let i = choose|i: int| 0 <= i < order.len() && order[i] == c;
                    assert(self.in_grid(order[i]));
                }
            }
        }
    }
}

} // verus!
