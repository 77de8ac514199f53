//! The grid of a maze: its cells, their open passages, and who neighbours
//! whom.

use vstd::prelude::*;
use crate::cell_set::{Cell, CellSet};
use crate::direction::Direction;
use crate::passages::Passages;

verus! {

/// A table of `rows` by `cols` cells, each walled in on every side.
pub fn generate_grid(rows: usize, cols: usize) -> (grid: Vec<Vec<Passages>>)
    ensures
        grid@.len() == rows,
        forall|r: int| 0 <= r < rows ==> (#[trigger] grid@[r])@.len() == cols,
        forall|r: int, c: int, d: Direction|
            0 <= r < rows && 0 <= c < cols ==> !(#[trigger] grid@[r]@[c].has(d)),
{
    let mut grid: Vec<Vec<Passages>> = Vec::new();
    let mut r: usize = 0;
    while r < rows
        invariant
            r <= rows,
            grid@.len() == r,
            forall|i: int| 0 <= i < r ==> (#[trigger] grid@[i])@.len() == cols,
            forall|i: int, j: int, d: Direction|
                0 <= i < r && 0 <= j < cols ==> !(#[trigger] grid@[i]@[j].has(d)),
        decreases rows - r,
    {
        let mut grid_vec: Vec<Passages> = Vec::new();
        let mut c: usize = 0;
        while c < cols
            invariant
                c <= cols,
                grid_vec@.len() == c,
                forall|j: int, d: Direction| 0 <= j < c ==> !(#[trigger] grid_vec@[j].has(d)),
            decreases cols - c,
        {
            grid_vec.push(Passages::new());
            c += 1;
        }
        grid.push(grid_vec);
        r += 1;
    }
    grid
}

/// A rectangular maze: which passages are open, where the search starts and
/// where it ends, and which cells the generator has joined to the tree.
#[derive(Debug)]
pub struct WilsonMaze {
    pub rows: usize,
    pub cols: usize,
    pub start_cell: Cell,
    pub end_cell: Cell,
    pub visited: CellSet,
    pub grid: Vec<Vec<Passages>>,
}

impl Clone for WilsonMaze {
    /// A maze with the same configuration, the same open passages and the
    /// same cells in the tree.
    fn clone(&self) -> (copy: Self)
        ensures
            copy.rows == self.rows,
            copy.cols == self.cols,
            copy.start_cell == self.start_cell,
            copy.end_cell == self.end_cell,
            copy.grid@.len() == self.grid@.len(),
            forall|r: int| 0 <= r < self.grid@.len() ==> (#[trigger] copy.grid@[r])@ == self.grid@[r]@,
            self.wf() ==> copy.wf() && copy.visited@ == self.visited@,
    {
        let mut grid: Vec<Vec<Passages>> = Vec::new();
        let mut r: usize = 0;
        while r < self.grid.len()
            invariant
                r <= self.grid@.len(),
                grid@.len() == r,
                forall|i: int| 0 <= i < r ==> (#[trigger] grid@[i])@ == self.grid@[i]@,
            decreases self.grid@.len() - r,
        {
            let mut row: Vec<Passages> = Vec::new();
            let mut c: usize = 0;
            while c < self.grid[r].len()
                invariant
                    r < self.grid@.len(),
                    c <= self.grid@[r as int]@.len(),
                    row@ == self.grid@[r as int]@.subrange(0, c as int),
                decreases self.grid@[r as int]@.len() - c,
            {
                row.push(self.grid[r][c]);
                c += 1;
                assert(row@ =~= self.grid@[r as int]@.subrange(0, c as int));
            }
            assert(row@ =~= self.grid@[r as int]@);
            grid.push(row);
            r += 1;
        }
        let copy = WilsonMaze {
            rows: self.rows,
            cols: self.cols,
            start_cell: self.start_cell,
            end_cell: self.end_cell,
            visited: self.visited.clone(),
            grid,
        };
        proof {
            if self.wf() {
                assert forall|i: int| 0 <= i < copy.rows implies (#[trigger] copy.grid@[i])@.len()
                    == copy.cols by {
                    assert(copy.grid@[i]@ == self.grid@[i]@);
                }
            }
        }
        copy
    }
}

/// Why a maze cannot be built from the given dimensions and cells.
#[derive(Clone, Copy, Debug, PartialEq, Eq, Structural)]
pub enum MazeError {
    /// A dimension is zero or exceeds what a signed 32-bit integer holds.
    BadDimensions,
    /// The start cell lies outside the grid.
    StartOutOfBounds,
    /// The end cell lies outside the grid.
    EndOutOfBounds,
}

/// Whether a grid of `rows` by `cols` cells can be built at all: both
/// dimensions are positive, and each fits a signed 32-bit integer, as the
/// coordinates of neighbours are computed in such integers.
pub open spec fn valid_dimensions(rows: usize, cols: usize) -> bool {
    1 <= rows <= i32::MAX && 1 <= cols <= i32::MAX
}

/// Whether `b` is one step up, down, left or right of `a`.
pub open spec fn adjacent(a: Cell, b: Cell) -> bool {
    ||| (a.1 == b.1 && (a.0 + 1 == b.0 || b.0 + 1 == a.0))
    ||| (a.0 == b.0 && (a.1 + 1 == b.1 || b.1 + 1 == a.1))
}

/// The direction of the step from `a` to the adjacent cell `b`.
pub open spec fn heading(a: Cell, b: Cell) -> Direction {
    if b.0 + 1 == a.0 {
        Direction::Up
    } else if a.0 + 1 == b.0 {
        Direction::Down
    } else if b.1 + 1 == a.1 {
        Direction::Left
    } else {
        Direction::Right
    }
}

impl WilsonMaze {
    /// Whether `(row, col)` names a cell of the grid.
    pub open spec fn in_bounds_at(&self, row: int, col: int) -> bool {
        0 <= row < self.rows && 0 <= col < self.cols
    }

    /// Whether `cell` is a cell of the grid.
    pub open spec fn in_grid(&self, cell: Cell) -> bool {
        cell.0 < self.rows && cell.1 < self.cols
    }

    /// The dimensions are valid, the passage table and the tree set have
    /// the maze's dimensions, and start and end lie in the grid.
    pub open spec fn wf(&self) -> bool {
        &&& valid_dimensions(self.rows, self.cols)
        &&& self.grid@.len() == self.rows
        &&& forall|r: int| 0 <= r < self.rows ==> (#[trigger] self.grid@[r])@.len() == self.cols
        &&& self.visited.wf()
        &&& self.visited.spec_rows() == self.rows
        &&& self.visited.spec_cols() == self.cols
        &&& self.in_grid(self.start_cell)
        &&& self.in_grid(self.end_cell)
    }

    /// Whether `cell` is open towards `d`.
    pub open spec fn open(&self, cell: Cell, d: Direction) -> bool {
        self.grid@[cell.0 as int]@[cell.1 as int].has(d)
    }

    /// Whether one can step from `a` to `b`: both are cells of the grid,
    /// they are adjacent, and `a` is open towards `b`.
    pub open spec fn linked(&self, a: Cell, b: Cell) -> bool {
        &&& self.in_grid(a)
        &&& self.in_grid(b)
        &&& adjacent(a, b)
        &&& self.open(a, heading(a, b))
    }

    /// The neighbour of `(row, col)` towards `d`, as a list of one entry, or
    /// the empty list where that neighbour would lie outside the grid.
    pub open spec fn neighbor_toward(&self, row: int, col: int, d: Direction) -> Seq<
        (Direction, Cell),
    > {
        if self.in_bounds_at(row + d.row_offset(), col + d.col_offset()) {
            seq![(d, ((row + d.row_offset()) as usize, (col + d.col_offset()) as usize))]
        } else {
            Seq::empty()
        }
    }

    /// The neighbours of `(row, col)` that lie inside the grid, among the
    /// first `k` directions of the fixed order.
    pub open spec fn neighbors_upto(&self, row: int, col: int, k: int) -> Seq<(Direction, Cell)>
        decreases k,
    {
        if k <= 0 {
            Seq::empty()
        } else {
            self.neighbors_upto(row, col, k - 1) + self.neighbor_toward(
                row,
                col,
                Direction::all()[k - 1],
            )
        }
    }

    /// The neighbours of `(row, col)` that lie inside the grid, each with the
    /// direction that leads to it, in the order up, down, left, right.
    pub open spec fn neighbor_list(&self, row: int, col: int) -> Seq<(Direction, Cell)> {
        self.neighbors_upto(row, col, 4)
    }

    /// The neighbour list is made of the neighbours towards up, down, left
    /// and right, in that order.
    pub proof fn lemma_neighbor_parts(&self, row: int, col: int)
        ensures
            self.neighbor_list(row, col) == self.neighbor_toward(row, col, Direction::Up)
                + self.neighbor_toward(row, col, Direction::Down) + self.neighbor_toward(
                row,
                col,
                Direction::Left,
            ) + self.neighbor_toward(row, col, Direction::Right),
    {
        reveal_with_fuel(WilsonMaze::neighbors_upto, 5);
        assert(Direction::all()[0] == Direction::Up);
        assert(Direction::all()[1] == Direction::Down);
        assert(Direction::all()[2] == Direction::Left);
        assert(Direction::all()[3] == Direction::Right);
        assert(self.neighbor_list(row, col) =~= self.neighbor_toward(row, col, Direction::Up)
            + self.neighbor_toward(row, col, Direction::Down) + self.neighbor_toward(
            row,
            col,
            Direction::Left,
        ) + self.neighbor_toward(row, col, Direction::Right));
    }

    /// The neighbour list holds exactly the adjacent cells of the grid, each
    /// with the direction that leads to it.
    pub proof fn lemma_neighbor_list(&self, cell: Cell)
        requires
            self.in_grid(cell),
        ensures
            self.neighbor_list(cell.0 as int, cell.1 as int).len() <= 4,
            forall|i: int|
                0 <= i < self.neighbor_list(cell.0 as int, cell.1 as int).len() ==> {
                    let entry = #[trigger] self.neighbor_list(cell.0 as int, cell.1 as int)[i];
                    &&& self.in_grid(entry.1)
                    &&& adjacent(cell, entry.1)
                    &&& heading(cell, entry.1) == entry.0
                },
            forall|other: Cell|
                self.in_grid(other) && #[trigger] adjacent(cell, other) ==> self.neighbor_list(
                    cell.0 as int,
                    cell.1 as int,
                ).contains((heading(cell, other), other)),
    {
        self.lemma_neighbor_parts(cell.0 as int, cell.1 as int);
        let row = cell.0 as int;
        let col = cell.1 as int;
        let list = self.neighbor_list(row, col);
        let up = self.neighbor_toward(row, col, Direction::Up);
        let down = self.neighbor_toward(row, col, Direction::Down);
        let left = self.neighbor_toward(row, col, Direction::Left);
        let right = self.neighbor_toward(row, col, Direction::Right);
        assert forall|other: Cell| self.in_grid(other) && #[trigger] adjacent(cell, other) implies list.contains(
            (heading(cell, other), other),
        ) by {
            let d = heading(cell, other);
            let entry = (d, other);
            if d == Direction::Up {
                assert(up[0] == entry);
                assert(list[0] == entry);
            } else if d == Direction::Down {
                assert(down[0] == entry);
                assert(list[up.len() as int] == entry);
            } else if d == Direction::Left {
                assert(left[0] == entry);
                assert(list[(up.len() + down.len()) as int] == entry);
            } else {
                assert(right[0] == entry);
                assert(list[(up.len() + down.len() + left.len()) as int] == entry);
            }
        }
    }

    /// The neighbour list names the directions in their fixed order.
    pub proof fn lemma_neighbor_order(&self, cell: Cell)
        requires
            self.in_grid(cell),
        ensures
            forall|i: int, j: int|
                0 <= i < j < self.neighbor_list(cell.0 as int, cell.1 as int).len() ==> (
                #[trigger] self.neighbor_list(cell.0 as int, cell.1 as int)[i]).0.index() < (
                #[trigger] self.neighbor_list(cell.0 as int, cell.1 as int)[j]).0.index(),
    {
        self.lemma_neighbor_parts(cell.0 as int, cell.1 as int);
    }

    /// In a grid of more than one cell every cell has a neighbour.
    pub proof fn lemma_has_neighbor(&self, cell: Cell, other: Cell)
        requires
            self.in_grid(cell),
            self.in_grid(other),
            cell != other,
        ensures
            self.neighbor_list(cell.0 as int, cell.1 as int).len() > 0,
    {
        self.lemma_neighbor_list(cell);
        let list = self.neighbor_list(cell.0 as int, cell.1 as int);
        let near: Cell = if cell.0 != other.0 {
            if cell.0 > 0 {
                ((cell.0 - 1) as usize, cell.1)
            } else {
                ((cell.0 + 1) as usize, cell.1)
            }
        } else {
            if cell.1 > 0 {
                (cell.0, (cell.1 - 1) as usize)
            } else {
                (cell.0, (cell.1 + 1) as usize)
            }
        };
        assert(self.in_grid(near) && adjacent(cell, near));
        assert(list.contains((heading(cell, near), near)));
    }

    /// A maze of `rows` by `cols` cells in which every cell is walled in and
    /// no cell has been joined to the tree yet.
    pub fn new(rows: usize, cols: usize, start_cell: Cell, end_cell: Cell) -> (maze: Self)
        requires
            valid_dimensions(rows, cols),
            start_cell.0 < rows && start_cell.1 < cols,
            end_cell.0 < rows && end_cell.1 < cols,
        ensures
            maze.wf(),
            maze.rows == rows,
            maze.cols == cols,
            maze.start_cell == start_cell,
            maze.end_cell == end_cell,
            forall|cell: Cell, d: Direction| maze.in_grid(cell) ==> !maze.open(cell, d),
            forall|cell: Cell| !maze.visited.has(cell),
    {
        Self {
            rows: rows,
            cols: cols,
            start_cell: start_cell,
            end_cell: end_cell,
            visited: CellSet::new(rows, cols),
            grid: generate_grid(rows, cols),
        }
    }

    /// Builds the maze of `new` after checking what `new` demands, and says
    /// which demand is not met.
    pub fn try_new(rows: usize, cols: usize, start_cell: Cell, end_cell: Cell) -> (built: Result<
        Self,
        MazeError,
    >)
        ensures
            built matches Ok(maze) ==> {
                &&& maze.wf()
                &&& maze.rows == rows
                &&& maze.cols == cols
                &&& maze.start_cell == start_cell
                &&& maze.end_cell == end_cell
                &&& forall|cell: Cell, d: Direction| maze.in_grid(cell) ==> !maze.open(cell, d)
                &&& forall|cell: Cell| !maze.visited.has(cell)
            },
            built is Ok <==> valid_dimensions(rows, cols) && start_cell.0 < rows && start_cell.1
                < cols && end_cell.0 < rows && end_cell.1 < cols,
            built == Err::<Self, MazeError>(MazeError::BadDimensions) <==> !valid_dimensions(
                rows,
                cols,
            ),
            built == Err::<Self, MazeError>(MazeError::StartOutOfBounds) <==> valid_dimensions(
                rows,
                cols,
            ) && !(start_cell.0 < rows && start_cell.1 < cols),
            built == Err::<Self, MazeError>(MazeError::EndOutOfBounds) <==> valid_dimensions(
                rows,
                cols,
            ) && start_cell.0 < rows && start_cell.1 < cols && !(end_cell.0 < rows && end_cell.1
                < cols),
    {
        if rows < 1 || cols < 1 || rows > 0x7fff_ffff || cols > 0x7fff_ffff {
            return Err(MazeError::BadDimensions);
        }
        if start_cell.0 >= rows || start_cell.1 >= cols {
            return Err(MazeError::StartOutOfBounds);
        }
        if end_cell.0 >= rows || end_cell.1 >= cols {
            return Err(MazeError::EndOutOfBounds);
        }
        Ok(Self::new(rows, cols, start_cell, end_cell))
    }

    /// The change of row and column made by one step in `direction`.
    pub fn direction_lookup(&self, direction: &Direction) -> (offset: (i32, i32))
        ensures
            offset.0 == direction.row_offset(),
            offset.1 == direction.col_offset(),
    {
        match direction {
            Direction::Up => (-1, 0),
            Direction::Down => (1, 0),
            Direction::Left => (0, -1),
            Direction::Right => (0, 1),
        }
    }

    /// The largest Manhattan distance that scores are measured against: the
    /// number of rows plus the number of columns.
    pub fn max_dist(&self) -> (dist: usize)
        requires
            self.rows + self.cols <= usize::MAX,
        ensures
            dist == self.rows + self.cols,
    {
        self.rows + self.cols
    }

    /// Whether `(row, col)` names a cell of the grid. Negative coordinates
    /// never do.
    pub fn in_bounds(&self, row: i32, col: i32) -> (inside: bool)
        ensures
            inside == self.in_bounds_at(row as int, col as int),
    {
        row >= 0 && (row as usize) < self.rows && col >= 0 && (col as usize) < self.cols
    }

    /// The neighbours of the cell `(row, col)` that lie inside the grid, each
    /// with the direction that leads to it, in the order up, down, left,
    /// right. Whether a passage is open plays no part.
    pub fn neighbors(&self, row: i32, col: i32) -> (list: Vec<(Direction, Cell)>)
        requires
            valid_dimensions(self.rows, self.cols),
            self.in_bounds_at(row as int, col as int),
        ensures
            list@ == self.neighbor_list(row as int, col as int),
    {
        let mut neighbors: Vec<(Direction, Cell)> = Vec::with_capacity(4);
        let directions = Direction::as_list();
        let mut k: usize = 0;
        while k < directions.len()
            invariant
                k <= 4,
                directions@ == Direction::all(),
                valid_dimensions(self.rows, self.cols),
                self.in_bounds_at(row as int, col as int),
                neighbors@ == self.neighbors_upto(row as int, col as int, k as int),
            decreases 4 - k,
        {
            let direction = directions[k];
            let (row_offset, col_offset) = self.direction_lookup(&direction);
            let neighbor_row = row_offset + row;
            let neighbor_col = col_offset + col;
            if self.in_bounds(neighbor_row, neighbor_col) {
                neighbors.push((direction, (neighbor_row as usize, neighbor_col as usize)));
            }
            k += 1;
            assert(neighbors@ =~= self.neighbors_upto(row as int, col as int, k as int));
        }
        neighbors
    }
}

} // verus!
