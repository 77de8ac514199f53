//! Sets of grid cells, kept as one flag per cell.

use vstd::prelude::*;
use vstd::set_lib::lemma_len_subset;
use crate::graph::{grid_cells, lemma_grid_cells};

verus! {

/// A cell of the grid, as `(row, column)`.
pub type Cell = (usize, usize);

/// A set of cells of a `rows` by `cols` grid.
#[derive(Debug)]
pub struct CellSet {
    rows: usize,
    cols: usize,
    bits: Vec<Vec<bool>>,
}

/// Whether `now` is `before` with the cell `added`.
pub open spec fn grown_by(before: CellSet, now: CellSet, added: Cell) -> bool {
    forall|c: Cell| #[trigger] now.has(c) == (c == added || before.has(c))
}

impl Clone for CellSet {
    /// A set over the same grid with the same members.
    fn clone(&self) -> (copy: Self)
        ensures
            copy.spec_rows() == self.spec_rows(),
            copy.spec_cols() == self.spec_cols(),
            self.wf() ==> copy.wf() && copy@ == self@,
    {
        let mut bits: Vec<Vec<bool>> = Vec::new();
        let mut r: usize = 0;
        while r < self.bits.len()
            invariant
                r <= self.bits@.len(),
                bits@.len() == r,
                forall|i: int| 0 <= i < r ==> (#[trigger] bits@[i])@ == self.bits@[i]@,
            decreases self.bits@.len() - r,
        {
            let mut row: Vec<bool> = Vec::new();
            let mut c: usize = 0;
            while c < self.bits[r].len()
                invariant
                    r < self.bits@.len(),
                    c <= self.bits@[r as int]@.len(),
                    row@ == self.bits@[r as int]@.subrange(0, c as int),
                decreases self.bits@[r as int]@.len() - c,
            {
                row.push(self.bits[r][c]);
                c += 1;
                assert(row@ =~= self.bits@[r as int]@.subrange(0, c as int));
            }
            assert(row@ =~= self.bits@[r as int]@);
            bits.push(row);
            r += 1;
        }
        let copy = CellSet { rows: self.rows, cols: self.cols, bits };
        proof {
            if self.wf() {
                assert forall|i: int| 0 <= i < copy.rows implies (#[trigger] copy.bits@[i])@.len()
                    == copy.cols by {
                    assert(copy.bits@[i]@ == self.bits@[i]@);
                }
                assert(copy@ =~= self@);
            }
        }
        copy
    }
}

impl View for CellSet {
    type V = Set<Cell>;

    /// The set as a mathematical set of cells.
    open spec fn view(&self) -> Set<Cell> {
        Set::new(|cell: Cell| self.has(cell))
    }
}

impl CellSet {
    /// The flags form a table with `rows` rows of `cols` columns.
    pub closed spec fn wf(&self) -> bool {
        &&& self.bits@.len() == self.rows
        &&& forall|r: int| 0 <= r < self.rows ==> (#[trigger] self.bits@[r])@.len() == self.cols
    }

    /// The number of rows of the grid that the set lives in.
    pub closed spec fn spec_rows(&self) -> usize {
        self.rows
    }

    /// The number of columns of the grid that the set lives in.
    pub closed spec fn spec_cols(&self) -> usize {
        self.cols
    }

    /// Whether `cell` is a member.
    pub closed spec fn has(&self, cell: Cell) -> bool {
        &&& cell.0 < self.rows
        &&& cell.1 < self.cols
        &&& self.bits@[cell.0 as int]@[cell.1 as int]
    }

    /// Members lie inside the grid.
    pub proof fn lemma_has_in_grid(&self, cell: Cell)
        requires
            self.has(cell),
        ensures
            cell.0 < self.spec_rows(),
            cell.1 < self.spec_cols(),
    {
    }

    /// The empty set over a `rows` by `cols` grid.
    pub fn new(rows: usize, cols: usize) -> (set: CellSet)
        ensures
            set.wf(),
            set.spec_rows() == rows,
            set.spec_cols() == cols,
            forall|cell: Cell| !set.has(cell),
    {
        let mut bits: Vec<Vec<bool>> = Vec::new();
        let mut r: usize = 0;
        while r < rows
            invariant
                r <= rows,
                bits@.len() == r,
                forall|i: int| 0 <= i < r ==> (#[trigger] bits@[i])@.len() == cols,
                forall|i: int, j: int| 0 <= i < r && 0 <= j < cols ==> !(#[trigger] bits@[i]@[j]),
            decreases rows - r,
        {
            let mut row: Vec<bool> = Vec::new();
            let mut c: usize = 0;
            while c < cols
                invariant
                    c <= cols,
                    row@.len() == c,
                    forall|j: int| 0 <= j < c ==> !(#[trigger] row@[j]),
                decreases cols - c,
            {
                row.push(false);
                c += 1;
            }
            bits.push(row);
            r += 1;
        }
        CellSet { rows, cols, bits }
    }

    /// Whether `cell` is a member; a cell outside the grid never is.
    pub fn contains(&self, cell: &Cell) -> (found: bool)
        requires
            self.wf(),
        ensures
            found == self.has(*cell),
    {
        cell.0 < self.rows && cell.1 < self.cols && self.bits[cell.0][cell.1]
    }

    /// Adds `cell`, which lies inside the grid.
    pub fn insert(&mut self, cell: Cell)
        requires
            old(self).wf(),
            cell.0 < old(self).spec_rows(),
            cell.1 < old(self).spec_cols(),
        ensures
            final(self).wf(),
            final(self).spec_rows() == old(self).spec_rows(),
            final(self).spec_cols() == old(self).spec_cols(),
            forall|other: Cell| final(self).has(other) == (other == cell || old(self).has(other)),
            final(self)@ == old(self)@.insert(cell),
    {
        self.bits[cell.0][cell.1] = true;
        assert(self@ =~= old(self)@.insert(cell));
    }

    /// A set of cells of a grid is finite and has at most as many members
    /// as the grid has cells.
    pub proof fn lemma_finite(&self)
        ensures
            self@.finite(),
            self@.len() <= self.spec_rows() * self.spec_cols(),
    {
        lemma_grid_cells(self.rows, self.cols);
        assert(self@.subset_of(grid_cells(self.rows, self.cols)));
        lemma_len_subset(self@, grid_cells(self.rows, self.cols));
    }

    /// Adds every member of `other`, a set over the same grid.
    pub fn extend(&mut self, other: &CellSet)
        requires
            old(self).wf(),
            other.wf(),
            other.spec_rows() == old(self).spec_rows(),
            other.spec_cols() == old(self).spec_cols(),
        ensures
            final(self).wf(),
            final(self).spec_rows() == old(self).spec_rows(),
            final(self).spec_cols() == old(self).spec_cols(),
            forall|cell: Cell|
                #![trigger old(self).has(cell)]
                #![trigger final(self).has(cell)]
                final(self).has(cell) == (old(self).has(cell) || other.has(cell)),
            final(self)@ == old(self)@.union(other@),
    {
        let ghost before = *self;
        let mut r: usize = 0;
        while r < self.rows
            invariant
                self.wf(),
                other.wf(),
                self.rows == before.rows,
                self.cols == before.cols,
                other.rows == self.rows,
                other.cols == self.cols,
                r <= self.rows,
                forall|i: int, j: int|
                    0 <= i < self.rows && 0 <= j < self.cols ==> (#[trigger] self.bits@[i]@[j]) == (
                    before.bits@[i]@[j] || (other.bits@[i]@[j] && i < r)),
            decreases self.rows - r,
        {
            let mut c: usize = 0;
            while c < self.cols
                invariant
                    self.wf(),
                    other.wf(),
                    self.rows == before.rows,
                    self.cols == before.cols,
                    other.rows == self.rows,
                    other.cols == self.cols,
                    r < self.rows,
                    c <= self.cols,
                    forall|i: int, j: int|
                        0 <= i < self.rows && 0 <= j < self.cols ==> (
                        #[trigger] self.bits@[i]@[j]) == (before.bits@[i]@[j] || (other.bits@[i]@[j]
                            && (i < r || (i == r && j < c)))),
                decreases self.cols - c,
            {
                if other.bits[r][c] {
                    self.bits[r][c] = true;
                }
                c += 1;
            }
            r += 1;
        }
        assert forall|cell: Cell| self.has(cell) == (before.has(cell) || other.has(cell)) by {
            if cell.0 < self.rows && cell.1 < self.cols {
                assert(self.bits@[cell.0 as int]@[cell.1 as int] == (before.bits@[cell.0 as int]@[cell.1 as int]
                    || other.bits@[cell.0 as int]@[cell.1 as int]));
            }
        }
        assert(self@ =~= before@.union(other@));
    }

    /// The members, row by row and within a row from left to right.
    pub fn to_vec(&self) -> (members: Vec<Cell>)
        requires
            self.wf(),
        ensures
            members@.no_duplicates(),
            members@.to_set() == self@,
            forall|i: int, j: int|
                0 <= i < j < members@.len() ==> (#[trigger] members@[i]).0 < (
                #[trigger] members@[j]).0 || (members@[i].0 == members@[j].0 && members@[i].1
                    < members@[j].1),
    {
        let mut members: Vec<Cell> = Vec::new();
        let mut r: usize = 0;
        while r < self.rows
            invariant
                self.wf(),
                r <= self.rows,
                forall|i: int|
                    0 <= i < members@.len() ==> self.has(#[trigger] members@[i]) && members@[i].0
                        < r,
                forall|cell: Cell| self.has(cell) && cell.0 < r ==> members@.contains(cell),
                forall|i: int, j: int|
                    0 <= i < j < members@.len() ==> (#[trigger] members@[i]).0 < (
                    #[trigger] members@[j]).0 || (members@[i].0 == members@[j].0 && members@[i].1
                        < members@[j].1),
            decreases self.rows - r,
        {
            let mut c: usize = 0;
            while c < self.cols
                invariant
                    self.wf(),
                    r < self.rows,
                    c <= self.cols,
                    forall|i: int|
                        0 <= i < members@.len() ==> self.has(#[trigger] members@[i]) && (
                        members@[i].0 < r || (members@[i].0 == r && members@[i].1 < c)),
                    forall|cell: Cell|
                        self.has(cell) && (cell.0 < r || (cell.0 == r && cell.1 < c))
                            ==> members@.contains(cell),
                    forall|i: int, j: int|
                        0 <= i < j < members@.len() ==> (#[trigger] members@[i]).0 < (
                        #[trigger] members@[j]).0 || (members@[i].0 == members@[j].0
                            && members@[i].1 < members@[j].1),
                decreases self.cols - c,
            {
                if self.bits[r][c] {
                    let ghost before = members@;
                    members.push((r, c));
                    proof {
                        assert forall|cell: Cell|
                            self.has(cell) && (cell.0 < r || (cell.0 == r && cell.1 < c + 1)) implies members@.contains(
                            cell,
                        ) by {
                            if cell == (r, c) {
                                assert(members@[before.len() as int] == cell);
                            } else {
                                let i = choose|i: int| 0 <= i < before.len() && before[i] == cell;
                                assert(members@[i] == cell);
                            }
                        }
                    }
                }
                c += 1;
            }
            r += 1;
        }
        proof {
            assert(members@.to_set() =~= self@) by {
                assert forall|cell: Cell| members@.to_set().contains(cell) implies self@.contains(
                    cell,
                ) by {
                    let i = choose|i: int| 0 <= i < members@.len() && members@[i] == cell;
                    assert(self.has(members@[i]));
                }
            }
        }
        members
    }

    /// The first member, row by row and within a row from left to right;
    /// none where the set has no member.
    pub fn first(&self) -> (found: Option<Cell>)
        requires
            self.wf(),
        ensures
            found is None <==> forall|cell: Cell| !self.has(cell),
            found matches Some(least) ==> self.has(least) && forall|other: Cell| #[trigger]
                self.has(other) ==> least.0 < other.0 || (least.0 == other.0 && least.1
                    <= other.1),
    {
        let members = self.to_vec();
        proof {
            assert forall|cell: Cell| #[trigger] self.has(cell) implies members@.contains(cell) by {
                assert(self@.contains(cell));
                assert(members@.to_set().contains(cell));
            }
            assert forall|i: int| 0 <= i < members@.len() implies self.has(
                #[trigger] members@[i],
            ) by {
                assert(members@.to_set().contains(members@[i]));
                assert(self@.contains(members@[i]));
            }
        }
        if members.len() == 0 {
            proof {
                assert forall|cell: Cell| !self.has(cell) by {
                    if self.has(cell) {
                        assert(members@.contains(cell));
                    }
                }
            }
            None
        } else {
            let least = members[0];
            proof {
                assert forall|other: Cell| #[trigger] self.has(other) implies least.0 < other.0 || (
                least.0 == other.0 && least.1 <= other.1) by {
                    assert(members@.contains(other));
                    let i = choose|i: int| 0 <= i < members@.len() && members@[i] == other;
                    if i > 0 {
                        assert(members@[0].0 < members@[i].0 || (members@[0].0 == members@[i].0
                            && members@[0].1 < members@[i].1));
                    }
                }
            }
            Some(least)
        }
    }

    /// The number of members.
    pub fn len(&self) -> (n: usize)
        requires
            self.wf(),
        ensures
            self@.finite(),
            n == self@.len(),
    {
        let members = self.to_vec();
        proof {
            members@.unique_seq_to_set();
            self.lemma_finite();
        }
        members.len()
    }
}

} // verus!
