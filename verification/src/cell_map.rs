//! Partial maps from grid cells to grid cells, kept as one slot per cell.

use vstd::prelude::*;
use crate::cell_set::Cell;

verus! {

/// A partial map from the cells of a `rows` by `cols` grid to cells: for
/// each cell that a search has reached, the cell it was reached from.
#[derive(Debug)]
pub struct CellMap {
    rows: usize,
    cols: usize,
    slots: Vec<Vec<Option<Cell>>>,
}

impl View for CellMap {
    type V = Map<Cell, Cell>;

    /// The map as a mathematical map: its keys are the cells that have an
    /// entry.
    open spec fn view(&self) -> Map<Cell, Cell> {
        Map::new(|key: Cell| self.at(key) is Some, |key: Cell| self.at(key)->0)
    }
}

impl CellMap {
    /// The slots form a table with `rows` rows of `cols` columns.
    pub closed spec fn wf(&self) -> bool {
        &&& self.slots@.len() == self.rows
        &&& forall|r: int| 0 <= r < self.rows ==> (#[trigger] self.slots@[r])@.len() == self.cols
    }

    /// The number of rows of the grid whose cells are the keys.
    pub closed spec fn spec_rows(&self) -> usize {
        self.rows
    }

    /// The number of columns of the grid whose cells are the keys.
    pub closed spec fn spec_cols(&self) -> usize {
        self.cols
    }

    /// The entry of `key`, if it has one. A cell outside the grid has none.
    pub closed spec fn at(&self, key: Cell) -> Option<Cell> {
        if key.0 < self.rows && key.1 < self.cols {
            self.slots@[key.0 as int]@[key.1 as int]
        } else {
            None
        }
    }

    /// The map without any entry, over a `rows` by `cols` grid.
    pub fn new(rows: usize, cols: usize) -> (map: CellMap)
        ensures
            map.wf(),
            map.spec_rows() == rows,
            map.spec_cols() == cols,
            forall|key: Cell| map.at(key) is None,
    {
        let mut slots: Vec<Vec<Option<Cell>>> = Vec::new();
        let mut r: usize = 0;
        while r < rows
            invariant
                r <= rows,
                slots@.len() == r,
                forall|i: int| 0 <= i < r ==> (#[trigger] slots@[i])@.len() == cols,
                forall|i: int, j: int| 0 <= i < r && 0 <= j < cols ==> (#[trigger] slots@[i]@[j]) is None,
            decreases rows - r,
        {
            let mut row: Vec<Option<Cell>> = Vec::new();
            let mut c: usize = 0;
            while c < cols
                invariant
                    c <= cols,
                    row@.len() == c,
                    forall|j: int| 0 <= j < c ==> (#[trigger] row@[j]) is None,
                decreases cols - c,
            {
                row.push(None);
                c += 1;
            }
            slots.push(row);
            r += 1;
        }
        CellMap { rows, cols, slots }
    }

    /// The entry of `key`, if it has one.
    pub fn get(&self, key: &Cell) -> (value: Option<Cell>)
        requires
            self.wf(),
        ensures
            value == self.at(*key),
    {
        if key.0 < self.rows && key.1 < self.cols {
            self.slots[key.0][key.1]
        } else {
            None
        }
    }

    /// Gives `key`, a cell of the grid, the entry `value`, in place of the
    /// one it may have had.
    pub fn insert(&mut self, key: Cell, value: Cell)
        requires
            old(self).wf(),
            key.0 < old(self).spec_rows(),
            key.1 < old(self).spec_cols(),
        ensures
            final(self).wf(),
            final(self).spec_rows() == old(self).spec_rows(),
            final(self).spec_cols() == old(self).spec_cols(),
            forall|other: Cell|
                final(self).at(other) == (if other == key {
                    Some(value)
                } else {
                    old(self).at(other)
                }),
    {
        self.slots[key.0][key.1] = Some(value);
    }
}

} // verus!
