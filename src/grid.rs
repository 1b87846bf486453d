//! The grid of placed cells, read by column and row.
use vstd::prelude::*;

use crate::gate::Cell;

verus! {

/// Largest number of columns a grid holds.
pub const MAX_COLUMNS: usize = 0xFFFF_FFFF;

/// Largest register width.
pub const MAX_ROWS: usize = 8;

/// A grid of `rows` wires; `columns[c][r]` is the cell at column c, row r.
/// Positions past the stored columns are empty.
pub struct Grid {
    pub rows: usize,
    pub columns: Vec<Vec<Option<Cell>>>,
}

impl Grid {
    pub open spec fn wf(&self) -> bool {
        &&& 1 <= self.rows <= MAX_ROWS
        &&& self.columns@.len() <= MAX_COLUMNS
        &&& forall|c: int| 0 <= c < self.columns@.len() ==> (#[trigger] self.columns@[c])@.len() == self.rows
    }

    /// The cells of column `c`, rows 0 to `rows − 1`.
    pub open spec fn column_cells(&self, c: int) -> Seq<Option<Cell>> {
        if 0 <= c < self.columns@.len() {
            self.columns@[c]@
        } else {
            Seq::new(self.rows as nat, |r: int| None)
        }
    }

    pub open spec fn cell(&self, c: int, r: int) -> Option<Cell> {
        self.column_cells(c)[r]
    }

    /// An empty grid of the given register width.
    pub fn new(rows: usize) -> (g: Grid)
        requires
            1 <= rows <= MAX_ROWS,
        ensures
            g.wf(),
            g.rows == rows,
            forall|c: int, r: int| 0 <= r < rows ==> g.cell(c, r) is None,
    {
        Grid { rows, columns: Vec::new() }
    }

    /// The cell at (column, row).
    pub fn get(&self, column: usize, row: usize) -> (r: Option<Cell>)
        requires
            self.wf(),
            row < self.rows,
        ensures
            r == self.cell(column as int, row as int),
    {
        if column < self.columns.len() {
            self.columns[column][row]
        } else {
            None
        }
    }

    /// Puts `cell` at (column, row), leaving every other position as it was.
    pub fn set(&mut self, column: usize, row: usize, cell: Option<Cell>)
        requires
            old(self).wf(),
            row < old(self).rows,
            column < MAX_COLUMNS,
        ensures
            final(self).wf(),
            final(self).rows == old(self).rows,
            forall|c: int, r: int|
                0 <= r < old(self).rows ==> #[trigger] final(self).cell(c, r) == if c == column && r
                    == row {
                    cell
                } else {
                    old(self).cell(c, r)
                },
    {
        let ghost before = *self;
        while self.columns.len() <= column
            invariant
                self.wf(),
                self.rows == before.rows,
                column < MAX_COLUMNS,
                row < self.rows,
                forall|c: int, r: int|
                    0 <= r < self.rows ==> #[trigger] self.cell(c, r) == before.cell(c, r),
            decreases column + 1 - self.columns.len(),
        {
            let mut empty: Vec<Option<Cell>> = Vec::new();
            let mut k: usize = 0;
            while k < self.rows
                invariant
                    k <= self.rows,
                    empty@.len() == k,
                    forall|r: int| 0 <= r < k ==> #[trigger] empty@[r] is None,
                decreases self.rows - k,
            {
                empty.push(None);
                k = k + 1;
            }
            let ghost mid = *self;
            self.columns.push(empty);
            assert forall|c: int, r: int| 0 <= r < self.rows implies #[trigger] self.cell(c, r)
                == mid.cell(c, r) by {
                if c == mid.columns@.len() {
                    assert(self.columns@[c] == empty);
                } else if 0 <= c < mid.columns@.len() {
                    assert(self.columns@[c] == mid.columns@[c]);
                }
            }
        }
        let mut updated: Vec<Option<Cell>> = Vec::new();
        let mut k: usize = 0;
        while k < self.rows
            invariant
                self.wf(),
                column < self.columns@.len(),
                k <= self.rows,
                updated@.len() == k,
                forall|r: int|
                    0 <= r < k ==> #[trigger] updated@[r] == if r == row {
                        cell
                    } else {
                        self.columns@[column as int]@[r]
                    },
            decreases self.rows - k,
        {
            if k == row {
                updated.push(cell);
            } else {
                let v = self.columns[column][k];
                updated.push(v);
            }
            k = k + 1;
        }
        let ghost mid = *self;
        self.columns.set(column, updated);
        assert forall|c: int, r: int| 0 <= r < self.rows implies #[trigger] self.cell(c, r)
            == if c == column && r == row {
            cell
        } else {
            before.cell(c, r)
        } by {
            assert(mid.cell(c, r) == before.cell(c, r));
            if c == column {
                assert(self.columns@[c] == updated);
            } else if 0 <= c < self.columns@.len() {
                assert(self.columns@[c] == mid.columns@[c]);
            }
        }
    }
}

} // verus!
