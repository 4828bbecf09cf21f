//! The collecting stage of the parallel grid fill: workers hand over one
//! finished row at a time, tagged with its row index, and the assembler
//! places each row where its index says, whatever the arrival order. The
//! assembly is complete only once every row has arrived.

use vstd::prelude::*;

verus! {

use vstd::pervasive::unreached;
use crate::grid::Grid;
use crate::grid::as_model;
use crate::grid::lemma_index_bound;

/// Collects per-row results of the parallel grid fill, by row index.
pub struct RowAssembler<T> {
    pub columns: usize,
    /// One slot per output row; `None` while the row has not arrived.
    pub slots: Vec<Option<Vec<T>>>,
}

impl<T> RowAssembler<T> {
    /// Every received row has exactly one cell per column.
    pub open spec fn wf(self) -> bool {
        forall|i: int|
            0 <= i < self.slots@.len() ==> match #[trigger] self.slots@[i] {
                Some(row) => row@.len() == self.columns,
                None => true,
            }
    }

    /// An assembler with every row still missing.
    pub fn new(rows: usize, columns: usize) -> (a: RowAssembler<T>)
        ensures
            a.wf(),
            a.columns == columns,
            a.slots@.len() == rows,
            forall|i: int| 0 <= i < rows ==> (#[trigger] a.slots@[i]) is None,
    {
        let mut slots: Vec<Option<Vec<T>>> = Vec::new();
        while slots.len() < rows
            invariant
                slots@.len() <= rows,
                forall|i: int| 0 <= i < slots@.len() ==> (#[trigger] slots@[i]) is None,
            decreases rows - slots@.len(),
        {
            slots.push(None);
        }
        RowAssembler { columns, slots }
    }

    /// Receives one finished row and stores it at its carried index; every
    /// other slot is unchanged, so arrival order does not matter.
    pub fn place_row(&mut self, row: usize, data: Vec<T>)
        requires
            old(self).wf(),
            row < old(self).slots@.len(),
            data@.len() == old(self).columns,
        ensures
            final(self).wf(),
            final(self).columns == old(self).columns,
            final(self).slots@.len() == old(self).slots@.len(),
            final(self).slots@[row as int] == Some(data),
            forall|i: int|
                0 <= i < old(self).slots@.len() && i != row ==> final(self).slots@[i] == old(
                    self,
                ).slots@[i],
    {
        self.slots.set(row, Some(data));
    }

    /// Whether every row has arrived.
    pub fn is_complete(&self) -> (b: bool)
        ensures
            b == forall|i: int| 0 <= i < self.slots@.len() ==> (#[trigger] self.slots@[i]) is Some,
    {
        let mut i: usize = 0;
        while i < self.slots.len()
            invariant
                i <= self.slots@.len(),
                forall|j: int| 0 <= j < i ==> (#[trigger] self.slots@[j]) is Some,
            decreases self.slots@.len() - i,
        {
            if self.slots[i].is_none() {
                return false;
            }
            i = i + 1;
        }
        true
    }

    /// Reads one received row.
    pub fn row_cells(&self, row: usize) -> (cells: &Vec<T>)
        requires
            self.wf(),
            row < self.slots@.len(),
            self.slots@[row as int] is Some,
        ensures
            Some(*cells) == self.slots@[row as int],
            cells@.len() == self.columns,
    {
        match &self.slots[row] {
            Some(cells) => cells,
            None => unreached(),
        }
    }
}

impl RowAssembler<Option<i64>> {
    /// What the assembled grid holds at `(r, c)`: the received cell, or
    /// nodata while row `r` has not arrived.
    pub open spec fn cell(self, r: int, c: int) -> Option<int> {
        match self.slots@[r] {
            Some(row) => as_model(row@[c]),
            None => None,
        }
    }

    /// Writes every received row into a nodata-filled grid covering the
    /// frame of `template`, placing each row at its carried index.
    pub fn into_grid(&self, template: &Grid) -> (g: Grid)
        requires
            self.wf(),
            template.wf(),
            self.slots@.len() == template.rows,
            self.columns == template.columns,
        ensures
            g.wf(),
            g.same_frame(*template),
            forall|r: int, c: int|
                g.in_bounds(r, c) ==> #[trigger] g.cell(r, c) == self.cell(r, c),
    {
        let mut g = Grid::nodata_like(template);
        let rows = template.rows;
        let columns = template.columns;
        proof {
            assert forall|r2: int, c2: int| g.in_bounds(r2, c2) implies #[trigger] g.cell(r2, c2)
                is None by {
                lemma_index_bound(r2, c2, rows as int, columns as int);
            }
        }
        let mut r: usize = 0;
        while r < rows
            invariant
                self.wf(),
                template.wf(),
                self.slots@.len() == rows,
                self.columns == columns,
                g.wf(),
                g.same_frame(*template),
                rows == template.rows,
                columns == template.columns,
                r <= rows,
                forall|r2: int, c2: int|
                    g.in_bounds(r2, c2) && r2 < r ==> #[trigger] g.cell(r2, c2) == self.cell(
                        r2,
                        c2,
                    ),
                forall|r2: int, c2: int|
                    g.in_bounds(r2, c2) && r2 >= r ==> #[trigger] g.cell(r2, c2) is None,
            decreases rows - r,
        {
            match &self.slots[r] {
                None => {},
                Some(row) => {
                    let mut c: usize = 0;
                    while c < columns
                        invariant
                            self.wf(),
                            template.wf(),
                            self.slots@.len() == rows,
                            self.columns == columns,
                            g.wf(),
                            g.same_frame(*template),
                            rows == template.rows,
                            columns == template.columns,
                            r < rows,
                            c <= columns,
                            self.slots@[r as int] == Some(*row),
                            row@.len() == columns,
                            forall|r2: int, c2: int|
                                g.in_bounds(r2, c2) && r2 < r ==> #[trigger] g.cell(r2, c2)
                                    == self.cell(r2, c2),
                            forall|c2: int|
                                0 <= c2 < c ==> #[trigger] g.cell(r as int, c2) == self.cell(
                                    r as int,
                                    c2,
                                ),
                            forall|c2: int|
                                c <= c2 < columns ==> #[trigger] g.cell(r as int, c2) is None,
                            forall|r2: int, c2: int|
                                g.in_bounds(r2, c2) && r2 > r ==> #[trigger] g.cell(r2, c2)
                                    is None,
                        decreases columns - c,
                    {
                        g.set(r, c, row[c]);
                        c = c + 1;
                    }
                },
            }
            r = r + 1;
        }
        g
    }
}

} // verus!
