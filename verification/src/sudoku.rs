use vstd::prelude::*;
use crate::cell::Cell;
use crate::rules::{shape_ok, values_of};

verus! {

/// A square grid of cells, stored row by row.
#[derive(Debug)]
pub struct Sudoku {
    subregion_columns: u8,
    subregion_rows: u8,
    grid: Vec<Cell>,
}

/// A cell fits a grid of the given side: its digit is at most `side`,
/// and a given digit is never `0`.
pub open spec fn cell_ok(c: Cell, side: int) -> bool {
    c.value() <= side && (c is Fixed ==> c.value() >= 1)
}

/// Every cell fits a grid of the given side.
pub open spec fn cells_ok(cells: Seq<Cell>, side: int) -> bool {
    forall|i: int| 0 <= i < cells.len() ==> cell_ok(#[trigger] cells[i], side)
}

impl View for Sudoku {
    type V = Seq<Cell>;

    /// The cells, row by row.
    closed spec fn view(&self) -> Seq<Cell> {
        self.grid@
    }
}

impl Sudoku {
    /// The number of rows of a subregion.
    pub closed spec fn rows(&self) -> int {
        self.subregion_rows as int
    }

    /// The number of columns of a subregion.
    pub closed spec fn cols(&self) -> int {
        self.subregion_columns as int
    }

    /// The side of the grid, which is also its largest digit.
    pub open spec fn side(&self) -> int {
        self.rows() * self.cols()
    }

    /// The digits of the cells, row by row.
    pub open spec fn values(&self) -> Seq<u8> {
        values_of(self@)
    }

    /// The invariant of the type.
    pub open spec fn wf(&self) -> bool {
        &&& shape_ok(self.rows(), self.cols(), self@.len() as int)
        &&& cells_ok(self@, self.side())
    }

    /// Both grids have the same dimensions.
    pub open spec fn same_shape(&self, other: &Sudoku) -> bool {
        &&& self.rows() == other.rows()
        &&& self.cols() == other.cols()
        &&& self@.len() == other@.len()
    }

    /// An empty grid with the given subregion dimensions.
    pub fn new(subregion_rows: u8, subregion_columns: u8) -> (sudoku: Sudoku)
        requires
            1 <= subregion_rows,
            1 <= subregion_columns,
            subregion_rows * subregion_columns <= 255,
        ensures
            sudoku.wf(),
            sudoku.rows() == subregion_rows,
            sudoku.cols() == subregion_columns,
            forall|i: int| 0 <= i < sudoku@.len() ==> sudoku@[i] == Cell::Variable(0),
    {
        let length: usize = subregion_rows as usize * subregion_columns as usize;
        assert(length * length <= 255 * 255) by (nonlinear_arith)
            requires
                length <= 255,
        ;
        let area: usize = length * length;
        let mut grid: Vec<Cell> = Vec::new();
        let mut i: usize = 0;
        while i < area
            invariant
                i <= area,
                grid@.len() == i,
                forall|k: int| 0 <= k < i ==> grid@[k] == Cell::Variable(0),
            decreases area - i,
        {
            grid.push(Cell::Variable(0));
            i += 1;
        }
        Sudoku { subregion_columns, subregion_rows, grid }
    }

    /// A grid made of the given cells, if they form one: both dimensions at
    /// least 1, a side of at most 255, side times side cells, no digit above
    /// the side and no given `0`.
    pub fn from_cells(subregion_rows: u8, subregion_columns: u8, cells: Vec<Cell>) -> (made: Option<
        Sudoku,
    >)
        ensures
            made is Some <==> shape_ok(
                subregion_rows as int,
                subregion_columns as int,
                cells@.len() as int,
            ) && cells_ok(cells@, subregion_rows * subregion_columns),
            made matches Some(sudoku) ==> sudoku.wf() && sudoku.rows() == subregion_rows
                && sudoku.cols() == subregion_columns && sudoku@ == cells@,
    {
        if subregion_rows == 0 || subregion_columns == 0 {
            return None;
        }
        assert(subregion_rows * subregion_columns <= 255 * 255) by (nonlinear_arith)
            requires
                subregion_rows <= 255,
                subregion_columns <= 255,
        ;
        let length: usize = subregion_rows as usize * subregion_columns as usize;
        if length > 255 {
            return None;
        }
        assert(length * length <= 255 * 255) by (nonlinear_arith)
            requires
                length <= 255,
        ;
        if cells.len() != length * length {
            return None;
        }
        let mut i: usize = 0;
        while i < cells.len()
            invariant
                i <= cells.len(),
                length == subregion_rows * subregion_columns,
                forall|k: int| 0 <= k < i ==> cell_ok(#[trigger] cells@[k], length as int),
            decreases cells.len() - i,
        {
            let ok = match cells[i] {
                Cell::Fixed(v) => 1 <= v && v as usize <= length,
                Cell::Variable(v) => v as usize <= length,
            };
            if !ok {
                assert(!cell_ok(cells@[i as int], length as int));
                return None;
            }
            i += 1;
        }
        Some(Sudoku { subregion_columns, subregion_rows, grid: cells })
    }

    pub fn subregion_columns(&self) -> (n: usize)
        ensures
            n == self.cols(),
    {
        self.subregion_columns as usize
    }

    pub fn subregion_rows(&self) -> (n: usize)
        ensures
            n == self.rows(),
    {
        self.subregion_rows as usize
    }

    pub fn length(&self) -> (n: usize)
        requires
            self.wf(),
        ensures
            n == self.side(),
    {
        self.length_u8() as usize
    }

    pub fn length_u8(&self) -> (n: u8)
        requires
            self.wf(),
        ensures
            n == self.side(),
    {
        assert(self.subregion_columns * self.subregion_rows == self.subregion_rows
            * self.subregion_columns) by (nonlinear_arith);
        self.subregion_columns * self.subregion_rows
    }

    pub fn area(&self) -> (n: usize)
        requires
            self.wf(),
        ensures
            n == self.side() * self.side(),
            n == self@.len(),
    {
        let length: usize = self.length();
        assert(length * length <= 255 * 255) by (nonlinear_arith)
            requires
                length <= 255,
        ;
        length * length
    }

    /// The number of cells that the grid holds.
    pub fn cell_count(&self) -> (n: usize)
        ensures
            n == self@.len(),
    {
        self.grid.len()
    }

    /// The cell with flat index `idx`, counted row by row.
    pub fn at(&self, idx: usize) -> (cell: Cell)
        requires
            idx < self@.len(),
        ensures
            cell == self@[idx as int],
    {
        self.grid[idx]
    }

    /// The cell at `(row, column)`.
    pub fn get(&self, index: (usize, usize)) -> (cell: Cell)
        requires
            self.wf(),
            index.0 < self.side(),
            index.1 < self.side(),
        ensures
            cell == self@[index.0 * self.side() + index.1],
    {
        let idx: usize = self.flat_index(index);
        self.grid[idx]
    }

    /// The flat index of the cell at `(row, column)`.
    pub fn flat_index(&self, index: (usize, usize)) -> (idx: usize)
        requires
            self.wf(),
            index.0 < self.side(),
            index.1 < self.side(),
        ensures
            idx == index.0 * self.side() + index.1,
            idx < self@.len(),
    {
        let length: usize = self.length();
        proof {
            crate::arith::lemma_compose_bound(
                index.0 as int,
                index.1 as int,
                length as int,
                length as int,
            );
        }
        assert(0 <= index.0 * length && length * length <= 255 * 255) by (nonlinear_arith)
            requires
                0 <= index.0,
                0 <= length <= 255,
        ;
        index.0 * length + index.1
    }

    /// Replaces the cell with flat index `idx`.
    pub(crate) fn put(&mut self, idx: usize, cell: Cell)
        requires
            idx < old(self)@.len(),
        ensures
            final(self)@ == old(self)@.update(idx as int, cell),
            final(self).same_shape(old(self)),
    {
        self.grid.set(idx, cell);
    }

    /// Writes `value` into the cell with flat index `idx` if that cell is a
    /// slot; a given digit is left alone.
    pub fn set_at(&mut self, idx: usize, value: u8)
        requires
            old(self).wf(),
            idx < old(self)@.len(),
            value <= old(self).side(),
        ensures
            final(self).wf(),
            final(self).same_shape(old(self)),
            final(self)@ == old(self)@.update(idx as int, old(self)@[idx as int].with_value(value)),
            old(self)@[idx as int] is Fixed ==> final(self)@ == old(self)@,
    {
        let mut cell = self.grid[idx];
        cell.set(value);
        self.grid.set(idx, cell);
        assert(old(self)@[idx as int] is Fixed ==> self@ =~= old(self)@);
    }

    /// Writes `value` into the cell at `(row, column)` if that cell is a
    /// slot; a given digit is left alone.
    pub fn set(&mut self, index: (usize, usize), value: u8)
        requires
            old(self).wf(),
            index.0 < old(self).side(),
            index.1 < old(self).side(),
            value <= old(self).side(),
        ensures
            final(self).wf(),
            final(self).same_shape(old(self)),
            final(self)@ == old(self)@.update(
                index.0 * old(self).side() + index.1,
                old(self)@[index.0 * old(self).side() + index.1].with_value(value),
            ),
            old(self)@[index.0 * old(self).side() + index.1] is Fixed ==> final(self)@ == old(
                self,
            )@,
    {
        let idx: usize = self.flat_index(index);
        self.set_at(idx, value);
    }
}

impl Clone for Sudoku {
    /// A copy that shares nothing with the grid it was made from.
    fn clone(&self) -> (copy: Sudoku)
        ensures
            copy@ == self@,
            copy.rows() == self.rows(),
            copy.cols() == self.cols(),
    {
        let mut grid: Vec<Cell> = Vec::new();
        let mut i: usize = 0;
        while i < self.grid.len()
            invariant
                i <= self.grid@.len(),
                grid@ == self.grid@.take(i as int),
            decreases self.grid@.len() - i,
        {
            grid.push(self.grid[i]);
            assert(self.grid@.take(i + 1) == self.grid@.take(i as int).push(self.grid@[i as int]));
            i += 1;
        }
        assert(self.grid@.take(i as int) == self.grid@);
        Sudoku {
            subregion_columns: self.subregion_columns,
            subregion_rows: self.subregion_rows,
            grid,
        }
    }
}

impl Default for Sudoku {
    /// The empty grid of classic Sudoku: subregions of three by three.
    fn default() -> (sudoku: Sudoku)
        ensures
            sudoku.wf(),
            sudoku.rows() == 3,
            sudoku.cols() == 3,
            forall|i: int| 0 <= i < sudoku@.len() ==> sudoku@[i] == Cell::Variable(0),
    {
        Sudoku::new(3, 3)
    }
}

} // verus!
