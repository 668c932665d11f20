use vstd::prelude::*;
use crate::arith::{lemma_compose_bound, lemma_join, lemma_quotient_bound, lemma_split};
use crate::cell::Cell;
use crate::rules::{
    cell_valid, cells_of_kind, group_indices, group_member, group_of, lemma_group_member,
    lemma_pick_values, lemma_subregion_cell_parts, lemma_subregion_index_bound, occurrences,
    pick, subregion_index, values_of, Group,
};
use crate::sudoku::Sudoku;

verus! {

/// Whether `value` occurs at most once among the digits of `cells`.
pub fn is_valid_subregion(value: u8, cells: &Vec<Cell>) -> (valid: bool)
    ensures
        valid == (occurrences(values_of(cells@), value) <= 1),
{
    let mut count: usize = 0;
    let mut k: usize = 0;
    while k < cells.len()
        invariant
            k <= cells.len(),
            count == occurrences(values_of(cells@).take(k as int), value),
            count <= k,
        decreases cells.len() - k,
    {
        proof {
            let seq = values_of(cells@);
            assert(seq.take(k + 1).drop_last() == seq.take(k as int));
        }
        if cells[k].read() == value {
            count += 1;
        }
        k += 1;
    }
    assert(values_of(cells@).take(k as int) == values_of(cells@));
    count <= 1
}

impl Sudoku {
    /// The flat index of the `k`-th cell of a group.
    fn member_index(&self, group: Group, which: usize, k: usize) -> (idx: usize)
        requires
            self.wf(),
            which < self.side(),
            k < self.side(),
        ensures
            idx == group_member(self.rows(), self.cols(), group, which as int, k as int),
            idx < self@.len(),
    {
        let length: usize = self.length();
        proof {
            lemma_group_member(self.rows(), self.cols(), group, which as int, k as int);
            assert(length * length <= 255 * 255 && 0 <= which * length && 0 <= k * length)
                by (nonlinear_arith)
                requires
                    0 <= length <= 255,
                    0 <= which,
                    0 <= k,
            ;
        }
        match group {
            Group::Row => which * length + k,
            Group::Column => k * length + which,
            Group::Subregion => {
                let rows: usize = self.subregion_rows();
                let cols: usize = self.subregion_columns();
                proof {
                    lemma_subregion_cell_parts(
                        self.rows(),
                        self.cols(),
                        which as int,
                        k as int,
                    );
                }
                (rows * (which / rows) + k / cols) * length + (cols * (which % rows) + k % cols)
            },
        }
    }

    /// How often `value` occurs in a group.
    fn count_in(&self, group: Group, which: usize, value: u8) -> (count: usize)
        requires
            self.wf(),
            which < self.side(),
        ensures
            count == occurrences(
                pick(self.values(), group_indices(self.rows(), self.cols(), group, which as int)),
                value,
            ),
    {
        let length: usize = self.length();
        let ghost seq = pick(
            self.values(),
            group_indices(self.rows(), self.cols(), group, which as int),
        );
        let mut count: usize = 0;
        let mut k: usize = 0;
        while k < length
            invariant
                self.wf(),
                which < self.side(),
                length == self.side(),
                k <= length,
                seq == pick(
                    self.values(),
                    group_indices(self.rows(), self.cols(), group, which as int),
                ),
                count == occurrences(seq.take(k as int), value),
                count <= k,
            decreases length - k,
        {
            let idx: usize = self.member_index(group, which, k);
            proof {
                assert(seq.take(k + 1).drop_last() == seq.take(k as int));
                assert(seq[k as int] == self@[idx as int].value());
            }
            if self.at(idx).read() == value {
                count += 1;
            }
            k += 1;
        }
        assert(seq.take(k as int) == seq);
        count
    }

    /// The cells of a group, in order.
    fn group_cells(&self, group: Group, which: usize) -> (cells: Vec<Cell>)
        requires
            self.wf(),
            which < self.side(),
        ensures
            cells@ == pick(self@, group_indices(self.rows(), self.cols(), group, which as int)),
            values_of(cells@) == pick(
                self.values(),
                group_indices(self.rows(), self.cols(), group, which as int),
            ),
    {
        let length: usize = self.length();
        let mut cells: Vec<Cell> = Vec::new();
        let mut k: usize = 0;
        while k < length
            invariant
                self.wf(),
                which < self.side(),
                length == self.side(),
                k <= length,
                cells@.len() == k,
                forall|m: int|
                    0 <= m < k ==> cells@[m] == self@[group_member(
                        self.rows(),
                        self.cols(),
                        group,
                        which as int,
                        m,
                    )],
            decreases length - k,
        {
            let idx: usize = self.member_index(group, which, k);
            cells.push(self.at(idx));
            k += 1;
        }
        proof {
            let indices = group_indices(self.rows(), self.cols(), group, which as int);
            assert(cells@ =~= pick(self@, indices));
            assert forall|m: int| 0 <= m < indices.len() implies 0 <= #[trigger] indices[m]
                < self@.len() by {
                lemma_group_member(self.rows(), self.cols(), group, which as int, m);
            }
            lemma_pick_values(self@, indices);
        }
        cells
    }

    /// All cells, row by row.
    pub fn iter(&self) -> (cells: Vec<Cell>)
        ensures
            cells@ == self@,
    {
        let mut cells: Vec<Cell> = Vec::new();
        let mut i: usize = 0;
        while i < self.cell_count()
            invariant
                i <= self@.len(),
                cells@ == self@.take(i as int),
            decreases self@.len() - i,
        {
            cells.push(self.at(i));
            assert(self@.take(i + 1) == self@.take(i as int).push(self@[i as int]));
            i += 1;
        }
        assert(self@.take(i as int) == self@);
        cells
    }

    /// The cells of one kind, in grid order.
    fn kind_cells(&self, fixed: bool) -> (cells: Vec<Cell>)
        ensures
            cells@ == cells_of_kind(self@, fixed),
    {
        let mut cells: Vec<Cell> = Vec::new();
        let mut i: usize = 0;
        while i < self.cell_count()
            invariant
                i <= self@.len(),
                cells@ == cells_of_kind(self@.take(i as int), fixed),
            decreases self@.len() - i,
        {
            let cell = self.at(i);
            assert(self@.take(i + 1).drop_last() == self@.take(i as int));
            if cell.is_fixed() == fixed {
                cells.push(cell);
            }
            i += 1;
        }
        assert(self@.take(i as int) == self@);
        cells
    }

    /// The given digits, in grid order.
    pub fn fixeds_iter(&self) -> (cells: Vec<Cell>)
        ensures
            cells@ == cells_of_kind(self@, true),
    {
        self.kind_cells(true)
    }

    /// The slots, in grid order.
    pub fn variables_iter(&self) -> (cells: Vec<Cell>)
        ensures
            cells@ == cells_of_kind(self@, false),
    {
        self.kind_cells(false)
    }

    /// The cells of a row, from left to right.
    pub fn row(&self, row: usize) -> (cells: Vec<Cell>)
        requires
            self.wf(),
            row < self.side(),
        ensures
            cells@ == pick(self@, group_indices(self.rows(), self.cols(), Group::Row, row as int)),
            values_of(cells@) == pick(
                self.values(),
                group_indices(self.rows(), self.cols(), Group::Row, row as int),
            ),
    {
        self.group_cells(Group::Row, row)
    }

    /// The cells of a column, from top to bottom.
    pub fn column(&self, column: usize) -> (cells: Vec<Cell>)
        requires
            self.wf(),
            column < self.side(),
        ensures
            cells@ == pick(
                self@,
                group_indices(self.rows(), self.cols(), Group::Column, column as int),
            ),
            values_of(cells@) == pick(
                self.values(),
                group_indices(self.rows(), self.cols(), Group::Column, column as int),
            ),
    {
        self.group_cells(Group::Column, column)
    }

    /// The cells of a subregion, row by row.
    pub fn subregion(&self, subregion: usize) -> (cells: Vec<Cell>)
        requires
            self.wf(),
            subregion < self.side(),
        ensures
            cells@ == pick(
                self@,
                group_indices(self.rows(), self.cols(), Group::Subregion, subregion as int),
            ),
            values_of(cells@) == pick(
                self.values(),
                group_indices(self.rows(), self.cols(), Group::Subregion, subregion as int),
            ),
    {
        self.group_cells(Group::Subregion, subregion)
    }

    /// The number of the subregion that holds the cell at `(row, column)`.
    pub fn get_subregion_index(&self, index: (usize, usize)) -> (subregion: usize)
        requires
            self.wf(),
            index.0 < self.side(),
            index.1 < self.side(),
        ensures
            subregion == subregion_index(
                self.rows(),
                self.cols(),
                index.0 as int,
                index.1 as int,
            ),
            subregion < self.side(),
    {
        proof {
            lemma_subregion_index_bound(
                self.rows(),
                self.cols(),
                index.0 as int,
                index.1 as int,
            );
        }
        self.subregion_rows() * (index.0 / self.subregion_rows()) + (index.1
            / self.subregion_columns())
    }

    /// The local rule at the cell with flat index `idx`.
    pub fn validate_at(&self, idx: usize) -> (valid: bool)
        requires
            self.wf(),
            idx < self@.len(),
        ensures
            valid == cell_valid(self.values(), self.rows(), self.cols(), idx as int),
    {
        let length: usize = self.length();
        proof {
            lemma_split(idx as int, self.side());
            lemma_quotient_bound(idx as int, self.side(), self.side());
            assert((idx / length) * length == length * (idx / length)) by (nonlinear_arith);
        }
        self.validate_cell((idx / length, idx % length))
    }

    /// The local rule at `(row, column)`: the cell is empty, or its digit
    /// occurs at most once in its row, its column and its subregion.
    pub fn validate_cell(&self, index: (usize, usize)) -> (valid: bool)
        requires
            self.wf(),
            index.0 < self.side(),
            index.1 < self.side(),
        ensures
            valid == cell_valid(
                self.values(),
                self.rows(),
                self.cols(),
                index.0 * self.side() + index.1,
            ),
    {
        let value: u8 = self.get(index).read();
        let subregion: usize = self.get_subregion_index(index);
        proof {
            let side = self.side();
            let i = index.0 * side + index.1;
            lemma_join(index.0 as int, index.1 as int, side);
            lemma_compose_bound(index.0 as int, index.1 as int, side, side);
            assert(self.values()[i] == value);
            assert(group_of(self.rows(), self.cols(), Group::Row, i) == index.0);
            assert(group_of(self.rows(), self.cols(), Group::Column, i) == index.1);
            assert(group_of(self.rows(), self.cols(), Group::Subregion, i) == subregion);
        }
        0 == value || (self.count_in(Group::Row, index.0, value) <= 1 && self.count_in(
            Group::Column,
            index.1,
            value,
        ) <= 1 && self.count_in(Group::Subregion, subregion, value) <= 1)
    }
}

} // verus!
