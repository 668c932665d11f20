use vstd::prelude::*;
use crate::arith::lemma_compose_bound;
use crate::cell::Cell;
use crate::laws::{
    givens_consistent, lemma_all_given, lemma_fewer_givens_consistent, lemma_solved_consistent,
    lemma_solved_groups, lemma_unique_means_one,
};
use crate::pattern::lemma_empty_grid_solvable;
use crate::prune::{given_count, given_indices, is_minimal, pruned};
use crate::random::shuffle;
use crate::rules::{
    cell_valid, group_indices, lemma_valid_iff_no_conflict, no_conflict, occurrences, peers, pick,
    values_of, Group,
};

use crate::solution::{is_solution, solvable};
use crate::solve::frozen_cells;
use crate::sudoku::Sudoku;
use crate::unique::{exactly_one_solution, no_slots, unique_by_search};

verus! {

/// The digit may go into the slot at `idx`: there it is in order, and the
/// grid, with that digit and all others it holds taken as givens, can
/// still be completed.
pub open spec fn accepts(cells: Seq<Cell>, rows: int, cols: int, idx: int, digit: u8) -> bool {
    let placed = cells.update(idx, Cell::Variable(digit));
    cell_valid(values_of(placed), rows, cols, idx) && solvable(frozen_cells(placed), rows, cols)
}

/// A grid filled up to, and not including, cell `m`: every cell is a slot;
/// the slots before `m` hold digits that meet no equal digit; the others
/// are empty; and the grid can be completed.
pub open spec fn filled_to(cells: Seq<Cell>, rows: int, cols: int, m: int) -> bool {
    &&& forall|i: int| 0 <= i < cells.len() ==> (#[trigger] cells[i]) is Variable
    &&& forall|i: int|
        0 <= i < m && i < cells.len() ==> 1 <= (#[trigger] cells[i]).value() <= rows * cols
            && no_conflict(values_of(cells), rows, cols, i)
    &&& forall|i: int| m <= i < cells.len() ==> (#[trigger] cells[i]).value() == 0
    &&& solvable(frozen_cells(cells), rows, cols)
}

/// A solved grid whose cells are all slots: every cell holds a digit from
/// 1 to the side that none of its peers holds.
pub open spec fn is_solved(cells: Seq<Cell>, rows: int, cols: int) -> bool {
    forall|i: int|
        0 <= i < cells.len() ==> (#[trigger] cells[i]) is Variable && 1 <= cells[i].value() <= rows
            * cols && no_conflict(values_of(cells), rows, cols, i)
}

/// The digits from 1 to `side`, in rising order.
pub open spec fn all_digits(side: int) -> Seq<u8> {
    Seq::new(side as nat, |k: int| (k + 1) as u8)
}

/// In a grid filled up to cell `m`, the digit that a completion puts into
/// cell `m` is accepted there.
proof fn lemma_completion_accepted(cells: Seq<Cell>, rows: int, cols: int, m: int, g: Seq<u8>)
    requires
        1 <= rows,
        1 <= cols,
        rows * cols <= 255,
        cells.len() == (rows * cols) * (rows * cols),
        0 <= m < cells.len(),
        filled_to(cells, rows, cols, m),
        is_solution(frozen_cells(cells), rows, cols, g),
    ensures
        1 <= g[m] <= rows * cols,
        accepts(cells, rows, cols, m, g[m]),
{
    let frozen = frozen_cells(cells);
    let d = g[m];
    let placed = cells.update(m, Cell::Variable(d));
    let vals = values_of(placed);
    assert(frozen[m] is Variable) by {
        assert(cells[m].value() == 0);
    }
    assert(1 <= g[m] <= rows * cols);
    assert(no_conflict(g, rows, cols, m));
    assert forall|j: int| 0 <= j < vals.len() && #[trigger] peers(rows, cols, m, j) implies vals[j]
        != vals[m] by {
        if j < m {
            assert(1 <= cells[j].value());
            assert(frozen[j] is Fixed);
            assert(g[j] == frozen[j].value());
        } else {
            assert(cells[j].value() == 0);
        }
    }
    lemma_valid_iff_no_conflict(vals, rows, cols, m);
    assert(is_solution(frozen_cells(placed), rows, cols, g)) by {
        let f2 = frozen_cells(placed);
        assert forall|i: int| 0 <= i < f2.len() && f2[i] is Fixed implies #[trigger] g[i]
            == f2[i].value() by {
            if i != m {
                assert(f2[i] == frozen[i]);
            }
        }
        assert forall|i: int| 0 <= i < f2.len() && f2[i] is Variable implies 1 <= #[trigger] g[i]
            <= rows * cols && no_conflict(g, rows, cols, i) by {
            assert(i != m);
            assert(f2[i] == frozen[i]);
        }
    }
}

/// Putting an accepted digit into cell `m` fills the grid up to `m + 1`.
proof fn lemma_filled_step(cells: Seq<Cell>, rows: int, cols: int, m: int, d: u8)
    requires
        1 <= rows,
        1 <= cols,
        rows * cols <= 255,
        cells.len() == (rows * cols) * (rows * cols),
        0 <= m < cells.len(),
        filled_to(cells, rows, cols, m),
        1 <= d <= rows * cols,
        accepts(cells, rows, cols, m, d),
    ensures
        filled_to(cells.update(m, Cell::Variable(d)), rows, cols, m + 1),
{
    let placed = cells.update(m, Cell::Variable(d));
    let before = values_of(cells);
    let vals = values_of(placed);
    lemma_valid_iff_no_conflict(vals, rows, cols, m);
    assert(no_conflict(vals, rows, cols, m));
    assert forall|i: int| 0 <= i < m + 1 && i < placed.len() implies 1 <= (
    #[trigger] placed[i]).value() <= rows * cols && no_conflict(vals, rows, cols, i) by {
        if i < m {
            assert(placed[i] == cells[i]);
            assert(no_conflict(before, rows, cols, i));
            assert forall|j: int| 0 <= j < vals.len() && #[trigger] peers(
                rows,
                cols,
                i,
                j,
            ) implies vals[j] != vals[i] by {
                if j == m {
                    assert(peers(rows, cols, m, i));
                } else {
                    assert(vals[j] == before[j]);
                }
            }
        }
    }
    assert forall|i: int| m + 1 <= i < placed.len() implies (#[trigger] placed[i]).value()
        == 0 by {
        assert(placed[i] == cells[i]);
    }
    assert forall|i: int| 0 <= i < placed.len() implies (#[trigger] placed[i]) is Variable by {
        if i != m {
            assert(placed[i] == cells[i]);
        }
    }
}

/// A vector that holds the digits from 1 to the side, in any order, holds
/// the digit `d`.
proof fn lemma_candidate_present(candidates: Seq<u8>, side: int, d: u8) -> (k: int)
    requires
        0 <= side <= 255,
        1 <= d <= side,
        candidates.to_multiset() == all_digits(side).to_multiset(),
    ensures
        0 <= k < candidates.len(),
        candidates[k] == d,
{
    let digits = all_digits(side);
    assert(digits[d - 1] == d);
    assert(digits.contains(d));
    digits.to_multiset_ensures();
    candidates.to_multiset_ensures();
    assert(digits.to_multiset().count(d) > 0);
    assert(candidates.to_multiset().count(d) > 0);
    assert(candidates.contains(d));
    choose|k: int| 0 <= k < candidates.len() && candidates[k] == d
}

/// A vector that holds the digits from 1 to the side, in any order, holds
/// nothing else.
proof fn lemma_candidates_in_range(candidates: Seq<u8>, side: int)
    requires
        0 <= side <= 255,
        candidates.to_multiset() == all_digits(side).to_multiset(),
    ensures
        forall|k: int| 0 <= k < candidates.len() ==> 1 <= #[trigger] candidates[k] <= side,
{
    let digits = all_digits(side);
    digits.to_multiset_ensures();
    candidates.to_multiset_ensures();
    assert forall|k: int| 0 <= k < candidates.len() implies 1 <= #[trigger] candidates[k]
        <= side by {
        let x = candidates[k];
        assert(candidates.contains(x));
        assert(candidates.to_multiset().count(x) > 0);
        assert(digits.to_multiset().count(x) > 0);
        assert(digits.contains(x));
        let m = choose|m: int| 0 <= m < digits.len() && digits[m] == x;
    }
}

/// Candidate `k` is accepted in the slot at `idx`, and none before it is.
pub open spec fn is_first_accepted(
    cells: Seq<Cell>,
    rows: int,
    cols: int,
    idx: int,
    candidates: Seq<u8>,
    k: int,
) -> bool {
    &&& 0 <= k < candidates.len()
    &&& accepts(cells, rows, cols, idx, candidates[k])
    &&& forall|m: int| 0 <= m < k ==> !#[trigger] accepts(cells, rows, cols, idx, candidates[m])
}

/// Some candidate is accepted in the slot at `idx`.
pub open spec fn has_accepted(
    cells: Seq<Cell>,
    rows: int,
    cols: int,
    idx: int,
    candidates: Seq<u8>,
) -> bool {
    exists|k: int| is_first_accepted(cells, rows, cols, idx, candidates, k)
}

/// The grid after the slot at `idx` was given the first candidate that is
/// accepted there, or was emptied because none is.
pub open spec fn placed_at(
    cells: Seq<Cell>,
    rows: int,
    cols: int,
    idx: int,
    candidates: Seq<u8>,
) -> Seq<Cell> {
    if has_accepted(cells, rows, cols, idx, candidates) {
        let k = choose|k: int| is_first_accepted(cells, rows, cols, idx, candidates, k);
        cells.update(idx, Cell::Variable(candidates[k]))
    } else {
        cells.update(idx, Cell::Variable(0))
    }
}

/// The grid after the first `upto` slots of a row were filled from the
/// left, each with the first candidate accepted there.
pub open spec fn row_filled(
    cells: Seq<Cell>,
    rows: int,
    cols: int,
    row: int,
    candidates: Seq<u8>,
    upto: nat,
) -> Seq<Cell>
    decreases upto,
{
    if upto == 0 {
        cells
    } else {
        placed_at(
            row_filled(cells, rows, cols, row, candidates, (upto - 1) as nat),
            rows,
            cols,
            row * (rows * cols) + upto - 1,
            candidates,
        )
    }
}

/// Every one of the first `upto` slots of a row found a candidate while
/// the row was filled from the left.
pub open spec fn row_fits(
    cells: Seq<Cell>,
    rows: int,
    cols: int,
    row: int,
    candidates: Seq<u8>,
    upto: nat,
) -> bool
    decreases upto,
{
    if upto == 0 {
        true
    } else {
        row_fits(cells, rows, cols, row, candidates, (upto - 1) as nat) && has_accepted(
            row_filled(cells, rows, cols, row, candidates, (upto - 1) as nat),
            rows,
            cols,
            row * (rows * cols) + upto - 1,
            candidates,
        )
    }
}

/// The grid after the first `upto` rows were filled from the top, row `i`
/// with the candidates in the order `orders[i]`.
pub open spec fn rows_filled(
    cells: Seq<Cell>,
    rows: int,
    cols: int,
    orders: Seq<Seq<u8>>,
    upto: nat,
) -> Seq<Cell>
    decreases upto,
{
    if upto == 0 {
        cells
    } else {
        row_filled(
            rows_filled(cells, rows, cols, orders, (upto - 1) as nat),
            rows,
            cols,
            upto - 1,
            orders[upto - 1],
            (rows * cols) as nat,
        )
    }
}

/// The empty grid of `n` cells.
pub open spec fn empty_cells(n: nat) -> Seq<Cell> {
    Seq::new(n, |i: int| Cell::Variable(0))
}

/// Every order holds the digits from 1 to `side`, each once.
pub open spec fn orders_ok(orders: Seq<Seq<u8>>, side: int) -> bool {
    forall|i: int|
        0 <= i < orders.len() ==> (#[trigger] orders[i]).to_multiset() == all_digits(
            side,
        ).to_multiset()
}

/// The grid is what filling the empty grid row by row gives for some
/// orders of the digits, one order for each row.
pub open spec fn drawn_solved(cells: Seq<Cell>, rows: int, cols: int) -> bool {
    exists|orders: Seq<Seq<u8>>|
        orders.len() == rows * cols && orders_ok(orders, rows * cols) && cells
            == #[trigger] rows_filled(
            empty_cells(cells.len()),
            rows,
            cols,
            orders,
            (rows * cols) as nat,
        )
}

/// The grid is what freezing a grid drawn as above and then pruning it
/// gives, for some order of its givens and with up to `budget` taken out.
pub open spec fn drawn_puzzle(cells: Seq<Cell>, rows: int, cols: int, budget: nat) -> bool {
    exists|solved: Seq<Cell>, order: Seq<usize>|
        solved.len() == cells.len() && drawn_solved(solved, rows, cols) && order.to_multiset()
            == given_indices(frozen_cells(solved)).to_multiset() && cells == #[trigger] pruned(
            frozen_cells(solved),
            rows,
            cols,
            order,
            budget,
        )
}

/// Only one candidate is the first that is accepted.
proof fn lemma_first_accepted_unique(
    cells: Seq<Cell>,
    rows: int,
    cols: int,
    idx: int,
    candidates: Seq<u8>,
    k: int,
)
    requires
        is_first_accepted(cells, rows, cols, idx, candidates, k),
    ensures
        has_accepted(cells, rows, cols, idx, candidates),
        placed_at(cells, rows, cols, idx, candidates) == cells.update(
            idx,
            Cell::Variable(candidates[k]),
        ),
{
    let c = choose|c: int| is_first_accepted(cells, rows, cols, idx, candidates, c);
    if c < k {
        assert(!accepts(cells, rows, cols, idx, candidates[c]));
    } else if k < c {
        assert(!accepts(cells, rows, cols, idx, candidates[k]));
    }
}

/// Where a candidate is accepted, one is the first.
proof fn lemma_first_accepted_exists(
    cells: Seq<Cell>,
    rows: int,
    cols: int,
    idx: int,
    candidates: Seq<u8>,
    k: int,
)
    requires
        0 <= k < candidates.len(),
        accepts(cells, rows, cols, idx, candidates[k]),
    ensures
        has_accepted(cells, rows, cols, idx, candidates),
    decreases k,
{
    if forall|m: int| 0 <= m < k ==> !#[trigger] accepts(cells, rows, cols, idx, candidates[m]) {
        assert(is_first_accepted(cells, rows, cols, idx, candidates, k));
    } else {
        let m = choose|m: int| 0 <= m < k && #[trigger] accepts(cells, rows, cols, idx, candidates[m]);
        lemma_first_accepted_exists(cells, rows, cols, idx, candidates, m);
    }
}

/// In a grid filled up to the start of a row, filling the row with the
/// digits from 1 to the side in any order finds a candidate for every
/// slot and leaves a grid filled up to the end of that part of the row.
proof fn lemma_row_filled(
    cells: Seq<Cell>,
    rows: int,
    cols: int,
    row: int,
    candidates: Seq<u8>,
    upto: nat,
)
    requires
        1 <= rows,
        1 <= cols,
        rows * cols <= 255,
        cells.len() == (rows * cols) * (rows * cols),
        0 <= row < rows * cols,
        upto <= rows * cols,
        filled_to(cells, rows, cols, row * (rows * cols)),
        candidates.to_multiset() == all_digits(rows * cols).to_multiset(),
    ensures
        row_fits(cells, rows, cols, row, candidates, upto),
        row_filled(cells, rows, cols, row, candidates, upto).len() == cells.len(),
        filled_to(
            row_filled(cells, rows, cols, row, candidates, upto),
            rows,
            cols,
            row * (rows * cols) + upto,
        ),
    decreases upto,
{
    if upto > 0 {
        let side = rows * cols;
        lemma_row_filled(cells, rows, cols, row, candidates, (upto - 1) as nat);
        let before = row_filled(cells, rows, cols, row, candidates, (upto - 1) as nat);
        let m = row * side + upto - 1;
        lemma_compose_bound(row, upto - 1, side, side);
        assert(row * side == side * row) by (nonlinear_arith);
        lemma_candidates_in_range(candidates, side);
        let g = choose|g: Seq<u8>| is_solution(frozen_cells(before), rows, cols, g);
        lemma_completion_accepted(before, rows, cols, m, g);
        let k = lemma_candidate_present(candidates, side, g[m]);
        lemma_first_accepted_exists(before, rows, cols, m, candidates, k);
        let c = choose|c: int| is_first_accepted(before, rows, cols, m, candidates, c);
        lemma_first_accepted_unique(before, rows, cols, m, candidates, c);
        lemma_filled_step(before, rows, cols, m, candidates[c]);
    }
}

impl Sudoku {
    /// Tries the candidates in order in the slot at `(row, column)` and
    /// keeps the first that is accepted: the first that is in order there
    /// and leaves the grid completable.  Where none is accepted the slot
    /// is left empty.
    pub fn place_first(&mut self, index: (usize, usize), candidates: &Vec<u8>) -> (placed: bool)
        requires
            old(self).wf(),
            index.0 < old(self).side(),
            index.1 < old(self).side(),
            old(self)@[index.0 * old(self).side() + index.1] is Variable,
            forall|k: int| 0 <= k < candidates@.len() ==> (#[trigger] candidates@[k]) <= old(
                self,
            ).side(),
        ensures
            final(self).wf(),
            final(self).same_shape(old(self)),
            placed == has_accepted(
                old(self)@,
                old(self).rows(),
                old(self).cols(),
                index.0 * old(self).side() + index.1,
                candidates@,
            ),
            final(self)@ == placed_at(
                old(self)@,
                old(self).rows(),
                old(self).cols(),
                index.0 * old(self).side() + index.1,
                candidates@,
            ),
    {
        let ghost rows = self.rows();
        let ghost cols = self.cols();
        let ghost idx = index.0 * self.side() + index.1;
        proof {
            lemma_compose_bound(index.0 as int, index.1 as int, self.side(), self.side());
        }
        let mut k: usize = 0;
        while k < candidates.len()
            invariant
                k <= candidates@.len(),
                self.wf(),
                self.same_shape(old(self)),
                rows == self.rows(),
                cols == self.cols(),
                index.0 < self.side(),
                index.1 < self.side(),
                idx == index.0 * self.side() + index.1,
                0 <= idx < self@.len(),
                old(self)@[idx] is Variable,
                forall|m: int| 0 <= m < candidates@.len() ==> (#[trigger] candidates@[m]) <= self.side(),
                forall|i: int| 0 <= i < self@.len() && i != idx ==> self@[i] == old(self)@[i],
                self@[idx] is Variable,
                forall|m: int|
                    0 <= m < k ==> !#[trigger] accepts(old(self)@, rows, cols, idx, candidates@[m]),
            decreases candidates@.len() - k,
        {
            let number: u8 = candidates[k];
            self.set(index, number);
            proof {
                assert(self@ =~= old(self)@.update(idx, Cell::Variable(number)));
            }
            // the cheap test first
            if self.validate_cell(index) {
                // then the search for a completion
                if self.has_solution() {
                    proof {
                        assert(is_first_accepted(old(self)@, rows, cols, idx, candidates@, k as int));
                        lemma_first_accepted_unique(
                            old(self)@,
                            rows,
                            cols,
                            idx,
                            candidates@,
                            k as int,
                        );
                    }
                    return true;
                }
            }
            assert(!accepts(old(self)@, rows, cols, idx, candidates@[k as int]));
            k += 1;
        }
        self.set(index, 0);
        proof {
            assert(self@ =~= old(self)@.update(idx, Cell::Variable(0)));
            assert(!has_accepted(old(self)@, rows, cols, idx, candidates@));
        }
        false
    }

    /// Fills the slots of a row from the left, each with the first
    /// candidate that is accepted there, and says whether every slot found
    /// one.  A slot that found none is left empty.
    pub fn fill_row(&mut self, row: usize, candidates: &Vec<u8>) -> (filled: bool)
        requires
            old(self).wf(),
            row < old(self).side(),
            forall|j: int|
                0 <= j < old(self).side() ==> (#[trigger] old(self)@[row * old(self).side()
                    + j]) is Variable,
            forall|k: int| 0 <= k < candidates@.len() ==> (#[trigger] candidates@[k]) <= old(
                self,
            ).side(),
        ensures
            final(self).wf(),
            final(self).same_shape(old(self)),
            filled == row_fits(
                old(self)@,
                old(self).rows(),
                old(self).cols(),
                row as int,
                candidates@,
                old(self).side() as nat,
            ),
            final(self)@ == row_filled(
                old(self)@,
                old(self).rows(),
                old(self).cols(),
                row as int,
                candidates@,
                old(self).side() as nat,
            ),
    {
        let ghost rows = self.rows();
        let ghost cols = self.cols();
        let length: usize = self.length();
        let mut filled = true;
        let mut j: usize = 0;
        while j < length
            invariant
                j <= length,
                length == self.side(),
                self.wf(),
                self.same_shape(old(self)),
                rows == self.rows(),
                cols == self.cols(),
                row < self.side(),
                forall|k: int| 0 <= k < candidates@.len() ==> (#[trigger] candidates@[k]) <= self.side(),
                forall|m: int|
                    j <= m < length ==> (#[trigger] self@[row * length + m]) is Variable,
                filled == row_fits(old(self)@, rows, cols, row as int, candidates@, j as nat),
                self@ == row_filled(old(self)@, rows, cols, row as int, candidates@, j as nat),
            decreases length - j,
        {
            let ghost before = self@;
            proof {
                lemma_compose_bound(row as int, j as int, length as int, length as int);
                assert(self@[row * length + j] is Variable);
            }
            let placed = self.place_first((row, j), candidates);
            proof {
                assert forall|m: int| j + 1 <= m < length implies (#[trigger] self@[row * length
                    + m]) is Variable by {
                    lemma_compose_bound(row as int, m, length as int, length as int);
                    assert(before[row * length + m] is Variable);
                    lemma_placed_elsewhere(
                        before,
                        rows,
                        cols,
                        row * length + j,
                        candidates@,
                        row * length + m,
                    );
                }
            }
            filled = filled && placed;
            j += 1;
        }
        filled
    }

    /// A solved grid, drawn at random: every cell is a slot that holds a
    /// digit, and every row, column and subregion holds every digit once.
    /// The grid is filled row by row; before each row the digits are
    /// shuffled, and each slot takes the first of them that is accepted.
    pub fn generate_solved(subregion_rows: u8, subregion_columns: u8) -> (sudoku: Sudoku)
        requires
            1 <= subregion_rows,
            1 <= subregion_columns,
            subregion_rows * subregion_columns <= 255,
        ensures
            sudoku.wf(),
            sudoku.rows() == subregion_rows,
            sudoku.cols() == subregion_columns,
            is_solved(sudoku@, sudoku.rows(), sudoku.cols()),
            forall|group: Group, which: int, d: u8|
                0 <= which < sudoku.side() && 1 <= d <= sudoku.side() ==> #[trigger] occurrences(
                    pick(
                        sudoku.values(),
                        group_indices(sudoku.rows(), sudoku.cols(), group, which),
                    ),
                    d,
                ) == 1,
            drawn_solved(sudoku@, sudoku.rows(), sudoku.cols()),
    {
        let mut sudoku = Sudoku::new(subregion_rows, subregion_columns);
        let ghost rows = sudoku.rows();
        let ghost cols = sudoku.cols();
        let ghost empty = sudoku@;
        let length: usize = sudoku.length();
        // the candidates: every digit of the grid
        let mut numbers: Vec<u8> = Vec::new();
        let mut d: u8 = 0;
        while (d as usize) < length
            invariant
                d <= length <= 255,
                numbers@ == all_digits(d as int),
            decreases length - d,
        {
            d += 1;
            numbers.push(d);
            assert(numbers@ =~= all_digits(d as int));
        }
        let mut rng = rand::thread_rng();
        let ghost mut orders: Seq<Seq<u8>> = Seq::empty();
        proof {
            assert(empty =~= empty_cells(empty.len()));
            lemma_empty_grid_solvable(frozen_cells(empty), rows, cols);
        }
        let mut i: usize = 0;
        while i < length
            invariant
                i <= length,
                length == rows * cols,
                sudoku.wf(),
                rows == sudoku.rows(),
                cols == sudoku.cols(),
                rows == subregion_rows,
                cols == subregion_columns,
                empty.len() == sudoku@.len(),
                numbers@.to_multiset() == all_digits(length as int).to_multiset(),
                orders.len() == i,
                orders_ok(orders, length as int),
                sudoku@ == rows_filled(empty, rows, cols, orders, i as nat),
                filled_to(sudoku@, rows, cols, i * length),
            decreases length - i,
        {
            // a fresh order for every row
            shuffle(&mut numbers, &mut rng);
            let ghost before = sudoku@;
            let ghost earlier = orders;
            proof {
                orders = orders.push(numbers@);
                lemma_candidates_in_range(numbers@, length as int);
                lemma_row_filled(before, rows, cols, i as int, numbers@, length as nat);
                lemma_rows_filled_prefix(empty, rows, cols, earlier, orders, i as nat);
                assert forall|j: int| 0 <= j < length implies (#[trigger] before[i * length
                    + j]) is Variable by {
                    lemma_compose_bound(i as int, j, length as int, length as int);
                }
                assert(i * length + length == (i + 1) * length) by (nonlinear_arith);
            }
            let filled = sudoku.fill_row(i, &numbers);
            // an empty grid can be completed, and so can every grid on the
            // way: some digit is accepted in every slot
            assert(filled);
            i += 1;
        }
        proof {
            assert(sudoku@.len() == length * length);
            assert forall|group: Group, which: int, d: u8|
                0 <= which < sudoku.side() && 1 <= d <= sudoku.side() implies #[trigger] occurrences(
                pick(sudoku.values(), group_indices(rows, cols, group, which)),
                d,
            ) == 1 by {
                lemma_solved_groups(sudoku@, rows, cols, group, which, d);
            }
            assert(sudoku@ == rows_filled(
                empty_cells(sudoku@.len()),
                rows,
                cols,
                orders,
                (rows * cols) as nat,
            ));
        }
        sudoku
    }

    /// A puzzle, drawn at random: a solved grid is generated and frozen, and
    /// then up to `prune` givens are taken out, in a random order, while the
    /// grid still passes the uniqueness check.
    pub fn generate_unsolved(subregion_rows: u8, subregion_columns: u8, prune: usize) -> (sudoku:
        Sudoku)
        requires
            1 <= subregion_rows,
            1 <= subregion_columns,
            subregion_rows * subregion_columns <= 255,
        ensures
            sudoku.wf(),
            sudoku.rows() == subregion_rows,
            sudoku.cols() == subregion_columns,
            unique_by_search(sudoku@, sudoku.rows(), sudoku.cols()),
            exactly_one_solution(sudoku@, sudoku.rows(), sudoku.cols()),
            givens_consistent(sudoku@, sudoku.rows(), sudoku.cols()),
            forall|i: int|
                0 <= i < sudoku@.len() ==> (#[trigger] sudoku@[i]) is Fixed || sudoku@[i]
                    == Cell::Variable(0),
            sudoku@.len() <= given_count(sudoku@) + prune,
            sudoku@.len() < given_count(sudoku@) + prune ==> is_minimal(
                sudoku@,
                sudoku.rows(),
                sudoku.cols(),
            ),
            drawn_puzzle(sudoku@, sudoku.rows(), sudoku.cols(), prune as nat),
    {
        let mut sudoku = Sudoku::generate_solved(subregion_rows, subregion_columns);
        let ghost solved = sudoku@;
        let ghost rows = sudoku.rows();
        let ghost cols = sudoku.cols();
        sudoku.fix();
        let ghost frozen = sudoku@;
        proof {
            assert forall|i: int| 0 <= i < frozen.len() implies (#[trigger] frozen[i]) is Fixed by {
                assert(solved[i] is Variable && solved[i].value() >= 1);
            }
            assert(no_slots(frozen));
            lemma_all_given(frozen);
            lemma_solved_consistent(solved, rows, cols);
        }
        sudoku.prune(prune);
        proof {
            lemma_fewer_givens_consistent(sudoku@, frozen, rows, cols);
            lemma_unique_means_one(sudoku@, rows, cols);
            let order = choose|order: Seq<usize>|
                order.to_multiset() == given_indices(frozen).to_multiset() && sudoku@
                    == #[trigger] pruned(frozen, rows, cols, order, prune as nat);
            assert(sudoku@ == pruned(frozen_cells(solved), rows, cols, order, prune as nat));
        }
        sudoku
    }
}

/// Placing a candidate in one slot leaves the kind of every other cell.
proof fn lemma_placed_elsewhere(
    cells: Seq<Cell>,
    rows: int,
    cols: int,
    idx: int,
    candidates: Seq<u8>,
    other: int,
)
    requires
        0 <= idx < cells.len(),
        0 <= other < cells.len(),
        other != idx,
    ensures
        placed_at(cells, rows, cols, idx, candidates)[other] == cells[other],
{
}

/// Filling the first rows does not look at the orders of later rows.
proof fn lemma_rows_filled_prefix(
    cells: Seq<Cell>,
    rows: int,
    cols: int,
    earlier: Seq<Seq<u8>>,
    orders: Seq<Seq<u8>>,
    upto: nat,
)
    requires
        upto <= earlier.len() <= orders.len(),
        forall|i: int| 0 <= i < earlier.len() ==> earlier[i] == orders[i],
    ensures
        rows_filled(cells, rows, cols, earlier, upto) == rows_filled(cells, rows, cols, orders, upto),
    decreases upto,
{
    if upto > 0 {
        lemma_rows_filled_prefix(cells, rows, cols, earlier, orders, (upto - 1) as nat);
    }
}

} // verus!
