use vstd::prelude::*;
use crate::cell::Cell;
use crate::laws::givens_consistent;
use crate::minimal::lemma_pruned_minimal;
use crate::random::shuffle;
use crate::rules::cells_of_kind;
use crate::sudoku::{cells_ok, Sudoku};
use crate::unique::unique_by_search;

verus! {

/// The flat indices of the givens, in rising order.
pub open spec fn given_indices(cells: Seq<Cell>) -> Seq<usize>
    decreases cells.len(),
{
    if cells.len() == 0 {
        Seq::empty()
    } else {
        let rest = given_indices(cells.drop_last());
        if cells.last() is Fixed {
            rest.push((cells.len() - 1) as usize)
        } else {
            rest
        }
    }
}

/// The number of givens.
pub open spec fn given_count(cells: Seq<Cell>) -> nat {
    cells_of_kind(cells, true).len()
}

/// The given at `idx` can be taken out: the grid still passes the
/// uniqueness check with that cell turned into an empty slot.
pub open spec fn removable(cells: Seq<Cell>, rows: int, cols: int, idx: int) -> bool {
    &&& 0 <= idx < cells.len()
    &&& cells[idx] is Fixed
    &&& unique_by_search(cells.update(idx, Cell::Variable(0)), rows, cols)
}

/// No given can be taken out.
pub open spec fn is_minimal(cells: Seq<Cell>, rows: int, cols: int) -> bool {
    forall|idx: int| !#[trigger] removable(cells, rows, cols, idx)
}

/// The cells after pruning in the given order: each index in turn names a
/// given that is taken out if it can be, until `budget` givens are gone.
pub open spec fn pruned(
    cells: Seq<Cell>,
    rows: int,
    cols: int,
    order: Seq<usize>,
    budget: nat,
) -> Seq<Cell>
    decreases order.len(),
{
    if order.len() == 0 {
        cells
    } else if budget > 0 && removable(cells, rows, cols, order[0] as int) {
        pruned(
            cells.update(order[0] as int, Cell::Variable(0)),
            rows,
            cols,
            order.drop_first(),
            (budget - 1) as nat,
        )
    } else {
        pruned(cells, rows, cols, order.drop_first(), budget)
    }
}

/// Turning a given into a slot takes one from the number of givens.
pub proof fn lemma_given_count_update(cells: Seq<Cell>, idx: int, slot: Cell)
    requires
        0 <= idx < cells.len(),
        cells[idx] is Fixed,
        slot is Variable,
    ensures
        given_count(cells.update(idx, slot)) + 1 == given_count(cells),
    decreases cells.len(),
{
    let after = cells.update(idx, slot);
    if idx == cells.len() - 1 {
        assert(after.drop_last() =~= cells.drop_last());
    } else {
        assert(after.drop_last() =~= cells.drop_last().update(idx, slot));
        lemma_given_count_update(cells.drop_last(), idx, slot);
    }
}

/// What pruning keeps and what it changes, whatever the order: the shape
/// and the fit of the cells stay; a grid that passed the uniqueness check
/// still passes; a cell is as it was or is a given that became an empty
/// slot; at most `budget` givens are gone; a minimal grid is left as it is.
pub proof fn lemma_pruned(cells: Seq<Cell>, rows: int, cols: int, order: Seq<usize>, budget: nat)
    ensures
        pruned(cells, rows, cols, order, budget).len() == cells.len(),
        cells_ok(cells, rows * cols) ==> cells_ok(
            pruned(cells, rows, cols, order, budget),
            rows * cols,
        ),
        unique_by_search(cells, rows, cols) ==> unique_by_search(
            pruned(cells, rows, cols, order, budget),
            rows,
            cols,
        ),
        forall|i: int|
            0 <= i < cells.len() ==> #[trigger] pruned(cells, rows, cols, order, budget)[i]
                == cells[i] || (cells[i] is Fixed && pruned(cells, rows, cols, order, budget)[i]
                == Cell::Variable(0)),
        given_count(pruned(cells, rows, cols, order, budget)) <= given_count(cells) <= given_count(
            pruned(cells, rows, cols, order, budget),
        ) + budget,
        is_minimal(cells, rows, cols) ==> pruned(cells, rows, cols, order, budget) == cells,
    decreases order.len(),
{
    if order.len() == 0 {
    } else if budget > 0 && removable(cells, rows, cols, order[0] as int) {
        let idx = order[0] as int;
        let next = cells.update(idx, Cell::Variable(0));
        lemma_pruned(next, rows, cols, order.drop_first(), (budget - 1) as nat);
        lemma_given_count_update(cells, idx, Cell::Variable(0));
        let r = pruned(cells, rows, cols, order, budget);
        if cells_ok(cells, rows * cols) {
            assert forall|i: int| 0 <= i < next.len() implies crate::sudoku::cell_ok(
                #[trigger] next[i],
                rows * cols,
            ) by {
                if i != idx {
                    assert(crate::sudoku::cell_ok(cells[i], rows * cols));
                }
            }
        }
        assert forall|i: int| 0 <= i < cells.len() implies #[trigger] r[i] == cells[i] || (
        cells[i] is Fixed && r[i] == Cell::Variable(0)) by {
            assert(r[i] == next[i] || (next[i] is Fixed && r[i] == Cell::Variable(0)));
        }
    } else {
        lemma_pruned(cells, rows, cols, order.drop_first(), budget);
    }
}

/// The listed indices are those of givens, and none lies outside the grid.
pub proof fn lemma_given_indices(cells: Seq<Cell>)
    requires
        cells.len() <= usize::MAX,
    ensures
        forall|k: int|
            0 <= k < given_indices(cells).len() ==> (#[trigger] given_indices(cells)[k])
                < cells.len() && cells[given_indices(cells)[k] as int] is Fixed,
    decreases cells.len(),
{
    if cells.len() > 0 {
        let front = cells.drop_last();
        lemma_given_indices(front);
        assert forall|k: int| 0 <= k < given_indices(cells).len() implies (
        #[trigger] given_indices(cells)[k]) < cells.len() && cells[given_indices(
            cells,
        )[k] as int] is Fixed by {
            if k < given_indices(front).len() {
                assert(given_indices(cells)[k] == given_indices(front)[k]);
                assert(front[given_indices(front)[k] as int] == cells[given_indices(
                    front,
                )[k] as int]);
            }
        }
    }
}

impl Sudoku {
    /// The flat indices of the givens, in rising order.
    pub fn fixed_indices(&self) -> (indices: Vec<usize>)
        ensures
            indices@ == given_indices(self@),
    {
        let n: usize = self.cell_count();
        let mut indices: Vec<usize> = Vec::new();
        let mut i: usize = 0;
        while i < n
            invariant
                i <= n,
                n == self@.len(),
                indices@ == given_indices(self@.take(i as int)),
            decreases n - i,
        {
            assert(self@.take(i + 1).drop_last() == self@.take(i as int));
            if self.at(i).is_fixed() {
                indices.push(i);
            }
            i += 1;
        }
        assert(self@.take(i as int) == self@);
        indices
    }

    /// Prunes in a given order.  The indices of `order` are taken in turn;
    /// while fewer than `num_to_remove` givens are gone, the given at the
    /// index is turned into an empty slot, and turned back if the grid no
    /// longer passes the uniqueness check.  An index that names no given is
    /// passed over.
    pub fn prune_in_order(&mut self, order: &Vec<usize>, num_to_remove: usize) -> (ret: &mut Self)
        requires
            old(self).wf(),
            forall|k: int| 0 <= k < order@.len() ==> (#[trigger] order@[k]) < old(self)@.len(),
        ensures
            ret.wf(),
            ret.same_shape(old(self)),
            ret@ == pruned(
                old(self)@,
                old(self).rows(),
                old(self).cols(),
                order@,
                num_to_remove as nat,
            ),
            *final(self) == *final(ret),
    {
        let ghost rows = self.rows();
        let ghost cols = self.cols();
        let mut num_removed: usize = 0;
        let mut k: usize = 0;
        assert(order@.skip(0) == order@);
        while k < order.len()
            invariant
                k <= order@.len(),
                num_removed <= num_to_remove,
                self.wf(),
                self.same_shape(old(self)),
                rows == self.rows(),
                cols == self.cols(),
                forall|m: int| 0 <= m < order@.len() ==> (#[trigger] order@[m]) < self@.len(),
                pruned(old(self)@, rows, cols, order@, num_to_remove as nat) == pruned(
                    self@,
                    rows,
                    cols,
                    order@.skip(k as int),
                    (num_to_remove - num_removed) as nat,
                ),
            decreases order@.len() - k,
        {
            let index: usize = order[k];
            let ghost before = self@;
            proof {
                assert(order@.skip(k as int).drop_first() == order@.skip(k + 1));
                assert(order@.skip(k as int)[0] == index);
            }
            if num_removed < num_to_remove {
                let cell = self.at(index);
                if cell.is_fixed() {
                    let num: u8 = cell.read();
                    self.put(index, Cell::Variable(0));
                    if self.has_unique_solution() {
                        num_removed += 1;
                    } else {
                        self.put(index, Cell::Fixed(num));
                        assert(self@ =~= before);
                    }
                }
            }
            k += 1;
        }
        self
    }

    /// Takes givens out of a grid that passes the uniqueness check, in a
    /// random order, as long as the grid still passes and fewer than
    /// `num_to_remove` are gone.
    pub fn prune(&mut self, num_to_remove: usize) -> (ret: &mut Self)
        requires
            old(self).wf(),
            unique_by_search(old(self)@, old(self).rows(), old(self).cols()),
        ensures
            ret.wf(),
            ret.same_shape(old(self)),
            exists|order: Seq<usize>|
                order.to_multiset() == given_indices(old(self)@).to_multiset() && ret@
                    == #[trigger] pruned(
                    old(self)@,
                    old(self).rows(),
                    old(self).cols(),
                    order,
                    num_to_remove as nat,
                ),
            unique_by_search(ret@, ret.rows(), ret.cols()),
            forall|i: int|
                0 <= i < ret@.len() ==> #[trigger] ret@[i] == old(self)@[i] || (
                old(self)@[i] is Fixed && ret@[i] == Cell::Variable(0)),
            given_count(ret@) <= given_count(old(self)@) <= given_count(ret@) + num_to_remove,
            is_minimal(old(self)@, old(self).rows(), old(self).cols()) ==> ret@ == old(self)@,
            givens_consistent(old(self)@, old(self).rows(), old(self).cols()) && given_count(
                old(self)@,
            ) < given_count(ret@) + num_to_remove ==> is_minimal(ret@, ret.rows(), ret.cols()),
            *final(self) == *final(ret),
    {
        let mut indices = self.fixed_indices();
        let mut rng = rand::thread_rng();
        shuffle(&mut indices, &mut rng);
        proof {
            assert(self@.len() <= 255 * 255) by (nonlinear_arith)
                requires
                    self@.len() == (self.rows() * self.cols()) * (self.rows() * self.cols()),
                    0 <= self.rows() * self.cols() <= 255,
            ;
            lemma_given_indices(self@);
            let sorted = given_indices(self@);
            sorted.to_multiset_ensures();
            indices@.to_multiset_ensures();
            assert forall|k: int| 0 <= k < indices@.len() implies (#[trigger] indices@[k])
                < self@.len() by {
                let x = indices@[k];
                assert(indices@.contains(x));
                assert(indices@.to_multiset().count(x) > 0);
                assert(sorted.to_multiset().count(x) > 0);
                assert(sorted.contains(x));
                let m = choose|m: int| 0 <= m < sorted.len() && sorted[m] == indices@[k];
                assert(sorted[m] < self@.len());
            }
            lemma_pruned(self@, self.rows(), self.cols(), indices@, num_to_remove as nat);
            let pruned_cells = pruned(
                self@,
                self.rows(),
                self.cols(),
                indices@,
                num_to_remove as nat,
            );
            if givens_consistent(self@, self.rows(), self.cols()) && given_count(self@)
                < given_count(pruned_cells) + num_to_remove {
                lemma_pruned_minimal(
                    self@,
                    self.rows(),
                    self.cols(),
                    indices@,
                    num_to_remove as nat,
                );
            }
        }
        self.prune_in_order(&indices, num_to_remove)
    }
}

} // verus!
