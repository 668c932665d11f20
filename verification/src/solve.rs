use vstd::prelude::*;
use crate::cell::Cell;
use crate::rules::values_of;
use crate::search::{is_stack, search_state};
use crate::solution::{
    differs_first_at, is_least_solution, is_solution, lemma_precedes_asymmetric,
    lemma_solution_same_givens, precedes, precedes_by, same_givens, solvable,
};
use crate::sudoku::Sudoku;

verus! {

/// The cells after freezing: every filled slot has become a given.
pub open spec fn frozen_cells(cells: Seq<Cell>) -> Seq<Cell> {
    Seq::new(cells.len(), |i: int| cells[i].frozen())
}

/// The cells with every slot emptied.
pub open spec fn cleared_cells(cells: Seq<Cell>) -> Seq<Cell> {
    Seq::new(cells.len(), |i: int| cells[i].cleared())
}

impl Sudoku {
    /// Freezes the grid: every slot that holds a digit becomes a given
    /// with that digit; empty slots stay slots.  No digit changes.
    pub fn fix(&mut self) -> (ret: &mut Self)
        requires
            old(self).wf(),
        ensures
            ret.wf(),
            ret.same_shape(old(self)),
            ret@ == frozen_cells(old(self)@),
            ret.values() == old(self).values(),
            *final(self) == *final(ret),
    {
        let n: usize = self.cell_count();
        let mut i: usize = 0;
        while i < n
            invariant
                i <= n,
                n == self@.len(),
                self.wf(),
                self.same_shape(old(self)),
                forall|k: int| 0 <= k < i ==> self@[k] == old(self)@[k].frozen(),
                forall|k: int| i <= k < n ==> self@[k] == old(self)@[k],
            decreases n - i,
        {
            let num: u8 = self.at(i).read();
            if num != 0 {
                self.put(i, Cell::Fixed(num));
            }
            i += 1;
        }
        assert(self@ =~= frozen_cells(old(self)@));
        assert(self.values() =~= old(self).values());
        self
    }
}

/// A grid without slots has its own digits as its one solution.
pub proof fn lemma_no_slots(cells: Seq<Cell>, rows: int, cols: int, g: Seq<u8>)
    requires
        forall|i: int| 0 <= i < cells.len() ==> (#[trigger] cells[i]) is Fixed,
    ensures
        is_solution(cells, rows, cols, g) <==> g == values_of(cells),
{
    if is_solution(cells, rows, cols, g) {
        assert forall|i: int| 0 <= i < cells.len() implies g[i] == values_of(cells)[i] by {
            assert(cells[i] is Fixed);
        }
        assert(g =~= values_of(cells));
    }
    if g == values_of(cells) {
        assert forall|i: int| 0 <= i < cells.len() && cells[i] is Fixed implies #[trigger] g[i]
            == cells[i].value() by {}
    }
}

/// An empty stack means that the grid has no slots.
pub proof fn lemma_empty_stack(stack: Seq<usize>, cells: Seq<Cell>)
    requires
        is_stack(stack, cells),
        stack.len() == 0,
    ensures
        forall|i: int| 0 <= i < cells.len() ==> (#[trigger] cells[i]) is Fixed,
{
    assert forall|i: int| 0 <= i < cells.len() implies (#[trigger] cells[i]) is Fixed by {
        if cells[i] is Variable {
            let k = choose|k: int| 0 <= k < stack.len() && #[trigger] stack[k] == i;
        }
    }
}

/// With every slot empty the search may begin at the first slot, and every
/// solution comes after that state.
pub proof fn lemma_fresh_start(
    stack: Seq<usize>,
    cells: Seq<Cell>,
    rows: int,
    cols: int,
)
    requires
        is_stack(stack, cells),
        stack.len() > 0,
        forall|i: int| 0 <= i < cells.len() ==> (#[trigger] cells[i]).value() <= rows * cols,
        forall|i: int| 0 <= i < cells.len() && (#[trigger] cells[i]) is Variable ==> cells[i].value() == 0,
    ensures
        search_state(cells, values_of(cells), rows, cols, stack, 0),
        forall|g: Seq<u8>| #[trigger]
            is_solution(cells, rows, cols, g) ==> precedes_by(values_of(cells), g, stack[0] as int),
{
    let vals = values_of(cells);
    assert forall|i: int| 0 <= i < vals.len() implies #[trigger] vals[i] <= rows * cols by {
        assert(cells[i].value() <= rows * cols);
    }
    assert forall|k: int| 0 < k < stack.len() implies vals[(#[trigger] stack[k]) as int] == 0 by {
        assert(cells[stack[k] as int] is Variable);
    }
    let p = stack[0] as int;
    assert forall|g: Seq<u8>| #[trigger] is_solution(cells, rows, cols, g) implies precedes_by(
        vals,
        g,
        p,
    ) by {
        assert(cells[p] is Variable);
        assert(1 <= g[p]);
        assert forall|i: int| 0 <= i < p implies vals[i] == g[i] by {
            if cells[i] is Variable {
                let k = choose|k: int| 0 <= k < stack.len() && #[trigger] stack[k] == i;
                if k > 0 {
                    assert(stack[0] < stack[k]);
                }
            } else {
                assert(g[i] == cells[i].value());
            }
        }
        assert(differs_first_at(vals, g, p));
    }
}

impl Sudoku {
    /// Empties every slot; the givens stay.
    pub fn clear(&mut self) -> (ret: &mut Self)
        requires
            old(self).wf(),
        ensures
            ret.wf(),
            ret.same_shape(old(self)),
            ret@ == cleared_cells(old(self)@),
            *final(self) == *final(ret),
    {
        let n: usize = self.cell_count();
        let mut i: usize = 0;
        while i < n
            invariant
                i <= n,
                n == self@.len(),
                self.wf(),
                self.same_shape(old(self)),
                forall|k: int| 0 <= k < i ==> self@[k] == old(self)@[k].cleared(),
                forall|k: int| i <= k < n ==> self@[k] == old(self)@[k],
            decreases n - i,
        {
            self.set_at(i, 0);
            i += 1;
        }
        assert(self@ =~= cleared_cells(old(self)@));
        self
    }

    /// Solves the grid in place.  The digits in the slots are discarded and
    /// the search starts from the givens alone.  If the grid has a
    /// solution, the slots end up holding the first one in the order of
    /// the dictionary; if it has none, every slot ends up empty.
    pub fn solve(&mut self) -> (ret: &mut Self)
        requires
            old(self).wf(),
        ensures
            ret.wf(),
            ret.same_shape(old(self)),
            same_givens(old(self)@, ret@),
            solvable(old(self)@, old(self).rows(), old(self).cols()) ==> is_least_solution(
                old(self)@,
                old(self).rows(),
                old(self).cols(),
                ret.values(),
            ),
            !solvable(old(self)@, old(self).rows(), old(self).cols()) ==> ret@ == cleared_cells(
                old(self)@,
            ),
            *final(self) == *final(ret),
    {
        let ghost rows = self.rows();
        let ghost cols = self.cols();
        self.clear();
        let ghost cells = self@;
        let stack = self.make_solve_stack();
        proof {
            assert(same_givens(old(self)@, cells));
        }
        if stack.len() > 0 {
            proof {
                lemma_fresh_start(stack@, cells, rows, cols);
            }
            let end = self.solve_inner(&stack, 0);
            proof {
                if end == stack@.len() {
                    lemma_solution_same_givens(old(self)@, cells, rows, cols, self.values());
                    assert forall|h: Seq<u8>| #[trigger]
                        is_solution(old(self)@, rows, cols, h) implies !precedes(
                        h,
                        self.values(),
                    ) by {
                        lemma_solution_same_givens(old(self)@, cells, rows, cols, h);
                        assert(is_solution(cells, rows, cols, h));
                        assert(precedes_by(values_of(cells), h, stack@[0] as int));
                    }
                } else {
                    assert(self@ =~= cells) by {
                        assert forall|i: int| 0 <= i < cells.len() implies self@[i] == cells[i] by {
                            if cells[i] is Variable {
                                let k = choose|k: int|
                                    0 <= k < stack@.len() && #[trigger] stack@[k] == i;
                            }
                        }
                    }
                    if solvable(old(self)@, rows, cols) {
                        let g = choose|g: Seq<u8>| is_solution(old(self)@, rows, cols, g);
                        lemma_solution_same_givens(old(self)@, cells, rows, cols, g);
                        assert(is_solution(cells, rows, cols, g));
                        assert(precedes_by(values_of(cells), g, stack@[0] as int));
                    }
                }
            }
        } else {
            proof {
                lemma_empty_stack(stack@, cells);
                lemma_no_slots(cells, rows, cols, values_of(cells));
                lemma_solution_same_givens(old(self)@, cells, rows, cols, values_of(cells));
                assert forall|h: Seq<u8>| #[trigger]
                    is_solution(old(self)@, rows, cols, h) implies !precedes(
                    h,
                    self.values(),
                ) by {
                    lemma_solution_same_givens(old(self)@, cells, rows, cols, h);
                    lemma_no_slots(cells, rows, cols, h);
                    lemma_precedes_asymmetric(h, h);
                }
            }
        }
        self
    }
}

} // verus!
