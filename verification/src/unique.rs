use vstd::prelude::*;
use crate::cell::Cell;
use crate::rules::values_of;
use crate::rules::no_conflict;
use crate::search::{cursor_cell, is_stack, lemma_values_update, no_conflict_but, search_state};
use crate::solution::{
    differs_first_at, is_least_solution, is_solution, keeps_givens, lemma_precedes_asymmetric,
    lemma_precedes_total, lemma_solution_same_givens, precedes, precedes_by, same_givens, solvable,
};
use crate::solve::{frozen_cells, lemma_empty_stack, lemma_fresh_start, lemma_no_slots};
use crate::sudoku::Sudoku;

verus! {

/// Cell `p` is the last slot of the grid.
pub open spec fn is_last_slot(cells: Seq<Cell>, p: int) -> bool {
    &&& 0 <= p < cells.len()
    &&& cells[p] is Variable
    &&& forall|i: int| p < i < cells.len() ==> (#[trigger] cells[i]) is Fixed
}

/// `g` is `s` with the digit of cell `p` raised by one.
pub open spec fn raised_at(s: Seq<u8>, g: Seq<u8>, p: int) -> bool {
    &&& g.len() == s.len()
    &&& 0 <= p < s.len()
    &&& g[p] == s[p] + 1
    &&& forall|i: int| 0 <= i < s.len() && i != p ==> g[i] == s[i]
}

/// Every solution of the grid is `s`, or `s` with the digit of the last
/// slot raised by one.
pub open spec fn solutions_within_step(cells: Seq<Cell>, rows: int, cols: int, s: Seq<u8>) -> bool {
    forall|g: Seq<u8>| #[trigger]
        is_solution(cells, rows, cols, g) ==> g == s || exists|p: int|
            is_last_slot(cells, p) && raised_at(s, g, p)
}

/// The grid has no slots.
pub open spec fn no_slots(cells: Seq<Cell>) -> bool {
    forall|i: int| 0 <= i < cells.len() ==> (#[trigger] cells[i]) is Fixed
}

/// What the two passes of the search decide.  A grid without slots passes.
/// A grid with slots passes when it has a solution and every solution is
/// that one, or that one with the digit of the last slot raised by one:
/// the second pass begins behind that neighbour and never tests it.
pub open spec fn unique_by_search(cells: Seq<Cell>, rows: int, cols: int) -> bool {
    no_slots(cells) || exists|s: Seq<u8>|
        is_solution(cells, rows, cols, s) && #[trigger] solutions_within_step(cells, rows, cols, s)
}

/// Every solution of the grid is `s`.
pub open spec fn only_solution(cells: Seq<Cell>, rows: int, cols: int, s: Seq<u8>) -> bool {
    forall|g: Seq<u8>| #[trigger] is_solution(cells, rows, cols, g) ==> g == s
}

/// The grid has one solution and no other.
pub open spec fn exactly_one_solution(cells: Seq<Cell>, rows: int, cols: int) -> bool {
    exists|s: Seq<u8>|
        is_solution(cells, rows, cols, s) && #[trigger] only_solution(cells, rows, cols, s)
}

/// No solution comes after `from` with a difference at `limit` or earlier.
pub open spec fn nothing_beyond(cells: Seq<Cell>, rows: int, cols: int, from: Seq<u8>, limit: int) -> bool {
    forall|g: Seq<u8>| #[trigger] is_solution(cells, rows, cols, g) ==> !precedes_by(from, g, limit)
}

/// The state from which the second pass begins finds exactly the solutions
/// that come after `s` and are not `s` with its last slot raised by one.
pub open spec fn second_pass_exact(
    cells: Seq<Cell>,
    rows: int,
    cols: int,
    s: Seq<u8>,
    p: int,
    from: Seq<u8>,
    limit: int,
) -> bool {
    forall|g: Seq<u8>| #[trigger]
        is_solution(cells, rows, cols, g) ==> (precedes_by(from, g, limit) <==> precedes(s, g)
            && !raised_at(s, g, p))
}

/// Two solutions first differ at a slot.
proof fn lemma_differ_at_slot(cells: Seq<Cell>, rows: int, cols: int, s: Seq<u8>, g: Seq<u8>, k: int)
    requires
        keeps_givens(cells, s),
        keeps_givens(cells, g),
        0 <= k < cells.len(),
        s[k] != g[k],
    ensures
        cells[k] is Variable,
{
    if cells[k] is Fixed {
        assert(s[k] == cells[k].value());
        assert(g[k] == cells[k].value());
    }
}

/// The last slot is the last entry of the stack.
proof fn lemma_last_slot(stack: Seq<usize>, cells: Seq<Cell>)
    requires
        is_stack(stack, cells),
        stack.len() > 0,
    ensures
        is_last_slot(cells, stack[stack.len() - 1] as int),
        forall|p: int| is_last_slot(cells, p) ==> p == stack[stack.len() - 1],
{
    let last = stack.len() - 1;
    let q = stack[last] as int;
    assert forall|i: int| q < i < cells.len() implies (#[trigger] cells[i]) is Fixed by {
        if cells[i] is Variable {
            let k = choose|k: int| 0 <= k < stack.len() && #[trigger] stack[k] == i;
            if k < last {
                assert(stack[k] < stack[last]);
            }
        }
    }
    assert forall|p: int| is_last_slot(cells, p) implies p == q by {
        if p < q {
            assert(cells[q] is Fixed);
        } else if q < p {
            assert(cells[p] is Fixed);
        }
    }
}

/// Every slot before the last one lies at or before the last but one
/// entry of the stack.
proof fn lemma_slot_before_last(stack: Seq<usize>, cells: Seq<Cell>, k: int)
    requires
        is_stack(stack, cells),
        stack.len() > 0,
        0 <= k < stack[stack.len() - 1],
        cells[k] is Variable,
    ensures
        stack.len() > 1,
        k <= stack[stack.len() - 2],
{
    let last = stack.len() - 1;
    let c = choose|c: int| 0 <= c < stack.len() && #[trigger] stack[c] == k;
    if c < last - 1 {
        assert(stack[c] < stack[last - 1]);
    }
}

/// The second pass after the last slot has been raised by one.
proof fn lemma_pass_after_raise(
    stack: Seq<usize>,
    cells: Seq<Cell>,
    rows: int,
    cols: int,
    s: Seq<u8>,
    from: Seq<u8>,
)
    requires
        is_stack(stack, cells),
        stack.len() > 0,
        is_solution(cells, rows, cols, s),
        s[stack[stack.len() - 1] as int] < 255,
        from == s.update(
            stack[stack.len() - 1] as int,
            (s[stack[stack.len() - 1] as int] + 1) as u8,
        ),
    ensures
        second_pass_exact(
            cells,
            rows,
            cols,
            s,
            stack[stack.len() - 1] as int,
            from,
            stack[stack.len() - 1] as int,
        ),
{
    let p = stack[stack.len() - 1] as int;
    lemma_last_slot(stack, cells);
    assert forall|g: Seq<u8>| #[trigger] is_solution(cells, rows, cols, g) implies (precedes_by(
        from,
        g,
        p,
    ) <==> precedes(s, g) && !raised_at(s, g, p)) by {
        if precedes_by(from, g, p) {
            let k = choose|k: int| k <= p && differs_first_at(from, g, k);
            if k < p {
                assert(differs_first_at(s, g, k));
            } else {
                assert(differs_first_at(s, g, p));
            }
        }
        if precedes(s, g) && !raised_at(s, g, p) {
            let k = choose|k: int| differs_first_at(s, g, k);
            lemma_differ_at_slot(cells, rows, cols, s, g, k);
            if k < p {
                assert(differs_first_at(from, g, k));
            } else if k == p {
                if g[p] == s[p] + 1 {
                    assert forall|i: int| 0 <= i < s.len() && i != p implies g[i] == s[i] by {
                        if i > p {
                            assert(cells[i] is Fixed);
                            assert(g[i] == cells[i].value());
                            assert(s[i] == cells[i].value());
                        }
                    }
                }
                assert(differs_first_at(from, g, p));
            } else {
                assert(cells[k] is Fixed);
            }
        }
    }
}

/// The second pass after the last slot, which held the largest digit, has
/// been emptied and the cursor has stepped back.
proof fn lemma_pass_after_reset(
    stack: Seq<usize>,
    cells: Seq<Cell>,
    rows: int,
    cols: int,
    s: Seq<u8>,
    from: Seq<u8>,
)
    requires
        is_stack(stack, cells),
        stack.len() > 1,
        is_solution(cells, rows, cols, s),
        s[stack[stack.len() - 1] as int] == rows * cols,
        from == s.update(stack[stack.len() - 1] as int, 0u8),
    ensures
        second_pass_exact(
            cells,
            rows,
            cols,
            s,
            stack[stack.len() - 1] as int,
            from,
            stack[stack.len() - 2] as int,
        ),
{
    let p = stack[stack.len() - 1] as int;
    let q = stack[stack.len() - 2] as int;
    assert(stack[stack.len() - 2] < stack[stack.len() - 1]);
    lemma_last_slot(stack, cells);
    assert forall|g: Seq<u8>| #[trigger] is_solution(cells, rows, cols, g) implies (precedes_by(
        from,
        g,
        q,
    ) <==> precedes(s, g) && !raised_at(s, g, p)) by {
        assert(g[p] <= rows * cols);
        if precedes_by(from, g, q) {
            let k = choose|k: int| k <= q && differs_first_at(from, g, k);
            assert(differs_first_at(s, g, k));
        }
        if precedes(s, g) {
            let k = choose|k: int| differs_first_at(s, g, k);
            lemma_differ_at_slot(cells, rows, cols, s, g, k);
            if k < p {
                lemma_slot_before_last(stack, cells, k);
                assert(differs_first_at(from, g, k));
            } else if k > p {
                assert(cells[k] is Fixed);
            }
        }
    }
}

/// The only slot held the largest digit: nothing comes after the first
/// solution.
proof fn lemma_pass_single_slot(stack: Seq<usize>, cells: Seq<Cell>, rows: int, cols: int, s: Seq<u8>)
    requires
        is_stack(stack, cells),
        stack.len() == 1,
        is_least_solution(cells, rows, cols, s),
        s[stack[0] as int] == rows * cols,
    ensures
        unique_by_search(cells, rows, cols),
{
    let p = stack[0] as int;
    lemma_last_slot(stack, cells);
    assert forall|g: Seq<u8>| #[trigger] is_solution(cells, rows, cols, g) implies g == s by {
        if g != s {
            lemma_precedes_total(s, g);
            assert(!precedes(g, s));
            let k = choose|k: int| differs_first_at(s, g, k);
            lemma_differ_at_slot(cells, rows, cols, s, g, k);
            let c = choose|c: int| 0 <= c < stack.len() && #[trigger] stack[c] == k;
            assert(g[p] <= rows * cols);
        }
    }
    assert(solutions_within_step(cells, rows, cols, s));
}

/// What the second pass found decides the question.
proof fn lemma_decide(
    cells: Seq<Cell>,
    rows: int,
    cols: int,
    s: Seq<u8>,
    p: int,
    from: Seq<u8>,
    limit: int,
)
    requires
        is_least_solution(cells, rows, cols, s),
        is_last_slot(cells, p),
        forall|q: int| is_last_slot(cells, q) ==> q == p,
        second_pass_exact(cells, rows, cols, s, p, from, limit),
    ensures
        unique_by_search(cells, rows, cols) <==> nothing_beyond(cells, rows, cols, from, limit),
{
    if nothing_beyond(cells, rows, cols, from, limit) {
        assert forall|g: Seq<u8>| #[trigger] is_solution(cells, rows, cols, g) implies g == s
            || exists|q: int| is_last_slot(cells, q) && raised_at(s, g, q) by {
            if g != s {
                lemma_precedes_total(s, g);
                assert(!precedes(g, s));
                assert(raised_at(s, g, p));
            }
        }
        assert(solutions_within_step(cells, rows, cols, s));
    }
    if unique_by_search(cells, rows, cols) {
        assert(!no_slots(cells));
        let t = choose|t: Seq<u8>|
            is_solution(cells, rows, cols, t) && solutions_within_step(cells, rows, cols, t);
        assert(t == s) by {
            if s != t {
                let q = choose|q: int| is_last_slot(cells, q) && raised_at(t, s, q);
                assert(differs_first_at(t, s, q));
                assert(precedes(t, s));
            }
        }
        assert forall|g: Seq<u8>| #[trigger] is_solution(cells, rows, cols, g) implies !precedes_by(
            from,
            g,
            limit,
        ) by {
            if precedes_by(from, g, limit) {
                lemma_precedes_asymmetric(s, g);
                if g != s {
                    let q = choose|q: int| is_last_slot(cells, q) && raised_at(s, g, q);
                }
            }
        }
    }
}

/// Whether a grid passes depends on its givens alone.
pub proof fn lemma_unique_same_givens(a: Seq<Cell>, b: Seq<Cell>, rows: int, cols: int)
    requires
        same_givens(a, b),
    ensures
        unique_by_search(a, rows, cols) == unique_by_search(b, rows, cols),
{
    lemma_unique_one_way(a, b, rows, cols);
    assert(same_givens(b, a)) by {
        assert forall|i: int| 0 <= i < b.len() implies ((#[trigger] b[i]) is Fixed ==> a[i] == b[i])
            && (b[i] is Variable ==> a[i] is Variable) by {
            assert(a[i] is Fixed || a[i] is Variable);
        }
    }
    lemma_unique_one_way(b, a, rows, cols);
}

proof fn lemma_unique_one_way(a: Seq<Cell>, b: Seq<Cell>, rows: int, cols: int)
    requires
        same_givens(a, b),
    ensures
        unique_by_search(a, rows, cols) ==> unique_by_search(b, rows, cols),
{
    if unique_by_search(a, rows, cols) {
        if no_slots(a) {
            assert forall|i: int| 0 <= i < b.len() implies (#[trigger] b[i]) is Fixed by {
                assert(a[i] is Fixed);
            }
        } else {
            let s = choose|s: Seq<u8>|
                is_solution(a, rows, cols, s) && solutions_within_step(a, rows, cols, s);
            lemma_solution_same_givens(a, b, rows, cols, s);
            assert forall|g: Seq<u8>| #[trigger] is_solution(b, rows, cols, g) implies g == s
                || exists|p: int| is_last_slot(b, p) && raised_at(s, g, p) by {
                lemma_solution_same_givens(a, b, rows, cols, g);
                if g != s {
                    let p = choose|p: int| is_last_slot(a, p) && raised_at(s, g, p);
                    assert forall|i: int| p < i < b.len() implies (#[trigger] b[i]) is Fixed by {
                        assert(a[i] is Fixed);
                    }
                    assert(is_last_slot(b, p));
                }
            }
            assert(solutions_within_step(b, rows, cols, s));
        }
    }
}

impl Sudoku {
    /// Whether the empty slots can be filled so that every one of them
    /// is in order, all cells that hold a digit now taken as givens.
    /// The grid itself is left alone: the search runs on a copy.
    pub fn has_solution(&self) -> (b: bool)
        requires
            self.wf(),
        ensures
            b == solvable(frozen_cells(self@), self.rows(), self.cols()),
    {
        let mut sudoku = self.clone();
        sudoku.fix();
        let stack = sudoku.make_solve_stack();
        let ghost cells = sudoku@;
        let ghost rows = self.rows();
        let ghost cols = self.cols();
        if stack.len() == 0 {
            proof {
                lemma_empty_stack(stack@, cells);
                lemma_no_slots(cells, rows, cols, values_of(cells));
            }
            return true;
        }
        proof {
            lemma_fresh_start(stack@, cells, rows, cols);
        }
        0 != sudoku.solve_inner(&stack, 0)
    }

    /// Whether the givens leave one way to fill the slots, as the two
    /// passes of the search see it: the first pass finds the first
    /// solution, the second looks for one behind it.  What the slots hold
    /// does not matter, and the grid itself is left alone.
    pub fn has_unique_solution(&self) -> (b: bool)
        requires
            self.wf(),
        ensures
            b == unique_by_search(self@, self.rows(), self.cols()),
    {
        let mut sudoku = self.clone();
        sudoku.clear();
        let stack = sudoku.make_solve_stack();
        let ghost cells = sudoku@;
        let ghost rows = self.rows();
        let ghost cols = self.cols();
        proof {
            assert(same_givens(self@, cells));
            lemma_unique_same_givens(self@, cells, rows, cols);
        }
        if stack.len() == 0 {
            proof {
                lemma_empty_stack(stack@, cells);
            }
            return true;
        }
        proof {
            lemma_fresh_start(stack@, cells, rows, cols);
        }
        let cursor: usize = sudoku.solve_inner(&stack, 0);
        proof {
            lemma_first_pass(stack@, cells, rows, cols, sudoku@, cursor as int);
        }
        if 0 == cursor {
            return false;
        }
        !sudoku.search_beyond(&stack)
    }

    /// The second pass.  The grid holds its first solution.  The digit of
    /// the last slot is raised by one and the search resumes there; where
    /// that digit was the largest, the slot is emptied and the search
    /// resumes one slot earlier.  The answer is whether the first slot
    /// holds a digit afterwards, that is, whether another solution was found.
    fn search_beyond(&mut self, stack: &Vec<usize>) -> (another: bool)
        requires
            old(self).wf(),
            is_stack(stack@, old(self)@),
            stack@.len() > 0,
            is_least_solution(
                old(self)@,
                old(self).rows(),
                old(self).cols(),
                old(self).values(),
            ),
        ensures
            another == !unique_by_search(old(self)@, old(self).rows(), old(self).cols()),
    {
        let ghost cells = self@;
        let ghost rows = self.rows();
        let ghost cols = self.cols();
        let ghost first = self.values();
        let last: usize = stack.len() - 1;
        let idx: usize = stack[last];
        let value: u8 = self.at(idx).read();
        assert(first[idx as int] == value);
        if value < self.length_u8() {
            self.put(idx, Cell::Variable(value + 1));
            proof {
                lemma_values_update(cells, idx as int, Cell::Variable((value + 1) as u8));
                lemma_changed_last(stack@, cells, self@, rows, cols);
                lemma_pass_after_raise(stack@, self@, rows, cols, first, self.values());
                lemma_last_slot(stack@, self@);
                lemma_decide(self@, rows, cols, first, idx as int, self.values(), idx as int);
                lemma_resume(stack@, self@, rows, cols, first, self.values(), last as int);
            }
            self.search_from(stack, last)
        } else {
            self.put(idx, Cell::Variable(0));
            proof {
                lemma_values_update(cells, idx as int, Cell::Variable(0));
                lemma_changed_last(stack@, cells, self@, rows, cols);
            }
            if last == 0 {
                proof {
                    lemma_pass_single_slot(stack@, self@, rows, cols, first);
                }
                false
            } else {
                proof {
                    lemma_pass_after_reset(stack@, self@, rows, cols, first, self.values());
                    lemma_last_slot(stack@, self@);
                    lemma_decide(
                        self@,
                        rows,
                        cols,
                        first,
                        idx as int,
                        self.values(),
                        stack@[last - 1] as int,
                    );
                    lemma_resume(stack@, self@, rows, cols, first, self.values(), last - 1);
                }
                self.search_from(stack, last - 1)
            }
        }
    }

    /// Resumes the search at `resume` and says whether it found a solution:
    /// whether the first slot holds a digit afterwards.
    fn search_from(&mut self, stack: &Vec<usize>, resume: usize) -> (found: bool)
        requires
            old(self).wf(),
            is_stack(stack@, old(self)@),
            resume < stack@.len(),
            search_state(
                old(self)@,
                old(self).values(),
                old(self).rows(),
                old(self).cols(),
                stack@,
                resume as int,
            ),
        ensures
            found == !nothing_beyond(
                old(self)@,
                old(self).rows(),
                old(self).cols(),
                old(self).values(),
                stack@[resume as int] as int,
            ),
    {
        let end: usize = self.solve_inner(stack, resume);
        proof {
            let p = stack@[0] as int;
            assert(old(self)@[p] is Variable);
            if end == 0 {
                assert(self@[p] == Cell::Variable(0));
            } else {
                assert(1 <= self.values()[p]);
            }
        }
        0 != self.at(stack[0]).read()
    }
}

/// What the first pass leaves: with `0` returned the grid does not pass;
/// otherwise the grid holds its first solution.
proof fn lemma_first_pass(
    stack: Seq<usize>,
    cells: Seq<Cell>,
    rows: int,
    cols: int,
    after: Seq<Cell>,
    end: int,
)
    requires
        is_stack(stack, cells),
        stack.len() > 0,
        same_givens(cells, after),
        forall|g: Seq<u8>| #[trigger]
            is_solution(cells, rows, cols, g) ==> precedes_by(values_of(cells), g, stack[0] as int),
        end == stack.len() || end == 0,
        end == stack.len() ==> is_solution(cells, rows, cols, values_of(after)) && forall|g: Seq<u8>| #[trigger]
            is_solution(cells, rows, cols, g) && precedes_by(values_of(cells), g, stack[0] as int)
                ==> !precedes(g, values_of(after)),
        end == 0 ==> forall|g: Seq<u8>| #[trigger]
            is_solution(cells, rows, cols, g) ==> !precedes_by(values_of(cells), g, stack[0] as int),
    ensures
        is_stack(stack, after),
        end == 0 ==> !unique_by_search(cells, rows, cols),
        end != 0 ==> is_least_solution(after, rows, cols, values_of(after)),
        unique_by_search(after, rows, cols) == unique_by_search(cells, rows, cols),
{
    lemma_stack_same_givens(stack, cells, after);
    lemma_unique_same_givens(cells, after, rows, cols);
    if end == 0 {
        assert(cells[stack[0] as int] is Variable);
        if unique_by_search(cells, rows, cols) {
            let s = choose|s: Seq<u8>|
                is_solution(cells, rows, cols, s) && solutions_within_step(cells, rows, cols, s);
            assert(precedes_by(values_of(cells), s, stack[0] as int));
        }
    } else {
        let first = values_of(after);
        lemma_solution_same_givens(cells, after, rows, cols, first);
        assert forall|h: Seq<u8>| #[trigger] is_solution(after, rows, cols, h) implies !precedes(
            h,
            first,
        ) by {
            lemma_solution_same_givens(cells, after, rows, cols, h);
            assert(is_solution(cells, rows, cols, h));
            assert(precedes_by(values_of(cells), h, stack[0] as int));
        }
    }
}

/// The stack of a grid is the stack of every grid with the same givens.
pub proof fn lemma_stack_same_givens(stack: Seq<usize>, a: Seq<Cell>, b: Seq<Cell>)
    requires
        is_stack(stack, a),
        same_givens(a, b),
    ensures
        is_stack(stack, b),
{
    assert forall|k: int| 0 <= k < stack.len() implies (#[trigger] stack[k]) < b.len()
        && b[stack[k] as int] is Variable by {
        assert(a[stack[k] as int] is Variable);
    }
    assert forall|i: int| 0 <= i < b.len() && (#[trigger] b[i]) is Variable implies exists|k: int|
        0 <= k < stack.len() && #[trigger] stack[k] == i by {
        assert(a[i] is Variable);
    }
}

/// Changing the digit of a slot changes neither the stack, nor which
/// fillings are solutions, nor whether the grid passes.
proof fn lemma_changed_last(stack: Seq<usize>, a: Seq<Cell>, b: Seq<Cell>, rows: int, cols: int)
    requires
        is_stack(stack, a),
        stack.len() > 0,
        is_least_solution(a, rows, cols, values_of(a)),
        b.len() == a.len(),
        b[stack[stack.len() - 1] as int] is Variable,
        forall|i: int| 0 <= i < a.len() && i != stack[stack.len() - 1] ==> b[i] == a[i],
    ensures
        same_givens(a, b),
        is_stack(stack, b),
        is_least_solution(b, rows, cols, values_of(a)),
        unique_by_search(a, rows, cols) == unique_by_search(b, rows, cols),
{
    assert(a[stack[stack.len() - 1] as int] is Variable);
    assert(same_givens(a, b));
    lemma_stack_same_givens(stack, a, b);
    lemma_unique_same_givens(a, b, rows, cols);
    lemma_solution_same_givens(a, b, rows, cols, values_of(a));
    assert forall|h: Seq<u8>| #[trigger] is_solution(b, rows, cols, h) implies !precedes(
        h,
        values_of(a),
    ) by {
        lemma_solution_same_givens(a, b, rows, cols, h);
    }
}

/// After the first solution has been found and its last slot changed, the
/// search may resume at `cursor`: at the last slot when that slot was
/// raised, one before it when that slot was emptied.
proof fn lemma_resume(
    stack: Seq<usize>,
    cells: Seq<Cell>,
    rows: int,
    cols: int,
    s: Seq<u8>,
    from: Seq<u8>,
    cursor: int,
)
    requires
        is_stack(stack, cells),
        is_solution(cells, rows, cols, s),
        0 <= cursor < stack.len(),
        stack.len() - 2 <= cursor,
        from.len() == s.len(),
        forall|i: int| 0 <= i < s.len() && i != stack[stack.len() - 1] ==> from[i] == s[i],
        from[stack[stack.len() - 1] as int] <= rows * cols,
        cursor == stack.len() - 2 ==> from[stack[stack.len() - 1] as int] == 0,
        forall|i: int| 0 <= i < cells.len() ==> (#[trigger] cells[i]).value() <= rows * cols,
    ensures
        search_state(cells, from, rows, cols, stack, cursor),
{
    let p = stack[stack.len() - 1] as int;
    assert forall|i: int| 0 <= i < cells.len() && cells[i] is Fixed implies #[trigger] from[i]
        == cells[i].value() by {
        assert(s[i] == cells[i].value());
    }
    assert forall|i: int| 0 <= i < from.len() implies #[trigger] from[i] <= rows * cols by {
        if i != p {
            if cells[i] is Variable {
                assert(s[i] <= rows * cols);
            } else {
                assert(s[i] == cells[i].value());
                assert(cells[i].value() <= rows * cols);
            }
        }
    }
    assert forall|k: int| 0 <= k < cursor && k < stack.len() implies 1 <= from[(
    #[trigger] stack[k]) as int] && no_conflict_but(
        from,
        rows,
        cols,
        stack[k] as int,
        cursor_cell(stack, cursor),
    ) by {
        let i = stack[k] as int;
        assert(stack[k] < stack[stack.len() - 1]);
        assert(cells[i] is Variable);
        assert(1 <= s[i]);
        assert(no_conflict(s, rows, cols, i));
    }
}

} // verus!
