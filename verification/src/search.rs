use vstd::prelude::*;
use crate::cell::Cell;
use crate::measure::{digits_in, lemma_number_lt, lemma_number_top, number, top};
use crate::rules::{lemma_valid_iff_no_conflict, no_conflict, peers, values_of};
use crate::solution::{
    differs_first_at, is_solution, keeps_givens, precedes, precedes_by, same_givens,
};
use crate::sudoku::Sudoku;

verus! {

/// `stack` lists the flat indices of the slots of `cells`, in rising order.
pub open spec fn is_stack(stack: Seq<usize>, cells: Seq<Cell>) -> bool {
    &&& forall|k: int|
        0 <= k < stack.len() ==> (#[trigger] stack[k]) < cells.len()
            && cells[stack[k] as int] is Variable
    &&& forall|k: int, m: int|
        0 <= k < m < stack.len() ==> (#[trigger] stack[k]) < (#[trigger] stack[m])
    &&& forall|i: int|
        0 <= i < cells.len() && (#[trigger] cells[i]) is Variable ==> exists|k: int|
            0 <= k < stack.len() && #[trigger] stack[k] == i
}

/// The cell under the cursor, or `-1` when the cursor has left the stack.
pub open spec fn cursor_cell(stack: Seq<usize>, cursor: int) -> int {
    if 0 <= cursor < stack.len() {
        stack[cursor] as int
    } else {
        -1
    }
}

/// No peer of cell `i` other than `skip` holds the digit of cell `i`.
pub open spec fn no_conflict_but(vals: Seq<u8>, rows: int, cols: int, i: int, skip: int) -> bool {
    forall|j: int|
        0 <= j < vals.len() && j != skip && #[trigger] peers(rows, cols, i, j) ==> vals[j]
            != vals[i]
}

/// A state of the search: the digits agree with the givens and stay within
/// the side; the slots before the cursor hold digits that clash with no
/// cell but, at most, the one under the cursor; the slots behind the cursor
/// are empty.
pub open spec fn search_state(
    cells: Seq<Cell>,
    vals: Seq<u8>,
    rows: int,
    cols: int,
    stack: Seq<usize>,
    cursor: int,
) -> bool {
    &&& keeps_givens(cells, vals)
    &&& forall|i: int| 0 <= i < vals.len() ==> #[trigger] vals[i] <= rows * cols
    &&& forall|k: int|
        0 <= k < cursor && k < stack.len() ==> 1 <= vals[(#[trigger] stack[k]) as int]
            && no_conflict_but(vals, rows, cols, stack[k] as int, cursor_cell(stack, cursor))
    &&& forall|k: int| cursor < k < stack.len() ==> vals[(#[trigger] stack[k]) as int] == 0
}

/// Every solution that comes after `from` (differing at `limit` or earlier)
/// also comes after `vals` (differing at `p` or earlier).
pub open spec fn bounded_below(
    cells: Seq<Cell>,
    rows: int,
    cols: int,
    from: Seq<u8>,
    limit: int,
    vals: Seq<u8>,
    p: int,
) -> bool {
    forall|g: Seq<u8>| #[trigger]
        is_solution(cells, rows, cols, g) && precedes_by(from, g, limit) ==> precedes_by(vals, g, p)
}

/// The place of a slot in the count that measures how far the search has come.
pub open spec fn digit(vals: Seq<u8>, stack: Seq<usize>, cursor: int, k: int) -> int {
    if k < cursor {
        2 * vals[stack[k] as int] - 1
    } else if k == cursor {
        2 * vals[stack[k] as int]
    } else {
        0
    }
}

/// The state of the search as a number in base `2 * side + 1`.
pub open spec fn digits(vals: Seq<u8>, stack: Seq<usize>, cursor: int) -> Seq<int> {
    Seq::new(stack.len(), |k: int| digit(vals, stack, cursor, k))
}

/// An upper bound on the steps that the search can still take.
pub open spec fn remaining(vals: Seq<u8>, stack: Seq<usize>, cursor: int, side: int) -> int {
    top(stack.len(), 2 * side + 1) - number(digits(vals, stack, cursor), 2 * side + 1)
}

proof fn lemma_digits_in(
    cells: Seq<Cell>,
    vals: Seq<u8>,
    rows: int,
    cols: int,
    stack: Seq<usize>,
    cursor: int,
)
    requires
        is_stack(stack, cells),
        search_state(cells, vals, rows, cols, stack, cursor),
        0 <= cursor <= stack.len(),
    ensures
        digits_in(digits(vals, stack, cursor), 2 * (rows * cols) + 1),
{
    let d = digits(vals, stack, cursor);
    assert forall|k: int| 0 <= k < d.len() implies 0 <= #[trigger] d[k] < 2 * (rows * cols)
        + 1 by {
        let i = stack[k] as int;
        assert(vals[i] <= rows * cols);
    }
}

/// A step that raises the first changed place of the count leaves fewer
/// steps to take.
proof fn lemma_progress(
    cells: Seq<Cell>,
    rows: int,
    cols: int,
    stack: Seq<usize>,
    vals: Seq<u8>,
    cursor: int,
    vals2: Seq<u8>,
    cursor2: int,
    k: int,
)
    requires
        rows * cols >= 0,
        is_stack(stack, cells),
        search_state(cells, vals, rows, cols, stack, cursor),
        search_state(cells, vals2, rows, cols, stack, cursor2),
        0 <= cursor <= stack.len(),
        0 <= cursor2 <= stack.len(),
        0 <= k < stack.len(),
        forall|m: int| 0 <= m < k ==> digit(vals, stack, cursor, m) == digit(vals2, stack, cursor2, m),
        digit(vals, stack, cursor, k) < digit(vals2, stack, cursor2, k),
    ensures
        0 <= remaining(vals2, stack, cursor2, rows * cols) < remaining(
            vals,
            stack,
            cursor,
            rows * cols,
        ),
{
    let base = 2 * (rows * cols) + 1;
    let d = digits(vals, stack, cursor);
    let e = digits(vals2, stack, cursor2);
    lemma_digits_in(cells, vals, rows, cols, stack, cursor);
    lemma_digits_in(cells, vals2, rows, cols, stack, cursor2);
    lemma_number_lt(d, e, base, k);
    lemma_number_top(e, base);
}

/// A slot is found in the stack.
proof fn lemma_stack_place(stack: Seq<usize>, cells: Seq<Cell>, i: int) -> (k: int)
    requires
        is_stack(stack, cells),
        0 <= i < cells.len(),
        cells[i] is Variable,
    ensures
        0 <= k < stack.len(),
        stack[k] == i,
{
    choose|k: int| 0 <= k < stack.len() && #[trigger] stack[k] == i
}

/// The state after a digit has been tried under the cursor and found to
/// clash: the cursor stays, fewer steps remain, and no solution is lost.
proof fn lemma_rejected(
    cells: Seq<Cell>,
    rows: int,
    cols: int,
    stack: Seq<usize>,
    cursor: int,
    vals: Seq<u8>,
    vals2: Seq<u8>,
    from: Seq<u8>,
    limit: int,
)
    requires
        is_stack(stack, cells),
        0 <= cursor < stack.len(),
        search_state(cells, vals, rows, cols, stack, cursor),
        vals[stack[cursor] as int] < rows * cols <= 255,
        vals2 == vals.update(stack[cursor] as int, (vals[stack[cursor] as int] + 1) as u8),
        !no_conflict(vals2, rows, cols, stack[cursor] as int),
        bounded_below(cells, rows, cols, from, limit, vals, stack[cursor] as int),
    ensures
        search_state(cells, vals2, rows, cols, stack, cursor),
        bounded_below(cells, rows, cols, from, limit, vals2, stack[cursor] as int),
        0 <= remaining(vals2, stack, cursor, rows * cols) < remaining(
            vals,
            stack,
            cursor,
            rows * cols,
        ),
{
    let p = stack[cursor] as int;
    lemma_tried(cells, rows, cols, stack, cursor, vals, vals2);
    lemma_progress(cells, rows, cols, stack, vals, cursor, vals2, cursor, cursor);
    let a = vals2[p];
    let j = choose|j: int| 0 <= j < vals2.len() && peers(rows, cols, p, j) && vals2[j] == vals2[p];
    assert forall|g: Seq<u8>| #[trigger]
        is_solution(cells, rows, cols, g) && precedes_by(from, g, limit) implies precedes_by(
        vals2,
        g,
        p,
    ) by {
        let k = choose|k: int| k <= p && differs_first_at(vals, g, k);
        if k < p {
            assert(differs_first_at(vals2, g, k));
        } else {
            assert(g[j] == a) by {
                if cells[j] is Fixed {
                    assert(g[j] == cells[j].value());
                    assert(vals[j] == cells[j].value());
                } else {
                    let m = lemma_stack_place(stack, cells, j);
                    if m < cursor {
                        assert(stack[m] < stack[cursor]);
                    } else if m > cursor {
                        assert(vals[stack[m] as int] == 0);
                    }
                }
            }
            assert(no_conflict(g, rows, cols, p)) by {
                assert(1 <= g[p]);
            }
            assert(differs_first_at(vals2, g, p));
        }
    }
}

/// Writing a digit under the cursor keeps the state of the search.
proof fn lemma_tried(
    cells: Seq<Cell>,
    rows: int,
    cols: int,
    stack: Seq<usize>,
    cursor: int,
    vals: Seq<u8>,
    vals2: Seq<u8>,
)
    requires
        is_stack(stack, cells),
        0 <= cursor < stack.len(),
        search_state(cells, vals, rows, cols, stack, cursor),
        vals2.len() == vals.len(),
        forall|i: int| 0 <= i < vals.len() && i != stack[cursor] ==> vals2[i] == vals[i],
        vals2[stack[cursor] as int] <= rows * cols,
    ensures
        search_state(cells, vals2, rows, cols, stack, cursor),
        forall|m: int| 0 <= m < cursor ==> digit(vals, stack, cursor, m) == digit(vals2, stack, cursor, m),
{
    let p = stack[cursor] as int;
    assert forall|i: int| 0 <= i < cells.len() && cells[i] is Fixed implies #[trigger] vals2[i]
        == cells[i].value() by {
        assert(vals[i] == cells[i].value());
    }
    assert forall|i: int| 0 <= i < vals2.len() implies #[trigger] vals2[i] <= rows * cols by {
        if i != p {
            assert(vals[i] <= rows * cols);
        }
    }
    assert forall|k: int| 0 <= k < cursor && k < stack.len() implies 1 <= vals2[(
    #[trigger] stack[k]) as int] && no_conflict_but(
        vals2,
        rows,
        cols,
        stack[k] as int,
        cursor_cell(stack, cursor),
    ) by {
        assert(stack[k] < stack[cursor]);
        assert(no_conflict_but(vals, rows, cols, stack[k] as int, p));
    }
    assert forall|k: int| cursor < k < stack.len() implies vals2[(#[trigger] stack[k]) as int]
        == 0 by {
        assert(stack[cursor] < stack[k]);
    }
    assert forall|m: int| 0 <= m < cursor implies digit(vals, stack, cursor, m) == digit(
        vals2,
        stack,
        cursor,
        m,
    ) by {
        assert(stack[m] < stack[cursor]);
    }
}

/// The state after a digit has been tried under the cursor and found in
/// order: the cursor moves on, fewer steps remain, and no solution is lost.
proof fn lemma_committed(
    cells: Seq<Cell>,
    rows: int,
    cols: int,
    stack: Seq<usize>,
    cursor: int,
    vals: Seq<u8>,
    vals2: Seq<u8>,
    from: Seq<u8>,
    limit: int,
)
    requires
        is_stack(stack, cells),
        0 <= cursor < stack.len(),
        search_state(cells, vals, rows, cols, stack, cursor),
        vals[stack[cursor] as int] < rows * cols <= 255,
        vals2 == vals.update(stack[cursor] as int, (vals[stack[cursor] as int] + 1) as u8),
        no_conflict(vals2, rows, cols, stack[cursor] as int),
        bounded_below(cells, rows, cols, from, limit, vals, stack[cursor] as int),
    ensures
        search_state(cells, vals2, rows, cols, stack, cursor + 1),
        0 <= remaining(vals2, stack, cursor + 1, rows * cols) < remaining(
            vals,
            stack,
            cursor,
            rows * cols,
        ),
        cursor + 1 < stack.len() ==> bounded_below(
            cells,
            rows,
            cols,
            from,
            limit,
            vals2,
            stack[cursor + 1] as int,
        ),
        cursor + 1 == stack.len() ==> is_solution(cells, rows, cols, vals2) && forall|g: Seq<u8>| #[trigger]
            is_solution(cells, rows, cols, g) && precedes_by(from, g, limit) ==> !precedes(g, vals2),
{
    let p = stack[cursor] as int;
    let a = vals2[p];
    lemma_tried(cells, rows, cols, stack, cursor, vals, vals2);
    assert(search_state(cells, vals2, rows, cols, stack, cursor + 1)) by {
        assert forall|k: int| 0 <= k < cursor + 1 && k < stack.len() implies 1 <= vals2[(
        #[trigger] stack[k]) as int] && no_conflict_but(
            vals2,
            rows,
            cols,
            stack[k] as int,
            cursor_cell(stack, cursor + 1),
        ) by {
            if k < cursor {
                let i = stack[k] as int;
                assert(stack[k] < stack[cursor]);
                assert(no_conflict_but(vals2, rows, cols, i, p));
                assert forall|j: int|
                    0 <= j < vals2.len() && j != cursor_cell(stack, cursor + 1) && #[trigger] peers(
                        rows,
                        cols,
                        i,
                        j,
                    ) implies vals2[j] != vals2[i] by {
                    if j == p {
                        assert(peers(rows, cols, p, i));
                    }
                }
            }
        }
        assert forall|k: int| cursor + 1 < k < stack.len() implies vals2[(
        #[trigger] stack[k]) as int] == 0 by {
            assert(stack[cursor] < stack[k]);
        }
    }
    assert forall|m: int| 0 <= m < cursor implies digit(vals, stack, cursor, m) == digit(
        vals2,
        stack,
        cursor + 1,
        m,
    ) by {
        assert(stack[m] < stack[cursor]);
    }
    lemma_progress(cells, rows, cols, stack, vals, cursor, vals2, cursor + 1, cursor);
    if cursor + 1 < stack.len() {
        let q = stack[cursor + 1] as int;
        assert(stack[cursor] < stack[cursor + 1]);
        assert forall|g: Seq<u8>| #[trigger]
            is_solution(cells, rows, cols, g) && precedes_by(from, g, limit) implies precedes_by(
            vals2,
            g,
            q,
        ) by {
            let k = choose|k: int| k <= p && differs_first_at(vals, g, k);
            if k < p {
                assert(differs_first_at(vals2, g, k));
            } else if g[p] > a {
                assert(differs_first_at(vals2, g, p));
            } else {
                assert(vals2[q] == 0);
                assert(1 <= g[q]);
                assert forall|i: int| 0 <= i < q implies vals2[i] == g[i] by {
                    lemma_between(cells, stack, cursor, vals2, g, i);
                }
                assert(differs_first_at(vals2, g, q));
            }
        }
    } else {
        assert forall|i: int| 0 <= i < cells.len() && cells[i] is Variable implies 1
            <= #[trigger] vals2[i] <= rows * cols && no_conflict(vals2, rows, cols, i) by {
            let k = lemma_stack_place(stack, cells, i);
            assert(no_conflict_but(vals2, rows, cols, stack[k] as int, -1));
        }
        assert forall|g: Seq<u8>| #[trigger]
            is_solution(cells, rows, cols, g) && precedes_by(from, g, limit) implies !precedes(
            g,
            vals2,
        ) by {
            let k = choose|k: int| k <= p && differs_first_at(vals, g, k);
            if precedes(g, vals2) {
                let m = choose|m: int| differs_first_at(g, vals2, m);
                if k < p {
                    if m < k {
                        assert(vals[m] == g[m]);
                    } else if m > k {
                        assert(g[k] == vals2[k]);
                    }
                } else {
                    if m < p {
                        assert(vals[m] == g[m]);
                    } else if m > p {
                        if cells[m] is Fixed {
                            assert(g[m] == cells[m].value());
                            assert(vals2[m] == cells[m].value());
                        } else {
                            let c = lemma_stack_place(stack, cells, m);
                            if c < cursor {
                                assert(stack[c] < stack[cursor]);
                            }
                        }
                    }
                }
            }
        }
    }
}

/// Fillings that keep the givens and agree on the slots up to the one
/// under the cursor agree everywhere before the next slot.
proof fn lemma_between(
    cells: Seq<Cell>,
    stack: Seq<usize>,
    cursor: int,
    v: Seq<u8>,
    g: Seq<u8>,
    i: int,
)
    requires
        is_stack(stack, cells),
        0 <= cursor,
        cursor + 1 < stack.len(),
        keeps_givens(cells, v),
        keeps_givens(cells, g),
        forall|m: int| 0 <= m <= stack[cursor] ==> v[m] == g[m],
        0 <= i < stack[cursor + 1],
    ensures
        v[i] == g[i],
{
    if i > stack[cursor] {
        if cells[i] is Fixed {
            assert(v[i] == cells[i].value());
            assert(g[i] == cells[i].value());
        } else {
            let c = lemma_stack_place(stack, cells, i);
            if c <= cursor {
                if c < cursor {
                    assert(stack[c] < stack[cursor]);
                }
            } else if c > cursor + 1 {
                assert(stack[cursor + 1] < stack[c]);
            }
        }
    }
}

/// The state after the digits under the cursor have run out: the slot is
/// emptied and the cursor steps back, or, at the first slot, no solution
/// comes after the state that the search began with.
proof fn lemma_exhausted(
    cells: Seq<Cell>,
    rows: int,
    cols: int,
    stack: Seq<usize>,
    cursor: int,
    vals: Seq<u8>,
    vals2: Seq<u8>,
    from: Seq<u8>,
    limit: int,
)
    requires
        is_stack(stack, cells),
        0 <= cursor < stack.len(),
        search_state(cells, vals, rows, cols, stack, cursor),
        vals[stack[cursor] as int] == rows * cols,
        vals2 == vals.update(stack[cursor] as int, 0u8),
        bounded_below(cells, rows, cols, from, limit, vals, stack[cursor] as int),
    ensures
        cursor > 0 ==> search_state(cells, vals2, rows, cols, stack, cursor - 1) && bounded_below(
            cells,
            rows,
            cols,
            from,
            limit,
            vals2,
            stack[cursor - 1] as int,
        ) && 0 <= remaining(vals2, stack, cursor - 1, rows * cols) < remaining(
            vals,
            stack,
            cursor,
            rows * cols,
        ),
        cursor == 0 ==> (forall|k: int| 0 <= k < stack.len() ==> vals2[(#[trigger] stack[k]) as int] == 0)
            && keeps_givens(cells, vals2) && forall|g: Seq<u8>| #[trigger]
            is_solution(cells, rows, cols, g) ==> !precedes_by(from, g, limit),
{
    let p = stack[cursor] as int;
    lemma_tried(cells, rows, cols, stack, cursor, vals, vals2);
    if cursor > 0 {
        let q = stack[cursor - 1] as int;
        assert(stack[cursor - 1] < stack[cursor]);
        assert(search_state(cells, vals2, rows, cols, stack, cursor - 1)) by {
            assert forall|k: int| 0 <= k < cursor - 1 && k < stack.len() implies 1 <= vals2[(
            #[trigger] stack[k]) as int] && no_conflict_but(
                vals2,
                rows,
                cols,
                stack[k] as int,
                cursor_cell(stack, cursor - 1),
            ) by {
                let i = stack[k] as int;
                assert(no_conflict_but(vals2, rows, cols, i, p));
            }
            assert forall|k: int| cursor - 1 < k < stack.len() implies vals2[(
            #[trigger] stack[k]) as int] == 0 by {
                if k > cursor {
                    assert(stack[cursor] < stack[k]);
                }
            }
        }
        assert forall|m: int| 0 <= m < cursor - 1 implies digit(vals, stack, cursor, m) == digit(
            vals2,
            stack,
            cursor - 1,
            m,
        ) by {
            assert(stack[m] < stack[cursor]);
        }
        assert(vals2[q] == vals[q]);
        lemma_progress(cells, rows, cols, stack, vals, cursor, vals2, cursor - 1, cursor - 1);
    } else {
        assert forall|k: int| 0 <= k < stack.len() implies vals2[(#[trigger] stack[k]) as int]
            == 0 by {
            if k > 0 {
                assert(stack[0] < stack[k]);
            }
        }
    }
    assert forall|g: Seq<u8>| #[trigger]
        is_solution(cells, rows, cols, g) && precedes_by(from, g, limit) implies cursor > 0
        && precedes_by(vals2, g, stack[cursor - 1] as int) by {
        let k = choose|k: int| k <= p && differs_first_at(vals, g, k);
        assert(g[p] <= rows * cols);
        assert(k < p);
        if cells[k] is Fixed {
            assert(g[k] == cells[k].value());
            assert(vals[k] == cells[k].value());
        } else {
            let c = lemma_stack_place(stack, cells, k);
            if c > cursor {
                assert(stack[cursor] < stack[c]);
            }
            assert(c < cursor);
            if c < cursor - 1 {
                assert(stack[c] < stack[cursor - 1]);
            }
            assert(differs_first_at(vals2, g, k));
        }
    }
}

/// The search has moved past the state it began with, or has not yet
/// touched anything up to the cell under the cursor.
pub open spec fn after_start(
    from: Seq<u8>,
    vals: Seq<u8>,
    stack: Seq<usize>,
    start: int,
    cursor: int,
) -> bool {
    precedes_by(from, vals, stack[start] as int) || (cursor <= start && forall|i: int|
        0 <= i <= stack[cursor] ==> vals[i] == from[i])
}

/// Raising the digit under the cursor puts the search past its start.
proof fn lemma_after_raise(
    stack: Seq<usize>,
    cells: Seq<Cell>,
    start: int,
    cursor: int,
    from: Seq<u8>,
    vals: Seq<u8>,
    vals2: Seq<u8>,
)
    requires
        is_stack(stack, cells),
        0 <= start < stack.len(),
        0 <= cursor < stack.len(),
        from.len() == vals.len() == cells.len(),
        after_start(from, vals, stack, start, cursor),
        vals2.len() == vals.len(),
        forall|i: int| 0 <= i < vals.len() && i != stack[cursor] ==> vals2[i] == vals[i],
        vals2[stack[cursor] as int] > vals[stack[cursor] as int],
    ensures
        precedes_by(from, vals2, stack[start] as int),
{
    let p = stack[cursor] as int;
    let limit = stack[start] as int;
    if precedes_by(from, vals, limit) {
        let k = choose|k: int| k <= limit && differs_first_at(from, vals, k);
        if k < p {
            assert(differs_first_at(from, vals2, k));
        } else if k == p {
            assert(differs_first_at(from, vals2, p));
        } else {
            assert(from[p] == vals[p]);
            assert(differs_first_at(from, vals2, p));
        }
    } else {
        if cursor < start {
            assert(stack[cursor] < stack[start]);
        }
        assert(from[p] == vals[p]);
        assert(differs_first_at(from, vals2, p));
    }
}

/// Emptying the slot under the cursor and stepping back keeps what is
/// known of the start.
proof fn lemma_after_reset(
    stack: Seq<usize>,
    cells: Seq<Cell>,
    start: int,
    cursor: int,
    from: Seq<u8>,
    vals: Seq<u8>,
    vals2: Seq<u8>,
)
    requires
        is_stack(stack, cells),
        0 <= start < stack.len(),
        0 < cursor < stack.len(),
        from.len() == vals.len() == cells.len(),
        after_start(from, vals, stack, start, cursor),
        vals2 == vals.update(stack[cursor] as int, 0u8),
    ensures
        after_start(from, vals2, stack, start, cursor - 1),
{
    let p = stack[cursor] as int;
    let limit = stack[start] as int;
    assert(stack[cursor - 1] < stack[cursor]);
    if precedes_by(from, vals, limit) {
        let k = choose|k: int| k <= limit && differs_first_at(from, vals, k);
        if k < p {
            assert(differs_first_at(from, vals2, k));
        } else {
            if cursor > start {
                assert(stack[start] < stack[cursor]);
            }
        }
    }
}

/// With the cursor at the end of the stack the digits solve the grid.
proof fn lemma_search_complete(
    cells: Seq<Cell>,
    vals: Seq<u8>,
    rows: int,
    cols: int,
    stack: Seq<usize>,
)
    requires
        is_stack(stack, cells),
        search_state(cells, vals, rows, cols, stack, stack.len() as int),
    ensures
        is_solution(cells, rows, cols, vals),
{
    assert forall|i: int| 0 <= i < cells.len() && cells[i] is Variable implies 1
        <= #[trigger] vals[i] <= rows * cols && no_conflict(vals, rows, cols, i) by {
        let k = lemma_stack_place(stack, cells, i);
        assert(no_conflict_but(vals, rows, cols, stack[k] as int, -1));
    }
}

/// Replacing the cell at `idx` replaces the digit at `idx`.
pub proof fn lemma_values_update(cells: Seq<Cell>, idx: int, cell: Cell)
    requires
        0 <= idx < cells.len(),
    ensures
        values_of(cells.update(idx, cell)) == values_of(cells).update(idx, cell.value()),
{
    assert(values_of(cells.update(idx, cell)) =~= values_of(cells).update(idx, cell.value()));
}

impl Sudoku {
    /// The flat indices of the slots, in rising order.
    pub(crate) fn make_solve_stack(&self) -> (stack: Vec<usize>)
        ensures
            is_stack(stack@, self@),
    {
        let n: usize = self.cell_count();
        let mut stack: Vec<usize> = Vec::new();
        let mut i: usize = 0;
        while i < n
            invariant
                i <= n,
                n == self@.len(),
                forall|k: int|
                    0 <= k < stack@.len() ==> (#[trigger] stack@[k]) < i
                        && self@[stack@[k] as int] is Variable,
                forall|k: int, m: int|
                    0 <= k < m < stack@.len() ==> (#[trigger] stack@[k]) < (#[trigger] stack@[m]),
                forall|j: int|
                    0 <= j < i && (#[trigger] self@[j]) is Variable ==> exists|k: int|
                        0 <= k < stack@.len() && #[trigger] stack@[k] == j,
            decreases n - i,
        {
            if !self.at(i).is_fixed() {
                let ghost before = stack@;
                stack.push(i);
                proof {
                    assert forall|j: int|
                        0 <= j < i + 1 && (#[trigger] self@[j]) is Variable implies exists|k: int|
                        0 <= k < stack@.len() && #[trigger] stack@[k] == j by {
                        if j < i {
                            let k = choose|k: int| 0 <= k < before.len() && #[trigger] before[k] == j;
                            assert(stack@[k] == j);
                        } else {
                            assert(stack@[stack@.len() - 1] == j);
                        }
                    }
                }
            }
            i += 1;
        }
        stack
    }

    /// The search itself.  With the cursor at the end of the stack there is
    /// nothing to do: the cursor is returned and nothing is written.
    /// Otherwise the search walks the slots in the order of the stack: it
    /// raises the digit under the cursor, moves on when the digit is in
    /// order, and steps back when the digits have run out.  It ends at the
    /// first solution that comes after the state it began with, and returns
    /// the length of the stack; or, when there is none, with every slot
    /// empty, and returns `0`.
    pub(crate) fn solve_inner(&mut self, stack: &Vec<usize>, start: usize) -> (end: usize)
        requires
            old(self).wf(),
            is_stack(stack@, old(self)@),
            start <= stack@.len(),
            search_state(
                old(self)@,
                old(self).values(),
                old(self).rows(),
                old(self).cols(),
                stack@,
                start as int,
            ),
        ensures
            final(self).wf(),
            final(self).same_shape(old(self)),
            same_givens(old(self)@, final(self)@),
            end == stack@.len() || end == 0,
            start == stack@.len() ==> end == start && *final(self) == *old(self),
            end == stack@.len() ==> is_solution(
                old(self)@,
                old(self).rows(),
                old(self).cols(),
                final(self).values(),
            ),
            start < stack@.len() && end == stack@.len() ==> precedes_by(
                old(self).values(),
                final(self).values(),
                stack@[start as int] as int,
            ) && forall|g: Seq<u8>| #[trigger]
                is_solution(old(self)@, old(self).rows(), old(self).cols(), g) && precedes_by(
                    old(self).values(),
                    g,
                    stack@[start as int] as int,
                ) ==> !precedes(g, final(self).values()),
            start < stack@.len() && end == 0 ==> (forall|k: int|
                0 <= k < stack@.len() ==> final(self)@[(#[trigger] stack@[k]) as int]
                    == Cell::Variable(0)) && forall|g: Seq<u8>| #[trigger]
                is_solution(old(self)@, old(self).rows(), old(self).cols(), g) ==> !precedes_by(
                    old(self).values(),
                    g,
                    stack@[start as int] as int,
                ),
    {
        if start == stack.len() {
            proof {
                lemma_search_complete(
                    old(self)@,
                    old(self).values(),
                    old(self).rows(),
                    old(self).cols(),
                    stack@,
                );
            }
            return start;
        }
        let ghost cells = old(self)@;
        let ghost rows = old(self).rows();
        let ghost cols = old(self).cols();
        let ghost from = old(self).values();
        let ghost limit = stack@[start as int] as int;
        let length: u8 = self.length_u8();
        let mut cursor: usize = start;
        while cursor < stack.len()
            invariant
                start < stack@.len(),
                limit == stack@[start as int] as int,
                from == old(self).values(),
                self.wf(),
                self.same_shape(old(self)),
                same_givens(cells, self@),
                cells == old(self)@,
                rows == self.rows(),
                cols == self.cols(),
                length == rows * cols,
                is_stack(stack@, cells),
                cursor <= stack@.len(),
                stack@.len() > 0,
                search_state(cells, self.values(), rows, cols, stack@, cursor as int),
                cursor < stack@.len() ==> after_start(
                    from,
                    self.values(),
                    stack@,
                    start as int,
                    cursor as int,
                ),
                cursor == stack@.len() ==> precedes_by(from, self.values(), limit),
                cursor < stack@.len() ==> bounded_below(
                    cells,
                    rows,
                    cols,
                    from,
                    limit,
                    self.values(),
                    stack@[cursor as int] as int,
                ),
                cursor == stack@.len() ==> is_solution(cells, rows, cols, self.values())
                    && forall|g: Seq<u8>| #[trigger]
                    is_solution(cells, rows, cols, g) && precedes_by(from, g, limit) ==> !precedes(
                        g,
                        self.values(),
                    ),
            decreases remaining(self.values(), stack@, cursor as int, rows * cols),
        {
            let idx: usize = stack[cursor];
            let value: u8 = self.at(idx).read();
            let ghost vals = self.values();
            let ghost before = self@;
            assert(vals[idx as int] == value);
            if length > value {
                self.put(idx, Cell::Variable(value + 1));
                proof {
                    lemma_values_update(before, idx as int, Cell::Variable((value + 1) as u8));
                }
                let valid = self.validate_at(idx);
                proof {
                    lemma_valid_iff_no_conflict(self.values(), rows, cols, idx as int);
                    lemma_after_raise(
                        stack@,
                        cells,
                        start as int,
                        cursor as int,
                        from,
                        vals,
                        self.values(),
                    );
                    if valid {
                        lemma_committed(
                            cells,
                            rows,
                            cols,
                            stack@,
                            cursor as int,
                            vals,
                            self.values(),
                            from,
                            limit,
                        );
                    } else {
                        lemma_rejected(
                            cells,
                            rows,
                            cols,
                            stack@,
                            cursor as int,
                            vals,
                            self.values(),
                            from,
                            limit,
                        );
                    }
                }
                if valid {
                    cursor += 1;
                }
            } else {
                self.put(idx, Cell::Variable(0));
                proof {
                    lemma_values_update(before, idx as int, Cell::Variable(0));
                    lemma_exhausted(
                        cells,
                        rows,
                        cols,
                        stack@,
                        cursor as int,
                        vals,
                        self.values(),
                        from,
                        limit,
                    );
                }
                if cursor > 0 {
                    proof {
                        lemma_after_reset(
                            stack@,
                            cells,
                            start as int,
                            cursor as int,
                            from,
                            vals,
                            self.values(),
                        );
                    }
                    cursor -= 1;
                } else {
                    proof {
                        assert forall|k: int| 0 <= k < stack@.len() implies self@[(
                        #[trigger] stack@[k]) as int] == Cell::Variable(0) by {
                            let i = stack@[k] as int;
                            assert(cells[i] is Variable);
                            assert(self.values()[i] == 0);
                        }
                    }
                    return cursor;
                }
            }
        }
        cursor
    }
}

} // verus!
