use vstd::prelude::*;
use crate::cell::Cell;
use crate::laws::{
    givens_consistent, has_fewer_givens, lemma_fewer_givens_consistent, lemma_unique_means_one,
};
use crate::prune::{
    given_count, given_indices, is_minimal, lemma_given_count_update, lemma_pruned, pruned,
    removable,
};
use crate::rules::{no_conflict, peers, shape_ok};
use crate::solution::is_solution;
use crate::sudoku::{cell_ok, cells_ok};
use crate::unique::{exactly_one_solution, only_solution, unique_by_search};

verus! {

/// Where no two givens clash, a solution stays a solution when givens are
/// turned into slots.
pub proof fn lemma_solution_survives(a: Seq<Cell>, b: Seq<Cell>, rows: int, cols: int, g: Seq<u8>)
    requires
        cells_ok(b, rows * cols),
        givens_consistent(b, rows, cols),
        has_fewer_givens(a, b),
        is_solution(b, rows, cols, g),
    ensures
        is_solution(a, rows, cols, g),
{
    assert forall|i: int| 0 <= i < a.len() && a[i] is Fixed implies #[trigger] g[i]
        == a[i].value() by {
        assert(a[i] == b[i]);
    }
    assert forall|i: int| 0 <= i < a.len() && a[i] is Variable implies 1 <= #[trigger] g[i] <= rows
        * cols && no_conflict(g, rows, cols, i) by {
        if b[i] is Variable {
            assert(1 <= g[i] <= rows * cols && no_conflict(g, rows, cols, i));
        } else {
            assert(cell_ok(b[i], rows * cols));
            assert(g[i] == b[i].value());
            assert forall|j: int| 0 <= j < g.len() && #[trigger] peers(rows, cols, i, j) implies g[j]
                != g[i] by {
                if b[j] is Fixed {
                    assert(g[j] == b[j].value());
                } else {
                    assert(1 <= g[j]);
                    assert(no_conflict(g, rows, cols, j));
                    assert(peers(rows, cols, j, i));
                }
            }
        }
    }
}

/// Emptying a cell keeps every cell within the side.
pub proof fn lemma_emptied_fits(cells: Seq<Cell>, side: int, idx: int)
    requires
        cells_ok(cells, side),
        0 <= side,
        0 <= idx < cells.len(),
    ensures
        cells_ok(cells.update(idx, Cell::Variable(0)), side),
        has_fewer_givens(cells.update(idx, Cell::Variable(0)), cells),
{
    let next = cells.update(idx, Cell::Variable(0));
    assert forall|i: int| 0 <= i < next.len() implies cell_ok(#[trigger] next[i], side) by {
        if i != idx {
            assert(cell_ok(cells[i], side));
        }
    }
}

/// Where no two givens clash, a grid that passes the uniqueness check has
/// a solution.
proof fn lemma_unique_solution(cells: Seq<Cell>, rows: int, cols: int) -> (s: Seq<u8>)
    requires
        shape_ok(rows, cols, cells.len() as int),
        cells_ok(cells, rows * cols),
        givens_consistent(cells, rows, cols),
        unique_by_search(cells, rows, cols),
    ensures
        is_solution(cells, rows, cols, s),
{
    lemma_unique_means_one(cells, rows, cols);
    choose|s: Seq<u8>|
        is_solution(cells, rows, cols, s) && #[trigger] only_solution(cells, rows, cols, s)
}

/// Where no two givens clash, a grid with a solution that does not pass
/// the uniqueness check has another solution.
proof fn lemma_other_solution(cells: Seq<Cell>, rows: int, cols: int, s: Seq<u8>) -> (g: Seq<u8>)
    requires
        shape_ok(rows, cols, cells.len() as int),
        cells_ok(cells, rows * cols),
        givens_consistent(cells, rows, cols),
        is_solution(cells, rows, cols, s),
        !unique_by_search(cells, rows, cols),
    ensures
        is_solution(cells, rows, cols, g),
        g != s,
{
    lemma_unique_means_one(cells, rows, cols);
    assert(!only_solution(cells, rows, cols, s));
    choose|g: Seq<u8>| #[trigger] is_solution(cells, rows, cols, g) && g != s
}

/// Where no two givens clash, a grid with two solutions does not pass the
/// uniqueness check.
proof fn lemma_two_solutions(cells: Seq<Cell>, rows: int, cols: int, s: Seq<u8>, g: Seq<u8>)
    requires
        shape_ok(rows, cols, cells.len() as int),
        cells_ok(cells, rows * cols),
        givens_consistent(cells, rows, cols),
        is_solution(cells, rows, cols, s),
        is_solution(cells, rows, cols, g),
        g != s,
    ensures
        !unique_by_search(cells, rows, cols),
{
    lemma_unique_means_one(cells, rows, cols);
    if exactly_one_solution(cells, rows, cols) {
        let t = choose|t: Seq<u8>|
            is_solution(cells, rows, cols, t) && #[trigger] only_solution(cells, rows, cols, t);
        assert(s == t && g == t);
    }
}

/// Turning givens into slots twice over is turning givens into slots.
proof fn lemma_fewer_givens_twice(a: Seq<Cell>, b: Seq<Cell>, idx: int)
    requires
        has_fewer_givens(a, b),
        0 <= idx < b.len(),
    ensures
        has_fewer_givens(a.update(idx, Cell::Variable(0)), b.update(idx, Cell::Variable(0))),
        has_fewer_givens(a.update(idx, Cell::Variable(0)), b),
{
    let a2 = a.update(idx, Cell::Variable(0));
    let b2 = b.update(idx, Cell::Variable(0));
    assert forall|i: int| 0 <= i < a2.len() && (#[trigger] a2[i]) is Fixed implies a2[i]
        == b2[i] by {
        assert(a[i] is Fixed);
    }
    assert forall|i: int| 0 <= i < a2.len() && (#[trigger] a2[i]) is Fixed implies a2[i]
        == b[i] by {
        assert(a[i] is Fixed);
    }
}

/// Where no two givens clash and the grid passes the uniqueness check, a
/// given that cannot be taken out now can still not be taken out after
/// others were.
pub proof fn lemma_needed_stays_needed(a: Seq<Cell>, b: Seq<Cell>, rows: int, cols: int, idx: int)
    requires
        shape_ok(rows, cols, b.len() as int),
        cells_ok(b, rows * cols),
        givens_consistent(b, rows, cols),
        unique_by_search(b, rows, cols),
        has_fewer_givens(a, b),
        cells_ok(a, rows * cols),
        0 <= idx < b.len(),
        b[idx] is Fixed,
        !unique_by_search(b.update(idx, Cell::Variable(0)), rows, cols),
    ensures
        !unique_by_search(a.update(idx, Cell::Variable(0)), rows, cols),
{
    let b2 = b.update(idx, Cell::Variable(0));
    let a2 = a.update(idx, Cell::Variable(0));
    lemma_emptied_fits(b, rows * cols, idx);
    lemma_emptied_fits(a, rows * cols, idx);
    lemma_fewer_givens_twice(a, b, idx);
    lemma_fewer_givens_consistent(b2, b, rows, cols);
    lemma_fewer_givens_consistent(a2, b, rows, cols);
    let s = lemma_unique_solution(b, rows, cols);
    lemma_solution_survives(b2, b, rows, cols, s);
    let g = lemma_other_solution(b2, rows, cols, s);
    lemma_solution_survives(a2, b2, rows, cols, s);
    lemma_solution_survives(a2, b2, rows, cols, g);
    lemma_two_solutions(a2, rows, cols, s, g);
}

/// With nothing to spend, pruning changes nothing.
pub proof fn lemma_pruned_without_budget(cells: Seq<Cell>, rows: int, cols: int, order: Seq<usize>)
    ensures
        pruned(cells, rows, cols, order, 0) == cells,
    decreases order.len(),
{
    if order.len() > 0 {
        lemma_pruned_without_budget(cells, rows, cols, order.drop_first());
    }
}

/// Where no two givens clash, the grid passes the uniqueness check and
/// pruning stops with something left to spend, no given that the order
/// names can be taken out of the pruned grid.
pub proof fn lemma_pruned_keeps_needed(
    cells: Seq<Cell>,
    rows: int,
    cols: int,
    order: Seq<usize>,
    budget: nat,
    idx: int,
)
    requires
        shape_ok(rows, cols, cells.len() as int),
        cells_ok(cells, rows * cols),
        givens_consistent(cells, rows, cols),
        unique_by_search(cells, rows, cols),
        given_count(cells) < given_count(pruned(cells, rows, cols, order, budget)) + budget,
        order.contains(idx as usize),
        0 <= idx <= usize::MAX,
    ensures
        !removable(pruned(cells, rows, cols, order, budget), rows, cols, idx),
    decreases order.len(),
{
    let r = pruned(cells, rows, cols, order, budget);
    lemma_pruned(cells, rows, cols, order, budget);
    if order.len() > 0 {
        let first = order[0] as int;
        let rest = order.drop_first();
        let in_rest = rest.contains(idx as usize);
        if !in_rest {
            let k = choose|k: int| 0 <= k < order.len() && order[k] == idx as usize;
            if k > 0 {
                assert(rest[k - 1] == idx as usize);
            }
            assert(first == idx);
        }
        if budget > 0 && removable(cells, rows, cols, first) {
            let next = cells.update(first, Cell::Variable(0));
            lemma_pruned(next, rows, cols, rest, (budget - 1) as nat);
            lemma_given_count_update(cells, first, Cell::Variable(0));
            if in_rest {
                lemma_emptied_fits(cells, rows * cols, first);
                lemma_fewer_givens_consistent(next, cells, rows, cols);
                lemma_pruned_keeps_needed(next, rows, cols, rest, (budget - 1) as nat, idx);
            } else {
                assert(r[first] == next[first] || (next[first] is Fixed && r[first]
                    == Cell::Variable(0)));
            }
        } else {
            if in_rest {
                lemma_pruned_keeps_needed(cells, rows, cols, rest, budget, idx);
            } else if budget == 0 {
                lemma_pruned_without_budget(cells, rows, cols, order);
            } else if 0 <= first < cells.len() && cells[first] is Fixed {
                assert(has_fewer_givens(r, cells)) by {
                    assert forall|i: int| 0 <= i < r.len() && (#[trigger] r[i]) is Fixed implies r[i]
                        == cells[i] by {
                        assert(r[i] == cells[i] || (cells[i] is Fixed && r[i] == Cell::Variable(
                            0,
                        )));
                    }
                }
                lemma_needed_stays_needed(r, cells, rows, cols, first);
            } else if 0 <= first < cells.len() {
                assert(r[first] == cells[first] || (cells[first] is Fixed && r[first]
                    == Cell::Variable(0)));
            }
        }
    }
}

/// Every given is listed among the indices of the givens.
pub proof fn lemma_given_listed(cells: Seq<Cell>, idx: int)
    requires
        0 <= idx < cells.len() <= usize::MAX,
        cells[idx] is Fixed,
    ensures
        given_indices(cells).contains(idx as usize),
    decreases cells.len(),
{
    let front = cells.drop_last();
    let listed = given_indices(cells);
    if idx == cells.len() - 1 {
        assert(listed[listed.len() - 1] == idx as usize);
    } else {
        assert(front[idx] == cells[idx]);
        lemma_given_listed(front, idx);
        let k = choose|k: int| 0 <= k < given_indices(front).len() && given_indices(front)[k]
            == idx as usize;
        assert(listed[k] == idx as usize);
    }
}

/// Where no two givens clash, the grid passes the uniqueness check, the
/// order names every given and pruning stops with something left to spend,
/// the pruned grid is minimal.
pub proof fn lemma_pruned_minimal(
    cells: Seq<Cell>,
    rows: int,
    cols: int,
    order: Seq<usize>,
    budget: nat,
)
    requires
        shape_ok(rows, cols, cells.len() as int),
        cells_ok(cells, rows * cols),
        givens_consistent(cells, rows, cols),
        unique_by_search(cells, rows, cols),
        order.to_multiset() == given_indices(cells).to_multiset(),
        given_count(cells) < given_count(pruned(cells, rows, cols, order, budget)) + budget,
    ensures
        is_minimal(pruned(cells, rows, cols, order, budget), rows, cols),
{
    let r = pruned(cells, rows, cols, order, budget);
    lemma_pruned(cells, rows, cols, order, budget);
    assert(cells.len() <= 255 * 255) by (nonlinear_arith)
        requires
            cells.len() == (rows * cols) * (rows * cols),
            0 <= rows * cols <= 255,
    ;
    assert forall|idx: int| !#[trigger] removable(r, rows, cols, idx) by {
        if 0 <= idx < r.len() && r[idx] is Fixed {
            assert(r[idx] == cells[idx] || (cells[idx] is Fixed && r[idx] == Cell::Variable(0)));
            lemma_given_listed(cells, idx);
            let listed = given_indices(cells);
            listed.to_multiset_ensures();
            order.to_multiset_ensures();
            assert(listed.to_multiset().count(idx as usize) > 0);
            assert(order.to_multiset().count(idx as usize) > 0);
            assert(order.contains(idx as usize));
            lemma_pruned_keeps_needed(cells, rows, cols, order, budget, idx);
        }
    }
}

} // verus!
