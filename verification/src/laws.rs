use vstd::prelude::*;
use vstd::set_lib::{lemma_int_range, set_int_range};
use crate::cell::Cell;
use crate::counting::{lemma_covers, lemma_repeat};
use crate::generate::is_solved;
use crate::prune::given_count;
use crate::rules::{
    group_indices, group_member, group_of, lemma_group_member, lemma_group_place,
    lemma_occurrences_once, no_conflict, occurrences, peers, pick, place_in_group, shape_ok,
    values_of, Group,
};
use crate::solution::is_solution;
use crate::solve::lemma_no_slots;
use crate::sudoku::{cell_ok, cells_ok};
use crate::unique::{
    exactly_one_solution, is_last_slot, no_slots, only_solution, raised_at, solutions_within_step,
    unique_by_search,
};

verus! {

/// In a grid without slots every cell counts as a given.
pub proof fn lemma_all_given(cells: Seq<Cell>)
    requires
        forall|i: int| 0 <= i < cells.len() ==> (#[trigger] cells[i]) is Fixed,
    ensures
        given_count(cells) == cells.len(),
    decreases cells.len(),
{
    if cells.len() > 0 {
        let front = cells.drop_last();
        assert forall|i: int| 0 <= i < front.len() implies (#[trigger] front[i]) is Fixed by {
            assert(front[i] == cells[i]);
        }
        lemma_all_given(front);
        assert(cells.last() == cells[cells.len() - 1]);
    }
}

/// Different members of one group are peers.
pub proof fn lemma_members_are_peers(
    rows: int,
    cols: int,
    group: Group,
    which: int,
    k1: int,
    k2: int,
)
    requires
        1 <= rows,
        1 <= cols,
        0 <= which < rows * cols,
        0 <= k1 < rows * cols,
        0 <= k2 < rows * cols,
        k1 != k2,
    ensures
        peers(
            rows,
            cols,
            group_member(rows, cols, group, which, k1),
            group_member(rows, cols, group, which, k2),
        ),
{
    lemma_group_member(rows, cols, group, which, k1);
    lemma_group_member(rows, cols, group, which, k2);
}

/// Every row, every column and every subregion of a solved grid holds
/// every digit from 1 to the side exactly once.
pub proof fn lemma_solved_groups(
    cells: Seq<Cell>,
    rows: int,
    cols: int,
    group: Group,
    which: int,
    d: u8,
)
    requires
        shape_ok(rows, cols, cells.len() as int),
        is_solved(cells, rows, cols),
        0 <= which < rows * cols,
        1 <= d <= rows * cols,
    ensures
        occurrences(pick(values_of(cells), group_indices(rows, cols, group, which)), d) == 1,
{
    let side = rows * cols;
    let vals = values_of(cells);
    let seq = pick(vals, group_indices(rows, cols, group, which));
    let s = Seq::new(side as nat, |k: int| seq[k] as int);
    assert forall|k: int| 0 <= k < s.len() implies 1 <= #[trigger] s[k] < side + 1 by {
        lemma_group_member(rows, cols, group, which, k);
        let j = group_member(rows, cols, group, which, k);
        assert(cells[j] is Variable);
    }
    assert forall|k1: int, k2: int| 0 <= k1 < k2 < s.len() implies s[k1] != s[k2] by {
        lemma_group_member(rows, cols, group, which, k1);
        lemma_group_member(rows, cols, group, which, k2);
        lemma_members_are_peers(rows, cols, group, which, k1, k2);
        let j1 = group_member(rows, cols, group, which, k1);
        assert(cells[j1] is Variable);
        assert(no_conflict(vals, rows, cols, j1));
    }
    let m = lemma_covers(s, 1, side + 1, d as int);
    assert(seq[m] == d);
    lemma_occurrences_once(seq, d, m);
    assert forall|k: int| 0 <= k < seq.len() && k != m implies seq[k] != d by {
        if k < m {
            assert(s[k] != s[m]);
        } else {
            assert(s[m] != s[k]);
        }
    }
}

/// No two givens that are peers hold the same digit.
pub open spec fn givens_consistent(cells: Seq<Cell>, rows: int, cols: int) -> bool {
    forall|i: int, j: int|
        0 <= i < cells.len() && 0 <= j < cells.len() && cells[i] is Fixed && cells[j] is Fixed
            && #[trigger] peers(rows, cols, i, j) ==> cells[i].value() != cells[j].value()
}

/// Where no two givens clash, no two solutions differ in one slot alone.
pub proof fn lemma_no_neighbour(
    cells: Seq<Cell>,
    rows: int,
    cols: int,
    s: Seq<u8>,
    g: Seq<u8>,
    p: int,
)
    requires
        shape_ok(rows, cols, cells.len() as int),
        cells_ok(cells, rows * cols),
        givens_consistent(cells, rows, cols),
        is_solution(cells, rows, cols, s),
        is_solution(cells, rows, cols, g),
        0 <= p < cells.len(),
        cells[p] is Variable,
    ensures
        !raised_at(s, g, p),
{
    if raised_at(s, g, p) {
        lemma_neighbour_clash(cells, rows, cols, s, g, p);
    }
}

/// Two solutions that differ in one slot alone have two equal digits in
/// the row of that slot, and these belong to givens that clash.
proof fn lemma_neighbour_clash(
    cells: Seq<Cell>,
    rows: int,
    cols: int,
    s: Seq<u8>,
    g: Seq<u8>,
    p: int,
)
    requires
        shape_ok(rows, cols, cells.len() as int),
        cells_ok(cells, rows * cols),
        is_solution(cells, rows, cols, s),
        is_solution(cells, rows, cols, g),
        0 <= p < cells.len(),
        cells[p] is Variable,
        raised_at(s, g, p),
    ensures
        !givens_consistent(cells, rows, cols),
{
    let side = rows * cols;
    let a = s[p] as int;
    let which = group_of(rows, cols, Group::Row, p);
    let m = place_in_group(rows, cols, Group::Row, p);
    lemma_group_place(rows, cols, Group::Row, p);
    assert(1 <= s[p] && g[p] <= side);
    let others = Seq::new(
        (side - 1) as nat,
        |k: int|
            s[group_member(
                rows,
                cols,
                Group::Row,
                which,
                if k < m {
                    k
                } else {
                    k + 1
                },
            )] as int,
    );
    lemma_int_range(1, side + 1);
    let allowed = set_int_range(1, side + 1).remove(a).remove(a + 1);
    assert forall|k: int| 0 <= k < others.len() implies allowed.contains(#[trigger] others[k]) by {
        let kk = if k < m {
            k
        } else {
            k + 1
        };
        lemma_group_member(rows, cols, Group::Row, which, kk);
        lemma_members_are_peers(rows, cols, Group::Row, which, m, kk);
        let j = group_member(rows, cols, Group::Row, which, kk);
        assert(peers(rows, cols, p, j));
        assert(no_conflict(s, rows, cols, p));
        assert(no_conflict(g, rows, cols, p));
        assert(g[j] == s[j]);
        if cells[j] is Fixed {
            assert(cell_ok(cells[j], side));
            assert(s[j] == cells[j].value());
        } else {
            assert(1 <= s[j] <= side);
        }
    }
    let pair = lemma_repeat(others, allowed);
    let k1 = if pair.0 < m {
        pair.0
    } else {
        pair.0 + 1
    };
    let k2 = if pair.1 < m {
        pair.1
    } else {
        pair.1 + 1
    };
    lemma_group_member(rows, cols, Group::Row, which, k1);
    lemma_group_member(rows, cols, Group::Row, which, k2);
    lemma_members_are_peers(rows, cols, Group::Row, which, k1, k2);
    let j1 = group_member(rows, cols, Group::Row, which, k1);
    let j2 = group_member(rows, cols, Group::Row, which, k2);
    assert(s[j1] == s[j2]);
    assert(peers(rows, cols, j1, j2));
    if cells[j1] is Variable {
        assert(1 <= s[j1]);
        assert(no_conflict(s, rows, cols, j1));
    } else if cells[j2] is Variable {
        assert(1 <= s[j2]);
        assert(no_conflict(s, rows, cols, j2));
        assert(peers(rows, cols, j2, j1));
    } else {
        assert(s[j1] == cells[j1].value());
        assert(s[j2] == cells[j2].value());
    }
    if cells[j1] is Variable || cells[j2] is Variable {
        assert(s[j1] != s[j2]);
    }
}

/// Where no two givens clash, a grid passes the uniqueness check exactly
/// when it has one solution and no other.
pub proof fn lemma_unique_means_one(cells: Seq<Cell>, rows: int, cols: int)
    requires
        shape_ok(rows, cols, cells.len() as int),
        cells_ok(cells, rows * cols),
        givens_consistent(cells, rows, cols),
    ensures
        unique_by_search(cells, rows, cols) == exactly_one_solution(cells, rows, cols),
{
    if exactly_one_solution(cells, rows, cols) {
        let s = choose|s: Seq<u8>|
            is_solution(cells, rows, cols, s) && #[trigger] only_solution(cells, rows, cols, s);
        assert(solutions_within_step(cells, rows, cols, s));
    }
    if unique_by_search(cells, rows, cols) {
        if no_slots(cells) {
            lemma_no_slots_one(cells, rows, cols);
        } else {
            let s = choose|s: Seq<u8>|
                is_solution(cells, rows, cols, s) && solutions_within_step(cells, rows, cols, s);
            assert forall|g: Seq<u8>| #[trigger] is_solution(cells, rows, cols, g) implies g
                == s by {
                if g != s {
                    let p = choose|p: int| is_last_slot(cells, p) && raised_at(s, g, p);
                    lemma_no_neighbour(cells, rows, cols, s, g, p);
                }
            }
            assert(only_solution(cells, rows, cols, s));
        }
    }
}

/// A grid without slots passes the uniqueness check: its digits are its
/// one solution.
pub proof fn lemma_no_slots_one(cells: Seq<Cell>, rows: int, cols: int)
    requires
        no_slots(cells),
    ensures
        unique_by_search(cells, rows, cols),
        exactly_one_solution(cells, rows, cols),
{
    let s = values_of(cells);
    lemma_no_slots(cells, rows, cols, s);
    assert forall|g: Seq<u8>| #[trigger] is_solution(cells, rows, cols, g) implies g == s by {
        lemma_no_slots(cells, rows, cols, g);
    }
    assert(only_solution(cells, rows, cols, s));
    assert(solutions_within_step(cells, rows, cols, s));
}

/// A solved grid, once frozen, passes the uniqueness check.
pub proof fn lemma_frozen_solved_unique(cells: Seq<Cell>, rows: int, cols: int)
    requires
        is_solved(cells, rows, cols),
    ensures
        unique_by_search(crate::solve::frozen_cells(cells), rows, cols),
{
    let frozen = crate::solve::frozen_cells(cells);
    assert forall|i: int| 0 <= i < frozen.len() implies (#[trigger] frozen[i]) is Fixed by {
        assert(cells[i] is Variable && cells[i].value() >= 1);
    }
}

/// A grid made of slots alone can be solved; once its first solution is
/// in the slots and the grid is frozen, it passes the uniqueness check.
pub proof fn lemma_solved_then_frozen(before: Seq<Cell>, after: Seq<Cell>, rows: int, cols: int)
    requires
        shape_ok(rows, cols, before.len() as int),
        forall|i: int| 0 <= i < before.len() ==> (#[trigger] before[i]) is Variable,
        crate::solution::same_givens(before, after),
        crate::solution::solvable(before, rows, cols) ==> crate::solution::is_least_solution(
            before,
            rows,
            cols,
            values_of(after),
        ),
    ensures
        crate::solution::solvable(before, rows, cols),
        is_solved(after, rows, cols),
        unique_by_search(crate::solve::frozen_cells(after), rows, cols),
{
    crate::pattern::lemma_empty_grid_solvable(before, rows, cols);
    let g = values_of(after);
    assert forall|i: int| 0 <= i < after.len() implies (#[trigger] after[i]) is Variable && 1
        <= after[i].value() <= rows * cols && no_conflict(g, rows, cols, i) by {
        assert(before[i] is Variable);
        assert(1 <= g[i] <= rows * cols);
    }
    lemma_frozen_solved_unique(after, rows, cols);
}

/// A write to a given changes nothing.
pub proof fn lemma_write_to_given(cells: Seq<Cell>, idx: int, value: u8)
    requires
        0 <= idx < cells.len(),
        cells[idx] is Fixed,
    ensures
        cells.update(idx, cells[idx].with_value(value)) == cells,
{
    assert(cells.update(idx, cells[idx].with_value(value)) =~= cells);
}

/// A solved grid, once frozen, has no givens that clash.
pub proof fn lemma_solved_consistent(cells: Seq<Cell>, rows: int, cols: int)
    requires
        is_solved(cells, rows, cols),
    ensures
        givens_consistent(crate::solve::frozen_cells(cells), rows, cols),
{
    let frozen = crate::solve::frozen_cells(cells);
    let vals = values_of(cells);
    assert forall|i: int, j: int|
        0 <= i < frozen.len() && 0 <= j < frozen.len() && frozen[i] is Fixed && frozen[j] is Fixed
            && #[trigger] peers(rows, cols, i, j) implies frozen[i].value()
        != frozen[j].value() by {
        assert(cells[i] is Variable);
        assert(no_conflict(vals, rows, cols, i));
        assert(vals[j] != vals[i]);
    }
}

/// Every given of `a` is a given of `b`.
pub open spec fn has_fewer_givens(a: Seq<Cell>, b: Seq<Cell>) -> bool {
    &&& a.len() == b.len()
    &&& forall|i: int| 0 <= i < a.len() && (#[trigger] a[i]) is Fixed ==> a[i] == b[i]
}

/// Taking givens out of a grid leaves no clash where there was none.
pub proof fn lemma_fewer_givens_consistent(a: Seq<Cell>, b: Seq<Cell>, rows: int, cols: int)
    requires
        has_fewer_givens(a, b),
        givens_consistent(b, rows, cols),
    ensures
        givens_consistent(a, rows, cols),
{
    assert forall|i: int, j: int|
        0 <= i < a.len() && 0 <= j < a.len() && a[i] is Fixed && a[j] is Fixed && #[trigger] peers(
            rows,
            cols,
            i,
            j,
        ) implies a[i].value() != a[j].value() by {
        assert(a[i] == b[i] && a[j] == b[j]);
    }
}

/// The digit with 1 and 2 exchanged.
pub open spec fn exchanged(d: u8) -> u8 {
    if d == 1 {
        2
    } else if d == 2 {
        1
    } else {
        d
    }
}

/// A grid of side two or more that is made of slots alone does not pass
/// the uniqueness check: it has solutions that differ in more than one cell.
pub proof fn lemma_empty_not_unique(cells: Seq<Cell>, rows: int, cols: int)
    requires
        shape_ok(rows, cols, cells.len() as int),
        forall|i: int| 0 <= i < cells.len() ==> (#[trigger] cells[i]) is Variable,
        rows * cols >= 2,
    ensures
        !unique_by_search(cells, rows, cols),
{
    let side = rows * cols;
    let g = crate::pattern::pattern(rows, cols);
    crate::pattern::lemma_pattern_solves(rows, cols);
    let h = Seq::new(g.len(), |i: int| exchanged(g[i]));
    assert(is_solution(cells, rows, cols, g));
    assert(is_solution(cells, rows, cols, h)) by {
        assert forall|i: int| 0 <= i < cells.len() && cells[i] is Variable implies 1
            <= #[trigger] h[i] <= side && no_conflict(h, rows, cols, i) by {
            assert(1 <= g[i] <= side);
            assert(no_conflict(g, rows, cols, i));
            assert forall|j: int| 0 <= j < h.len() && #[trigger] peers(rows, cols, i, j) implies h[j]
                != h[i] by {
                assert(g[j] != g[i]);
            }
        }
    }
    let full = Seq::new(g.len(), |i: int| Cell::Variable(g[i]));
    assert(values_of(full) =~= g);
    assert(is_solved(full, rows, cols)) by {
        assert forall|i: int| 0 <= i < full.len() implies (#[trigger] full[i]) is Variable && 1
            <= full[i].value() <= side && no_conflict(values_of(full), rows, cols, i) by {
            assert(1 <= g[i] <= side);
        }
    }
    let k0 = lemma_digit_place(full, rows, cols, 0, 1);
    let k1 = lemma_digit_place(full, rows, cols, 1, 1);
    lemma_group_member(rows, cols, Group::Row, 0, k0);
    lemma_group_member(rows, cols, Group::Row, 1, k1);
    let i0 = group_member(rows, cols, Group::Row, 0, k0);
    let i1 = group_member(rows, cols, Group::Row, 1, k1);
    assert(g[i0] == 1 && g[i1] == 1);
    assert(h[i0] == 2 && h[i1] == 2);
    assert(i0 != i1);
    assert(cells[0] is Variable) by {
        assert(0 < side * side) by (nonlinear_arith)
            requires
                side >= 2,
        ;
    }
    if unique_by_search(cells, rows, cols) {
        let s = choose|s: Seq<u8>|
            is_solution(cells, rows, cols, s) && solutions_within_step(cells, rows, cols, s);
        if g == s {
            let p = choose|p: int| is_last_slot(cells, p) && raised_at(s, h, p);
            assert(i0 != p || i1 != p);
        } else if h == s {
            let p = choose|p: int| is_last_slot(cells, p) && raised_at(s, g, p);
            assert(i0 != p || i1 != p);
        } else {
            let p = choose|p: int| is_last_slot(cells, p) && raised_at(s, g, p);
            let q = choose|q: int| is_last_slot(cells, q) && raised_at(s, h, q);
            if i0 != q {
                assert(h[i0] == s[i0]);
                assert(i0 == p);
            }
            if i1 != q {
                assert(h[i1] == s[i1]);
                assert(i1 == p);
            }
        }
    }
}

/// In a solved grid every digit has a place in every row.
proof fn lemma_digit_place(cells: Seq<Cell>, rows: int, cols: int, row: int, d: u8) -> (k: int)
    requires
        shape_ok(rows, cols, cells.len() as int),
        is_solved(cells, rows, cols),
        0 <= row < rows * cols,
        1 <= d <= rows * cols,
    ensures
        0 <= k < rows * cols,
        values_of(cells)[group_member(rows, cols, Group::Row, row, k)] == d,
{
    let seq = pick(values_of(cells), group_indices(rows, cols, Group::Row, row));
    lemma_solved_groups(cells, rows, cols, Group::Row, row, d);
    crate::rules::lemma_occurrences_none(seq, d);
    let k = choose|k: int| 0 <= k < seq.len() && seq[k] == d;
    k
}

} // verus!
