use vstd::prelude::*;
use crate::cell::Cell;
use crate::arith::{lemma_compose_bound, lemma_join, lemma_quotient_bound, lemma_split};

verus! {

/// How often `v` occurs in `s`.
pub open spec fn occurrences(s: Seq<u8>, v: u8) -> nat
    decreases s.len(),
{
    if s.len() == 0 {
        0
    } else {
        occurrences(s.drop_last(), v) + if s.last() == v {
            1nat
        } else {
            0nat
        }
    }
}

/// The three kinds of group that a cell belongs to.
#[derive(Clone, Copy, Debug, PartialEq, Eq, Structural)]
pub enum Group {
    Row,
    Column,
    Subregion,
}

/// The row of the cell with flat index `i` in a grid of the given side.
pub open spec fn row_of(side: int, i: int) -> int {
    i / side
}

/// The column of the cell with flat index `i` in a grid of the given side.
pub open spec fn column_of(side: int, i: int) -> int {
    i % side
}

/// The number of the subregion that holds the cell at `(row, column)`.
pub open spec fn subregion_index(rows: int, cols: int, row: int, column: int) -> int {
    rows * (row / rows) + column / cols
}

/// The number of the subregion that holds the cell with flat index `i`.
pub open spec fn subregion_of(rows: int, cols: int, i: int) -> int {
    subregion_index(rows, cols, row_of(rows * cols, i), column_of(rows * cols, i))
}

/// The flat index of the `k`-th cell of subregion `s`, counted row by row.
pub open spec fn subregion_cell(rows: int, cols: int, s: int, k: int) -> int {
    (rows * (s / rows) + k / cols) * (rows * cols) + (cols * (s % rows) + k % cols)
}

/// The number of the group of the given kind that holds cell `i`.
pub open spec fn group_of(rows: int, cols: int, group: Group, i: int) -> int {
    match group {
        Group::Row => row_of(rows * cols, i),
        Group::Column => column_of(rows * cols, i),
        Group::Subregion => subregion_of(rows, cols, i),
    }
}

/// The flat index of the `k`-th cell of the group `which` of the given kind.
pub open spec fn group_member(rows: int, cols: int, group: Group, which: int, k: int) -> int {
    match group {
        Group::Row => which * (rows * cols) + k,
        Group::Column => k * (rows * cols) + which,
        Group::Subregion => subregion_cell(rows, cols, which, k),
    }
}

/// The place of cell `i` within its group of the given kind.
pub open spec fn place_in_group(rows: int, cols: int, group: Group, i: int) -> int {
    match group {
        Group::Row => column_of(rows * cols, i),
        Group::Column => row_of(rows * cols, i),
        Group::Subregion => (row_of(rows * cols, i) % rows) * cols + column_of(rows * cols, i)
            % cols,
    }
}

/// The flat indices of the cells of a group, in order.
pub open spec fn group_indices(rows: int, cols: int, group: Group, which: int) -> Seq<int> {
    Seq::new((rows * cols) as nat, |k: int| group_member(rows, cols, group, which, k))
}

/// The items found at the given indices.
pub open spec fn pick<T>(items: Seq<T>, indices: Seq<int>) -> Seq<T> {
    Seq::new(indices.len(), |k: int| items[indices[k]])
}

/// The digits of the group of the given kind that holds cell `i`.
pub open spec fn group_values(vals: Seq<u8>, rows: int, cols: int, group: Group, i: int) -> Seq<
    u8,
> {
    pick(vals, group_indices(rows, cols, group, group_of(rows, cols, group, i)))
}

/// The local rule: an empty cell is always in order; a digit is in order
/// when it occurs at most once in its row, at most once in its column and
/// at most once in its subregion.
pub open spec fn cell_valid(vals: Seq<u8>, rows: int, cols: int, i: int) -> bool {
    let v = vals[i];
    v == 0 || (occurrences(group_values(vals, rows, cols, Group::Row, i), v) <= 1 && occurrences(
        group_values(vals, rows, cols, Group::Column, i),
        v,
    ) <= 1 && occurrences(group_values(vals, rows, cols, Group::Subregion, i), v) <= 1)
}

/// Two different cells that share a row, a column or a subregion.
pub open spec fn peers(rows: int, cols: int, i: int, j: int) -> bool {
    i != j && (group_of(rows, cols, Group::Row, i) == group_of(rows, cols, Group::Row, j)
        || group_of(rows, cols, Group::Column, i) == group_of(rows, cols, Group::Column, j)
        || group_of(rows, cols, Group::Subregion, i) == group_of(rows, cols, Group::Subregion, j))
}

/// No peer of cell `i` holds the digit of cell `i`.
pub open spec fn no_conflict(vals: Seq<u8>, rows: int, cols: int, i: int) -> bool {
    forall|j: int| 0 <= j < vals.len() && #[trigger] peers(rows, cols, i, j) ==> vals[j] != vals[i]
}

/// The dimensions are those of a grid, and `n` is its number of cells.
pub open spec fn shape_ok(rows: int, cols: int, n: int) -> bool {
    1 <= rows && 1 <= cols && rows * cols <= 255 && n == (rows * cols) * (rows * cols)
}

/// The `k`-th cell of a group lies in the grid, belongs to that group and
/// stands at place `k` in it.
pub proof fn lemma_group_member(rows: int, cols: int, group: Group, which: int, k: int)
    requires
        1 <= rows,
        1 <= cols,
        0 <= which < rows * cols,
        0 <= k < rows * cols,
    ensures
        0 <= group_member(rows, cols, group, which, k) < (rows * cols) * (rows * cols),
        group_of(rows, cols, group, group_member(rows, cols, group, which, k)) == which,
        place_in_group(rows, cols, group, group_member(rows, cols, group, which, k)) == k,
{
    let side = rows * cols;
    assert(cols * rows == side) by (nonlinear_arith)
        requires
            side == rows * cols,
    ;
    match group {
        Group::Row => {
            lemma_compose_bound(which, k, side, side);
            lemma_join(which, k, side);
        },
        Group::Column => {
            lemma_compose_bound(k, which, side, side);
            lemma_join(k, which, side);
        },
        Group::Subregion => {
            let a = which / rows;
            let b = which % rows;
            let u = k / cols;
            let w = k % cols;
            lemma_split(which, rows);
            lemma_quotient_bound(which, rows, cols);
            lemma_split(k, cols);
            lemma_quotient_bound(k, cols, rows);
            let r = rows * a + u;
            let c = cols * b + w;
            lemma_compose_bound(a, u, rows, cols);
            lemma_compose_bound(b, w, cols, rows);
            lemma_compose_bound(r, c, side, side);
            lemma_join(r, c, side);
            lemma_join(a, u, rows);
            lemma_join(b, w, cols);
            let m = group_member(rows, cols, group, which, k);
            assert(m == r * side + c);
            assert(row_of(side, m) == r);
            assert(column_of(side, m) == c);
            assert(u * cols == cols * u) by (nonlinear_arith);
        },
    }
}

/// A cell of the grid is the member of its own group that stands at its
/// own place.
pub proof fn lemma_group_place(rows: int, cols: int, group: Group, i: int)
    requires
        1 <= rows,
        1 <= cols,
        0 <= i < (rows * cols) * (rows * cols),
    ensures
        0 <= group_of(rows, cols, group, i) < rows * cols,
        0 <= place_in_group(rows, cols, group, i) < rows * cols,
        group_member(
            rows,
            cols,
            group,
            group_of(rows, cols, group, i),
            place_in_group(rows, cols, group, i),
        ) == i,
{
    let side = rows * cols;
    assert(side >= 1) by (nonlinear_arith)
        requires
            side == rows * cols,
            rows >= 1,
            cols >= 1,
    ;
    assert(cols * rows == side) by (nonlinear_arith)
        requires
            side == rows * cols,
    ;
    lemma_split(i, side);
    lemma_quotient_bound(i, side, side);
    let r = i / side;
    let c = i % side;
    assert(r * side == side * r) by (nonlinear_arith);
    match group {
        Group::Row => {},
        Group::Column => {},
        Group::Subregion => {
            lemma_split(r, rows);
            lemma_quotient_bound(r, rows, cols);
            lemma_split(c, cols);
            lemma_quotient_bound(c, cols, rows);
            let s = rows * (r / rows) + c / cols;
            let p = (r % rows) * cols + c % cols;
            lemma_compose_bound(r / rows, c / cols, rows, cols);
            lemma_compose_bound(r % rows, c % cols, cols, rows);
            lemma_join(r / rows, c / cols, rows);
            lemma_join(r % rows, c % cols, cols);
            assert(s / rows == r / rows);
            assert(s % rows == c / cols);
            assert(p / cols == r % rows);
            assert(p % cols == c % cols);
        },
    }
}

/// A digit that occurs nowhere is counted zero times, and the other way round.
pub proof fn lemma_occurrences_none(s: Seq<u8>, v: u8)
    ensures
        occurrences(s, v) == 0 <==> forall|k: int| 0 <= k < s.len() ==> s[k] != v,
    decreases s.len(),
{
    if s.len() > 0 {
        let t = s.drop_last();
        lemma_occurrences_none(t, v);
        if occurrences(s, v) == 0 {
            assert forall|k: int| 0 <= k < s.len() implies s[k] != v by {
                if k < t.len() {
                    assert(t[k] == s[k]);
                }
            }
        }
        if forall|k: int| 0 <= k < s.len() ==> s[k] != v {
            assert forall|k: int| 0 <= k < t.len() implies t[k] != v by {
                assert(t[k] == s[k]);
            }
        }
    }
}

/// Where `v` stands at place `m`, it occurs at most once exactly when it
/// stands at no other place.
pub proof fn lemma_occurrences_once(s: Seq<u8>, v: u8, m: int)
    requires
        0 <= m < s.len(),
        s[m] == v,
    ensures
        occurrences(s, v) >= 1,
        occurrences(s, v) <= 1 <==> forall|k: int| 0 <= k < s.len() && k != m ==> s[k] != v,
    decreases s.len(),
{
    let t = s.drop_last();
    if m == s.len() - 1 {
        lemma_occurrences_none(t, v);
        if occurrences(s, v) <= 1 {
            assert forall|k: int| 0 <= k < s.len() && k != m implies s[k] != v by {
                assert(t[k] == s[k]);
            }
        }
        if forall|k: int| 0 <= k < s.len() && k != m ==> s[k] != v {
            assert forall|k: int| 0 <= k < t.len() implies t[k] != v by {
                assert(t[k] == s[k]);
            }
        }
    } else {
        assert(t[m] == s[m]);
        lemma_occurrences_once(t, v, m);
        if occurrences(s, v) <= 1 {
            assert forall|k: int| 0 <= k < s.len() && k != m implies s[k] != v by {
                if k < t.len() {
                    assert(t[k] == s[k]);
                }
            }
        }
        if forall|k: int| 0 <= k < s.len() && k != m ==> s[k] != v {
            assert forall|k: int| 0 <= k < t.len() && k != m implies t[k] != v by {
                assert(t[k] == s[k]);
            }
        }
    }
}

/// Within one group, the digit of cell `i` occurs at most once exactly when
/// no other cell of that group holds it.
pub proof fn lemma_group_unique(vals: Seq<u8>, rows: int, cols: int, group: Group, i: int)
    requires
        shape_ok(rows, cols, vals.len() as int),
        0 <= i < vals.len(),
    ensures
        occurrences(group_values(vals, rows, cols, group, i), vals[i]) <= 1 <==> forall|j: int|
            0 <= j < vals.len() && j != i && #[trigger] group_of(rows, cols, group, j) == group_of(
                rows,
                cols,
                group,
                i,
            ) ==> vals[j] != vals[i],
{
    let side = rows * cols;
    let v = vals[i];
    let which = group_of(rows, cols, group, i);
    let m = place_in_group(rows, cols, group, i);
    let seq = group_values(vals, rows, cols, group, i);
    lemma_group_place(rows, cols, group, i);
    assert(seq[m] == v);
    lemma_occurrences_once(seq, v, m);
    if occurrences(seq, v) <= 1 {
        assert forall|j: int|
            0 <= j < vals.len() && j != i && #[trigger] group_of(rows, cols, group, j)
                == which implies vals[j] != v by {
            lemma_group_place(rows, cols, group, j);
            let k = place_in_group(rows, cols, group, j);
            assert(seq[k] == vals[j]);
        }
    }
    if forall|j: int|
        0 <= j < vals.len() && j != i && #[trigger] group_of(rows, cols, group, j) == which
            ==> vals[j] != v {
        assert forall|k: int| 0 <= k < seq.len() && k != m implies seq[k] != v by {
            lemma_group_member(rows, cols, group, which, k);
            let j = group_member(rows, cols, group, which, k);
            assert(group_of(rows, cols, group, j) == which);
            assert(seq[k] == vals[j]);
        }
    }
}

/// The local rule in other words: a digit is in order exactly when no peer
/// of its cell holds the same digit.
pub proof fn lemma_valid_iff_no_conflict(vals: Seq<u8>, rows: int, cols: int, i: int)
    requires
        shape_ok(rows, cols, vals.len() as int),
        0 <= i < vals.len(),
    ensures
        cell_valid(vals, rows, cols, i) <==> (vals[i] == 0 || no_conflict(vals, rows, cols, i)),
{
    lemma_group_unique(vals, rows, cols, Group::Row, i);
    lemma_group_unique(vals, rows, cols, Group::Column, i);
    lemma_group_unique(vals, rows, cols, Group::Subregion, i);
    if vals[i] != 0 {
        if cell_valid(vals, rows, cols, i) {
            assert forall|j: int| 0 <= j < vals.len() && #[trigger] peers(rows, cols, i, j) implies vals[j]
                != vals[i] by {
                if group_of(rows, cols, Group::Row, j) == group_of(rows, cols, Group::Row, i) {
                } else if group_of(rows, cols, Group::Column, j) == group_of(
                    rows,
                    cols,
                    Group::Column,
                    i,
                ) {
                } else {
                    assert(group_of(rows, cols, Group::Subregion, j) == group_of(
                        rows,
                        cols,
                        Group::Subregion,
                        i,
                    ));
                }
            }
        }
        if no_conflict(vals, rows, cols, i) {
            assert forall|j: int|
                0 <= j < vals.len() && j != i && #[trigger] group_of(rows, cols, Group::Row, j)
                    == group_of(rows, cols, Group::Row, i) implies vals[j] != vals[i] by {
                assert(peers(rows, cols, i, j));
            }
            assert forall|j: int|
                0 <= j < vals.len() && j != i && #[trigger] group_of(rows, cols, Group::Column, j)
                    == group_of(rows, cols, Group::Column, i) implies vals[j] != vals[i] by {
                assert(peers(rows, cols, i, j));
            }
            assert forall|j: int|
                0 <= j < vals.len() && j != i && #[trigger] group_of(
                    rows,
                    cols,
                    Group::Subregion,
                    j,
                ) == group_of(rows, cols, Group::Subregion, i) implies vals[j] != vals[i] by {
                assert(peers(rows, cols, i, j));
            }
        }
    } else {
        if no_conflict(vals, rows, cols, i) {
        }
    }
}

/// The parts of the flat index of the `k`-th cell of subregion `s` stay
/// within the grid.
pub proof fn lemma_subregion_cell_parts(rows: int, cols: int, s: int, k: int)
    requires
        1 <= rows,
        1 <= cols,
        0 <= s < rows * cols,
        0 <= k < rows * cols,
    ensures
        0 <= rows * (s / rows) <= s,
        0 <= k / cols <= k,
        0 <= rows * (s / rows) + k / cols < rows * cols,
        0 <= (rows * (s / rows) + k / cols) * (rows * cols),
        0 <= s % rows < rows,
        0 <= cols * (s % rows) < rows * cols,
        0 <= k % cols < cols,
        0 <= cols * (s % rows) + k % cols < rows * cols,
        0 <= subregion_cell(rows, cols, s, k) < (rows * cols) * (rows * cols),
{
    let side = rows * cols;
    assert(cols * rows == side) by (nonlinear_arith)
        requires
            side == rows * cols,
    ;
    lemma_split(s, rows);
    lemma_quotient_bound(s, rows, cols);
    lemma_split(k, cols);
    lemma_quotient_bound(k, cols, rows);
    lemma_compose_bound(s / rows, k / cols, rows, cols);
    lemma_compose_bound(s % rows, k % cols, cols, rows);
    lemma_compose_bound(s % rows, 0, cols, rows);
    lemma_compose_bound(rows * (s / rows) + k / cols, cols * (s % rows) + k % cols, side, side);
    assert(0 <= (rows * (s / rows) + k / cols) * side) by (nonlinear_arith)
        requires
            0 <= rows * (s / rows) + k / cols,
            0 <= side,
    ;
}

/// The subregion of a cell is one of the grid's subregions.
pub proof fn lemma_subregion_index_bound(rows: int, cols: int, row: int, column: int)
    requires
        1 <= rows,
        1 <= cols,
        0 <= row < rows * cols,
        0 <= column < rows * cols,
    ensures
        0 <= rows * (row / rows) <= row,
        0 <= column / cols,
        0 <= subregion_index(rows, cols, row, column) < rows * cols,
{
    assert(cols * rows == rows * cols) by (nonlinear_arith);
    lemma_split(row, rows);
    lemma_quotient_bound(row, rows, cols);
    lemma_split(column, cols);
    lemma_quotient_bound(column, cols, rows);
    lemma_compose_bound(row / rows, column / cols, rows, cols);
}

/// The cells of the given kind, in order: the givens where `fixed` is
/// true, the slots where it is false.
pub open spec fn cells_of_kind(cells: Seq<Cell>, fixed: bool) -> Seq<Cell>
    decreases cells.len(),
{
    if cells.len() == 0 {
        Seq::empty()
    } else {
        let rest = cells_of_kind(cells.drop_last(), fixed);
        if (cells.last() is Fixed) == fixed {
            rest.push(cells.last())
        } else {
            rest
        }
    }
}

/// The digits of the cells, in the same order.
pub open spec fn values_of(cells: Seq<Cell>) -> Seq<u8> {
    Seq::new(cells.len(), |i: int| cells[i].value())
}

/// The digits of picked cells are the picked digits of the cells.
pub proof fn lemma_pick_values(cells: Seq<Cell>, indices: Seq<int>)
    requires
        forall|k: int| 0 <= k < indices.len() ==> 0 <= #[trigger] indices[k] < cells.len(),
    ensures
        values_of(pick(cells, indices)) == pick(values_of(cells), indices),
{
    assert(values_of(pick(cells, indices)) =~= pick(values_of(cells), indices));
}

} // verus!
