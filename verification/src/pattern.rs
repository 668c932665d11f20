use vstd::prelude::*;
use crate::arith::{lemma_compose_bound, lemma_join, lemma_quotient_bound, lemma_split};
use crate::cell::Cell;
use crate::rules::{column_of, no_conflict, peers, row_of, subregion_of};
use crate::solution::{is_solution, solvable};

verus! {

/// Before reduction, the digit that the shifted pattern puts into cell `i`:
/// each row repeats the row above shifted by the width of a subregion, and
/// each band of subregions starts one further to the right.
pub open spec fn pattern_offset(rows: int, cols: int, i: int) -> int {
    let side = rows * cols;
    (row_of(side, i) % rows) * cols + row_of(side, i) / rows + column_of(side, i)
}

/// The digit that the shifted pattern puts into cell `i`.
pub open spec fn pattern_digit(rows: int, cols: int, i: int) -> int {
    pattern_offset(rows, cols, i) % (rows * cols) + 1
}

/// A filling of the whole grid in which no digit meets itself.
pub open spec fn pattern(rows: int, cols: int) -> Seq<u8> {
    Seq::new(((rows * cols) * (rows * cols)) as nat, |i: int| pattern_digit(rows, cols, i) as u8)
}

/// Numbers that lie less than `m` apart and differ leave different remainders.
proof fn lemma_mod_apart(a: int, b: int, m: int)
    requires
        0 <= a,
        0 <= b,
        0 < m,
        a != b,
        a - b < m,
        b - a < m,
    ensures
        a % m != b % m,
{
    lemma_split(a, m);
    lemma_split(b, m);
    if a % m == b % m {
        let qa = a / m;
        let qb = b / m;
        assert(a - b == m * (qa - qb)) by (nonlinear_arith)
            requires
                a == m * qa + a % m,
                b == m * qb + b % m,
                a % m == b % m,
        ;
        assert(false) by (nonlinear_arith)
            requires
                a - b == m * (qa - qb),
                a != b,
                a - b < m,
                b - a < m,
                0 < m,
        ;
    }
}

/// The parts of a flat index and of its offset in the pattern.
proof fn lemma_offset_parts(rows: int, cols: int, i: int)
    requires
        1 <= rows,
        1 <= cols,
        0 <= i < (rows * cols) * (rows * cols),
    ensures
        0 <= row_of(rows * cols, i) < rows * cols,
        0 <= column_of(rows * cols, i) < rows * cols,
        i == row_of(rows * cols, i) * (rows * cols) + column_of(rows * cols, i),
        row_of(rows * cols, i) == rows * (row_of(rows * cols, i) / rows) + row_of(rows * cols, i)
            % rows,
        column_of(rows * cols, i) == cols * (column_of(rows * cols, i) / cols) + column_of(
            rows * cols,
            i,
        ) % cols,
        0 <= row_of(rows * cols, i) % rows < rows,
        0 <= row_of(rows * cols, i) / rows < cols,
        0 <= column_of(rows * cols, i) % cols < cols,
        0 <= column_of(rows * cols, i) / cols < rows,
        0 <= (row_of(rows * cols, i) % rows) * cols + row_of(rows * cols, i) / rows < rows * cols,
        0 <= (row_of(rows * cols, i) % rows) * cols + column_of(rows * cols, i) % cols < rows
            * cols,
        0 <= pattern_offset(rows, cols, i),
{
    let side = rows * cols;
    assert(side >= 1) by (nonlinear_arith)
        requires
            side == rows * cols,
            rows >= 1,
            cols >= 1,
    ;
    assert(cols * rows == side) by (nonlinear_arith)
        requires
            side == rows * cols,
    ;
    lemma_split(i, side);
    lemma_quotient_bound(i, side, side);
    let r = i / side;
    let c = i % side;
    assert(r * side == side * r) by (nonlinear_arith);
    lemma_split(r, rows);
    lemma_quotient_bound(r, rows, cols);
    lemma_split(c, cols);
    lemma_quotient_bound(c, cols, rows);
    lemma_compose_bound(r % rows, r / rows, cols, rows);
    lemma_compose_bound(r % rows, c % cols, cols, rows);
}

/// In the pattern, peers get offsets that differ by less than the side.
proof fn lemma_peers_apart(rows: int, cols: int, i: int, j: int)
    requires
        1 <= rows,
        1 <= cols,
        0 <= i < (rows * cols) * (rows * cols),
        0 <= j < (rows * cols) * (rows * cols),
        peers(rows, cols, i, j),
    ensures
        pattern_offset(rows, cols, i) != pattern_offset(rows, cols, j),
        pattern_offset(rows, cols, i) - pattern_offset(rows, cols, j) < rows * cols,
        pattern_offset(rows, cols, j) - pattern_offset(rows, cols, i) < rows * cols,
{
    let side = rows * cols;
    lemma_offset_parts(rows, cols, i);
    lemma_offset_parts(rows, cols, j);
    let r1 = row_of(side, i);
    let c1 = column_of(side, i);
    let r2 = row_of(side, j);
    let c2 = column_of(side, j);
    let u1 = r1 % rows;
    let q1 = r1 / rows;
    let u2 = r2 % rows;
    let q2 = r2 / rows;
    let w1 = c1 % cols;
    let z1 = c1 / cols;
    let w2 = c2 % cols;
    let z2 = c2 / cols;
    if r1 == r2 {
    } else if c1 == c2 {
        if u1 * cols + q1 == u2 * cols + q2 {
            lemma_join(u1, q1, cols);
            lemma_join(u2, q2, cols);
        }
    } else {
        assert(subregion_of(rows, cols, i) == subregion_of(rows, cols, j));
        assert(rows * q1 + z1 == rows * q2 + z2);
        lemma_join(q1, z1, rows);
        lemma_join(q2, z2, rows);
        assert(q1 == q2);
        assert(z1 == z2);
        if u1 * cols + w1 == u2 * cols + w2 {
            lemma_join(u1, w1, cols);
            lemma_join(u2, w2, cols);
        }
    }
}

/// The pattern solves the empty grid of every shape.
pub proof fn lemma_pattern_solves(rows: int, cols: int)
    requires
        1 <= rows,
        1 <= cols,
        rows * cols <= 255,
    ensures
        pattern(rows, cols).len() == (rows * cols) * (rows * cols),
        forall|i: int|
            0 <= i < pattern(rows, cols).len() ==> 1 <= #[trigger] pattern(rows, cols)[i] <= rows
                * cols && no_conflict(pattern(rows, cols), rows, cols, i),
{
    let side = rows * cols;
    let g = pattern(rows, cols);
    assert(0 <= side * side) by (nonlinear_arith);
    assert forall|i: int| 0 <= i < g.len() implies 1 <= #[trigger] g[i] <= side && no_conflict(
        g,
        rows,
        cols,
        i,
    ) by {
        lemma_offset_parts(rows, cols, i);
        lemma_split(pattern_offset(rows, cols, i), side);
        assert forall|j: int| 0 <= j < g.len() && #[trigger] peers(rows, cols, i, j) implies g[j]
            != g[i] by {
            lemma_offset_parts(rows, cols, j);
            lemma_split(pattern_offset(rows, cols, j), side);
            lemma_peers_apart(rows, cols, i, j);
            lemma_mod_apart(pattern_offset(rows, cols, i), pattern_offset(rows, cols, j), side);
        }
    }
}

/// The empty grid of every shape has a solution.
pub proof fn lemma_empty_grid_solvable(cells: Seq<Cell>, rows: int, cols: int)
    requires
        1 <= rows,
        1 <= cols,
        rows * cols <= 255,
        cells.len() == (rows * cols) * (rows * cols),
        forall|i: int| 0 <= i < cells.len() ==> (#[trigger] cells[i]) is Variable,
    ensures
        solvable(cells, rows, cols),
{
    lemma_pattern_solves(rows, cols);
    assert(is_solution(cells, rows, cols, pattern(rows, cols)));
}

} // verus!
