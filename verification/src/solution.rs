use vstd::prelude::*;
use crate::cell::Cell;
use crate::rules::no_conflict;

verus! {

/// Both grids have the same givens and the same slots; only the digits in
/// the slots may differ.
pub open spec fn same_givens(a: Seq<Cell>, b: Seq<Cell>) -> bool {
    &&& a.len() == b.len()
    &&& forall|i: int|
        0 <= i < a.len() ==> ((#[trigger] a[i]) is Fixed ==> b[i] == a[i]) && (a[i] is Variable
            ==> b[i] is Variable)
}

/// The digits `g` fill the grid and agree with its givens.
pub open spec fn keeps_givens(cells: Seq<Cell>, g: Seq<u8>) -> bool {
    &&& g.len() == cells.len()
    &&& forall|i: int|
        0 <= i < cells.len() && cells[i] is Fixed ==> #[trigger] g[i] == cells[i].value()
}

/// The digits `g` solve the grid: they agree with its givens, and every
/// slot holds a digit from 1 to the side that none of its peers holds.
/// What the slots of `cells` hold does not matter.
pub open spec fn is_solution(cells: Seq<Cell>, rows: int, cols: int, g: Seq<u8>) -> bool {
    &&& keeps_givens(cells, g)
    &&& forall|i: int|
        0 <= i < cells.len() && cells[i] is Variable ==> 1 <= #[trigger] g[i] <= rows * cols
            && no_conflict(g, rows, cols, i)
}

/// `g` and `h` agree before index `k`, and there `g` holds the smaller digit.
pub open spec fn differs_first_at(g: Seq<u8>, h: Seq<u8>, k: int) -> bool {
    &&& 0 <= k < g.len()
    &&& k < h.len()
    &&& g[k] < h[k]
    &&& forall|i: int| 0 <= i < k ==> g[i] == h[i]
}

/// `g` comes before `h` in the order of the dictionary, cells read row by row.
pub open spec fn precedes(g: Seq<u8>, h: Seq<u8>) -> bool {
    exists|k: int| differs_first_at(g, h, k)
}

/// `g` comes before `h`, and they differ at index `p` or earlier.
pub open spec fn precedes_by(g: Seq<u8>, h: Seq<u8>, p: int) -> bool {
    exists|k: int| k <= p && #[trigger] differs_first_at(g, h, k)
}

/// `g` is the first solution of the grid in the order of the dictionary.
pub open spec fn is_least_solution(cells: Seq<Cell>, rows: int, cols: int, g: Seq<u8>) -> bool {
    &&& is_solution(cells, rows, cols, g)
    &&& forall|h: Seq<u8>| #[trigger] is_solution(cells, rows, cols, h) ==> !precedes(h, g)
}

/// The grid has a solution.
pub open spec fn solvable(cells: Seq<Cell>, rows: int, cols: int) -> bool {
    exists|g: Seq<u8>| is_solution(cells, rows, cols, g)
}

/// Grids with the same givens have the same solutions.
pub proof fn lemma_solution_same_givens(a: Seq<Cell>, b: Seq<Cell>, rows: int, cols: int, g: Seq<u8>)
    requires
        same_givens(a, b),
    ensures
        is_solution(a, rows, cols, g) == is_solution(b, rows, cols, g),
{
    if is_solution(a, rows, cols, g) {
        assert forall|i: int| 0 <= i < b.len() && b[i] is Fixed implies #[trigger] g[i]
            == b[i].value() by {
            assert(a[i] is Fixed);
        }
        assert forall|i: int| 0 <= i < b.len() && b[i] is Variable implies 1 <= #[trigger] g[i]
            <= rows * cols && no_conflict(g, rows, cols, i) by {
            assert(a[i] is Variable);
        }
    }
    if is_solution(b, rows, cols, g) {
        assert forall|i: int| 0 <= i < a.len() && a[i] is Fixed implies #[trigger] g[i]
            == a[i].value() by {
            assert(b[i] is Fixed);
        }
        assert forall|i: int| 0 <= i < a.len() && a[i] is Variable implies 1 <= #[trigger] g[i]
            <= rows * cols && no_conflict(g, rows, cols, i) by {
            assert(b[i] is Variable);
        }
    }
}

/// Of two different fillings of equal length, one comes before the other.
pub proof fn lemma_precedes_total(g: Seq<u8>, h: Seq<u8>)
    requires
        g.len() == h.len(),
        g != h,
    ensures
        precedes(g, h) || precedes(h, g),
{
    lemma_first_difference(g, h, g.len() as int);
    if forall|i: int| 0 <= i < g.len() ==> g[i] == h[i] {
        assert(g =~= h);
    }
}

/// Fillings that agree before `n` either agree on all of `0..n` or one
/// comes before the other.
proof fn lemma_first_difference(g: Seq<u8>, h: Seq<u8>, n: int)
    requires
        g.len() == h.len(),
        0 <= n <= g.len(),
    ensures
        (forall|i: int| 0 <= i < n ==> g[i] == h[i]) || precedes(g, h) || precedes(h, g),
    decreases n,
{
    if n > 0 {
        lemma_first_difference(g, h, n - 1);
        if forall|i: int| 0 <= i < n - 1 ==> g[i] == h[i] {
            if g[n - 1] < h[n - 1] {
                assert(differs_first_at(g, h, n - 1));
            } else if h[n - 1] < g[n - 1] {
                assert(differs_first_at(h, g, n - 1));
            } else {
                assert forall|i: int| 0 <= i < n implies g[i] == h[i] by {
                    if i < n - 1 {
                    }
                }
            }
        }
    }
}

/// No filling comes before itself, and of two fillings at most one comes
/// before the other.
pub proof fn lemma_precedes_asymmetric(g: Seq<u8>, h: Seq<u8>)
    ensures
        !(precedes(g, h) && precedes(h, g)),
        !precedes(g, g),
{
    if precedes(g, h) && precedes(h, g) {
        let k = choose|k: int| differs_first_at(g, h, k);
        let m = choose|m: int| differs_first_at(h, g, m);
        if k < m {
            assert(h[k] == g[k]);
        } else if m < k {
            assert(g[m] == h[m]);
        }
    }
    if precedes(g, g) {
        let k = choose|k: int| differs_first_at(g, g, k);
    }
}

/// A grid has at most one first solution.
pub proof fn lemma_least_solution_unique(
    cells: Seq<Cell>,
    rows: int,
    cols: int,
    g: Seq<u8>,
    h: Seq<u8>,
)
    requires
        is_least_solution(cells, rows, cols, g),
        is_least_solution(cells, rows, cols, h),
    ensures
        g == h,
{
    if g != h {
        lemma_precedes_total(g, h);
    }
}

} // verus!
