use vstd::prelude::*;
use vstd::arithmetic::div_mod::{
    lemma_div_pos_is_pos, lemma_fundamental_div_mod, lemma_fundamental_div_mod_converse,
    lemma_mod_pos_bound,
};

verus! {

/// Euclidean division of a natural number: quotient, remainder and their bounds.
pub proof fn lemma_split(x: int, d: int)
    requires
        0 <= x,
        0 < d,
    ensures
        x == d * (x / d) + x % d,
        0 <= x % d < d,
        0 <= x / d,
        d * (x / d) <= x,
{
    lemma_fundamental_div_mod(x, d);
    lemma_mod_pos_bound(x, d);
    lemma_div_pos_is_pos(x, d);
}

/// A number put together from a quotient and a remainder splits into them again.
pub proof fn lemma_join(q: int, r: int, d: int)
    requires
        0 < d,
        0 <= r < d,
    ensures
        (d * q + r) / d == q,
        (d * q + r) % d == r,
        (q * d + r) / d == q,
        (q * d + r) % d == r,
{
    assert(q * d == d * q) by (nonlinear_arith);
    lemma_fundamental_div_mod_converse(q * d + r, d, q, r);
}

/// A number below `d * m` has a quotient by `d` below `m`.
pub proof fn lemma_quotient_bound(x: int, d: int, m: int)
    requires
        0 <= x < d * m,
        0 < d,
    ensures
        0 <= x / d < m,
{
    lemma_split(x, d);
    if x / d >= m {
        assert(d * (x / d) >= d * m) by (nonlinear_arith)
            requires
                x / d >= m,
                d > 0,
        ;
    }
}

/// A product of a bounded factor with `d`, plus a remainder, stays below `d * m`.
pub proof fn lemma_compose_bound(q: int, r: int, d: int, m: int)
    requires
        0 <= q < m,
        0 <= r < d,
    ensures
        0 <= d * q + r < d * m,
        0 <= q * d + r < m * d,
{
    assert(d * q + d <= d * m) by (nonlinear_arith)
        requires
            q + 1 <= m,
            d > 0,
    ;
    assert(d * q >= 0) by (nonlinear_arith)
        requires
            q >= 0,
            d > 0,
    ;
    assert(q * d == d * q) by (nonlinear_arith);
    assert(m * d == d * m) by (nonlinear_arith);
}

} // verus!
