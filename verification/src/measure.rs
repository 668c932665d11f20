use vstd::prelude::*;

verus! {

/// The number written by the digits `d` in the given base, first digit first.
pub open spec fn number(d: Seq<int>, base: int) -> int
    decreases d.len(),
{
    if d.len() == 0 {
        0
    } else {
        number(d.drop_last(), base) * base + d.last()
    }
}

/// Every digit lies in `0..base`.
pub open spec fn digits_in(d: Seq<int>, base: int) -> bool {
    forall|k: int| 0 <= k < d.len() ==> 0 <= #[trigger] d[k] < base
}

/// The largest number with `n` digits.
pub open spec fn top(n: nat, base: int) -> int {
    number(Seq::new(n, |k: int| base - 1), base)
}

/// A number is never negative, and never above the number written with
/// digits that are at least as large.
pub proof fn lemma_number_le(d: Seq<int>, e: Seq<int>, base: int)
    requires
        base >= 1,
        d.len() == e.len(),
        forall|k: int| 0 <= k < d.len() ==> 0 <= #[trigger] d[k] <= e[k],
    ensures
        0 <= number(d, base) <= number(e, base),
    decreases d.len(),
{
    if d.len() > 0 {
        let dp = d.drop_last();
        let ep = e.drop_last();
        assert forall|k: int| 0 <= k < dp.len() implies 0 <= #[trigger] dp[k] <= ep[k] by {
            assert(dp[k] == d[k] && ep[k] == e[k]);
        }
        lemma_number_le(dp, ep, base);
        assert(0 <= d[d.len() - 1] <= e[d.len() - 1]);
        assert(0 <= number(dp, base) * base <= number(ep, base) * base) by (nonlinear_arith)
            requires
                0 <= number(dp, base) <= number(ep, base),
                base >= 1,
        ;
    }
}

/// Numbers compare as their digits do: the first digit that differs decides.
pub proof fn lemma_number_lt(d: Seq<int>, e: Seq<int>, base: int, k: int)
    requires
        base >= 1,
        d.len() == e.len(),
        digits_in(d, base),
        digits_in(e, base),
        0 <= k < d.len(),
        forall|i: int| 0 <= i < k ==> d[i] == e[i],
        d[k] < e[k],
    ensures
        number(d, base) < number(e, base),
    decreases d.len(),
{
    let dp = d.drop_last();
    let ep = e.drop_last();
    let last = d.len() - 1;
    assert(0 <= d[last] < base && 0 <= e[last] < base);
    if k == last {
        assert(dp =~= ep);
    } else {
        assert(digits_in(dp, base)) by {
            assert forall|i: int| 0 <= i < dp.len() implies 0 <= #[trigger] dp[i] < base by {
                assert(dp[i] == d[i]);
            }
        }
        assert(digits_in(ep, base)) by {
            assert forall|i: int| 0 <= i < ep.len() implies 0 <= #[trigger] ep[i] < base by {
                assert(ep[i] == e[i]);
            }
        }
        assert forall|i: int| 0 <= i < k implies dp[i] == ep[i] by {
            assert(dp[i] == d[i] && ep[i] == e[i]);
        }
        assert(dp[k] == d[k] && ep[k] == e[k]);
        lemma_number_lt(dp, ep, base, k);
        assert((number(dp, base) + 1) * base <= number(ep, base) * base) by (nonlinear_arith)
            requires
                number(dp, base) + 1 <= number(ep, base),
                base >= 1,
        ;
        assert((number(dp, base) + 1) * base == number(dp, base) * base + base)
            by (nonlinear_arith);
    }
}

/// No number with `n` digits is above `top(n, base)`.
pub proof fn lemma_number_top(d: Seq<int>, base: int)
    requires
        base >= 1,
        digits_in(d, base),
    ensures
        0 <= number(d, base) <= top(d.len(), base),
{
    lemma_number_le(d, Seq::new(d.len(), |k: int| base - 1), base);
}

} // verus!
