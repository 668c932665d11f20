use vstd::prelude::*;
use vstd::set_lib::{lemma_int_range, lemma_len_subset, set_int_range};

verus! {

/// More items than values to choose from: two items are equal.
pub proof fn lemma_repeat(s: Seq<int>, t: Set<int>) -> (pair: (int, int))
    requires
        t.finite(),
        t.len() < s.len(),
        forall|i: int| 0 <= i < s.len() ==> t.contains(#[trigger] s[i]),
    ensures
        0 <= pair.0 < pair.1 < s.len(),
        s[pair.0] == s[pair.1],
{
    if s.no_duplicates() {
        s.unique_seq_to_set();
        assert(s.to_set().subset_of(t)) by {
            assert forall|a: int| s.to_set().contains(a) implies t.contains(a) by {
                let i = choose|i: int| 0 <= i < s.len() && s[i] == a;
            }
        }
        lemma_len_subset(s.to_set(), t);
    }
    let (i, j) = choose|i: int, j: int|
        0 <= i < s.len() && 0 <= j < s.len() && i != j && s[i] == s[j];
    if i < j {
        (i, j)
    } else {
        (j, i)
    }
}

/// As many different items as there are values from `lo` to `hi`: each of
/// these values is among the items.
pub proof fn lemma_covers(s: Seq<int>, lo: int, hi: int, d: int) -> (k: int)
    requires
        lo <= hi,
        s.len() == hi - lo,
        forall|i: int| 0 <= i < s.len() ==> lo <= #[trigger] s[i] < hi,
        forall|i: int, j: int| 0 <= i < j < s.len() ==> s[i] != s[j],
        lo <= d < hi,
    ensures
        0 <= k < s.len(),
        s[k] == d,
{
    if !s.contains(d) {
        lemma_int_range(lo, hi);
        let rest = set_int_range(lo, hi).remove(d);
        assert forall|i: int| 0 <= i < s.len() implies rest.contains(#[trigger] s[i]) by {
            assert(s.contains(s[i]));
        }
        let pair = lemma_repeat(s, rest);
    }
    choose|k: int| 0 <= k < s.len() && s[k] == d
}

} // verus!
