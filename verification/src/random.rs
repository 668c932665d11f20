use vstd::prelude::*;
use rand::seq::SliceRandom;

verus! {

/// The thread-local random number generator of the `rand` crate.  Nothing
/// is known of what it holds.
#[verifier::external_type_specification]
#[verifier::external_body]
pub struct ExThreadRng(rand::rngs::ThreadRng);

/// `rand::thread_rng` hands out the generator of the current thread.
/// Nothing is claimed of it.
pub assume_specification[ rand::thread_rng ]() -> (rng: rand::rngs::ThreadRng);

/// `SliceRandom::shuffle` of the `rand` crate, on the items of a vector.
/// It swaps items in place, so whatever the generator yields, the vector
/// holds the same items as before, each as often as before.  Nothing is
/// claimed of their order.
#[verifier::external_body]
pub(crate) fn shuffle<T>(items: &mut Vec<T>, rng: &mut rand::rngs::ThreadRng)
    ensures
        final(items)@.to_multiset() == old(items)@.to_multiset(),
{
    items.shuffle(rng);
}

} // verus!
