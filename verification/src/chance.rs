//! The random choices the dispatcher makes, drawn from the `rand` crate.
//!
//! Nothing in this file is proved. Each item states what `rand` documents of
//! every outcome, and the rest of the library is verified for whatever comes
//! back.

use rand::rngs::ThreadRng;
use rand::seq::SliceRandom;
use rand::Rng;
use vstd::prelude::*;

verus! {

/// `rand::rngs::ThreadRng`, the generator that each thread keeps for itself.
/// Nothing is said of what it holds.
#[verifier::external_type_specification]
#[verifier::external_body]
pub struct ExThreadRng(rand::rngs::ThreadRng);

/// `rand::thread_rng` hands out the calling thread's generator. Nothing is
/// claimed of the generator that comes back.
pub assume_specification[ rand::thread_rng ]() -> (rng: ThreadRng);

/// `SliceRandom::shuffle` reorders a slice in place by swapping entries, so
/// afterwards the vector holds the entries it held before, each as often as
/// before. Which order comes out is left open.
#[verifier::external_body]
pub(crate) fn shuffle<T>(items: &mut Vec<T>, rng: &mut ThreadRng)
    ensures
        final(items)@.to_multiset() == old(items)@.to_multiset(),
{
    items.shuffle(rng);
}

/// `Rng::gen_range` on the half-open range `low..high` returns some value of
/// that range. It panics on an empty range, which the precondition rules out.
#[verifier::external_body]
pub(crate) fn pick_between(rng: &mut ThreadRng, low: i32, high: i32) -> (picked: i32)
    requires
        low < high,
    ensures
        low <= picked < high,
{
    rng.gen_range(low..high)
}

/// Two sequences that hold the same entries equally often have the same
/// length and the same members, and if no entry occurs twice in one, none
/// does in the other.
pub proof fn lemma_reordered<T>(before: Seq<T>, after: Seq<T>)
    requires
        after.to_multiset() == before.to_multiset(),
    ensures
        after.len() == before.len(),
        forall|x: T| after.contains(x) <==> before.contains(x),
        before.no_duplicates() ==> after.no_duplicates(),
{
    vstd::seq_lib::to_multiset_len(before);
    vstd::seq_lib::to_multiset_len(after);
    assert forall|x: T| after.contains(x) <==> before.contains(x) by {
        vstd::seq_lib::to_multiset_contains(before, x);
        vstd::seq_lib::to_multiset_contains(after, x);
    }
    if before.no_duplicates() {
        before.lemma_multiset_has_no_duplicates();
        after.lemma_multiset_has_no_duplicates_conv();
    }
}

} // verus!
