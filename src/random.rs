use crate::model::total_weight;
use rand::distributions::WeightedError;
use rand::rngs::ThreadRng;
use rand::seq::SliceRandom;
use vstd::prelude::*;

verus! {

#[verifier::external_type_specification]
#[verifier::external_body]
pub struct ExThreadRng(ThreadRng);

#[verifier::external_type_specification]
#[verifier::external_body]
pub struct ExWeightedError(WeightedError);

/// Relies on rand::thread_rng: a handle to this thread's random generator.
#[verifier::external_body]
pub(crate) fn new_rng() -> ThreadRng {
    rand::thread_rng()
}

/// Relies on rand's `SliceRandom::choose` for slices: `None` for an empty
/// slice, otherwise one of its items, drawn uniformly.
#[verifier::external_body]
pub(crate) fn choose_uniform(items: &Vec<usize>, rng: &mut ThreadRng) -> (r: Option<usize>)
    ensures
        r is None <==> items@.len() == 0,
        r matches Some(x) ==> items@.contains(x),
{
    items.choose(rng).copied()
}

/// Relies on rand's `SliceRandom::choose_weighted`, weighing each entry by
/// its count: for a non-empty slice whose counts sum to at most `u64::MAX`,
/// it fails exactly when every count is zero, and otherwise returns an entry
/// with a non-zero count.
#[verifier::external_body]
pub(crate) fn choose_weighted_entry(entries: &Vec<(usize, u64)>, rng: &mut ThreadRng) -> (r: Result<
    (usize, u64),
    WeightedError,
>)
    requires
        entries@.len() > 0,
        total_weight(entries@) <= u64::MAX,
    ensures
        r is Ok <==> total_weight(entries@) > 0,
        r matches Ok(e) ==> entries@.contains(e) && e.1 > 0,
{
    entries.choose_weighted(rng, |entry| entry.1).map(|entry| *entry)
}

} // verus!
