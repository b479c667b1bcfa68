//! Work spread over the threads of a pool.

use rayon::iter::{IntoParallelIterator, ParallelIterator};
use vstd::prelude::*;

verus! {

/// Calls `work` on every item, on the threads of rayon's pool, and collects what
/// comes back: rayon's `into_par_iter`, `map` and `collect` on a `Vec`, whose
/// results stand in the order of the items whichever thread made them. Claimed
/// is that there is one result for each item, in the item's place, and that it
/// is one that `work` may return for that item.
#[verifier::external_body]
pub(crate) fn map_parallel<A: Send, B: Send, F: Fn(A) -> B + Send + Sync>(
    items: Vec<A>,
    work: F,
) -> (results: Vec<B>)
    requires
        forall|i: int| 0 <= i < items@.len() ==> work.requires((#[trigger] items@[i],)),
    ensures
        results@.len() == items@.len(),
        forall|i: int|
            0 <= i < items@.len() ==> work.ensures((items@[i],), #[trigger] results@[i]),
{
    items.into_par_iter().map(work).collect()
}

/// The numbers from `start` to `end`, without `end`.
pub(crate) fn indices(start: usize, end: usize) -> (numbers: Vec<usize>)
    requires
        start <= end,
    ensures
        numbers@.len() == end - start,
        forall|i: int| 0 <= i < numbers@.len() ==> #[trigger] numbers@[i] == start + i,
{
    let mut numbers: Vec<usize> = Vec::new();
    let mut next: usize = start;
    while next < end
        invariant
            start <= next <= end,
            numbers@.len() == next - start,
            forall|i: int| 0 <= i < numbers@.len() ==> #[trigger] numbers@[i] == start + i,
        decreases end - next,
    {
        numbers.push(next);
        next = next + 1;
    }
    numbers
}

} // verus!
