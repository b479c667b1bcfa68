//! The choices and checks of the command-line comparisons.

use crate::random::sample_sources;
use crate::random;
use vstd::prelude::*;
use vstd::string::*;

verus! {

/// Sets the sources of the demo apart from the draws of its graph.
pub const DEMO_SEED: u64 = 0xb5ad_4ece;

/// Sets the sources of the accuracy check apart from the draws of its graph.
pub const ACCURACY_SEED: u64 = 0x1d2c_3b4a;

/// The sources that are drawn of `n` nodes.
pub open spec fn drawn_sources(n: usize, samples: usize, seed: u64) -> Seq<usize> {
    random::index_sample(
        random::seeded(seed),
        n,
        if samples <= n {
            samples
        } else {
            n
        },
    )
}

/// Refuses to work without a thread.
pub fn check_threads(threads: usize) -> (verdict: Result<(), String>)
    ensures
        match verdict {
            Ok(_) => threads > 0,
            Err(message) => threads == 0 && message@ == "threads must be at least 1"@,
        },
{
    if threads == 0 {
        return Err("threads must be at least 1".to_owned());
    }
    Ok(())
}

/// The sources of the demo.
pub fn demo_sources(n: usize, samples: usize, seed: u64) -> (sources: Vec<usize>)
    requires
        n <= u32::MAX || samples < n,
    ensures
        sources@ == drawn_sources(n, samples, seed ^ DEMO_SEED),
        sources@ == random::index_sample(
            random::seeded(seed ^ 0xb5ad_4ece),
            n,
            if samples <= n {
                samples
            } else {
                n
            },
        ),
        forall|i: int| 0 <= i < sources@.len() ==> sources@[i] < n,
{
    sample_sources(n, samples, seed ^ DEMO_SEED)
}

/// The sources of the accuracy check.
pub fn accuracy_sources(n: usize, samples: usize, seed: u64) -> (sources: Vec<usize>)
    requires
        n <= u32::MAX || samples < n,
    ensures
        sources@ == drawn_sources(n, samples, seed ^ ACCURACY_SEED),
        sources@ == random::index_sample(
            random::seeded(seed ^ 0x1d2c_3b4a),
            n,
            if samples <= n {
                samples
            } else {
                n
            },
        ),
        forall|i: int| 0 <= i < sources@.len() ==> sources@[i] < n,
{
    sample_sources(n, samples, seed ^ ACCURACY_SEED)
}

} // verus!
