//! What the coordinator counts while a cluster rewires the ring.

use super::flips::every_edge;
use super::turns::{take_turns, TurnTaken};
use super::{built, proper};
use crate::coordinator::course::{course, summaries};
use crate::coordinator::{Clock, Coordinator, Reply, Turn};
use crate::counting;
use crate::model::ExperimentConfig;
use crate::protocol::WorkerResponse;
use crate::worker::ShardView;
use rand_chacha::ChaCha8Rng;
use vstd::prelude::*;

verus! {

/// Once every worker of a built cluster has finished its pass, and as long as the
/// experiment goes on, the coordinator's total of rewired edges is the number of
/// edges of the ring that got a new end. So it is at most `N * K / 2`, and none
/// where the probability is zero. The story tells the rows before and after every
/// edge, and its new end.
#[verifier::rlimit(60)]
pub proof fn lemma_rewired_total(
    config: ExperimentConfig,
    states: Seq<Coordinator>,
    replies: Seq<Reply>,
    clocks: Seq<Clock>,
    turns: Seq<Turn>,
    n: nat,
    clusters: Seq<Seq<ShardView>>,
    passes: Seq<TurnTaken>,
) -> (story: (Seq<Seq<Seq<u32>>>, Seq<Option<u32>>, Seq<Seq<(u32, ChaCha8Rng)>>))
    requires
        course(config, states, replies, clocks, turns),
        n <= replies.len(),
        !(states[n as int].stage is Building),
        !(states[n as int].stage is Rewiring),
        !(states[n as int].stage is Applying),
        proper(config.cluster()),
        built(clusters[0], config.cluster()),
        take_turns(clusters, config.probability, config.seed ^ 0x736f_6d65_7073_6575, passes),
        passes.len() == config.workers,
        forall|k: int|
            0 <= k < config.workers ==> (#[trigger] passes[k]).answer == Ok::<
                WorkerResponse,
                String,
            >(summaries(replies, n as int)[k]),
    ensures
        states[n as int].totals.rewired_edges <= config.nodes * config.degree / 2,
        (config.probability.bits == 0 || config.probability.bits == 0x8000_0000_0000_0000)
            ==> states[n as int].totals.rewired_edges == 0,
        !(config.probability.bits == 0 || config.probability.bits == 0x8000_0000_0000_0000) ==> {
            let (graphs, ends, draws) = story;
            let edges = config.nodes as int * (config.degree / 2) as int;
            &&& every_edge(
                config.cluster(),
                config.probability,
                config.seed ^ 0x736f_6d65_7073_6575,
                graphs,
                ends,
                draws,
            )
            &&& states[n as int].totals.rewired_edges == Set::new(
                |e: int| 0 <= e < edges && ends[e] is Some,
            ).len()
        },
{
    let told = summaries(replies, n as int);
    crate::coordinator::course::lemma_summaries(config, states, replies, clocks, turns, n);
    let left = |k: int| told[k]->rewired as nat;
    let right = |k: int|
        match passes[k].answer {
            Ok(WorkerResponse::Rewired { rewired, .. }) => rewired as nat,
            _ => 0,
        };
    assert forall|k: int| 0 <= k < told.len() implies #[trigger] left(k) == right(k) by {
        crate::coordinator::course::lemma_summary(replies, n as int, k);
        assert(passes[k].answer == Ok::<WorkerResponse, String>(told[k]));
    }
    counting::lemma_same_sum(left, right, told.len());
    let seed = config.seed ^ 0x736f_6d65_7073_6575;
    if config.probability.zero() {
        super::turns::lemma_turns(
            config.cluster(),
            config.probability,
            seed,
            clusters,
            passes,
            config.workers as int,
        );
        super::flips::lemma_turn_counts(passes, config.workers as nat);
        (Seq::empty(), Seq::empty(), Seq::empty())
    } else {
        super::flips::lemma_every_edge(
            config.cluster(),
            config.probability,
            seed,
            clusters,
            passes,
        )
    }
}

} // verus!
