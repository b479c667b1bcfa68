//! Which answers a coordinator goes on with.

use super::course::{distances_in, entries_in, found_in, links_at, reachable_in, visited_in};
use super::{Clock, Coordinator, Reply, Stage, Stop, Turn};
use crate::protocol::WorkerResponse;
use crate::text;
use vstd::prelude::*;

verus! {

/// The nodes that the workers have built, as they tell.
pub open spec fn built_in(reply: Reply) -> nat {
    super::course::over_workers(
        reply,
        |response: WorkerResponse|
            match response {
                WorkerResponse::Built { local_nodes, .. } => local_nodes as nat,
                _ => 0,
            },
    )
}

/// The frontiers that the workers tell.
pub open spec fn frontier_in(reply: Reply) -> nat {
    super::course::over_workers(
        reply,
        |response: WorkerResponse|
            match response {
                WorkerResponse::BfsLevelFinished { frontier, .. } => frontier as nat,
                _ => 0,
            },
    )
}

/// Every worker answered with the kind of message that was asked for, and no counter
/// is outgrown.
pub open spec fn good_answers(state: Coordinator, reply: Reply) -> bool {
    let answers = reply->All_0@;
    match state.stage {
        Stage::Building => {
            &&& forall|t: int| 0 <= t < answers.len() ==> (#[trigger] answers[t]) is Built
            &&& built_in(reply) == state.config.nodes
        },
        Stage::Counting => {
            &&& forall|t: int| 0 <= t < answers.len() ==> (#[trigger] answers[t]) is GraphStats
            &&& entries_in(reply) == state.config.nodes * state.config.degree
        },
        Stage::Measuring => {
            &&& forall|t: int| 0 <= t < answers.len() ==> (#[trigger] answers[t]) is RingDistances
            &&& state.totals.total_distance + distances_in(reply) <= u64::MAX
            &&& state.totals.total_reachable + reachable_in(reply) <= u64::MAX
            &&& state.totals.vertices_visited + visited_in(reply) <= u64::MAX
        },
        Stage::Starting => true,
        Stage::Expanding { .. } => {
            &&& forall|t: int|
                0 <= t < answers.len() ==> (#[trigger] answers[t]) is BfsExpanded
                    && answers[t]->discoveries_by_owner@.len() <= state.config.workers
            &&& found_in(reply) <= u64::MAX
        },
        Stage::Finishing { level, discovered } => {
            let found = discovered + found_in(reply);
            &&& forall|t: int|
                0 <= t < answers.len() ==> (#[trigger] answers[t]) is BfsLevelFinished
            &&& found <= u64::MAX
            &&& visited_in(reply) <= u64::MAX
            &&& frontier_in(reply) <= u64::MAX
            &&& state.totals.total_distance + found * (level + 1) <= u64::MAX
            &&& state.totals.total_reachable + found <= u64::MAX
            &&& state.totals.vertices_visited + (if frontier_in(reply) == 0 {
                visited_in(reply)
            } else {
                0
            }) <= u64::MAX
            &&& level < u32::MAX
        },
        _ => false,
    }
}

/// The message is one that the worker may send at this stage, for a worker that there
/// is, and no counter is outgrown.
pub open spec fn good_message(state: Coordinator, message: WorkerResponse) -> bool {
    match (state.stage, message) {
        (Stage::Rewiring { source }, WorkerResponse::RewireMutations { target, .. }) => target
            != source && target < state.config.workers,
        (Stage::Rewiring { .. }, WorkerResponse::Rewired { rewired, .. }) =>
            state.totals.rewired_edges + rewired <= u64::MAX,
        (Stage::Applying { expected, .. }, WorkerResponse::MutationsApplied { count }) => count
            == expected && state.totals.cross_shard_messages + count <= u64::MAX,
        (Stage::Preparing { origin }, WorkerResponse::ClusteringQueries { target, queries }) => {
            &&& target != origin
            &&& target < state.config.workers
            &&& state.totals.cross_shard_messages + queries@.len() <= u64::MAX
        },
        (
            Stage::Preparing { .. },
            WorkerResponse::ClusteringPrepared { degrees, local_counts },
        ) => {
            &&& degrees@.len() == state.counts@.len()
            &&& local_counts@.len() == state.counts@.len()
            &&& forall|o: int|
                0 <= o < state.counts@.len() ==> #[trigger] state.counts@[o] + local_counts@[o]
                    <= u64::MAX
        },
        (Stage::Resolving { .. }, WorkerResponse::EdgeQueriesResolved { counts }) => {
            &&& forall|k: int|
                0 <= k < counts@.len() ==> (#[trigger] counts@[k]).0 < state.counts@.len()
            &&& forall|o: int|
                0 <= o < state.counts@.len() ==> state.counts@[o] + #[trigger] links_at(
                    counts@,
                    o,
                ) <= u64::MAX
        },
        _ => false,
    }
}

/// A coordinator goes on if and only if the answers are good; else it stays as it was.
/// The discoveries of a level may in addition not outgrow the counter of messages.
#[verifier::rlimit(60)]
pub proof fn lemma_goes_on(
    state: Coordinator,
    reply: Reply,
    clock: Clock,
    answer: Result<Turn, Stop>,
    after: Coordinator,
)
    requires
        state.wf(),
        state.expects(reply),
        state.turn(reply, clock, answer, after),
    ensures
        answer is Err ==> after == state,
        match reply {
            Reply::One(message) => answer is Ok <==> good_message(state, message),
            Reply::All(answers) => answer is Ok <==> good_answers(state, reply) && (
            state.stage is Expanding ==> state.totals.cross_shard_messages
                + super::search::routed_total(answers@, state.config.workers as int) <= u64::MAX),
        },
{
    match reply {
        Reply::One(message) => {
            lemma_message(state, message, clock, answer, after);
        },
        Reply::All(_) => {
            lemma_answers(state, reply, clock, answer, after);
        },
    }
}

#[verifier::rlimit(60)]
proof fn lemma_message(
    state: Coordinator,
    message: WorkerResponse,
    clock: Clock,
    answer: Result<Turn, Stop>,
    after: Coordinator,
)
    requires
        state.wf(),
        state.expects(Reply::One(message)),
        state.turn(Reply::One(message), clock, answer, after),
    ensures
        answer is Err ==> after == state,
        answer is Ok <==> good_message(state, message),
{
    match (state.stage, message) {
        (Stage::Resolving { .. }, WorkerResponse::EdgeQueriesResolved { counts }) => {
            assert forall|o: int| 0 <= o < state.counts@.len() implies
                #[trigger] super::clustering::gained(state.counts@, counts@, o)
                == state.counts@[o] + links_at(counts@, o) by {
                super::commands::lemma_links(counts@, o);
            }
            if super::clustering::within(counts@, state.counts@.len()) {
                if answer is Ok {
                    assert forall|o: int| 0 <= o < state.counts@.len() implies state.counts@[o]
                        + #[trigger] links_at(counts@, o) <= u64::MAX by {
                        assert(super::clustering::gained(state.counts@, counts@, o) <= u64::MAX);
                    }
                } else {
                    let o = choose|o: int|
                        0 <= o < state.counts@.len() && #[trigger] super::clustering::gained(
                            state.counts@,
                            counts@,
                            o,
                        ) > u64::MAX;
                    assert(state.counts@[o] + links_at(counts@, o) > u64::MAX);
                }
            }
        },
        _ => {},
    }
}

#[verifier::rlimit(60)]
proof fn lemma_answers(
    state: Coordinator,
    reply: Reply,
    clock: Clock,
    answer: Result<Turn, Stop>,
    after: Coordinator,
)
    requires
        state.wf(),
        reply is All,
        state.expects(reply),
        state.turn(reply, clock, answer, after),
    ensures
        answer is Err ==> after == state,
        answer is Ok <==> good_answers(state, reply) && (state.stage is Expanding
            ==> state.totals.cross_shard_messages + super::search::routed_total(
            reply->All_0@,
            state.config.workers as int,
        ) <= u64::MAX),
{
    let answers = reply->All_0@;
    match state.stage {
        Stage::Building => {
            lemma_kind(answers, super::rewiring::is_built());
            super::course::lemma_sum(
                answers,
                super::rewiring::built_nodes(),
                |response: WorkerResponse|
                    match response {
                        WorkerResponse::Built { local_nodes, .. } => local_nodes as nat,
                        _ => 0,
                    },
            );
        },
        Stage::Counting => {
            lemma_kind(answers, super::rewiring::is_stats());
            super::course::lemma_sum(
                answers,
                super::rewiring::stats_entries(),
                |response: WorkerResponse|
                    match response {
                        WorkerResponse::GraphStats { adjacency_entries, .. } => {
                            adjacency_entries as nat
                        },
                        _ => 0,
                    },
            );
            let nodes = state.config.nodes as int;
            let degree = state.config.degree as int;
            assert(nodes * degree <= u32::MAX * u32::MAX) by (nonlinear_arith)
                requires
                    0 <= nodes <= u32::MAX,
                    0 <= degree <= u32::MAX,
            ;
        },
        Stage::Measuring => {
            lemma_kind(answers, super::search::is_ring());
            if super::all_are(answers, super::search::is_ring()) {
                lemma_measures(answers);
            }
        },
        Stage::Expanding { .. } => {
            lemma_kind(answers, super::search::is_expanded());
            if super::all_are(answers, super::search::is_expanded()) {
                lemma_expansions(state, answers);
            }
        },
        Stage::Finishing { level, discovered } => {
            lemma_kind(answers, super::search::is_finished());
            if super::all_are(answers, super::search::is_finished()) {
                lemma_levels(answers);
            }
        },
        _ => {},
    }
}

/// What the ring distances sum up to.
pub proof fn lemma_measures(answers: Seq<WorkerResponse>)
    requires
        super::all_are(answers, super::search::is_ring()),
    ensures
        forall|reply: Reply|
            reply is All && reply->All_0@ == answers ==> {
                &&& super::sum_of(answers, super::search::ring_sum()) == #[trigger] distances_in(
                    reply,
                )
                &&& super::sum_of(answers, super::search::ring_reachable()) == reachable_in(reply)
                &&& super::sum_of(answers, super::search::ring_visited()) == visited_in(reply)
            },
{
    assert forall|i: int| 0 <= i < answers.len() implies (
    #[trigger] answers[i]) is RingDistances by {
        assert(super::search::is_ring()(answers[i]));
    }
    super::course::lemma_sum(
        answers,
        super::search::ring_sum(),
        |response: WorkerResponse|
            match response {
                WorkerResponse::RingDistances { distance_sum, .. } => distance_sum as nat,
                _ => 0,
            },
    );
    super::course::lemma_sum(
        answers,
        super::search::ring_reachable(),
        |response: WorkerResponse|
            match response {
                WorkerResponse::RingDistances { reachable, .. } => reachable as nat,
                _ => 0,
            },
    );
    super::course::lemma_sum(
        answers,
        super::search::ring_visited(),
        |response: WorkerResponse|
            match response {
                WorkerResponse::RingDistances { visited, .. } => visited as nat,
                WorkerResponse::BfsLevelFinished { visited, .. } => visited as nat,
                _ => 0,
            },
    );
}

proof fn lemma_expansions(state: Coordinator, answers: Seq<WorkerResponse>)
    requires
        super::all_are(answers, super::search::is_expanded()),
    ensures
        forall|reply: Reply|
            reply is All && reply->All_0@ == answers ==> super::sum_of(
                answers,
                super::search::local_found(),
            ) == #[trigger] found_in(reply),
        super::search::reports_beyond(answers, state.config.workers as int) <==> exists|t: int|
            0 <= t < answers.len() && (#[trigger] answers[t])->discoveries_by_owner@.len()
                > state.config.workers,
{
    assert forall|i: int| 0 <= i < answers.len() implies (#[trigger] answers[i]) is BfsExpanded by {
        assert(super::search::is_expanded()(answers[i]));
    }
    super::course::lemma_sum(
        answers,
        super::search::local_found(),
        |response: WorkerResponse|
            match response {
                WorkerResponse::BfsExpanded { local_discovered, .. } => local_discovered as nat,
                WorkerResponse::BfsLevelFinished { accepted, .. } => accepted as nat,
                _ => 0,
            },
    );
    let workers = state.config.workers as int;
    if exists|t: int|
        0 <= t < answers.len() && (#[trigger] answers[t])->discoveries_by_owner@.len()
            > state.config.workers {
        let t = choose|t: int|
            0 <= t < answers.len() && (#[trigger] answers[t])->discoveries_by_owner@.len()
                > state.config.workers;
        assert(super::search::beyond(answers[t], workers));
    }
}

/// What the ends of a level sum up to.
pub proof fn lemma_levels(answers: Seq<WorkerResponse>)
    requires
        super::all_are(answers, super::search::is_finished()),
    ensures
        forall|reply: Reply|
            reply is All && reply->All_0@ == answers ==> {
                &&& super::sum_of(answers, super::search::accepted_found())
                    == #[trigger] found_in(reply)
                &&& super::sum_of(answers, super::search::level_visited()) == visited_in(reply)
                &&& super::sum_of(answers, super::search::frontier_size()) == frontier_in(reply)
            },
{
    assert forall|i: int| 0 <= i < answers.len() implies (
    #[trigger] answers[i]) is BfsLevelFinished by {
        assert(super::search::is_finished()(answers[i]));
    }
    super::course::lemma_sum(
        answers,
        super::search::accepted_found(),
        |response: WorkerResponse|
            match response {
                WorkerResponse::BfsExpanded { local_discovered, .. } => local_discovered as nat,
                WorkerResponse::BfsLevelFinished { accepted, .. } => accepted as nat,
                _ => 0,
            },
    );
    super::course::lemma_sum(
        answers,
        super::search::level_visited(),
        |response: WorkerResponse|
            match response {
                WorkerResponse::RingDistances { visited, .. } => visited as nat,
                WorkerResponse::BfsLevelFinished { visited, .. } => visited as nat,
                _ => 0,
            },
    );
    super::course::lemma_sum(
        answers,
        super::search::frontier_size(),
        |response: WorkerResponse|
            match response {
                WorkerResponse::BfsLevelFinished { frontier, .. } => frontier as nat,
                _ => 0,
            },
    );
}

proof fn lemma_kind(answers: Seq<WorkerResponse>, kind: spec_fn(WorkerResponse) -> bool)
    ensures
        super::all_are(answers, kind) <==> forall|t: int|
            0 <= t < answers.len() ==> kind(#[trigger] answers[t]),
{
}

/// What is said of a message that is not good; nothing where a counter is outgrown.
pub open spec fn message_words(state: Coordinator, message: WorkerResponse) -> Option<Seq<char>> {
    match (state.stage, message) {
        (Stage::Rewiring { .. }, WorkerResponse::RewireMutations { .. }) => Some(
            "invalid rewiring batch target"@,
        ),
        (Stage::Rewiring { .. }, WorkerResponse::Rewired { .. }) => None,
        (Stage::Rewiring { .. }, _) => Some("unexpected rewiring response"@),
        (Stage::Applying { expected, .. }, message) => if message == (
        WorkerResponse::MutationsApplied { count: expected }) {
            None
        } else {
            Some("unexpected mutation application response"@)
        },
        (Stage::Preparing { origin }, WorkerResponse::ClusteringQueries { target, .. }) => {
            if target == origin || target >= state.config.workers {
                Some("invalid clustering batch target"@)
            } else {
                None
            }
        },
        (
            Stage::Preparing { .. },
            WorkerResponse::ClusteringPrepared { degrees, local_counts },
        ) => {
            if degrees@.len() != state.counts@.len() || local_counts@.len() != state.counts@.len() {
                Some("clustering summary count mismatch"@)
            } else {
                None
            }
        },
        (Stage::Preparing { .. }, _) => Some("unexpected clustering preparation response"@),
        (Stage::Resolving { .. }, WorkerResponse::EdgeQueriesResolved { counts }) => {
            if exists|k: int|
                0 <= k < counts@.len() && (#[trigger] counts@[k]).0 >= state.counts@.len() {
                Some("invalid edge-query origin index"@)
            } else {
                None
            }
        },
        _ => Some("unexpected edge-query response"@),
    }
}

/// What is said of answers that are not good; nothing where a counter is outgrown or a
/// worker speaks of a worker that there is not.
pub open spec fn answer_words(state: Coordinator, reply: Reply) -> Option<Seq<char>> {
    let answers = reply->All_0@;
    match state.stage {
        Stage::Building => if exists|t: int|
            0 <= t < answers.len() && !((#[trigger] answers[t]) is Built) {
            Some("unexpected build response"@)
        } else if built_in(reply) > u64::MAX {
            None
        } else {
            Some(
                "workers built "@ + text::decimal(built_in(reply)) + " nodes, expected "@
                    + text::decimal(state.config.nodes as nat),
            )
        },
        Stage::Counting => if exists|t: int|
            0 <= t < answers.len() && !((#[trigger] answers[t]) is GraphStats) {
            Some("unexpected graph stats response"@)
        } else if entries_in(reply) > u64::MAX {
            None
        } else {
            Some(
                "edge-count invariant failed: "@ + text::decimal(entries_in(reply))
                    + " adjacency entries, expected "@ + text::decimal(
                    (state.config.nodes * state.config.degree) as nat,
                ),
            )
        },
        Stage::Measuring => if exists|t: int|
            0 <= t < answers.len() && !((#[trigger] answers[t]) is RingDistances) {
            Some("unexpected ring distance response"@)
        } else {
            None
        },
        Stage::Expanding { .. } => if exists|t: int|
            0 <= t < answers.len() && !((#[trigger] answers[t]) is BfsExpanded) {
            Some("unexpected BFS expansion response"@)
        } else {
            None
        },
        _ => if exists|t: int|
            0 <= t < answers.len() && !((#[trigger] answers[t]) is BfsLevelFinished) {
            Some("unexpected BFS level response"@)
        } else {
            None
        },
    }
}

/// A coordinator that does not go on says what was wrong.
#[verifier::rlimit(60)]
pub proof fn lemma_stops(
    state: Coordinator,
    reply: Reply,
    clock: Clock,
    answer: Result<Turn, Stop>,
    after: Coordinator,
)
    requires
        state.wf(),
        state.expects(reply),
        state.turn(reply, clock, answer, after),
        answer is Err,
    ensures
        match match reply {
            Reply::One(message) => message_words(state, message),
            Reply::All(_) => answer_words(state, reply),
        } {
            Some(words) => answer->Err_0 is Failed && answer->Err_0->Failed_0@ == words,
            None => answer->Err_0 is Crash,
        },
{
    match reply {
        Reply::One(message) => {
            match (state.stage, message) {
                (Stage::Resolving { .. }, WorkerResponse::EdgeQueriesResolved { counts }) => {
                    if !super::clustering::within(counts@, state.counts@.len()) {
                        let k = choose|k: int|
                            0 <= k < counts@.len() && !((#[trigger] counts@[k]).0
                                < state.counts@.len());
                        assert(counts@[k].0 >= state.counts@.len());
                    }
                },
                _ => {},
            }
        },
        Reply::All(_) => {
            let answers = reply->All_0@;
            match state.stage {
                Stage::Building => {
                    lemma_other(answers, super::rewiring::is_built());
                    super::course::lemma_sum(
                        answers,
                        super::rewiring::built_nodes(),
                        |response: WorkerResponse|
                            match response {
                                WorkerResponse::Built { local_nodes, .. } => local_nodes as nat,
                                _ => 0,
                            },
                    );
                },
                Stage::Counting => {
                    lemma_other(answers, super::rewiring::is_stats());
                    super::course::lemma_sum(
                        answers,
                        super::rewiring::stats_entries(),
                        |response: WorkerResponse|
                            match response {
                                WorkerResponse::GraphStats { adjacency_entries, .. } => {
                                    adjacency_entries as nat
                                },
                                _ => 0,
                            },
                    );
                },
                Stage::Measuring => lemma_other(answers, super::search::is_ring()),
                Stage::Expanding { .. } => lemma_other(answers, super::search::is_expanded()),
                Stage::Finishing { .. } => lemma_other(answers, super::search::is_finished()),
                _ => {},
            }
        },
    }
}

proof fn lemma_other(answers: Seq<WorkerResponse>, kind: spec_fn(WorkerResponse) -> bool)
    ensures
        !super::all_are(answers, kind) <==> exists|t: int|
            0 <= t < answers.len() && !kind(#[trigger] answers[t]),
{
}

} // verus!
