//! What a coordinator has counted, told from all that the workers answered.

use super::{Action, Clock, Coordinator, Reply, Stage, Stop, Turn};
use crate::counting;
use crate::model::ExperimentConfig;
use crate::protocol::{WorkerCommand, WorkerResponse};
use vstd::prelude::*;

verus! {

/// The coordinator has been given the replies one after the other, and none of
/// them stopped the experiment.
#[verifier::opaque]
pub open spec fn course(
    config: ExperimentConfig,
    states: Seq<Coordinator>,
    replies: Seq<Reply>,
    clocks: Seq<Clock>,
    turns: Seq<Turn>,
) -> bool {
    &&& states.len() == replies.len() + 1
    &&& turns.len() == replies.len()
    &&& clocks.len() == replies.len()
    &&& states[0].wf()
    &&& states[0].config == config
    &&& states[0].stage == Stage::Building
    &&& states[0].totals.rewired_edges == 0
    &&& states[0].totals.adjacency_entries == 0
    &&& states[0].totals.cross_shard_messages == 0
    &&& states[0].totals.total_distance == 0
    &&& states[0].totals.total_reachable == 0
    &&& states[0].totals.vertices_visited == 0
    &&& forall|i: int|
        0 <= i < replies.len() ==> {
            &&& (#[trigger] states[i]).wf()
            &&& states[i].expects(replies[i])
            &&& states[i].turn(
                replies[i],
                clocks[i],
                Ok::<Turn, Stop>(turns[i]),
                states[i + 1],
            )
        }
}

/// A part of every answer, summed over the workers.
pub open spec fn over_workers(reply: Reply, part: spec_fn(WorkerResponse) -> nat) -> nat {
    match reply {
        Reply::All(responses) => counting::sum(
            |t: int| part(responses@[t]),
            responses@.len(),
        ),
        Reply::One(_) => 0,
    }
}

/// The rewired edges that a summary tells.
pub open spec fn edges_in(reply: Reply) -> nat {
    match reply {
        Reply::One(WorkerResponse::Rewired { rewired, .. }) => rewired as nat,
        _ => 0,
    }
}

/// The row entries that the workers tell.
pub open spec fn entries_in(reply: Reply) -> nat {
    over_workers(
        reply,
        |response: WorkerResponse|
            match response {
                WorkerResponse::GraphStats { adjacency_entries, .. } => adjacency_entries as nat,
                _ => 0,
            },
    )
}

/// The distances that the workers tell by the ring formula.
pub open spec fn distances_in(reply: Reply) -> nat {
    over_workers(
        reply,
        |response: WorkerResponse|
            match response {
                WorkerResponse::RingDistances { distance_sum, .. } => distance_sum as nat,
                _ => 0,
            },
    )
}

/// The reachable nodes that the workers tell by the ring formula.
pub open spec fn reachable_in(reply: Reply) -> nat {
    over_workers(
        reply,
        |response: WorkerResponse|
            match response {
                WorkerResponse::RingDistances { reachable, .. } => reachable as nat,
                _ => 0,
            },
    )
}

/// The nodes that the workers have visited, as they tell.
pub open spec fn visited_in(reply: Reply) -> nat {
    over_workers(
        reply,
        |response: WorkerResponse|
            match response {
                WorkerResponse::RingDistances { visited, .. } => visited as nat,
                WorkerResponse::BfsLevelFinished { visited, .. } => visited as nat,
                _ => 0,
            },
    )
}

/// The nodes that the workers found on a level, each among its own.
pub open spec fn found_in(reply: Reply) -> nat {
    over_workers(
        reply,
        |response: WorkerResponse|
            match response {
                WorkerResponse::BfsExpanded { local_discovered, .. } => local_discovered as nat,
                WorkerResponse::BfsLevelFinished { accepted, .. } => accepted as nat,
                _ => 0,
            },
    )
}

/// The links that entry `k` tells for the vertex at place `o`.
pub open spec fn told_at(counts: Seq<(u32, u64)>, o: int) -> spec_fn(int) -> nat {
    |k: int|
        if counts[k].0 == o {
            counts[k].1 as nat
        } else {
            0
        }
}

/// The links that the entries tell for the vertex at place `o`, together.
pub open spec fn links_at(counts: Seq<(u32, u64)>, o: int) -> nat {
    counting::sum(told_at(counts, o), counts.len())
}

/// The links that an answer tells for the vertex at place `o`.
pub open spec fn links_in(reply: Reply, o: int) -> nat {
    match reply {
        Reply::One(WorkerResponse::EdgeQueriesResolved { counts }) => links_at(counts@, o),
        _ => 0,
    }
}

/// The queries, or the discoveries, that are sent on.
pub open spec fn items_in(action: Action) -> nat {
    match action {
        Action::Ask { command: WorkerCommand::ResolveEdgeQueries(queries), .. } => queries@.len(),
        Action::AskEach(commands) => counting::sum(
            |t: int|
                match commands@[t] {
                    WorkerCommand::FinishBfsLevel(route) => route@.len(),
                    _ => 0,
                },
            commands@.len(),
        ),
        _ => 0,
    }
}

/// The mutations that are sent on.
pub open spec fn mutations_in(action: Action) -> nat {
    match action {
        Action::Ask { command: WorkerCommand::ApplyMutations(mutations), .. } => mutations@.len(),
        _ => 0,
    }
}

/// How many levels have been asked for since the last search was begun, after
/// the first `n` turns.
pub open spec fn depth(turns: Seq<Turn>, n: int) -> nat
    decreases n,
{
    if n <= 0 {
        0
    } else {
        match turns[n - 1].action {
            Action::Broadcast(WorkerCommand::StartBfs { .. }) => 0,
            Action::Broadcast(WorkerCommand::ExpandBfs) => depth(turns, n - 1) + 1,
            _ => depth(turns, n - 1),
        }
    }
}

/// The links told for the vertex at place `o` since a worker was last asked to
/// prepare its vertices, after the first `n` turns.
pub open spec fn links_since(replies: Seq<Reply>, turns: Seq<Turn>, n: int, o: int) -> nat
    decreases n,
{
    if n <= 0 {
        0
    } else {
        match turns[n - 1].action {
            Action::Ask { command: WorkerCommand::PrepareClustering { .. }, .. } => 0,
            _ => links_since(replies, turns, n - 1, o) + links_in(replies[n - 1], o),
        }
    }
}

/// The messages between workers that the turn counts: what it sends on, and the
/// mutations whose receipt it takes note of.
pub open spec fn messages_at(turns: Seq<Turn>, i: int) -> nat {
    items_in(turns[i].action) + if i == 0 {
        0
    } else {
        mutations_in(turns[i - 1].action)
    }
}

/// The distances that reply `i` adds: those of the ring formula, or those of the
/// nodes found on a level, each as far off as the level is deep.
pub open spec fn distances_at(replies: Seq<Reply>, turns: Seq<Turn>, i: int) -> nat {
    if i == 0 {
        0
    } else {
        match turns[i - 1].action {
            Action::Broadcast(WorkerCommand::RingDistances { .. }) => distances_in(replies[i]),
            Action::AskEach(_) => (found_in(replies[i - 1]) + found_in(replies[i])) * depth(
                turns,
                i,
            ),
            _ => 0,
        }
    }
}

/// The reachable nodes that reply `i` adds.
pub open spec fn reachable_at(replies: Seq<Reply>, turns: Seq<Turn>, i: int) -> nat {
    if i == 0 {
        0
    } else {
        match turns[i - 1].action {
            Action::Broadcast(WorkerCommand::RingDistances { .. }) => reachable_in(replies[i]),
            Action::AskEach(_) => found_in(replies[i - 1]) + found_in(replies[i]),
            _ => 0,
        }
    }
}

/// The row entries that reply `i` adds, where it answers how large the shards are.
pub open spec fn entries_at(replies: Seq<Reply>, turns: Seq<Turn>, i: int) -> nat {
    if i > 0 && turns[i - 1].action == Action::Broadcast(WorkerCommand::GraphStats) {
        entries_in(replies[i])
    } else {
        0
    }
}

/// The visited nodes that reply `i` adds: those of the last level of a search.
pub open spec fn visited_at(replies: Seq<Reply>, turns: Seq<Turn>, i: int) -> nat {
    if i == 0 {
        0
    } else {
        match turns[i - 1].action {
            Action::Broadcast(WorkerCommand::RingDistances { .. }) => visited_in(replies[i]),
            Action::AskEach(_) => if turns[i].action == Action::Broadcast(
                WorkerCommand::ExpandBfs,
            ) {
                0
            } else {
                visited_in(replies[i])
            },
            _ => 0,
        }
    }
}

/// The totals are the sums over the replies.
pub open spec fn tallied(
    state: Coordinator,
    replies: Seq<Reply>,
    turns: Seq<Turn>,
    n: nat,
) -> bool {
    &&& state.totals.rewired_edges == counting::sum(|i: int| edges_in(replies[i]), n)
    &&& state.totals.adjacency_entries == counting::sum(
        |i: int| entries_at(replies, turns, i),
        n,
    )
    &&& state.totals.cross_shard_messages == counting::sum(|i: int| messages_at(turns, i), n)
    &&& state.totals.total_distance == counting::sum(
        |i: int| distances_at(replies, turns, i),
        n,
    )
    &&& state.totals.total_reachable == counting::sum(
        |i: int| reachable_at(replies, turns, i),
        n,
    )
    &&& state.totals.vertices_visited == counting::sum(|i: int| visited_at(replies, turns, i), n)
}

/// What the stage tells of the turns that led to it.
spec fn placed(state: Coordinator, replies: Seq<Reply>, turns: Seq<Turn>, n: int) -> bool {
    let last = turns[n - 1].action;
    &&& match state.stage {
        Stage::Building | Stage::Rewiring { .. } | Stage::Applying { .. } | Stage::Counting =>
            state.totals.adjacency_entries == 0,
        _ => state.totals.adjacency_entries == state.config.nodes * state.config.degree,
    }
    &&& match state.stage {
        Stage::Building => n == 0,
        Stage::Rewiring { .. } | Stage::Preparing { .. } | Stage::Resolving { .. } => {
            &&& n > 0
            &&& last is Ask || last is Receive
            &&& mutations_in(last) == 0
        },
        Stage::Applying { expected, .. } => {
            &&& n > 0
            &&& last is Ask
            &&& mutations_in(last) == expected
        },
        Stage::Counting => n > 0 && last == Action::Broadcast(WorkerCommand::GraphStats),
        Stage::Measuring => n > 0 && last is Broadcast && last->Broadcast_0 is RingDistances,
        Stage::Starting => n > 0 && last is Broadcast && last->Broadcast_0 is StartBfs,
        Stage::Expanding { level } => {
            &&& n > 0
            &&& last == Action::Broadcast(WorkerCommand::ExpandBfs)
            &&& depth(turns, n) == level + 1
        },
        Stage::Finishing { level, discovered } => {
            &&& n > 1
            &&& last is AskEach
            &&& depth(turns, n) == level + 1
            &&& discovered == found_in(replies[n - 1])
        },
        Stage::Done => n > 0 && last is Finish,
    }
}

/// The result that ends an experiment tells the totals, and the time of the run.
pub open spec fn concluded(turn: Turn, after: Coordinator, clock: Clock) -> bool {
    match turn.action {
        Action::Finish(result) => {
            &&& result.total_distance == after.totals.total_distance
            &&& result.total_reachable == after.totals.total_reachable
            &&& result.vertices_visited == after.totals.vertices_visited
            &&& result.rewired_edges == after.totals.rewired_edges
            &&& result.cross_shard_messages == after.totals.cross_shard_messages
            &&& result.adjacency_entries == after.totals.adjacency_entries
            &&& result.elapsed_ms == clock.run_ms
        },
        _ => true,
    }
}

/// Every rewiring pass is over, and so is the count of the entries.
spec fn late(stage: Stage) -> bool {
    match stage {
        Stage::Building | Stage::Rewiring { .. } | Stage::Applying { .. } | Stage::Counting =>
            false,
        _ => true,
    }
}

/// Parts of the answers, summed one by one.
pub proof fn lemma_sum(
    responses: Seq<WorkerResponse>,
    part: spec_fn(WorkerResponse) -> nat,
    same: spec_fn(WorkerResponse) -> nat,
)
    requires
        forall|i: int|
            0 <= i < responses.len() ==> part(#[trigger] responses[i]) == same(responses[i]),
    ensures
        super::sum_of(responses, part) == counting::sum(
            |t: int| same(responses[t]),
            responses.len(),
        ),
    decreases responses.len(),
{
    if responses.len() > 0 {
        let short = responses.drop_last();
        assert forall|i: int| 0 <= i < short.len() implies part(#[trigger] short[i]) == same(
            short[i],
        ) by {
            assert(short[i] == responses[i]);
        }
        lemma_sum(short, part, same);
        counting::lemma_same_sum(
            |t: int| same(short[t]),
            |t: int| same(responses[t]),
            short.len(),
        );
        assert(part(responses[responses.len() - 1]) == same(responses[responses.len() - 1]));
    }
}

proof fn lemma_tally(
    before: Coordinator,
    after: Coordinator,
    replies: Seq<Reply>,
    turns: Seq<Turn>,
    n: nat,
)
    requires
        tallied(before, replies, turns, n),
        after.totals.rewired_edges == before.totals.rewired_edges + edges_in(replies[n as int]),
        after.totals.adjacency_entries == before.totals.adjacency_entries + entries_at(
            replies,
            turns,
            n as int,
        ),
        after.totals.cross_shard_messages == before.totals.cross_shard_messages + messages_at(
            turns,
            n as int,
        ),
        after.totals.total_distance == before.totals.total_distance + distances_at(
            replies,
            turns,
            n as int,
        ),
        after.totals.total_reachable == before.totals.total_reachable + reachable_at(
            replies,
            turns,
            n as int,
        ),
        after.totals.vertices_visited == before.totals.vertices_visited + visited_at(
            replies,
            turns,
            n as int,
        ),
    ensures
        tallied(after, replies, turns, n + 1),
{
}

/// What a search that begins, or the end of the experiment, leaves as it was.
proof fn lemma_source(
    ready: Coordinator,
    told: Seq<crate::model::ProgressEvent>,
    clock: Clock,
    turns: Seq<Turn>,
    after: Coordinator,
    replies: Seq<Reply>,
    n: int,
)
    requires
        0 <= n < turns.len(),
        ready.source_turn(told, clock, turns[n], after),
        ready.totals.adjacency_entries == ready.config.nodes * ready.config.degree,
    ensures
        after.config == ready.config,
        after.totals == ready.totals,
        late(after.stage),
        concluded(turns[n], after, clock),
        placed(after, replies, turns, n + 1),
        items_in(turns[n].action) == 0,
        turns[n].action != Action::Broadcast(WorkerCommand::ExpandBfs),
{
}

proof fn lemma_origin(
    ready: Coordinator,
    from: int,
    told: Seq<crate::model::ProgressEvent>,
    clock: Clock,
    turns: Seq<Turn>,
    after: Coordinator,
    replies: Seq<Reply>,
    n: int,
)
    requires
        0 <= n < turns.len(),
        ready.origin_turn(from, told, clock, turns[n], after),
        ready.totals.adjacency_entries == ready.config.nodes * ready.config.degree,
    ensures
        after.config == ready.config,
        after.totals == ready.totals,
        late(after.stage),
        concluded(turns[n], after, clock),
        placed(after, replies, turns, n + 1),
        items_in(turns[n].action) == 0,
{
    let waiting = crate::rows::seqs(ready.waiting@);
    if super::clustering::next_filled(waiting, from) >= waiting.len() {
        let told = told.push(
            crate::model::ProgressEvent::PhaseCompleted {
                phase: crate::model::Phase::Clustering,
                elapsed_ms: clock.phase_ms,
            },
        ).push(crate::model::ProgressEvent::PhaseStarted(crate::model::Phase::Bfs));
        assert(ready.search_turn(told, clock, turns[n], after));
        let begun = choose|begun: Coordinator|
            {
                &&& begun.config == ready.config
                &&& begun.totals == ready.totals
                &&& #[trigger] begun.source_turn(told, clock, turns[n], after)
            };
        lemma_source(begun, told, clock, turns, after, replies, n);
    }
}

#[verifier::rlimit(60)]
proof fn lemma_one(
    state: Coordinator,
    after: Coordinator,
    replies: Seq<Reply>,
    clock: Clock,
    turns: Seq<Turn>,
    n: nat,
)
    requires
        n < turns.len(),
        n < replies.len(),
        tallied(state, replies, turns, n),
        placed(state, replies, turns, n as int),
        replies[n as int] is One,
        state.expects(replies[n as int]),
        state.turn(replies[n as int], clock, Ok::<Turn, Stop>(turns[n as int]), after),
    ensures
        tallied(after, replies, turns, n + 1),
        placed(after, replies, turns, n as int + 1),
        after.config == state.config,
        concluded(turns[n as int], after, clock),
        late(state.stage) || state.stage == Stage::Counting ==> late(after.stage),
{
    let turn = turns[n as int];
    let response = replies[n as int]->One_0;
    match state.stage {
        Stage::Preparing { origin } => {
            match response {
                WorkerResponse::ClusteringPrepared { degrees, local_counts } => {
                    assert(state.resolved_turn(
                        origin,
                        degrees@,
                        local_counts@,
                        clock,
                        turn,
                        after,
                    ));
                    let ready = choose|ready: Coordinator|
                        {
                            &&& ready.config == state.config
                            &&& ready.totals == state.totals
                            &&& #[trigger] ready.origin_turn(
                                origin + 1,
                                turn.events@.take(1),
                                clock,
                                turn,
                                after,
                            )
                        };
                    lemma_origin(
                        ready,
                        origin + 1,
                        turn.events@.take(1),
                        clock,
                        turns,
                        after,
                        replies,
                        n as int,
                    );
                },
                _ => {},
            }
        },
        Stage::Rewiring { .. } => {
            match response {
                WorkerResponse::RewireMutations { mutations, .. } => {
                    assert(mutations.len() == mutations@.len());
                },
                _ => {},
            }
        },
        _ => {},
    }
    lemma_tally(state, after, replies, turns, n);
}

proof fn lemma_routed(commands: Seq<WorkerCommand>, responses: Seq<WorkerResponse>, count: nat)
    requires
        count <= commands.len(),
        forall|t: int|
            0 <= t < commands.len() ==> super::search::finishes(
                #[trigger] commands[t],
                responses,
                t,
            ),
    ensures
        super::search::routed_total(responses, count as int) == counting::sum(
            |t: int|
                match commands[t] {
                    WorkerCommand::FinishBfsLevel(route) => route@.len(),
                    _ => 0,
                },
            count,
        ),
    decreases count,
{
    if count > 0 {
        lemma_routed(commands, responses, (count - 1) as nat);
        assert(super::search::finishes(commands[count - 1], responses, count - 1));
    }
}

#[verifier::rlimit(60)]
proof fn lemma_all(
    state: Coordinator,
    after: Coordinator,
    replies: Seq<Reply>,
    clock: Clock,
    turns: Seq<Turn>,
    n: nat,
)
    requires
        n < turns.len(),
        n < replies.len(),
        tallied(state, replies, turns, n),
        placed(state, replies, turns, n as int),
        replies[n as int] is All,
        state.expects(replies[n as int]),
        state.turn(replies[n as int], clock, Ok::<Turn, Stop>(turns[n as int]), after),
    ensures
        tallied(after, replies, turns, n + 1),
        placed(after, replies, turns, n as int + 1),
        after.config == state.config,
        concluded(turns[n as int], after, clock),
        late(state.stage) || state.stage == Stage::Counting ==> late(after.stage),
{
    match state.stage {
        Stage::Counting => {
            lemma_counted(state, after, replies, clock, turns, n);
        },
        Stage::Measuring => {
            lemma_measured(state, after, replies, clock, turns, n);
        },
        Stage::Expanding { level } => {
            lemma_expanded(state, after, replies, clock, turns, n, level);
        },
        Stage::Finishing { level, discovered } => {
            lemma_finished(state, after, replies, clock, turns, n, level, discovered);
        },
        _ => {
            assert(state.stage == Stage::Starting ==> depth(turns, n as int) == 0);
            lemma_tally(state, after, replies, turns, n);
        },
    }
}

#[verifier::rlimit(60)]
proof fn lemma_counted(
    state: Coordinator,
    after: Coordinator,
    replies: Seq<Reply>,
    clock: Clock,
    turns: Seq<Turn>,
    n: nat,
)
    requires
        n < turns.len(),
        n < replies.len(),
        tallied(state, replies, turns, n),
        placed(state, replies, turns, n as int),
        replies[n as int] is All,
        state.stage == Stage::Counting,
        state.turn(replies[n as int], clock, Ok::<Turn, Stop>(turns[n as int]), after),
    ensures
        tallied(after, replies, turns, n + 1),
        placed(after, replies, turns, n as int + 1),
        after.config == state.config,
        concluded(turns[n as int], after, clock),
        late(state.stage) || state.stage == Stage::Counting ==> late(after.stage),
{
    let turn = turns[n as int];
    let responses = replies[n as int]->All_0@;
    let told = seq![
        crate::model::ProgressEvent::PhaseCompleted {
            phase: crate::model::Phase::Rewire,
            elapsed_ms: clock.phase_ms,
        },
        crate::model::ProgressEvent::PhaseStarted(crate::model::Phase::Clustering),
    ];
    let entries = super::sum_of(responses, super::rewiring::stats_entries());
    assert(state.sampled_turn(entries, clock, turn, after));
    let ready = choose|ready: Coordinator|
        {
            &&& ready.config == state.config
            &&& ready.totals == (super::Totals {
                adjacency_entries: entries as u64,
                ..state.totals
            })
            &&& #[trigger] ready.origin_turn(0, told, clock, turn, after)
        };
    lemma_origin(ready, 0, told, clock, turns, after, replies, n as int);
    lemma_sum(
        responses,
        super::rewiring::stats_entries(),
        |response: WorkerResponse|
            match response {
                WorkerResponse::GraphStats { adjacency_entries, .. } => adjacency_entries as nat,
                _ => 0,
            },
    );
    lemma_tally(state, after, replies, turns, n);
}

#[verifier::rlimit(60)]
proof fn lemma_measured(
    state: Coordinator,
    after: Coordinator,
    replies: Seq<Reply>,
    clock: Clock,
    turns: Seq<Turn>,
    n: nat,
)
    requires
        n < turns.len(),
        n < replies.len(),
        tallied(state, replies, turns, n),
        placed(state, replies, turns, n as int),
        replies[n as int] is All,
        state.stage == Stage::Measuring,
        state.turn(replies[n as int], clock, Ok::<Turn, Stop>(turns[n as int]), after),
    ensures
        tallied(after, replies, turns, n + 1),
        placed(after, replies, turns, n as int + 1),
        after.config == state.config,
        concluded(turns[n as int], after, clock),
        late(state.stage) || state.stage == Stage::Counting ==> late(after.stage),
{
    let turn = turns[n as int];
    let responses = replies[n as int]->All_0@;
    assert forall|i: int| 0 <= i < responses.len() implies (
    #[trigger] responses[i]) is RingDistances by {
        assert(super::search::is_ring()(responses[i]));
    }
    lemma_sum(
        responses,
        super::search::ring_sum(),
        |response: WorkerResponse|
            match response {
                WorkerResponse::RingDistances { distance_sum, .. } => distance_sum as nat,
                _ => 0,
            },
    );
    lemma_sum(
        responses,
        super::search::ring_reachable(),
        |response: WorkerResponse|
            match response {
                WorkerResponse::RingDistances { reachable, .. } => reachable as nat,
                _ => 0,
            },
    );
    lemma_sum(
        responses,
        super::search::ring_visited(),
        |response: WorkerResponse|
            match response {
                WorkerResponse::RingDistances { visited, .. } => visited as nat,
                WorkerResponse::BfsLevelFinished { visited, .. } => visited as nat,
                _ => 0,
            },
    );
    let (distance, reachable, visited, all_visited) = super::search::ring_counts(state, responses);
    let next = Coordinator {
        totals: super::Totals {
            total_distance: distance as u64,
            total_reachable: reachable as u64,
            vertices_visited: all_visited as u64,
            ..state.totals
        },
        source: (state.source + 1) as usize,
        ..state
    };
    lemma_source(next, turn.events@.take(2), clock, turns, after, replies, n as int);
    lemma_tally(state, after, replies, turns, n);
}

#[verifier::rlimit(60)]
proof fn lemma_expanded(
    state: Coordinator,
    after: Coordinator,
    replies: Seq<Reply>,
    clock: Clock,
    turns: Seq<Turn>,
    n: nat,
    level: u32,
)
    requires
        n < turns.len(),
        n < replies.len(),
        tallied(state, replies, turns, n),
        placed(state, replies, turns, n as int),
        replies[n as int] is All,
        state.stage == (Stage::Expanding { level }),
        state.turn(replies[n as int], clock, Ok::<Turn, Stop>(turns[n as int]), after),
    ensures
        tallied(after, replies, turns, n + 1),
        placed(after, replies, turns, n as int + 1),
        after.config == state.config,
        concluded(turns[n as int], after, clock),
        late(state.stage) || state.stage == Stage::Counting ==> late(after.stage),
{
    let turn = turns[n as int];
    let responses = replies[n as int]->All_0@;
    assert forall|i: int| 0 <= i < responses.len() implies (
    #[trigger] responses[i]) is BfsExpanded by {
        assert(super::search::is_expanded()(responses[i]));
    }
    lemma_sum(
        responses,
        super::search::local_found(),
        |response: WorkerResponse|
            match response {
                WorkerResponse::BfsExpanded { local_discovered, .. } => local_discovered as nat,
                WorkerResponse::BfsLevelFinished { accepted, .. } => accepted as nat,
                _ => 0,
            },
    );
    let commands = turn.action->AskEach_0@;
    lemma_routed(commands, responses, commands.len());
    lemma_tally(state, after, replies, turns, n);
}

#[verifier::rlimit(60)]
proof fn lemma_finished(
    state: Coordinator,
    after: Coordinator,
    replies: Seq<Reply>,
    clock: Clock,
    turns: Seq<Turn>,
    n: nat,
    level: u32,
    discovered: u64,
)
    requires
        n < turns.len(),
        n < replies.len(),
        tallied(state, replies, turns, n),
        placed(state, replies, turns, n as int),
        replies[n as int] is All,
        state.stage == (Stage::Finishing { level, discovered }),
        state.turn(replies[n as int], clock, Ok::<Turn, Stop>(turns[n as int]), after),
    ensures
        tallied(after, replies, turns, n + 1),
        placed(after, replies, turns, n as int + 1),
        after.config == state.config,
        concluded(turns[n as int], after, clock),
        late(state.stage) || state.stage == Stage::Counting ==> late(after.stage),
{
    let turn = turns[n as int];
    let responses = replies[n as int]->All_0@;
    assert forall|i: int| 0 <= i < responses.len() implies (
    #[trigger] responses[i]) is BfsLevelFinished by {
        assert(super::search::is_finished()(responses[i]));
    }
    lemma_sum(
        responses,
        super::search::accepted_found(),
        |response: WorkerResponse|
            match response {
                WorkerResponse::BfsExpanded { local_discovered, .. } => local_discovered as nat,
                WorkerResponse::BfsLevelFinished { accepted, .. } => accepted as nat,
                _ => 0,
            },
    );
    lemma_sum(
        responses,
        super::search::level_visited(),
        |response: WorkerResponse|
            match response {
                WorkerResponse::RingDistances { visited, .. } => visited as nat,
                WorkerResponse::BfsLevelFinished { visited, .. } => visited as nat,
                _ => 0,
            },
    );
    let found = discovered as nat + super::sum_of(responses, super::search::accepted_found());
    let complete = super::sum_of(responses, super::search::frontier_size()) == 0;
    assert(found * (level + 1) as nat == (found_in(replies[n - 1]) + found_in(replies[n as int]))
        * depth(turns, n as int));
    if complete {
        let totals = super::Totals {
            total_distance: (state.totals.total_distance as nat + found * (level
                + 1) as nat) as u64,
            total_reachable: (state.totals.total_reachable as nat + found) as u64,
            vertices_visited: (state.totals.vertices_visited as nat + super::sum_of(
                responses,
                super::search::level_visited(),
            )) as u64,
            ..state.totals
        };
        let next = Coordinator { totals, source: (state.source + 1) as usize, ..state };
        lemma_source(next, turn.events@.take(2), clock, turns, after, replies, n as int);
    }
    lemma_tally(state, after, replies, turns, n);
}

/// Whatever the workers answered, the totals of a coordinator that goes on are
/// the sums of what they told: the rewired edges of every pass, the entries of
/// every shard, the distances, reachable nodes and visited nodes of every search,
/// where a node found on a level is as far off as the level is deep; and the
/// messages are the mutations, queries and discoveries that were sent on.
pub proof fn lemma_totals(
    config: ExperimentConfig,
    states: Seq<Coordinator>,
    replies: Seq<Reply>,
    clocks: Seq<Clock>,
    turns: Seq<Turn>,
    n: nat,
)
    requires
        course(config, states, replies, clocks, turns),
        n <= replies.len(),
    ensures
        states[n as int].totals.rewired_edges == counting::sum(
            |i: int|
                match replies[i] {
                    Reply::One(WorkerResponse::Rewired { rewired, .. }) => rewired as nat,
                    _ => 0,
                },
            n,
        ),
        tallied(states[n as int], replies, turns, n),
{
    lemma_course(config, states, replies, clocks, turns, n);
    let left = |i: int| edges_in(replies[i]);
    let right = |i: int|
        match replies[i] {
            Reply::One(WorkerResponse::Rewired { rewired, .. }) => rewired as nat,
            _ => 0,
        };
    assert forall|i: int| 0 <= i < n implies #[trigger] left(i) == right(i) by {}
    counting::lemma_same_sum(left, right, n);
}

#[verifier::rlimit(60)]
proof fn lemma_course(
    config: ExperimentConfig,
    states: Seq<Coordinator>,
    replies: Seq<Reply>,
    clocks: Seq<Clock>,
    turns: Seq<Turn>,
    n: nat,
)
    requires
        course(config, states, replies, clocks, turns),
        n <= replies.len(),
    ensures
        tallied(states[n as int], replies, turns, n),
        placed(states[n as int], replies, turns, n as int),
        states[n as int].config == config,
    decreases n,
{
    reveal(course);
    if n > 0 {
        let m = (n - 1) as nat;
        lemma_course(config, states, replies, clocks, turns, m);
        assert(states[m as int].wf());
        match replies[m as int] {
            Reply::One(_) => lemma_one(
                states[m as int],
                states[n as int],
                replies,
                clocks[m as int],
                turns,
                m,
            ),
            Reply::All(_) => lemma_all(
                states[m as int],
                states[n as int],
                replies,
                clocks[m as int],
                turns,
                m,
            ),
        }
    }
}

/// The configuration stays.
pub proof fn lemma_config(
    config: ExperimentConfig,
    states: Seq<Coordinator>,
    replies: Seq<Reply>,
    clocks: Seq<Clock>,
    turns: Seq<Turn>,
    n: nat,
)
    requires
        course(config, states, replies, clocks, turns),
        n <= replies.len(),
    ensures
        states[n as int].config == config,
{
    lemma_course(config, states, replies, clocks, turns, n);
}

/// The summaries of rewiring passes among the first `n` replies.
pub open spec fn summaries(replies: Seq<Reply>, n: int) -> Seq<WorkerResponse>
    decreases n,
{
    if n <= 0 {
        Seq::empty()
    } else {
        match replies[n - 1] {
            Reply::One(WorkerResponse::Rewired { considered, rewired }) => summaries(
                replies,
                n - 1,
            ).push(WorkerResponse::Rewired { considered, rewired }),
            _ => summaries(replies, n - 1),
        }
    }
}

/// The workers are asked for their rewiring passes one after the other, each for
/// one: the summaries are as many as the workers that have finished, and the
/// total of rewired edges is what they tell together.
#[verifier::rlimit(60)]
pub proof fn lemma_summaries(
    config: ExperimentConfig,
    states: Seq<Coordinator>,
    replies: Seq<Reply>,
    clocks: Seq<Clock>,
    turns: Seq<Turn>,
    n: nat,
)
    requires
        course(config, states, replies, clocks, turns),
        n <= replies.len(),
    ensures
        summaries(replies, n as int).len() == match states[n as int].stage {
            Stage::Building => 0,
            Stage::Rewiring { source } => source as int,
            Stage::Applying { source, .. } => source as int,
            _ => config.workers as int,
        },
        states[n as int].totals.rewired_edges == counting::sum(
            |k: int| summaries(replies, n as int)[k]->rewired as nat,
            summaries(replies, n as int).len(),
        ),
    decreases n,
{
    reveal(course);
    lemma_course(config, states, replies, clocks, turns, n);
    if n > 0 {
        let m = (n - 1) as nat;
        lemma_summaries(config, states, replies, clocks, turns, m);
        lemma_course(config, states, replies, clocks, turns, m);
        assert(states[m as int].wf());
        let short = summaries(replies, m as int);
        let all = summaries(replies, n as int);
        counting::lemma_same_sum(
            |k: int| short[k]->rewired as nat,
            |k: int| all[k]->rewired as nat,
            short.len(),
        );
    }
}

/// A summary is one of a rewiring pass.
pub proof fn lemma_summary(replies: Seq<Reply>, n: int, k: int)
    requires
        0 <= k < summaries(replies, n).len(),
    ensures
        summaries(replies, n)[k] is Rewired,
    decreases n,
{
    if n > 0 && k < summaries(replies, n - 1).len() {
        lemma_summary(replies, n - 1, k);
    }
}

/// A search that has been begun is waited for.
pub proof fn lemma_begun(
    config: ExperimentConfig,
    states: Seq<Coordinator>,
    replies: Seq<Reply>,
    clocks: Seq<Clock>,
    turns: Seq<Turn>,
    i: int,
)
    requires
        course(config, states, replies, clocks, turns),
        0 <= i < replies.len(),
        turns[i].action is Broadcast,
        turns[i].action->Broadcast_0 is StartBfs || turns[i].action->Broadcast_0 is RingDistances,
    ensures
        states[i + 1].stage == if turns[i].action->Broadcast_0 is StartBfs {
            Stage::Starting
        } else {
            Stage::Measuring
        },
{
    reveal(course);
    lemma_course(config, states, replies, clocks, turns, (i + 1) as nat);
    if i + 1 < replies.len() {
        assert(states[i + 1].wf());
    }
}

/// What is known of one turn of the course.
pub proof fn lemma_at(
    config: ExperimentConfig,
    states: Seq<Coordinator>,
    replies: Seq<Reply>,
    clocks: Seq<Clock>,
    turns: Seq<Turn>,
    i: int,
)
    requires
        course(config, states, replies, clocks, turns),
        0 <= i < replies.len(),
    ensures
        states.len() == replies.len() + 1,
        turns.len() == replies.len(),
        clocks.len() == replies.len(),
        states[i].wf(),
        states[i].config == config,
        states[i].expects(replies[i]),
        states[i].turn(replies[i], clocks[i], Ok::<Turn, Stop>(turns[i]), states[i + 1]),
{
    lemma_config(config, states, replies, clocks, turns, i as nat);
    reveal(course);
}

/// The result of an experiment tells the sums over all replies; the row entries are
/// `N * K` and the time is that of the run.
#[verifier::rlimit(60)]
pub proof fn lemma_result(
    config: ExperimentConfig,
    states: Seq<Coordinator>,
    replies: Seq<Reply>,
    clocks: Seq<Clock>,
    turns: Seq<Turn>,
    i: int,
)
    requires
        course(config, states, replies, clocks, turns),
        0 <= i < replies.len(),
        turns[i].action is Finish,
    ensures
        ({
            let result = turns[i].action->Finish_0;
            let n = (i + 1) as nat;
            &&& result.rewired_edges == counting::sum(|j: int| edges_in(replies[j]), n)
            &&& result.cross_shard_messages == counting::sum(|j: int| messages_at(turns, j), n)
            &&& result.total_distance == counting::sum(
                |j: int| distances_at(replies, turns, j),
                n,
            )
            &&& result.total_reachable == counting::sum(
                |j: int| reachable_at(replies, turns, j),
                n,
            )
            &&& result.vertices_visited == counting::sum(
                |j: int| visited_at(replies, turns, j),
                n,
            )
            &&& result.adjacency_entries == config.nodes * config.degree
            &&& result.elapsed_ms == clocks[i].run_ms
        }),
{
    lemma_course(config, states, replies, clocks, turns, i as nat);
    lemma_course(config, states, replies, clocks, turns, (i + 1) as nat);
    lemma_at(config, states, replies, clocks, turns, i);
    match replies[i] {
        Reply::One(_) => lemma_one(states[i], states[i + 1], replies, clocks[i], turns, i as nat),
        Reply::All(_) => lemma_all(states[i], states[i + 1], replies, clocks[i], turns, i as nat),
    }
}

} // verus!
