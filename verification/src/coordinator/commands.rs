//! What a coordinator asks of the workers in the course of an experiment, and
//! what it makes of the answers about clustering.

use super::course::{course, links_at, links_in, links_since, told_at};
use super::{Action, Clock, Coordinator, Reply, Stage, Stop, Turn};
use crate::counting;
use crate::metrics::LocalClustering;
use crate::model::{ExperimentConfig, Phase, ProgressEvent};
use crate::protocol::{WorkerCommand, WorkerResponse};
use crate::random;
use crate::rows;
use vstd::prelude::*;

verus! {

/// The sampled vertices that worker `t` owns, in the order in which they were drawn:
/// 20,000 vertices, or all there are.
pub open spec fn drawn_for(config: ExperimentConfig, t: int) -> Seq<u32> {
    let drawn = random::index_sample(
        random::seeded(config.seed ^ 0x646f_7261_6e64_6f6d),
        config.nodes as usize,
        if config.nodes <= 20_000 {
            config.nodes as usize
        } else {
            20_000
        },
    );
    Seq::new(drawn.len(), |i: int| drawn[i] as u32).filter(
        |v: u32| ((v + 1) * config.workers - 1) / (config.nodes as int) == t,
    )
}

/// The worker that was last asked for the clustering of its vertices.
pub open spec fn last_asked(turns: Seq<Turn>, n: int) -> int
    decreases n,
{
    if n <= 0 {
        -1
    } else {
        match turns[n - 1].action {
            Action::Ask { worker, command: WorkerCommand::PrepareClustering { .. } } => {
                worker as int
            },
            _ => last_asked(turns, n - 1),
        }
    }
}

/// How many sources have been searched from, or are being.
pub open spec fn searches(turns: Seq<Turn>, n: int) -> nat
    decreases n,
{
    if n <= 0 {
        0
    } else {
        searches(turns, n - 1) + match turns[n - 1].action {
            Action::Broadcast(WorkerCommand::StartBfs { .. }) => 1,
            Action::Broadcast(WorkerCommand::RingDistances { .. }) => 1,
            _ => 0nat,
        }
    }
}

/// The links and degrees that the summaries tell, vertex after vertex: a vertex has
/// the links that its worker counted and those told by the others since it was
/// asked for.
pub open spec fn found(replies: Seq<Reply>, turns: Seq<Turn>, n: int) -> Seq<LocalClustering>
    decreases n,
{
    if n <= 0 {
        Seq::empty()
    } else {
        match replies[n - 1] {
            Reply::One(WorkerResponse::ClusteringPrepared { degrees, local_counts }) => found(
                replies,
                turns,
                n - 1,
            ) + Seq::new(
                degrees@.len(),
                |o: int|
                    LocalClustering {
                        links: (local_counts@[o] + links_since(replies, turns, n - 1, o)) as u64,
                        degree: degrees@[o] as usize,
                    },
            ),
            _ => found(replies, turns, n - 1),
        }
    }
}

/// What the stage tells of the turns before it.
spec fn kept(state: Coordinator, replies: Seq<Reply>, turns: Seq<Turn>, n: int) -> bool {
    let config = state.config;
    match state.stage {
        Stage::Building | Stage::Rewiring { .. } | Stage::Applying { .. } | Stage::Counting => {
            &&& searches(turns, n) == 0
            &&& last_asked(turns, n) == -1
            &&& state.clustering@ == found(replies, turns, n)
        },
        Stage::Preparing { origin } | Stage::Resolving { origin } => {
            &&& searches(turns, n) == 0
            &&& last_asked(turns, n) == origin
            &&& state.clustering@ == found(replies, turns, n)
            &&& state.waiting@.len() == config.workers
            &&& forall|t: int|
                origin < t < config.workers ==> (#[trigger] state.waiting@[t])@ == drawn_for(
                    config,
                    t,
                )
            &&& forall|o: int|
                0 <= o < state.counts@.len() ==> #[trigger] state.counts@[o] == links_since(
                    replies,
                    turns,
                    n,
                    o,
                )
        },
        Stage::Done => {
            &&& searches(turns, n) == config.bfs_samples
            &&& forall|t: int|
                last_asked(turns, n) < t < config.workers ==> (#[trigger] drawn_for(
                    config,
                    t,
                )).len() == 0
        },
        _ => {
            &&& searches(turns, n) == state.source + 1
            &&& state.clustering@ == found(replies, turns, n)
            &&& sources_drawn(state)
            &&& forall|t: int|
                last_asked(turns, n) < t < config.workers ==> (#[trigger] drawn_for(
                    config,
                    t,
                )).len() == 0
        },
    }
}

/// The sources are those drawn with the seed.
spec fn sources_drawn(state: Coordinator) -> bool {
    let config = state.config;
    &&& state.sources@.len() == config.bfs_samples
    &&& forall|i: int|
        0 <= i < state.sources@.len() ==> #[trigger] state.sources@[i] == random::index_sample(
            random::seeded(config.seed ^ 0x6c79_6765_6e65_7261),
            config.nodes as usize,
            if config.bfs_samples <= config.nodes {
                config.bfs_samples as usize
            } else {
                config.nodes as usize
            },
        )[i]
}

/// What is asked in turn `i` is what should be asked.
pub open spec fn asks_right(
    config: ExperimentConfig,
    replies: Seq<Reply>,
    turns: Seq<Turn>,
    i: int,
) -> bool {
    match turns[i].action {
        Action::Ask { worker, command: WorkerCommand::Rewire { probability, seed } } => {
            &&& probability == config.probability
            &&& seed == config.seed ^ 0x736f_6d65_7073_6575
            &&& worker == super::course::summaries(replies, i + 1).len()
        },
        Action::Ask { worker, command: WorkerCommand::ApplyMutations(batch) } => {
            match replies[i] {
                Reply::One(WorkerResponse::RewireMutations { target, mutations }) => target
                    == worker && mutations == batch,
                _ => false,
            }
        },
        Action::Ask { worker, command: WorkerCommand::ResolveEdgeQueries(batch) } => {
            match replies[i] {
                Reply::One(WorkerResponse::ClusteringQueries { target, queries }) => target
                    == worker && queries == batch,
                _ => false,
            }
        },
        Action::Ask { worker, command: WorkerCommand::PrepareClustering { vertices } } => {
            &&& vertices@ == drawn_for(config, worker as int)
            &&& vertices@.len() > 0
            &&& last_asked(turns, i) < worker < config.workers
            &&& forall|t: int|
                last_asked(turns, i) < t < worker ==> (#[trigger] drawn_for(config, t)).len() == 0
        },
        Action::Ask { .. } => false,
        Action::Broadcast(WorkerCommand::GraphStats) => super::course::summaries(
            replies,
            i + 1,
        ).len() == config.workers,
        Action::Broadcast(WorkerCommand::StartBfs { source }) => {
            &&& config.probability.bits != 0
            &&& config.probability.bits != 0x8000_0000_0000_0000
            &&& begins_search(config, turns, i, source)
        },
        Action::Broadcast(WorkerCommand::RingDistances { source }) => {
            &&& config.probability.bits == 0 || config.probability.bits == 0x8000_0000_0000_0000
            &&& begins_search(config, turns, i, source)
        },
        Action::Broadcast(WorkerCommand::ExpandBfs) => true,
        Action::Broadcast(_) => false,
        Action::AskEach(commands) => {
            &&& commands@.len() == config.workers
            &&& forall|t: int|
                0 <= t < config.workers ==> {
                    &&& (#[trigger] commands@[t]) is FinishBfsLevel
                    &&& passes_on(replies[i], t, commands@[t]->FinishBfsLevel_0@)
                }
        },
        Action::Receive { .. } => true,
        Action::Finish(result) => {
            &&& searches(turns, i) == config.bfs_samples
            &&& result.clustering@ == found(replies, turns, i + 1)
            &&& forall|t: int|
                last_asked(turns, i) < t < config.workers ==> (#[trigger] drawn_for(
                    config,
                    t,
                )).len() == 0
        },
    }
}

/// The source is the next of those drawn with the seed, and no worker is left whose
/// vertices were not asked for.
pub open spec fn begins_search(
    config: ExperimentConfig,
    turns: Seq<Turn>,
    i: int,
    source: u32,
) -> bool {
    &&& searches(turns, i) < config.bfs_samples
    &&& source == random::index_sample(
        random::seeded(config.seed ^ 0x6c79_6765_6e65_7261),
        config.nodes as usize,
        if config.bfs_samples <= config.nodes {
            config.bfs_samples as usize
        } else {
            config.nodes as usize
        },
    )[searches(turns, i) as int]
    &&& forall|t: int|
        last_asked(turns, i) < t < config.workers ==> (#[trigger] drawn_for(config, t)).len() == 0
}

/// The route holds the nodes that some worker reports to worker `t`, each once, in
/// ascending order.
pub open spec fn passes_on(reply: Reply, t: int, route: Seq<u32>) -> bool {
    match reply {
        Reply::All(responses) => {
            &&& forall|a: int, b: int| 0 <= a < b < route.len() ==> route[a] < route[b]
            &&& forall|node: u32| #[trigger]
                route.contains(node) <==> exists|s: int|
                    0 <= s < responses@.len() && match #[trigger] responses@[s] {
                        WorkerResponse::BfsExpanded { discoveries_by_owner, .. } => 0 <= t
                            < discoveries_by_owner@.len()
                            && discoveries_by_owner@[t]@.contains(node),
                        _ => false,
                    }
        },
        Reply::One(_) => false,
    }
}

proof fn lemma_drawn(config: ExperimentConfig, t: int)
    ensures
        config.clustering_share(t) == drawn_for(config, t),
{
    let sample = config.clustering_sample();
    let keep = |v: u32| ((v + 1) * config.workers - 1) / (config.nodes as int) == t;
    lemma_owned(sample, config, t, keep);
}

proof fn lemma_owned(
    nodes: Seq<u32>,
    config: ExperimentConfig,
    t: int,
    keep: spec_fn(u32) -> bool,
)
    requires
        forall|v: u32| #[trigger]
            keep(v) == (((v + 1) * config.workers - 1) / (config.nodes as int) == t),
    ensures
        crate::worker::bfs::owned_part(nodes, config.cluster(), t) == nodes.filter(keep),
    decreases nodes.len(),
{
    reveal(Seq::filter);
    if nodes.len() > 0 {
        lemma_owned(nodes.drop_last(), config, t, keep);
    }
}

/// The links told for a place, one by one.
pub proof fn lemma_links(counts: Seq<(u32, u64)>, o: int)
    ensures
        super::clustering::links_for(counts, o) == links_at(counts, o),
    decreases counts.len(),
{
    if counts.len() > 0 {
        let short = counts.drop_last();
        lemma_links(short, o);
        counting::lemma_same_sum(told_at(short, o), told_at(counts, o), short.len());
    }
}

proof fn lemma_next(groups: Seq<Seq<u32>>, from: int)
    requires
        0 <= from,
    ensures
        ({
            let next = super::clustering::next_filled(groups, from);
            &&& from < groups.len() ==> from <= next <= groups.len()
            &&& next < groups.len() ==> groups[next].len() > 0
            &&& forall|t: int|
                from <= t < next && t < groups.len() ==> (#[trigger] groups[t]).len() == 0
        }),
    decreases groups.len() - from,
{
    if from < groups.len() && groups[from].len() == 0 {
        lemma_next(groups, from + 1);
    }
}

proof fn lemma_source(
    ready: Coordinator,
    told: Seq<ProgressEvent>,
    clock: Clock,
    after: Coordinator,
    replies: Seq<Reply>,
    turns: Seq<Turn>,
    n: int,
)
    requires
        0 <= n < turns.len(),
        ready.source_turn(told, clock, turns[n], after),
        sources_drawn(ready),
        ready.source <= ready.sources@.len(),
        ready.clustering@ == found(replies, turns, n + 1),
        searches(turns, n) == ready.source,
        forall|t: int|
            last_asked(turns, n) < t < ready.config.workers ==> (#[trigger] drawn_for(
                ready.config,
                t,
            )).len() == 0,
    ensures
        kept(after, replies, turns, n + 1),
        asks_right(ready.config, replies, turns, n),
{
}

#[verifier::rlimit(60)]
proof fn lemma_origin(
    ready: Coordinator,
    from: int,
    told: Seq<ProgressEvent>,
    clock: Clock,
    after: Coordinator,
    replies: Seq<Reply>,
    turns: Seq<Turn>,
    n: int,
)
    requires
        0 <= n < turns.len(),
        0 <= from <= ready.config.workers,
        ready.config.sound(),
        ready.origin_turn(from, told, clock, turns[n], after),
        ready.waiting@.len() == ready.config.workers,
        forall|t: int|
            from <= t < ready.config.workers ==> (#[trigger] ready.waiting@[t])@ == drawn_for(
                ready.config,
                t,
            ),
        ready.clustering@ == found(replies, turns, n + 1),
        searches(turns, n) == 0,
        last_asked(turns, n) == from - 1,
    ensures
        kept(after, replies, turns, n + 1),
        asks_right(ready.config, replies, turns, n),
{
    let config = ready.config;
    let waiting = rows::seqs(ready.waiting@);
    let origin = super::clustering::next_filled(waiting, from);
    lemma_next(waiting, from);
    assert forall|t: int| from <= t < origin && t < config.workers implies (#[trigger] drawn_for(
        config,
        t,
    )).len() == 0 by {
        assert(ready.waiting@[t]@ == drawn_for(config, t));
        assert(waiting[t].len() == 0);
    }
    if origin < waiting.len() {
        assert(ready.waiting@[origin]@ == drawn_for(config, origin));
        let rest = rows::seqs(after.waiting@);
        assert(rest.len() == waiting.len());
        assert forall|t: int| origin < t < config.workers implies (#[trigger] after.waiting@[t])@
            == drawn_for(config, t) by {
            assert(rest[t] == waiting[t]);
            assert(ready.waiting@[t]@ == drawn_for(config, t));
        }
    } else {
        let more = told.push(
            ProgressEvent::PhaseCompleted {
                phase: Phase::Clustering,
                elapsed_ms: clock.phase_ms,
            },
        ).push(ProgressEvent::PhaseStarted(Phase::Bfs));
        assert(ready.search_turn(more, clock, turns[n], after));
        let begun = choose|begun: Coordinator|
            {
                &&& begun.config == ready.config
                &&& begun.totals == ready.totals
                &&& begun.waiting == ready.waiting
                &&& begun.counts == ready.counts
                &&& begun.clustering == ready.clustering
                &&& begun.stage == ready.stage
                &&& begun.source == 0
                &&& begun.sources@.len() == ready.config.bfs_samples
                &&& forall|i: int|
                    0 <= i < begun.sources@.len() ==> #[trigger] begun.sources@[i]
                        == ready.config.source_sample()[i]
                &&& #[trigger] begun.source_turn(more, clock, turns[n], after)
            };
        lemma_source(begun, more, clock, after, replies, turns, n);
    }
}

#[verifier::rlimit(60)]
proof fn lemma_rewiring(
    config: ExperimentConfig,
    states: Seq<Coordinator>,
    replies: Seq<Reply>,
    clocks: Seq<Clock>,
    turns: Seq<Turn>,
    n: nat,
)
    requires
        course(config, states, replies, clocks, turns),
        n < replies.len(),
        replies[n as int] is One,
        states[n as int].config == config,
        states[n as int].stage is Rewiring || states[n as int].stage is Applying,
        kept(states[n as int], replies, turns, n as int),
    ensures
        kept(states[n as int + 1], replies, turns, n as int + 1),
        asks_right(config, replies, turns, n as int),
{
    reveal(course);
    let state = states[n as int];
    let after = states[n as int + 1];
    assert(state.wf());
    super::course::lemma_summaries(config, states, replies, clocks, turns, n);
    super::course::lemma_summaries(config, states, replies, clocks, turns, n + 1);
}

#[verifier::rlimit(60)]
proof fn lemma_preparing(
    config: ExperimentConfig,
    states: Seq<Coordinator>,
    replies: Seq<Reply>,
    clocks: Seq<Clock>,
    turns: Seq<Turn>,
    n: nat,
)
    requires
        course(config, states, replies, clocks, turns),
        n < replies.len(),
        replies[n as int] is One,
        states[n as int].config == config,
        states[n as int].stage is Preparing,
        kept(states[n as int], replies, turns, n as int),
    ensures
        kept(states[n as int + 1], replies, turns, n as int + 1),
        asks_right(config, replies, turns, n as int),
{
    reveal(course);
    let state = states[n as int];
    let after = states[n as int + 1];
    let turn = turns[n as int];
    let clock = clocks[n as int];
    let response = replies[n as int]->One_0;
    assert(state.wf());
    let origin = state.stage->Preparing_origin;
    match response {
        WorkerResponse::ClusteringPrepared { degrees, local_counts } => {
            assert(state.resolved_turn(
                origin,
                degrees@,
                local_counts@,
                clock,
                turn,
                after,
            ));
            let ready = choose|ready: Coordinator|
                {
                    &&& ready.config == state.config
                    &&& ready.stage == state.stage
                    &&& ready.totals == state.totals
                    &&& ready.waiting == state.waiting
                    &&& ready.sources == state.sources
                    &&& ready.source == state.source
                    &&& ready.clustering@ == state.clustering@
                        + super::clustering::resolved(
                        degrees@,
                        state.counts@,
                        local_counts@,
                    )
                    &&& #[trigger] ready.origin_turn(
                        origin + 1,
                        turn.events@.take(1),
                        clock,
                        turn,
                        after,
                    )
                };
            assert(ready.clustering@ =~= found(replies, turns, n as int + 1));
            lemma_origin(
                ready,
                origin + 1,
                turn.events@.take(1),
                clock,
                after,
                replies,
                turns,
                n as int,
            );
        },
        _ => {},
    }
}

#[verifier::rlimit(60)]
proof fn lemma_resolving(
    state: Coordinator,
    after: Coordinator,
    replies: Seq<Reply>,
    turns: Seq<Turn>,
    n: int,
    origin: usize,
)
    requires
        0 <= n < turns.len(),
        n < replies.len(),
        replies[n] is One,
        state.stage == (Stage::Resolving { origin }),
        state.answered_turn(origin, replies[n]->One_0, Ok::<Turn, Stop>(turns[n]), after),
        kept(state, replies, turns, n),
    ensures
        kept(after, replies, turns, n + 1),
        asks_right(state.config, replies, turns, n),
{
    let counts = replies[n]->One_0->EdgeQueriesResolved_counts@;
    assert(after.counts@.len() == state.counts@.len());
    assert forall|o: int| 0 <= o < after.counts@.len() implies #[trigger] after.counts@[o]
        == links_since(replies, turns, n + 1, o) by {
        lemma_links(counts, o);
        let gain = super::clustering::gained(state.counts@, counts, o);
        assert(gain <= u64::MAX);
        assert(state.counts@[o] == links_since(replies, turns, n, o));
        assert(after.counts@[o] == gain as u64);
        assert(links_in(replies[n], o) == super::clustering::links_for(counts, o));
    }
    assert(searches(turns, n + 1) == 0);
    assert(last_asked(turns, n + 1) == origin);
    assert(found(replies, turns, n + 1) == found(replies, turns, n));
}

#[verifier::rlimit(60)]
proof fn lemma_one(
    config: ExperimentConfig,
    states: Seq<Coordinator>,
    replies: Seq<Reply>,
    clocks: Seq<Clock>,
    turns: Seq<Turn>,
    n: nat,
)
    requires
        course(config, states, replies, clocks, turns),
        n < replies.len(),
        replies[n as int] is One,
        states[n as int].config == config,
        kept(states[n as int], replies, turns, n as int),
    ensures
        kept(states[n as int + 1], replies, turns, n as int + 1),
        asks_right(config, replies, turns, n as int),
{
    reveal(course);
    assert(states[n as int].wf());
    match states[n as int].stage {
        Stage::Preparing { .. } => lemma_preparing(config, states, replies, clocks, turns, n),
        Stage::Resolving { origin } => lemma_resolving(
            states[n as int],
            states[n as int + 1],
            replies,
            turns,
            n as int,
            origin,
        ),
        _ => lemma_rewiring(config, states, replies, clocks, turns, n),
    }
}

#[verifier::rlimit(60)]
proof fn lemma_all(
    config: ExperimentConfig,
    states: Seq<Coordinator>,
    replies: Seq<Reply>,
    clocks: Seq<Clock>,
    turns: Seq<Turn>,
    n: nat,
)
    requires
        course(config, states, replies, clocks, turns),
        n < replies.len(),
        replies[n as int] is All,
        states[n as int].config == config,
        kept(states[n as int], replies, turns, n as int),
    ensures
        kept(states[n as int + 1], replies, turns, n as int + 1),
        asks_right(config, replies, turns, n as int),
{
    reveal(course);
    let state = states[n as int];
    let after = states[n as int + 1];
    let turn = turns[n as int];
    let clock = clocks[n as int];
    let responses = replies[n as int]->All_0@;
    assert(state.wf());
    super::course::lemma_summaries(config, states, replies, clocks, turns, n);
    super::course::lemma_summaries(config, states, replies, clocks, turns, n + 1);
    match state.stage {
        Stage::Counting => {
            let told = seq![
                ProgressEvent::PhaseCompleted { phase: Phase::Rewire, elapsed_ms: clock.phase_ms },
                ProgressEvent::PhaseStarted(Phase::Clustering),
            ];
            let entries = super::sum_of(responses, super::rewiring::stats_entries());
            assert(state.sampled_turn(entries, clock, turn, after));
            let ready = choose|ready: Coordinator|
                {
                    &&& ready.config == state.config
                    &&& ready.stage == state.stage
                    &&& ready.totals == (super::Totals {
                        adjacency_entries: entries as u64,
                        ..state.totals
                    })
                    &&& ready.counts == state.counts
                    &&& ready.clustering == state.clustering
                    &&& ready.sources == state.sources
                    &&& ready.source == state.source
                    &&& rows::seqs(ready.waiting@) == Seq::new(
                        state.config.workers as nat,
                        |t: int| state.config.clustering_share(t),
                    )
                    &&& #[trigger] ready.origin_turn(0, told, clock, turn, after)
                };
            let shares = rows::seqs(ready.waiting@);
            assert(shares.len() == config.workers);
            assert forall|t: int| 0 <= t < config.workers implies (#[trigger] ready.waiting@[t])@
                == drawn_for(config, t) by {
                lemma_drawn(config, t);
                assert(shares[t] == config.clustering_share(t));
            }
            lemma_origin(ready, 0, told, clock, after, replies, turns, n as int);
        },
        Stage::Measuring => {
            let (distance, reachable, visited, all_visited) = super::search::ring_counts(
                state,
                responses,
            );
            let next = Coordinator {
                totals: super::Totals {
                    total_distance: distance as u64,
                    total_reachable: reachable as u64,
                    vertices_visited: all_visited as u64,
                    ..state.totals
                },
                source: (state.source + 1) as usize,
                ..state
            };
            lemma_source(next, turn.events@.take(2), clock, after, replies, turns, n as int);
        },
        Stage::Expanding { level } => {
            let commands = turn.action->AskEach_0@;
            assert forall|t: int| 0 <= t < config.workers implies (
            #[trigger] commands[t]) is FinishBfsLevel && passes_on(
                replies[n as int],
                t,
                commands[t]->FinishBfsLevel_0@,
            ) by {
                assert(super::search::finishes(commands[t], responses, t));
                lemma_passes_on(replies[n as int], t, commands[t]->FinishBfsLevel_0@);
            }
        },
        Stage::Finishing { level, discovered } => {
            let frontier = super::sum_of(responses, super::search::frontier_size());
            let found = discovered as nat + super::sum_of(
                responses,
                super::search::accepted_found(),
            );
            if frontier == 0 {
                let totals = super::Totals {
                    total_distance: (state.totals.total_distance as nat + found * (level
                        + 1) as nat) as u64,
                    total_reachable: (state.totals.total_reachable as nat + found) as u64,
                    vertices_visited: (state.totals.vertices_visited as nat + super::sum_of(
                        responses,
                        super::search::level_visited(),
                    )) as u64,
                    ..state.totals
                };
                let next = Coordinator { totals, source: (state.source + 1) as usize, ..state };
                lemma_source(next, turn.events@.take(2), clock, after, replies, turns, n as int);
            }
        },
        _ => {},
    }
}

proof fn lemma_passes_on(reply: Reply, t: int, route: Seq<u32>)
    requires
        reply is All,
        0 <= t,
        super::search::routes(route, reply->All_0@, t),
    ensures
        passes_on(reply, t, route),
{
    let responses = reply->All_0@;
    assert forall|node: u32| #[trigger] route.contains(node) <==> exists|s: int|
        0 <= s < responses.len() && match #[trigger] responses[s] {
            WorkerResponse::BfsExpanded { discoveries_by_owner, .. } => 0 <= t
                < discoveries_by_owner@.len() && discoveries_by_owner@[t]@.contains(node),
            _ => false,
        } by {
        assert(route.contains(node) <==> super::search::reported(responses, t, node));
        if super::search::reported(responses, t, node) {
            let s = choose|s: int|
                0 <= s < responses.len() && #[trigger] super::search::reports(
                    responses[s],
                    t,
                    node,
                );
            assert(match responses[s] {
                WorkerResponse::BfsExpanded { discoveries_by_owner, .. } => 0 <= t
                    < discoveries_by_owner@.len() && discoveries_by_owner@[t]@.contains(node),
                _ => false,
            });
        }
        if exists|s: int|
            0 <= s < responses.len() && match #[trigger] responses[s] {
                WorkerResponse::BfsExpanded { discoveries_by_owner, .. } => 0 <= t
                    < discoveries_by_owner@.len() && discoveries_by_owner@[t]@.contains(node),
                _ => false,
            } {
            let s = choose|s: int|
                0 <= s < responses.len() && match #[trigger] responses[s] {
                    WorkerResponse::BfsExpanded { discoveries_by_owner, .. } => 0 <= t
                        < discoveries_by_owner@.len() && discoveries_by_owner@[t]@.contains(node),
                    _ => false,
                };
            assert(super::search::reports(responses[s], t, node));
        }
    }
}

/// Whatever the workers answered, the coordinator asks what it should: worker after
/// worker to rewire its edges; the batches of a pass of the workers that they are
/// for; then every worker that owns sampled vertices, in turn, for the clustering
/// of just these; then, source after source, for the ring distances where the
/// probability is zero, and else for a search, in which every worker is passed on
/// what the others report to it. The result tells the links and degrees of every
/// summary.
pub proof fn lemma_commands(
    config: ExperimentConfig,
    states: Seq<Coordinator>,
    replies: Seq<Reply>,
    clocks: Seq<Clock>,
    turns: Seq<Turn>,
    i: int,
)
    requires
        course(config, states, replies, clocks, turns),
        0 <= i < replies.len(),
    ensures
        asks_right(config, replies, turns, i),
{
    lemma_kept(config, states, replies, clocks, turns, i as nat);
    if replies[i] is One {
        lemma_one(config, states, replies, clocks, turns, i as nat);
    } else {
        lemma_all(config, states, replies, clocks, turns, i as nat);
    }
}

#[verifier::rlimit(60)]
proof fn lemma_kept(
    config: ExperimentConfig,
    states: Seq<Coordinator>,
    replies: Seq<Reply>,
    clocks: Seq<Clock>,
    turns: Seq<Turn>,
    n: nat,
)
    requires
        course(config, states, replies, clocks, turns),
        n <= replies.len(),
    ensures
        kept(states[n as int], replies, turns, n as int),
        states[n as int].config == config,
    decreases n,
{
    reveal(course);
    super::course::lemma_config(config, states, replies, clocks, turns, n);
    if n == 0 {
        assert(states[0].clustering@ =~= Seq::empty());
    } else {
        let m = (n - 1) as nat;
        lemma_kept(config, states, replies, clocks, turns, m);
        if replies[m as int] is One {
            lemma_one(config, states, replies, clocks, turns, m);
        } else {
            lemma_all(config, states, replies, clocks, turns, m);
        }
    }
}

} // verus!
