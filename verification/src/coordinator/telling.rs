//! What a coordinator tells the user.

use super::course::visited_in;
use super::{Action, Clock, Coordinator, Reply, Stage, Stop, Turn};
use crate::model::{BfsMethod, Phase, ProgressEvent, Ratio};
use crate::protocol::WorkerResponse;
use crate::text;
use vstd::prelude::*;

verus! {

/// The ratio is `part / whole`, or one where the part is no smaller than the whole.
pub open spec fn is_share(ratio: Ratio, part: int, whole: int) -> bool {
    &&& ratio.denominator > 0
    &&& part < whole ==> ratio.numerator * whole == part * ratio.denominator
    &&& part >= whole ==> ratio.numerator == ratio.denominator
}

/// The event tells that `part / whole` of the phase is done.
pub open spec fn tells_share(
    event: ProgressEvent,
    phase: Phase,
    part: int,
    whole: int,
    words: Seq<char>,
    elapsed_ms: u64,
) -> bool {
    match event {
        ProgressEvent::PhaseProgress { phase: told, progress, detail, elapsed_ms: time } => {
            &&& told == phase
            &&& is_share(progress, part, whole)
            &&& detail@ == words
            &&& time == elapsed_ms
        },
        _ => false,
    }
}

/// The part of all searches that is done while the one from `source` has reached
/// `reached` of `others` nodes.
pub open spec fn tells_source(
    state: Coordinator,
    first: ProgressEvent,
    second: ProgressEvent,
    reached: int,
    others: int,
    words: Seq<char>,
    visited: nat,
    clock: Clock,
) -> bool {
    let total = state.config.bfs_samples as int;
    &&& tells_share(
        first,
        Phase::Bfs,
        state.source * others + reached,
        total * others,
        "Source "@ + text::decimal((state.source + 1) as nat) + " of "@ + text::decimal(
            total as nat,
        ) + "; "@ + words + "; "@ + text::decimal(visited) + " / "@ + text::decimal(
            state.config.nodes as nat,
        ) + " vertices reached"@,
        clock.phase_ms,
    )
    &&& match second {
        ProgressEvent::Bfs(bfs) => {
            &&& bfs.source_index == state.source + 1
            &&& bfs.source_total == state.config.bfs_samples
            &&& bfs.visited_nodes == visited
            &&& bfs.total_nodes == state.config.nodes
            &&& bfs.source_progress.numerator * others == reached
                * bfs.source_progress.denominator
            &&& bfs.source_progress.denominator > 0
        },
        _ => false,
    }
}

/// After the first `from` events the end of the clustering is told, and the start of the
/// searches, where the searches begin; else nothing more.
pub open spec fn tells_switch(turn: Turn, clock: Clock, from: int) -> bool {
    let events = turn.events@;
    if turn.action is Ask {
        events.len() == from
    } else {
        &&& events.len() >= from + 2
        &&& events[from] == (ProgressEvent::PhaseCompleted {
            phase: Phase::Clustering,
            elapsed_ms: clock.phase_ms,
        })
        &&& events[from + 1] == ProgressEvent::PhaseStarted(Phase::Bfs)
    }
}

/// After the two events about a search its phase is told to be complete where it was the
/// last; else nothing more.
pub open spec fn tells_end(turn: Turn, clock: Clock) -> bool {
    let events = turn.events@;
    if turn.action is Finish {
        &&& events.len() == 3
        &&& events[2] == (ProgressEvent::PhaseCompleted {
            phase: Phase::Bfs,
            elapsed_ms: clock.phase_ms,
        })
    } else {
        events.len() == 2
    }
}

/// What the user is told after each reply: how many nodes were built; after each pass
/// how many workers have rewired their edges and how many edges; after each summary
/// how many of the sampled vertices are resolved; and how far the search from each
/// source has come, with the frontier of every worker.
pub open spec fn tells_right(
    state: Coordinator,
    reply: Reply,
    clock: Clock,
    turn: Turn,
    after: Coordinator,
) -> bool {
    let events = turn.events@;
    match (state.stage, reply) {
        (Stage::Building, Reply::All(_)) => {
            &&& events.len() == 3
            &&& tells_share(
                events[0],
                Phase::Build,
                1,
                1,
                text::decimal(state.config.nodes as nat) + " vertices stored across "@
                    + text::decimal(state.config.workers as nat) + " processes"@,
                clock.phase_ms,
            )
            &&& events[1] == (ProgressEvent::PhaseCompleted {
                phase: Phase::Build,
                elapsed_ms: clock.phase_ms,
            })
            &&& events[2] == ProgressEvent::PhaseStarted(Phase::Rewire)
        },
        (Stage::Rewiring { source }, Reply::One(WorkerResponse::Rewired { .. })) => {
            &&& events.len() == 1
            &&& tells_share(
                events[0],
                Phase::Rewire,
                source + 1,
                state.config.workers as int,
                text::decimal(after.totals.rewired_edges as nat)
                    + " edges rewired; endpoint updates routed"@,
                clock.phase_ms,
            )
        },
        (Stage::Preparing { .. }, Reply::One(WorkerResponse::ClusteringPrepared { .. })) => {
            let seen = state.clustering@.len() + state.counts@.len();
            &&& events.len() >= 1
            &&& tells_share(
                events[0],
                Phase::Clustering,
                seen as int,
                if state.config.nodes <= 20_000 {
                    state.config.nodes as int
                } else {
                    20_000
                },
                text::decimal(seen) + " sampled vertices resolved"@,
                clock.phase_ms,
            )
            &&& tells_switch(turn, clock, 1)
        },
        (Stage::Measuring, Reply::All(_)) => {
            &&& events.len() >= 2
            &&& tells_source(
                state,
                events[0],
                events[1],
                1,
                1,
                "exact ring distances"@,
                visited_in(reply),
                clock,
            )
            &&& tells_end(turn, clock)
            &&& events[1]->Bfs_0.level is None
            &&& events[1]->Bfs_0.method == BfsMethod::Ring
            &&& events[1]->Bfs_0.frontier_by_worker@ == Seq::new(
                state.config.workers as nat,
                |t: int| 0u64,
            )
        },
        (Stage::Finishing { level, .. }, Reply::All(answers)) => {
            let visited = visited_in(reply);
            let complete = turn.action != Action::Broadcast(
                crate::protocol::WorkerCommand::ExpandBfs,
            );
            &&& events.len() >= 2
            &&& tells_source(
                state,
                events[0],
                events[1],
                if complete {
                    1
                } else if visited == 0 {
                    0
                } else {
                    visited - 1
                },
                if complete {
                    1
                } else {
                    state.config.nodes - 1
                },
                "level "@ + text::decimal((level + 1) as nat),
                visited,
                clock,
            )
            &&& tells_end(turn, clock)
            &&& events[1]->Bfs_0.level == Some((level + 1) as u32)
            &&& events[1]->Bfs_0.method == BfsMethod::Traversal
            &&& events[1]->Bfs_0.frontier_by_worker@.len() == answers@.len()
            &&& forall|t: int|
                0 <= t < answers@.len() ==> #[trigger] events[1]->Bfs_0.frontier_by_worker@[t]
                    == answers@[t]->BfsLevelFinished_frontier
        },
        (Stage::Counting, _) => {
            &&& events.len() >= 2
            &&& events[0] == (ProgressEvent::PhaseCompleted {
                phase: Phase::Rewire,
                elapsed_ms: clock.phase_ms,
            })
            &&& events[1] == ProgressEvent::PhaseStarted(Phase::Clustering)
            &&& tells_switch(turn, clock, 2)
        },
        _ => events.len() == 0,
    }
}

/// Whatever the workers answered, a coordinator that goes on tells what it should.
#[verifier::rlimit(60)]
pub proof fn lemma_told(
    state: Coordinator,
    reply: Reply,
    clock: Clock,
    turn: Turn,
    after: Coordinator,
)
    requires
        state.wf(),
        state.expects(reply),
        state.turn(reply, clock, Ok::<Turn, Stop>(turn), after),
    ensures
        tells_right(state, reply, clock, turn, after),
{
    match (state.stage, reply) {
        (Stage::Rewiring { source }, Reply::One(WorkerResponse::Rewired { .. })) => {
            lemma_share(source + 1, state.config.workers as int);
        },
        (
            Stage::Preparing { .. },
            Reply::One(WorkerResponse::ClusteringPrepared { degrees, local_counts }),
        ) => {
            let origin = state.stage->Preparing_origin;
            assert(state.resolved_turn(
                origin,
                degrees@,
                local_counts@,
                clock,
                turn,
                after,
            ));
            let ready = choose|ready: Coordinator| #[trigger]
                ready.origin_turn(origin + 1, turn.events@.take(1), clock, turn, after);
            lemma_switch(ready, origin + 1, turn.events@.take(1), clock, turn, after);
            assert(turn.events@.take(1).len() == 1);
            assert(tells_switch(turn, clock, 1));
            lemma_share(
                (state.clustering@.len() + state.counts@.len()) as int,
                state.config.clustering_count() as int,
            );
        },
        (Stage::Measuring, Reply::All(answers)) => {
            super::acceptance::lemma_measures(answers@);
            assert(super::course::distances_in(reply) >= 0);
            lemma_measured(state, reply, clock, turn, after);
        },
        (Stage::Finishing { level, discovered }, Reply::All(answers)) => {
            super::acceptance::lemma_levels(answers@);
            assert(super::course::found_in(reply) >= 0);
            lemma_finished(state, reply, clock, turn, after, level, discovered);
        },
        (Stage::Counting, Reply::All(answers)) => {
            lemma_counted(state, answers@, clock, turn, after);
        },
        _ => {},
    }
}

proof fn lemma_counted(
    state: Coordinator,
    answers: Seq<WorkerResponse>,
    clock: Clock,
    turn: Turn,
    after: Coordinator,
)
    requires
        state.counted_turn(answers, clock, Ok::<Turn, Stop>(turn), after),
    ensures
        turn.events@.len() >= 2,
        turn.events@[0] == (ProgressEvent::PhaseCompleted {
            phase: Phase::Rewire,
            elapsed_ms: clock.phase_ms,
        }),
        turn.events@[1] == ProgressEvent::PhaseStarted(Phase::Clustering),
        tells_switch(turn, clock, 2),
{
    let told = seq![
        ProgressEvent::PhaseCompleted { phase: Phase::Rewire, elapsed_ms: clock.phase_ms },
        ProgressEvent::PhaseStarted(Phase::Clustering),
    ];
    let entries = super::sum_of(answers, super::rewiring::stats_entries());
    assert(state.sampled_turn(entries, clock, turn, after));
    let ready = choose|ready: Coordinator| #[trigger]
        ready.origin_turn(0, told, clock, turn, after);
    lemma_switch(ready, 0, told, clock, turn, after);
}

#[verifier::rlimit(60)]
proof fn lemma_switch(
    ready: Coordinator,
    from: int,
    told: Seq<ProgressEvent>,
    clock: Clock,
    turn: Turn,
    after: Coordinator,
)
    requires
        ready.origin_turn(from, told, clock, turn, after),
    ensures
        turn.events@.len() >= told.len(),
        turn.events@.take(told.len() as int) == told,
        forall|i: int| 0 <= i < told.len() ==> #[trigger] turn.events@[i] == told[i],
        tells_switch(turn, clock, told.len() as int),
{
    let waiting = crate::rows::seqs(ready.waiting@);
    if super::clustering::next_filled(waiting, from) >= waiting.len() {
        let more = told.push(
            ProgressEvent::PhaseCompleted {
                phase: Phase::Clustering,
                elapsed_ms: clock.phase_ms,
            },
        ).push(ProgressEvent::PhaseStarted(Phase::Bfs));
        assert(ready.search_turn(more, clock, turn, after));
        let begun = choose|begun: Coordinator| #[trigger]
            begun.source_turn(more, clock, turn, after);
        assert(begun.source_turn(more, clock, turn, after));
    }
}

proof fn lemma_share(part: int, whole: int)
    requires
        0 <= part,
        0 < whole <= u64::MAX,
    ensures
        is_share(super::share(part, whole), part, whole),
{
}

#[verifier::rlimit(60)]
proof fn lemma_measured(
    state: Coordinator,
    reply: Reply,
    clock: Clock,
    turn: Turn,
    after: Coordinator,
)
    requires
        state.wf(),
        reply is All,
        state.stage == Stage::Measuring,
        state.turn(reply, clock, Ok::<Turn, Stop>(turn), after),
        super::all_are(reply->All_0@, super::search::is_ring()) ==> super::sum_of(
            reply->All_0@,
            super::search::ring_visited(),
        ) == visited_in(reply),
    ensures
        tells_right(state, reply, clock, turn, after),
{
    let answers = reply->All_0@;
    let events = turn.events@;
    let visited = visited_in(reply);
    let part = Ratio { numerator: 1, denominator: 1 };
    assert(super::all_are(answers, super::search::is_ring()));
    assert(visited <= u64::MAX);
    let source = state.source as int;
    let total = state.config.bfs_samples as int;
    assert(source * part.denominator + part.numerator == source * 1 + 1);
    assert(total * part.denominator == total * 1);
    lemma_share(source * 1 + 1, total * 1);
    assert(tells_share(
        events[0],
        Phase::Bfs,
        source * 1 + 1,
        total * 1,
        super::search::search_text(
            (source + 1) as nat,
            total as nat,
            None,
            visited,
            state.config.nodes as nat,
        ),
        clock.phase_ms,
    ));
    assert(events.take(2).len() == 2);
    assert(events[1]->Bfs_0.frontier_by_worker@ =~= Seq::new(
        state.config.workers as nat,
        |t: int| 0u64,
    ));
}

#[verifier::rlimit(60)]
proof fn lemma_finished(
    state: Coordinator,
    reply: Reply,
    clock: Clock,
    turn: Turn,
    after: Coordinator,
    level: u32,
    discovered: u64,
)
    requires
        state.wf(),
        reply is All,
        state.stage == (Stage::Finishing { level, discovered }),
        state.turn(reply, clock, Ok::<Turn, Stop>(turn), after),
        super::all_are(reply->All_0@, super::search::is_finished()) ==> super::sum_of(
            reply->All_0@,
            super::search::level_visited(),
        ) == visited_in(reply),
    ensures
        tells_right(state, reply, clock, turn, after),
{
    let answers = reply->All_0@;
    let visited = visited_in(reply);
    let complete = super::sum_of(answers, super::search::frontier_size()) == 0;
    let part = crate::model::source_share(visited as u64, state.config.nodes, complete);
    let den = part.denominator as int;
    let total = state.config.bfs_samples as int;
    assert(0 < total * den <= 256 * 0x1_0000_0000) by (nonlinear_arith)
        requires
            1 <= total <= 256,
            1 <= den <= 0x1_0000_0000,
    ;
    assert(0 <= state.source * den) by (nonlinear_arith)
        requires
            0 <= state.source,
            1 <= den,
    ;
    lemma_share(state.source * den + part.numerator, total * den);
    assert(complete <==> turn.action != Action::Broadcast(
        crate::protocol::WorkerCommand::ExpandBfs,
    ));
    assert forall|t: int| 0 <= t < answers.len() implies #[trigger] turn.events@[1]
        ->Bfs_0.frontier_by_worker@[t] == answers[t]->BfsLevelFinished_frontier by {
        assert(super::search::is_finished()(answers[t]));
    }
}

} // verus!
