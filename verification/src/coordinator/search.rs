//! Searching from the sampled sources, as the coordinator sees it.

use super::{Action, Clock, Coordinator, Stage, Stop, Totals, Turn};
use crate::batches::empty_groups;
use crate::model::{
    source_progress, BfsMethod, BfsProgress, ExperimentConfig, ExperimentResult, Phase,
    ProgressEvent, Ratio,
};
use crate::model;
use crate::protocol::{WorkerCommand, WorkerResponse};
use crate::random::sample_sources;
use crate::random;
use crate::rows;
use crate::sorted;
use crate::sorting::sort_nodes;
use crate::text;
use vstd::prelude::*;
use vstd::string::*;

verus! {

/// What is told of the search from a source.
pub open spec fn search_text(
    index: nat,
    total: nat,
    level: Option<u32>,
    visited: nat,
    nodes: nat,
) -> Seq<char> {
    "Source "@ + text::decimal(index) + " of "@ + text::decimal(total) + "; "@ + match level {
        None => "exact ring distances"@,
        Some(level) => "level "@ + text::decimal(level as nat),
    } + "; "@ + text::decimal(visited) + " / "@ + text::decimal(nodes) + " vertices reached"@
}

/// How far all the searches have come: those before this one are over.
pub open spec fn search_share(before: int, total: int, part: Ratio) -> Ratio {
    super::share(before * part.denominator + part.numerator, total * part.denominator)
}

/// The two events that tell how far the search from a source has come.
pub open spec fn tells_search(
    first: ProgressEvent,
    second: ProgressEvent,
    config: ExperimentConfig,
    source: int,
    level: Option<u32>,
    frontiers: Seq<u64>,
    visited: u64,
    part: Ratio,
    method: BfsMethod,
    clock: Clock,
) -> bool {
    &&& super::tells(
        first,
        Phase::Bfs,
        search_share(source, config.bfs_samples as int, part),
        search_text(
            (source + 1) as nat,
            config.bfs_samples as nat,
            level,
            visited as nat,
            config.nodes as nat,
        ),
        clock.phase_ms,
    )
    &&& match second {
        ProgressEvent::Bfs(bfs) => {
            &&& bfs.source_index == source + 1
            &&& bfs.source_total == config.bfs_samples
            &&& bfs.level == level
            &&& bfs.frontier_by_worker@ == frontiers
            &&& bfs.visited_nodes == visited
            &&& bfs.total_nodes == config.nodes
            &&& bfs.source_progress == part
            &&& bfs.method == method
        },
        _ => false,
    }
}

/// The response tells ring distances.
pub open spec fn is_ring() -> spec_fn(WorkerResponse) -> bool {
    |response: WorkerResponse| response is RingDistances
}

/// The distances that a response tells.
pub open spec fn ring_sum() -> spec_fn(WorkerResponse) -> nat {
    |response: WorkerResponse|
        match response {
            WorkerResponse::RingDistances { distance_sum, .. } => distance_sum as nat,
            _ => 0,
        }
}

/// The reachable nodes that a response tells.
pub open spec fn ring_reachable() -> spec_fn(WorkerResponse) -> nat {
    |response: WorkerResponse|
        match response {
            WorkerResponse::RingDistances { reachable, .. } => reachable as nat,
            _ => 0,
        }
}

/// The visited nodes that a response tells.
pub open spec fn ring_visited() -> spec_fn(WorkerResponse) -> nat {
    |response: WorkerResponse|
        match response {
            WorkerResponse::RingDistances { visited, .. } => visited as nat,
            _ => 0,
        }
}

/// The response tells of an expanded frontier.
pub open spec fn is_expanded() -> spec_fn(WorkerResponse) -> bool {
    |response: WorkerResponse| response is BfsExpanded
}

/// The nodes that a worker found of its own.
pub open spec fn local_found() -> spec_fn(WorkerResponse) -> nat {
    |response: WorkerResponse|
        match response {
            WorkerResponse::BfsExpanded { local_discovered, .. } => local_discovered as nat,
            _ => 0,
        }
}

/// What the response reports to worker `target`.
pub open spec fn reports(response: WorkerResponse, target: int, node: u32) -> bool {
    match response {
        WorkerResponse::BfsExpanded { discoveries_by_owner, .. } => 0 <= target
            < discoveries_by_owner@.len() && discoveries_by_owner@[target]@.contains(node),
        _ => false,
    }
}

/// Some of the responses reports the node to worker `target`.
pub open spec fn reported(responses: Seq<WorkerResponse>, target: int, node: u32) -> bool {
    exists|i: int| 0 <= i < responses.len() && #[trigger] reports(responses[i], target, node)
}

/// Some response reports to a worker that there is not.
pub open spec fn reports_beyond(responses: Seq<WorkerResponse>, workers: int) -> bool {
    exists|i: int| 0 <= i < responses.len() && #[trigger] beyond(responses[i], workers)
}

/// The response reports to a worker that there is not.
pub open spec fn beyond(response: WorkerResponse, workers: int) -> bool {
    match response {
        WorkerResponse::BfsExpanded { discoveries_by_owner, .. } => discoveries_by_owner@.len()
            > workers,
        _ => false,
    }
}

/// The nodes reported to one worker, each once, in ascending order.
pub open spec fn routes(route: Seq<u32>, responses: Seq<WorkerResponse>, target: int) -> bool {
    &&& sorted::ascending(route)
    &&& forall|node: u32| #[trigger] route.contains(node) <==> reported(responses, target, node)
}

/// The response tells of a finished level.
pub open spec fn is_finished() -> spec_fn(WorkerResponse) -> bool {
    |response: WorkerResponse| response is BfsLevelFinished
}

/// The nodes that a worker accepted from others.
pub open spec fn accepted_found() -> spec_fn(WorkerResponse) -> nat {
    |response: WorkerResponse|
        match response {
            WorkerResponse::BfsLevelFinished { accepted, .. } => accepted as nat,
            _ => 0,
        }
}

/// The nodes that a worker will expand next.
pub open spec fn frontier_size() -> spec_fn(WorkerResponse) -> nat {
    |response: WorkerResponse|
        match response {
            WorkerResponse::BfsLevelFinished { frontier, .. } => frontier as nat,
            _ => 0,
        }
}

/// The nodes that a worker has visited.
pub open spec fn level_visited() -> spec_fn(WorkerResponse) -> nat {
    |response: WorkerResponse|
        match response {
            WorkerResponse::BfsLevelFinished { visited, .. } => visited as nat,
            _ => 0,
        }
}

impl ExperimentConfig {
    /// The sources that are searched from.
    pub open spec fn source_sample(self) -> Seq<usize> {
        random::index_sample(
            random::seeded(self.seed ^ super::SOURCE_SEED),
            self.nodes as usize,
            if self.bfs_samples <= self.nodes {
                self.bfs_samples as usize
            } else {
                self.nodes as usize
            },
        )
    }
}

/// The result tells what the coordinator counted.
pub open spec fn concludes(result: ExperimentResult, state: Coordinator, clock: Clock) -> bool {
    &&& result.total_distance == state.totals.total_distance
    &&& result.total_reachable == state.totals.total_reachable
    &&& result.clustering@ == state.clustering@
    &&& result.elapsed_ms == clock.run_ms
    &&& result.cross_shard_messages == state.totals.cross_shard_messages
    &&& result.vertices_visited == state.totals.vertices_visited
    &&& result.rewired_edges == state.totals.rewired_edges
    &&& result.clustering_samples == state.clustering@.len() as u32
    &&& result.adjacency_entries == state.totals.adjacency_entries
}

impl Coordinator {
    /// The search from the current source begins, on the untouched ring by
    /// formula; after the last source the experiment is over.
    pub open spec fn source_turn(
        &self,
        told: Seq<ProgressEvent>,
        clock: Clock,
        turn: Turn,
        after: Coordinator,
    ) -> bool {
        if self.source < self.sources@.len() {
            let source = self.sources@[self.source as int];
            &&& turn.events@ == told
            &&& if self.config.probability.zero() {
                &&& after == (Coordinator { stage: Stage::Measuring, ..*self })
                &&& turn.action == Action::Broadcast(WorkerCommand::RingDistances { source })
            } else {
                &&& after == (Coordinator { stage: Stage::Starting, ..*self })
                &&& turn.action == Action::Broadcast(WorkerCommand::StartBfs { source })
            }
        } else {
            &&& after.stage == Stage::Done
            &&& after.config == self.config
            &&& after.totals == self.totals
            &&& turn.events@ == told.push(
                ProgressEvent::PhaseCompleted { phase: Phase::Bfs, elapsed_ms: clock.phase_ms },
            )
            &&& match turn.action {
                Action::Finish(result) => concludes(result, *self, clock),
                _ => false,
            }
        }
    }

    /// Begins the search from the current source, or ends the experiment.
    pub fn next_source(&mut self, events: Vec<ProgressEvent>, clock: Clock) -> (turn: Turn)
        requires
            old(self).config.sound(),
            old(self).waiting@.len() == old(self).config.workers,
            old(self).clustering@.len() == old(self).config.clustering_count(),
            rows::total(rows::seqs(old(self).waiting@)) == 0,
            old(self).sources@.len() == old(self).config.bfs_samples,
        ensures
            old(self).source_turn(events@, clock, turn, *final(self)),
            final(self).wf(),
            final(self).follows(turn.action),
    {
        let mut events = events;
        if self.source < self.sources.len() {
            let source: u32 = self.sources[self.source];
            if self.config.probability.is_zero() {
                self.stage = Stage::Measuring;
                return Turn {
                    events,
                    action: Action::Broadcast(WorkerCommand::RingDistances { source }),
                };
            }
            self.stage = Stage::Starting;
            return Turn { events, action: Action::Broadcast(WorkerCommand::StartBfs { source }) };
        }
        events.push(
            ProgressEvent::PhaseCompleted { phase: Phase::Bfs, elapsed_ms: clock.phase_ms },
        );
        self.stage = Stage::Done;
        let mut clustering = Vec::new();
        std::mem::swap(&mut clustering, &mut self.clustering);
        let clustering_samples: u32 = #[verifier::truncate] (clustering.len() as u32);
        let result = ExperimentResult {
            total_distance: self.totals.total_distance,
            total_reachable: self.totals.total_reachable,
            clustering,
            elapsed_ms: clock.run_ms,
            cross_shard_messages: self.totals.cross_shard_messages,
            vertices_visited: self.totals.vertices_visited,
            rewired_edges: self.totals.rewired_edges,
            clustering_samples,
            adjacency_entries: self.totals.adjacency_entries,
        };
        Turn { events, action: Action::Finish(result) }
    }

    /// The sources are drawn, and the search from the first begins.
    pub open spec fn search_turn(
        &self,
        told: Seq<ProgressEvent>,
        clock: Clock,
        turn: Turn,
        after: Coordinator,
    ) -> bool {
        exists|ready: Coordinator|
            {
                &&& ready.config == self.config
                &&& ready.totals == self.totals
                &&& ready.waiting == self.waiting
                &&& ready.counts == self.counts
                &&& ready.clustering == self.clustering
                &&& ready.stage == self.stage
                &&& ready.source == 0
                &&& ready.sources@.len() == self.config.bfs_samples
                &&& forall|i: int|
                    0 <= i < ready.sources@.len() ==> #[trigger] ready.sources@[i]
                        == self.config.source_sample()[i]
                &&& #[trigger] ready.source_turn(told, clock, turn, after)
            }
    }

    /// Draws the sources and begins the search from the first.
    pub fn begin_search(&mut self, events: Vec<ProgressEvent>, clock: Clock) -> (turn: Turn)
        requires
            old(self).config.sound(),
            old(self).waiting@.len() == old(self).config.workers,
            old(self).clustering@.len() == old(self).config.clustering_count(),
            rows::total(rows::seqs(old(self).waiting@)) == 0,
        ensures
            old(self).search_turn(events@, clock, turn, *final(self)),
            final(self).wf(),
            final(self).follows(turn.action),
            final(self).config == old(self).config,
    {
        let drawn: Vec<usize> = sample_sources(
            self.config.nodes as usize,
            self.config.bfs_samples as usize,
            self.config.seed ^ super::SOURCE_SEED,
        );
        let mut sources: Vec<u32> = Vec::new();
        let mut i: usize = 0;
        while i < drawn.len()
            invariant
                i <= drawn@.len(),
                sources@.len() == i,
                forall|j: int| 0 <= j < drawn@.len() ==> drawn@[j] < self.config.nodes,
                forall|j: int| 0 <= j < i ==> #[trigger] sources@[j] == drawn@[j],
            decreases drawn.len() - i,
        {
            sources.push(drawn[i] as u32);
            i = i + 1;
        }
        self.sources = sources;
        self.source = 0;
        let ghost ready = *self;
        let turn = self.next_source(events, clock);
        assert(ready.source_turn(events@, clock, turn, *self));
        turn
    }

    /// The two events that tell how far the search from the current source has come.
    fn search_events(
        &self,
        level: Option<u32>,
        frontiers: Vec<u64>,
        visited: u64,
        part: Ratio,
        method: BfsMethod,
        clock: Clock,
    ) -> (events: Vec<ProgressEvent>)
        requires
            self.wf(),
            self.in_search(),
            1 <= part.denominator <= u32::MAX,
        ensures
            events@.len() == 2,
            tells_search(
                events@[0],
                events@[1],
                self.config,
                self.source as int,
                level,
                frontiers@,
                visited,
                part,
                method,
                clock,
            ),
    {
        let source: u64 = self.source as u64;
        let total: u64 = self.config.bfs_samples as u64;
        let denominator: u64 = part.denominator;
        proof {
            assert(0 <= source * denominator <= 256 * u32::MAX) by (nonlinear_arith)
                requires
                    0 <= source <= 256,
                    0 <= denominator <= u32::MAX,
            ;
            assert(0 <= total * denominator <= 256 * u32::MAX) by (nonlinear_arith)
                requires
                    0 <= total <= 256,
                    0 <= denominator <= u32::MAX,
            ;
            assert(source * denominator + denominator <= total * denominator) by (nonlinear_arith)
                requires
                    source + 1 <= total,
                    denominator >= 0,
            ;
        }
        let done: u64 = source * denominator;
        let whole: u64 = total * denominator;
        let progress: Ratio = if part.numerator >= whole - done {
            Ratio { numerator: 1, denominator: 1 }
        } else {
            Ratio { numerator: done + part.numerator, denominator: whole }
        };
        let mut detail = text::numbered("Source ", source + 1, " of ");
        text::push_decimal(&mut detail, total);
        detail.append("; ");
        match level {
            None => {
                detail.append("exact ring distances");
            },
            Some(level) => {
                let ghost head = detail@;
                detail.append("level ");
                text::push_decimal(&mut detail, level as u64);
                assert(detail@ =~= head + ("level "@ + text::decimal(level as nat)));
            },
        }
        detail.append("; ");
        text::push_decimal(&mut detail, visited);
        detail.append(" / ");
        text::push_decimal(&mut detail, self.config.nodes as u64);
        detail.append(" vertices reached");
        let mut events: Vec<ProgressEvent> = Vec::new();
        events.push(
            ProgressEvent::PhaseProgress {
                phase: Phase::Bfs,
                progress,
                detail,
                elapsed_ms: clock.phase_ms,
            },
        );
        events.push(
            ProgressEvent::Bfs(
                BfsProgress {
                    source_index: self.source as u32 + 1,
                    source_total: self.config.bfs_samples,
                    level,
                    frontier_by_worker: frontiers,
                    visited_nodes: visited,
                    total_nodes: self.config.nodes,
                    source_progress: part,
                    method,
                },
            ),
        );
        events
    }
}

/// What the responses count up to together, the four sums of a source on the ring.
pub open spec fn ring_counts(state: Coordinator, responses: Seq<WorkerResponse>) -> (
    nat,
    nat,
    nat,
    nat,
) {
    (
        state.totals.total_distance as nat + super::sum_of(responses, ring_sum()),
        state.totals.total_reachable as nat + super::sum_of(responses, ring_reachable()),
        super::sum_of(responses, ring_visited()),
        state.totals.vertices_visited as nat + super::sum_of(responses, ring_visited()),
    )
}

impl Coordinator {
    /// The ring distances from a source are summed up, and the next source follows.
    pub open spec fn ring_turn(
        &self,
        responses: Seq<WorkerResponse>,
        clock: Clock,
        answer: Result<Turn, Stop>,
        after: Coordinator,
    ) -> bool {
        let (distance, reachable, visited, all_visited) = ring_counts(*self, responses);
        if !super::all_are(responses, is_ring()) {
            super::fails(answer, "unexpected ring distance response"@) && after == *self
        } else if distance > u64::MAX || reachable > u64::MAX || all_visited > u64::MAX {
            answer == Err::<Turn, Stop>(Stop::Crash) && after == *self
        } else {
            let next = Coordinator {
                totals: Totals {
                    total_distance: distance as u64,
                    total_reachable: reachable as u64,
                    vertices_visited: all_visited as u64,
                    ..self.totals
                },
                source: (self.source + 1) as usize,
                ..*self
            };
            &&& answer is Ok
            &&& answer->Ok_0.events@.len() >= 2
            &&& tells_search(
                answer->Ok_0.events@[0],
                answer->Ok_0.events@[1],
                self.config,
                self.source as int,
                None,
                Seq::new(self.config.workers as nat, |i: int| 0u64),
                visited as u64,
                Ratio { numerator: 1, denominator: 1 },
                BfsMethod::Ring,
                clock,
            )
            &&& next.source_turn(answer->Ok_0.events@.take(2), clock, answer->Ok_0, after)
        }
    }

    /// Sums up the ring distances from a source.
    pub fn on_measured(&mut self, responses: &Vec<WorkerResponse>, clock: Clock) -> (answer: Result<
        Turn,
        Stop,
    >)
        requires
            old(self).wf(),
            old(self).stage == Stage::Measuring,
        ensures
            old(self).ring_turn(responses@, clock, answer, *final(self)),
            final(self).wf(),
            answer is Ok ==> final(self).follows(answer->Ok_0.action),
    {
        let ghost before = *self;
        let mut distance: Option<u64> = Some(self.totals.total_distance);
        let mut reachable: Option<u64> = Some(self.totals.total_reachable);
        let mut visited: Option<u64> = Some(0);
        let mut all_visited: Option<u64> = Some(self.totals.vertices_visited);
        let mut i: usize = 0;
        assert(responses@.take(0) =~= Seq::empty());
        while i < responses.len()
            invariant
                i <= responses@.len(),
                *self == *old(self),
                before == *self,
                self.wf(),
                forall|j: int| 0 <= j < i ==> #[trigger] responses@[j] is RingDistances,
                distance == super::counted(ring_counts(before, responses@.take(i as int)).0),
                reachable == super::counted(ring_counts(before, responses@.take(i as int)).1),
                visited == super::counted(ring_counts(before, responses@.take(i as int)).2),
                all_visited == super::counted(ring_counts(before, responses@.take(i as int)).3),
            decreases responses.len() - i,
        {
            let ghost counts = ring_counts(before, responses@.take(i as int));
            proof {
                super::lemma_sum_step(responses@, ring_sum(), i as int);
                super::lemma_sum_step(responses@, ring_reachable(), i as int);
                super::lemma_sum_step(responses@, ring_visited(), i as int);
            }
            match &responses[i] {
                WorkerResponse::RingDistances { distance_sum, reachable: near, visited: local } => {
                    distance = super::add_count(distance, *distance_sum, Ghost(counts.0));
                    reachable = super::add_count(reachable, *near, Ghost(counts.1));
                    visited = super::add_count(visited, *local, Ghost(counts.2));
                    all_visited = super::add_count(all_visited, *local, Ghost(counts.3));
                },
                _ => {
                    proof {
                        assert(!is_ring()(responses@[i as int]));
                    }
                    return Err(Stop::Failed("unexpected ring distance response".to_owned()));
                },
            }
            i = i + 1;
        }
        proof {
            assert(responses@.take(i as int) =~= responses@);
            assert(super::all_are(responses@, is_ring()));
        }
        let (distance, reachable, visited, all_visited): (u64, u64, u64, u64) = match (
            distance,
            reachable,
            visited,
            all_visited,
        ) {
            (Some(distance), Some(reachable), Some(visited), Some(all_visited)) => (
                distance,
                reachable,
                visited,
                all_visited,
            ),
            _ => return Err(Stop::Crash),
        };
        let mut frontiers: Vec<u64> = Vec::new();
        frontiers.resize(self.config.workers as usize, 0);
        assert(frontiers@ =~= Seq::new(self.config.workers as nat, |i: int| 0u64));
        let events = self.search_events(
            None,
            frontiers,
            visited,
            Ratio { numerator: 1, denominator: 1 },
            BfsMethod::Ring,
            clock,
        );
        self.totals.total_distance = distance;
        self.totals.total_reachable = reachable;
        self.totals.vertices_visited = all_visited;
        self.source = self.source + 1;
        let ghost told = events@;
        let turn = self.next_source(events, clock);
        assert(turn.events@.take(2) =~= told);
        Ok(turn)
    }

    /// All workers have started a search: they are to expand their frontiers.
    pub fn on_started(&mut self) -> (turn: Turn)
        requires
            old(self).wf(),
            old(self).stage == Stage::Starting,
        ensures
            *final(self) == (Coordinator { stage: Stage::Expanding { level: 0 }, ..*old(self) }),
            turn.events@.len() == 0,
            turn.action == Action::Broadcast(WorkerCommand::ExpandBfs),
            final(self).wf(),
            final(self).follows(turn.action),
    {
        self.stage = Stage::Expanding { level: 0 };
        Turn { events: Vec::new(), action: Action::Broadcast(WorkerCommand::ExpandBfs) }
    }

    /// Discoveries go to their owners, each once however many workers report it.
    pub open spec fn expanded_turn(
        &self,
        level: u32,
        responses: Seq<WorkerResponse>,
        answer: Result<Turn, Stop>,
        after: Coordinator,
    ) -> bool {
        let workers = self.config.workers as int;
        let found = super::sum_of(responses, local_found());
        if !super::all_are(responses, is_expanded()) {
            super::fails(answer, "unexpected BFS expansion response"@) && after == *self
        } else if found > u64::MAX || reports_beyond(responses, workers)
            || self.totals.cross_shard_messages + routed_total(responses, workers) > u64::MAX {
            answer == Err::<Turn, Stop>(Stop::Crash) && after == *self
        } else {
            &&& answer is Ok
            &&& answer->Ok_0.events@.len() == 0
            &&& match answer->Ok_0.action {
                Action::AskEach(commands) => {
                    &&& commands@.len() == workers
                    &&& forall|t: int|
                        0 <= t < workers ==> finishes(#[trigger] commands@[t], responses, t)
                },
                _ => false,
            }
            &&& after == (Coordinator {
                stage: Stage::Finishing { level, discovered: found as u64 },
                totals: Totals {
                    cross_shard_messages: (self.totals.cross_shard_messages + routed_total(
                        responses,
                        workers,
                    )) as u64,
                    ..self.totals
                },
                ..*self
            })
        }
    }

    /// Routes discoveries to their owners.
    pub fn on_expanded(&mut self, level: u32, responses: &Vec<WorkerResponse>) -> (answer: Result<
        Turn,
        Stop,
    >)
        requires
            old(self).wf(),
            old(self).stage == (Stage::Expanding { level }),
        ensures
            old(self).expanded_turn(level, responses@, answer, *final(self)),
            final(self).wf(),
            answer is Ok ==> final(self).follows(answer->Ok_0.action),
    {
        let workers: usize = self.config.workers as usize;
        let mut routed: Vec<Vec<u32>> = empty_groups(workers);
        let mut found: Option<u64> = Some(0);
        let mut outside = false;
        let mut i: usize = 0;
        assert(responses@.take(0) =~= Seq::empty());
        while i < responses.len()
            invariant
                i <= responses@.len(),
                workers == self.config.workers,
                *self == *old(self),
                self.wf(),
                forall|j: int| 0 <= j < i ==> #[trigger] responses@[j] is BfsExpanded,
                found == super::counted(super::sum_of(responses@.take(i as int), local_found())),
                outside ==> reports_beyond(responses@, workers as int),
                !outside ==> forall|j: int|
                    0 <= j < i ==> !beyond(#[trigger] responses@[j], workers as int),
                routed@.len() == workers,
                !outside ==> forall|t: int, node: u32|
                    0 <= t < workers ==> (#[trigger] routed@[t]@.contains(node) <==> reported(
                        responses@.take(i as int),
                        t,
                        node,
                    )),
            decreases responses.len() - i,
        {
            let ghost done = responses@.take(i as int);
            let ghost more = responses@.take(i + 1);
            proof {
                super::lemma_sum_step(responses@, local_found(), i as int);
            }
            match &responses[i] {
                WorkerResponse::BfsExpanded { local_discovered, discoveries_by_owner } => {
                    found = super::add_count(
                        found,
                        *local_discovered,
                        Ghost(super::sum_of(done, local_found())),
                    );
                    if discoveries_by_owner.len() > workers {
                        outside = true;
                        assert(beyond(responses@[i as int], workers as int));
                    } else if !outside {
                        let ghost before = routed@;
                        extend_groups(&mut routed, discoveries_by_owner);
                        proof {
                            assert forall|t: int, node: u32|
                                0 <= t < workers implies (#[trigger] routed@[t]@.contains(node)
                                <==> reported(more, t, node)) by {
                                lemma_reported_step(responses@, i as int, t, node);
                                assert(before[t]@.contains(node) <==> reported(done, t, node));
                            }
                        }
                    }
                },
                _ => {
                    proof {
                        assert(!is_expanded()(responses@[i as int]));
                    }
                    return Err(Stop::Failed("unexpected BFS expansion response".to_owned()));
                },
            }
            i = i + 1;
        }
        proof {
            assert(responses@.take(i as int) =~= responses@);
            assert(super::all_are(responses@, is_expanded()));
        }
        if outside {
            return Err(Stop::Crash);
        }
        assert(!reports_beyond(responses@, workers as int));
        let discovered: u64 = match found {
            Some(found) => found,
            None => return Err(Stop::Crash),
        };
        let mut messages: Option<u64> = Some(self.totals.cross_shard_messages);
        let mut commands: Vec<WorkerCommand> = Vec::new();
        let mut t: usize = 0;
        while t < workers
            invariant
                t <= workers,
                workers == self.config.workers,
                *self == *old(self),
                self.wf(),
                routed@.len() == workers,
                forall|x: int, node: u32|
                    t <= x < workers ==> (#[trigger] routed@[x]@.contains(node) <==> reported(
                        responses@,
                        x,
                        node,
                    )),
                commands@.len() == t,
                forall|x: int| 0 <= x < t ==> finishes(#[trigger] commands@[x], responses@, x),
                messages == super::counted(
                    self.totals.cross_shard_messages as nat + routed_total(responses@, t as int),
                ),
            decreases workers - t,
        {
            let mut route: Vec<u32> = Vec::new();
            std::mem::swap(&mut route, &mut routed[t]);
            let ghost all = route@;
            let route = sort_and_dedup(route);
            proof {
                assert forall|node: u32| #[trigger] route@.contains(node) <==> reported(
                    responses@,
                    t as int,
                    node,
                ) by {
                    assert(all.contains(node) <==> reported(responses@, t as int, node));
                }
                lemma_route(route@, responses@, t as int);
            }
            messages =
            super::add_count(
                messages,
                route.len() as u64,
                Ghost(
                    self.totals.cross_shard_messages as nat + routed_total(responses@, t as int),
                ),
            );
            commands.push(WorkerCommand::FinishBfsLevel(route));
            t = t + 1;
        }
        match messages {
            None => Err(Stop::Crash),
            Some(messages) => {
                self.totals.cross_shard_messages = messages;
                self.stage = Stage::Finishing { level, discovered };
                Ok(Turn { events: Vec::new(), action: Action::AskEach(commands) })
            },
        }
    }

    /// A level is over: what was found on it lies one step farther than the level
    /// before. The search ends with the first level that leaves no frontier.
    pub open spec fn finished_turn(
        &self,
        level: u32,
        discovered: u64,
        responses: Seq<WorkerResponse>,
        clock: Clock,
        answer: Result<Turn, Stop>,
        after: Coordinator,
    ) -> bool {
        let found = discovered as nat + super::sum_of(responses, accepted_found());
        let visited = super::sum_of(responses, level_visited());
        let distance = self.totals.total_distance as nat + found * (level + 1) as nat;
        let reachable = self.totals.total_reachable as nat + found;
        let complete = super::sum_of(responses, frontier_size()) == 0;
        let all_visited = self.totals.vertices_visited as nat + if complete {
            visited
        } else {
            0
        };
        if !super::all_are(responses, is_finished()) {
            super::fails(answer, "unexpected BFS level response"@) && after == *self
        } else if found > u64::MAX || visited > u64::MAX || distance > u64::MAX || reachable
            > u64::MAX || all_visited > u64::MAX || level == u32::MAX || super::sum_of(
            responses,
            frontier_size(),
        ) > u64::MAX {
            answer == Err::<Turn, Stop>(Stop::Crash) && after == *self
        } else {
            let totals = Totals {
                total_distance: distance as u64,
                total_reachable: reachable as u64,
                vertices_visited: all_visited as u64,
                ..self.totals
            };
            &&& answer is Ok
            &&& answer->Ok_0.events@.len() >= 2
            &&& tells_search(
                answer->Ok_0.events@[0],
                answer->Ok_0.events@[1],
                self.config,
                self.source as int,
                Some((level + 1) as u32),
                frontiers_of(responses),
                visited as u64,
                model::source_share(visited as u64, self.config.nodes, complete),
                BfsMethod::Traversal,
                clock,
            )
            &&& if complete {
                (Coordinator {
                    totals,
                    source: (self.source + 1) as usize,
                    ..*self
                }).source_turn(answer->Ok_0.events@.take(2), clock, answer->Ok_0, after)
            } else {
                &&& answer->Ok_0.events@.len() == 2
                &&& after == (Coordinator {
                    totals,
                    stage: Stage::Expanding { level: (level + 1) as u32 },
                    ..*self
                })
                &&& answer->Ok_0.action == Action::Broadcast(WorkerCommand::ExpandBfs)
            }
        }
    }

    /// Sums up a level.
    pub fn on_finished(
        &mut self,
        level: u32,
        discovered: u64,
        responses: &Vec<WorkerResponse>,
        clock: Clock,
    ) -> (answer: Result<Turn, Stop>)
        requires
            old(self).wf(),
            old(self).stage == (Stage::Finishing { level, discovered }),
        ensures
            old(self).finished_turn(level, discovered, responses@, clock, answer, *final(self)),
            final(self).wf(),
            answer is Ok ==> final(self).follows(answer->Ok_0.action),
    {
        let mut found: Option<u64> = Some(discovered);
        let mut visited: Option<u64> = Some(0);
        let mut frontier_total: Option<u64> = Some(0);
        let mut frontiers: Vec<u64> = Vec::new();
        let mut i: usize = 0;
        assert(responses@.take(0) =~= Seq::empty());
        while i < responses.len()
            invariant
                i <= responses@.len(),
                *self == *old(self),
                self.wf(),
                forall|j: int| 0 <= j < i ==> #[trigger] responses@[j] is BfsLevelFinished,
                found == super::counted(
                    discovered as nat + super::sum_of(
                        responses@.take(i as int),
                        accepted_found(),
                    ),
                ),
                visited == super::counted(
                    super::sum_of(responses@.take(i as int), level_visited()),
                ),
                frontier_total == super::counted(
                    super::sum_of(responses@.take(i as int), frontier_size()),
                ),
                frontiers@ =~= frontiers_of(responses@.take(i as int)),
            decreases responses.len() - i,
        {
            let ghost done = responses@.take(i as int);
            proof {
                super::lemma_sum_step(responses@, accepted_found(), i as int);
                super::lemma_sum_step(responses@, level_visited(), i as int);
                super::lemma_sum_step(responses@, frontier_size(), i as int);
            }
            match &responses[i] {
                WorkerResponse::BfsLevelFinished { accepted, frontier, visited: local } => {
                    found =
                    super::add_count(
                        found,
                        *accepted,
                        Ghost(discovered as nat + super::sum_of(done, accepted_found())),
                    );
                    visited =
                    super::add_count(
                        visited,
                        *local,
                        Ghost(super::sum_of(done, level_visited())),
                    );
                    frontier_total =
                    super::add_count(
                        frontier_total,
                        *frontier,
                        Ghost(super::sum_of(done, frontier_size())),
                    );
                    frontiers.push(*frontier);
                },
                _ => {
                    proof {
                        assert(!is_finished()(responses@[i as int]));
                    }
                    return Err(Stop::Failed("unexpected BFS level response".to_owned()));
                },
            }
            i = i + 1;
        }
        proof {
            assert(responses@.take(i as int) =~= responses@);
            assert(super::all_are(responses@, is_finished()));
        }
        let (found, visited, frontier_total): (u64, u64, u64) = match (
            found,
            visited,
            frontier_total,
        ) {
            (Some(found), Some(visited), Some(frontier_total)) => (
                found,
                visited,
                frontier_total,
            ),
            _ => return Err(Stop::Crash),
        };
        if level == u32::MAX {
            return Err(Stop::Crash);
        }
        let complete = frontier_total == 0;
        let more: u64 = if complete {
            visited
        } else {
            0
        };
        let step: Option<u64> = found.checked_mul(level as u64 + 1);
        let distance: Option<u64> = match step {
            None => None,
            Some(step) => self.totals.total_distance.checked_add(step),
        };
        let reachable: Option<u64> = self.totals.total_reachable.checked_add(found);
        let all_visited: Option<u64> = self.totals.vertices_visited.checked_add(more);
        let (distance, reachable, all_visited): (u64, u64, u64) = match (
            distance,
            reachable,
            all_visited,
        ) {
            (Some(distance), Some(reachable), Some(all_visited)) => (
                distance,
                reachable,
                all_visited,
            ),
            _ => return Err(Stop::Crash),
        };
        let part = source_progress(visited, self.config.nodes, complete);
        let events = self.search_events(
            Some(level + 1),
            frontiers,
            visited,
            part,
            BfsMethod::Traversal,
            clock,
        );
        let ghost told = events@;
        self.totals.total_distance = distance;
        self.totals.total_reachable = reachable;
        self.totals.vertices_visited = all_visited;
        if complete {
            self.source = self.source + 1;
            let turn = self.next_source(events, clock);
            assert(turn.events@.take(2) =~= told);
            return Ok(turn);
        }
        self.stage = Stage::Expanding { level: level + 1 };
        Ok(Turn { events, action: Action::Broadcast(WorkerCommand::ExpandBfs) })
    }
}

/// The frontiers that the responses tell.
pub open spec fn frontiers_of(responses: Seq<WorkerResponse>) -> Seq<u64> {
    Seq::new(responses.len(), |i: int| frontier_size()(responses[i]) as u64)
}

/// The nodes reported to one worker, each once, in ascending order.
pub open spec fn route_of(responses: Seq<WorkerResponse>, target: int) -> Seq<u32> {
    choose|route: Seq<u32>| routes(route, responses, target)
}

/// How many nodes are reported to the first `count` workers, each worker's counted once.
pub open spec fn routed_total(responses: Seq<WorkerResponse>, count: int) -> nat
    decreases count,
{
    if count <= 0 {
        0
    } else {
        routed_total(responses, count - 1) + route_of(responses, count - 1).len()
    }
}

/// There is one route to each worker.
proof fn lemma_route(route: Seq<u32>, responses: Seq<WorkerResponse>, target: int)
    requires
        routes(route, responses, target),
    ensures
        route == route_of(responses, target),
{
    let other = route_of(responses, target);
    assert(routes(other, responses, target));
    assert forall|x: u32| route.contains(x) <==> other.contains(x) by {
        assert(route.contains(x) <==> reported(responses, target, x));
        assert(other.contains(x) <==> reported(responses, target, x));
    }
    sorted::lemma_ascending_unique(route, other);
}

/// One more response.
proof fn lemma_reported_step(responses: Seq<WorkerResponse>, i: int, t: int, node: u32)
    requires
        0 <= i < responses.len(),
    ensures
        reported(responses.take(i + 1), t, node) <==> reported(responses.take(i), t, node)
            || reports(responses[i], t, node),
{
    let done = responses.take(i);
    let more = responses.take(i + 1);
    if reported(more, t, node) {
        let j = choose|j: int| 0 <= j < more.len() && #[trigger] reports(more[j], t, node);
        if j < i {
            assert(done[j] == more[j]);
            assert(reports(done[j], t, node));
        }
    }
    if reported(done, t, node) {
        let j = choose|j: int| 0 <= j < done.len() && #[trigger] reports(done[j], t, node);
        assert(reports(more[j], t, node));
    }
    if reports(responses[i], t, node) {
        assert(more[i] == responses[i]);
        assert(reports(more[i], t, node));
    }
}

/// Appends each group of nodes to the group of the same number.
fn extend_groups(groups: &mut Vec<Vec<u32>>, more: &Vec<Vec<u32>>)
    requires
        more@.len() <= old(groups)@.len(),
    ensures
        final(groups)@.len() == old(groups)@.len(),
        forall|t: int, node: u32|
            0 <= t < final(groups)@.len() ==> (#[trigger] final(groups)@[t]@.contains(node)
                <==> old(groups)@[t]@.contains(node) || t < more@.len() && more@[t]@.contains(
                node,
            )),
{
    let ghost before = groups@;
    let mut t: usize = 0;
    while t < more.len()
        invariant
            t <= more@.len() <= before.len(),
            groups@.len() == before.len(),
            forall|x: int| t <= x < groups@.len() ==> #[trigger] groups@[x] == before[x],
            forall|x: int, node: u32|
                0 <= x < t ==> (#[trigger] groups@[x]@.contains(node) <==> before[x]@.contains(node)
                    || more@[x]@.contains(node)),
        decreases more.len() - t,
    {
        let ghost unchanged = groups@;
        assert(groups@[t as int] == before[t as int]);
        let mut group: Vec<u32> = Vec::new();
        std::mem::swap(&mut group, &mut groups[t]);
        let ghost start = group@;
        let source = &more[t];
        let mut i: usize = 0;
        while i < source.len()
            invariant
                i <= source@.len(),
                group@ =~= start + source@.take(i as int),
            decreases source.len() - i,
        {
            group.push(source[i]);
            i = i + 1;
        }
        proof {
            assert(source@.take(i as int) =~= source@);
            assert forall|node: u32| group@.contains(node) <==> start.contains(node)
                || source@.contains(node) by {
                if group@.contains(node) {
                    let j = choose|j: int| 0 <= j < group@.len() && group@[j] == node;
                    if j < start.len() {
                        assert(start[j] == node);
                    } else {
                        assert(source@[j - start.len()] == node);
                    }
                }
                if start.contains(node) {
                    let j = choose|j: int| 0 <= j < start.len() && start[j] == node;
                    assert(group@[j] == node);
                }
                if source@.contains(node) {
                    let j = choose|j: int| 0 <= j < source@.len() && source@[j] == node;
                    assert(group@[start.len() + j] == node);
                }
            }
        }
        groups.set(t, group);
        assert forall|x: int, node: u32| 0 <= x < t + 1 implies (
        #[trigger] groups@[x]@.contains(node) <==> before[x]@.contains(node)
            || more@[x]@.contains(node)) by {
            if x < t {
                assert(groups@[x] == unchanged[x]);
            }
        }
        t = t + 1;
    }
}

/// A worker is told just what was reported to it.
pub open spec fn finishes(
    command: WorkerCommand,
    responses: Seq<WorkerResponse>,
    target: int,
) -> bool {
    match command {
        WorkerCommand::FinishBfsLevel(route) => routes(route@, responses, target) && route@
            == route_of(responses, target),
        _ => false,
    }
}

/// The nodes once each, in ascending order.
fn sort_and_dedup(nodes: Vec<u32>) -> (unique: Vec<u32>)
    ensures
        sorted::ascending(unique@),
        forall|node: u32| #[trigger] unique@.contains(node) <==> nodes@.contains(node),
{
    let all: Vec<u32> = sort_nodes(&nodes);
    proof {
        all@.to_multiset_ensures();
        nodes@.to_multiset_ensures();
        assert forall|node: u32| #[trigger] all@.contains(node) <==> nodes@.contains(node) by {
            assert(all@.contains(node) <==> all@.to_multiset().count(node) > 0);
            assert(nodes@.contains(node) <==> nodes@.to_multiset().count(node) > 0);
        }
    }
    let mut unique: Vec<u32> = Vec::new();
    let mut i: usize = 0;
    while i < all.len()
        invariant
            i <= all@.len(),
            forall|a: int, b: int| 0 <= a < b < all@.len() ==> all@[a] <= all@[b],
            sorted::ascending(unique@),
            forall|a: int| 0 <= a < unique@.len() ==> all@.take(i as int).contains(unique@[a]),
            forall|a: int| 0 <= a < i ==> unique@.contains(all@[a]),
            i > 0 ==> unique@.len() > 0 && unique@.last() == all@[i - 1],
            i == 0 ==> unique@.len() == 0,
        decreases all.len() - i,
    {
        let node: u32 = all[i];
        let ghost before = unique@;
        proof {
            assert forall|x: u32| all@.take(i as int).contains(x) implies all@.take(
                i + 1,
            ).contains(x) by {
                let j = choose|j: int| 0 <= j < i && all@.take(i as int)[j] == x;
                assert(all@.take(i + 1)[j] == x);
            }
            assert(all@.take(i + 1)[i as int] == node);
            assert(all@.take(i + 1).contains(node));
        }
        if unique.len() == 0 || unique[unique.len() - 1] != node {
            unique.push(node);
            proof {
                assert forall|a: int| 0 <= a < i implies unique@.contains(all@[a]) by {
                    let j = choose|j: int| 0 <= j < before.len() && before[j] == all@[a];
                    assert(unique@[j] == all@[a]);
                }
                assert(unique@[before.len() as int] == node);
                assert forall|a: int, b: int| 0 <= a < b < unique@.len() implies unique@[a]
                    < unique@[b] by {
                    if b == before.len() {
                        assert(before[before.len() - 1] == all@[i - 1]);
                        if a < before.len() - 1 {
                            assert(before[a] < before[before.len() - 1]);
                        }
                    }
                }
            }
        } else {
            assert(unique@[unique@.len() - 1] == node);
            assert(unique@.contains(node));
        }
        i = i + 1;
    }
    proof {
        assert(all@.take(i as int) =~= all@);
        assert forall|node: u32| #[trigger] unique@.contains(node) <==> nodes@.contains(node) by {
            if unique@.contains(node) {
                let a = choose|a: int| 0 <= a < unique@.len() && unique@[a] == node;
                assert(all@.contains(unique@[a]));
            }
            if all@.contains(node) {
                let a = choose|a: int| 0 <= a < all@.len() && all@[a] == node;
                assert(unique@.contains(all@[a]));
            }
        }
    }
    unique
}

} // verus!
