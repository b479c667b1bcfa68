//! Counting the shards and sampling the clustering, as the coordinator sees them.

use super::rewiring::{entries_text, is_stats, stats_entries};
use super::{Action, Clock, Coordinator, Stage, Stop, Totals, Turn};
use crate::batches::empty_groups;
use crate::metrics::LocalClustering;
use crate::model::{ExperimentConfig, Phase, ProgressEvent};
use crate::partition;
use crate::protocol::{WorkerCommand, WorkerResponse};
use crate::random::sample_sources;
use crate::random;
use crate::rows;
use crate::text;
use crate::worker;
use vstd::prelude::*;
use vstd::string::*;

verus! {

/// What is told after each worker's vertices.
pub open spec fn resolved_text(seen: nat) -> Seq<char> {
    text::decimal(seen) + " sampled vertices resolved"@
}

/// The first group from `from` on that is not empty, or the number of groups.
pub open spec fn next_filled(groups: Seq<Seq<u32>>, from: int) -> int
    decreases groups.len() - from,
{
    if from >= groups.len() {
        groups.len() as int
    } else if groups[from].len() > 0 {
        from
    } else {
        next_filled(groups, from + 1)
    }
}

impl ExperimentConfig {
    /// How many vertices' clustering is looked at.
    pub open spec fn clustering_count(self) -> u32 {
        if self.nodes <= super::CLUSTERING_SAMPLE_LIMIT {
            self.nodes
        } else {
            super::CLUSTERING_SAMPLE_LIMIT
        }
    }

    /// The vertices whose clustering is looked at.
    pub open spec fn clustering_sample(self) -> Seq<u32> {
        let drawn = random::index_sample(
            random::seeded(self.seed ^ super::CLUSTERING_SEED),
            self.nodes as usize,
            self.clustering_count() as usize,
        );
        Seq::new(drawn.len(), |i: int| drawn[i] as u32)
    }

    /// Those of them that worker `t` owns.
    pub open spec fn clustering_share(self, t: int) -> Seq<u32> {
        worker::bfs::owned_part(self.clustering_sample(), self.cluster(), t)
    }
}

impl Coordinator {
    /// The next worker with sampled vertices is to prepare their clustering;
    /// after the last one the searches begin.
    pub open spec fn origin_turn(
        &self,
        from: int,
        told: Seq<ProgressEvent>,
        clock: Clock,
        turn: Turn,
        after: Coordinator,
    ) -> bool {
        let waiting = rows::seqs(self.waiting@);
        let origin = next_filled(waiting, from);
        if origin < waiting.len() {
            &&& after.config == self.config
            &&& after.totals == self.totals
            &&& after.clustering == self.clustering
            &&& after.sources == self.sources
            &&& after.source == self.source
            &&& after.stage == (Stage::Preparing { origin: origin as usize })
            &&& rows::seqs(after.waiting@) == waiting.update(origin, Seq::empty())
            &&& after.counts@ == Seq::new(waiting[origin].len(), |i: int| 0u64)
            &&& turn.events@ == told
            &&& match turn.action {
                Action::Ask {
                    worker,
                    command: WorkerCommand::PrepareClustering { vertices },
                } => worker == origin && vertices@ == waiting[origin],
                _ => false,
            }
        } else {
            self.search_turn(
                told.push(
                    ProgressEvent::PhaseCompleted {
                        phase: Phase::Clustering,
                        elapsed_ms: clock.phase_ms,
                    },
                ).push(ProgressEvent::PhaseStarted(Phase::Bfs)),
                clock,
                turn,
                after,
            )
        }
    }

    /// Goes on to the next worker with sampled vertices.
    fn next_origin(&mut self, from: usize, events: Vec<ProgressEvent>, clock: Clock) -> (turn: Turn)
        requires
            old(self).config.sound(),
            old(self).waiting@.len() == old(self).config.workers,
            from <= old(self).waiting@.len(),
            old(self).clustering@.len() + rows::total(rows::seqs(old(self).waiting@)) == old(
                self,
            ).config.clustering_count(),
            forall|t: int| 0 <= t < from ==> (#[trigger] old(self).waiting@[t])@.len() == 0,
        ensures
            old(self).origin_turn(from as int, events@, clock, turn, *final(self)),
            final(self).wf(),
            final(self).follows(turn.action),
    {
        let ghost waiting = rows::seqs(self.waiting@);
        let mut origin: usize = from;
        while origin < self.waiting.len() && self.waiting[origin].len() == 0
            invariant
                *self == *old(self),
                waiting == rows::seqs(self.waiting@),
                from <= origin <= self.waiting@.len(),
                forall|t: int| 0 <= t < origin ==> (#[trigger] waiting[t]).len() == 0,
                next_filled(waiting, from as int) == next_filled(waiting, origin as int),
            decreases self.waiting@.len() - origin,
        {
            assert(waiting[origin as int].len() == 0);
            origin = origin + 1;
        }
        let mut events = events;
        if origin < self.waiting.len() {
            assert(waiting[origin as int].len() > 0);
            let mut vertices: Vec<u32> = Vec::new();
            std::mem::swap(&mut vertices, &mut self.waiting[origin]);
            assert(rows::seqs(self.waiting@) =~= waiting.update(origin as int, Seq::empty()));
            let mut counts: Vec<u64> = Vec::new();
            counts.resize(vertices.len(), 0);
            assert(counts@ =~= Seq::new(vertices@.len(), |i: int| 0u64));
            proof {
                rows::lemma_total_update(waiting, origin as int, Seq::empty());
            }
            self.counts = counts;
            self.stage = Stage::Preparing { origin };
            return Turn {
                events,
                action: Action::Ask {
                    worker: origin,
                    command: WorkerCommand::PrepareClustering { vertices },
                },
            };
        }
        events.push(
            ProgressEvent::PhaseCompleted { phase: Phase::Clustering, elapsed_ms: clock.phase_ms },
        );
        events.push(ProgressEvent::PhaseStarted(Phase::Bfs));
        proof {
            rows::lemma_total_empty(waiting);
        }
        self.begin_search(events, clock)
    }

    /// The shards are counted. Where rewiring has kept the number of entries the
    /// sample is drawn and the first worker is to prepare its clustering.
    pub open spec fn counted_turn(
        &self,
        responses: Seq<WorkerResponse>,
        clock: Clock,
        answer: Result<Turn, Stop>,
        after: Coordinator,
    ) -> bool {
        let entries = super::sum_of(responses, stats_entries());
        let expected = self.config.nodes as nat * self.config.degree as nat;
        if !super::all_are(responses, is_stats()) {
            super::fails(answer, "unexpected graph stats response"@) && after == *self
        } else if entries > u64::MAX {
            answer == Err::<Turn, Stop>(Stop::Crash) && after == *self
        } else if entries != expected {
            super::fails(answer, entries_text(entries, expected)) && after == *self
        } else {
            &&& answer is Ok
            &&& self.sampled_turn(entries, clock, answer->Ok_0, after)
        }
    }

    /// The sample has been drawn.
    pub open spec fn sampled_turn(
        &self,
        entries: nat,
        clock: Clock,
        turn: Turn,
        after: Coordinator,
    ) -> bool {
        let told = seq![
            ProgressEvent::PhaseCompleted { phase: Phase::Rewire, elapsed_ms: clock.phase_ms },
            ProgressEvent::PhaseStarted(Phase::Clustering),
        ];
        exists|ready: Coordinator|
            {
                &&& ready.config == self.config
                &&& ready.stage == self.stage
                &&& ready.totals == (Totals { adjacency_entries: entries as u64, ..self.totals })
                &&& ready.counts == self.counts
                &&& ready.clustering == self.clustering
                &&& ready.sources == self.sources
                &&& ready.source == self.source
                &&& rows::seqs(ready.waiting@) == Seq::new(
                    self.config.workers as nat,
                    |t: int| self.config.clustering_share(t),
                )
                &&& #[trigger] ready.origin_turn(0, told, clock, turn, after)
            }
    }

    /// Checks the number of entries and draws the clustering sample.
    pub fn on_counted(&mut self, responses: &Vec<WorkerResponse>, clock: Clock) -> (answer: Result<
        Turn,
        Stop,
    >)
        requires
            old(self).wf(),
            old(self).stage == Stage::Counting,
        ensures
            old(self).counted_turn(responses@, clock, answer, *final(self)),
            final(self).wf(),
            answer is Ok ==> final(self).follows(answer->Ok_0.action),
    {
        let mut entries: Option<u64> = Some(0);
        let mut i: usize = 0;
        assert(responses@.take(0) =~= Seq::empty());
        while i < responses.len()
            invariant
                i <= responses@.len(),
                *self == *old(self),
                self.wf(),
                forall|j: int| 0 <= j < i ==> #[trigger] responses@[j] is GraphStats,
                entries == super::counted(
                    super::sum_of(responses@.take(i as int), stats_entries()),
                ),
            decreases responses.len() - i,
        {
            proof {
                super::lemma_sum_step(responses@, stats_entries(), i as int);
            }
            match &responses[i] {
                WorkerResponse::GraphStats { adjacency_entries, .. } => {
                    entries =
                    super::add_count(
                        entries,
                        *adjacency_entries,
                        Ghost(super::sum_of(responses@.take(i as int), stats_entries())),
                    );
                },
                _ => {
                    proof {
                        assert(!is_stats()(responses@[i as int]));
                    }
                    return Err(Stop::Failed("unexpected graph stats response".to_owned()));
                },
            }
            i = i + 1;
        }
        proof {
            assert(responses@.take(i as int) =~= responses@);
            assert(super::all_are(responses@, is_stats()));
        }
        let entries: u64 = match entries {
            Some(entries) => entries,
            None => return Err(Stop::Crash),
        };
        proof {
            assert(self.config.nodes * self.config.degree <= u32::MAX * u32::MAX)
                by (nonlinear_arith)
                requires
                    0 <= self.config.nodes <= u32::MAX,
                    0 <= self.config.degree <= u32::MAX,
            ;
        }
        let expected: u64 = self.config.nodes as u64 * self.config.degree as u64;
        if entries != expected {
            let mut message = text::numbered(
                "edge-count invariant failed: ",
                entries,
                " adjacency entries, expected ",
            );
            text::push_decimal(&mut message, expected);
            return Err(Stop::Failed(message));
        }
        let waiting = self.draw_sample();
        self.totals.adjacency_entries = entries;
        self.waiting = waiting;
        let ghost ready = *self;
        let mut events: Vec<ProgressEvent> = Vec::new();
        events.push(
            ProgressEvent::PhaseCompleted { phase: Phase::Rewire, elapsed_ms: clock.phase_ms },
        );
        events.push(ProgressEvent::PhaseStarted(Phase::Clustering));
        let ghost told = events@;
        let turn = self.next_origin(0, events, clock);
        proof {
            assert(told =~= seq![
                ProgressEvent::PhaseCompleted { phase: Phase::Rewire, elapsed_ms: clock.phase_ms },
                ProgressEvent::PhaseStarted(Phase::Clustering),
            ]);
            assert(ready.origin_turn(0, told, clock, turn, *self));
            assert(old(self).sampled_turn(entries as nat, clock, turn, *self));
        }
        Ok(turn)
    }

    /// Draws the vertices whose clustering is looked at, by owner.
    fn draw_sample(&self) -> (groups: Vec<Vec<u32>>)
        requires
            self.wf(),
        ensures
            groups@.len() == self.config.workers,
            rows::seqs(groups@) == Seq::new(
                self.config.workers as nat,
                |t: int| self.config.clustering_share(t),
            ),
            rows::total(rows::seqs(groups@)) == self.config.clustering_count(),
    {
        let count: u32 = self.clustering_count();
        let drawn: Vec<usize> = sample_sources(
            self.config.nodes as usize,
            count as usize,
            self.config.seed ^ super::CLUSTERING_SEED,
        );
        let ghost sample = self.config.clustering_sample();
        let ghost cluster = self.config.cluster();
        let mut groups: Vec<Vec<u32>> = empty_groups(self.config.workers as usize);
        let mut i: usize = 0;
        proof {
            assert(sample.take(0) =~= Seq::empty());
            rows::lemma_total_empty(rows::seqs(groups@));
        }
        while i < drawn.len()
            invariant
                self.wf(),
                rows::total(rows::seqs(groups@)) == i,
                i <= drawn@.len(),
                drawn@.len() == sample.len(),
                forall|j: int| 0 <= j < drawn@.len() ==> drawn@[j] < self.config.nodes,
                forall|j: int|
                    0 <= j < drawn@.len() ==> #[trigger] sample[j] == drawn@[j] as u32,
                cluster == self.config.cluster(),
                groups@.len() == self.config.workers,
                forall|t: int|
                    0 <= t < groups@.len() ==> #[trigger] groups@[t]@ == worker::bfs::owned_part(
                        sample.take(i as int),
                        cluster,
                        t,
                    ),
            decreases drawn.len() - i,
        {
            let vertex: u32 = drawn[i] as u32;
            let target: usize = partition::owner(vertex, self.config.nodes, self.config.workers);
            let ghost before = groups@;
            groups[target].push(vertex);
            proof {
                let grown = before[target as int]@.push(vertex);
                rows::lemma_total_update(rows::seqs(before), target as int, grown);
                assert(rows::seqs(groups@) =~= rows::seqs(before).update(target as int, grown));
                assert(sample.take(i + 1).drop_last() =~= sample.take(i as int));
                assert(sample.take(i + 1).last() == vertex);
                assert forall|t: int| 0 <= t < groups@.len() implies #[trigger] groups@[t]@
                    == worker::bfs::owned_part(sample.take(i + 1), cluster, t) by {
                    assert(before[t]@ == worker::bfs::owned_part(
                        sample.take(i as int),
                        cluster,
                        t,
                    ));
                }
            }
            i = i + 1;
        }
        assert(sample.take(i as int) =~= sample);
        assert(rows::seqs(groups@) =~= Seq::new(
            self.config.workers as nat,
            |t: int| self.config.clustering_share(t),
        ));
        groups
    }

    /// How many vertices' clustering is looked at.
    fn clustering_count(&self) -> (count: u32)
        ensures
            count == self.config.clustering_count(),
    {
        if self.config.nodes <= super::CLUSTERING_SAMPLE_LIMIT {
            self.config.nodes
        } else {
            super::CLUSTERING_SAMPLE_LIMIT
        }
    }

    /// A message of a clustering pass: a batch goes on to its target, the
    /// summary ends the pass.
    pub open spec fn prepared_turn(
        &self,
        origin: usize,
        response: WorkerResponse,
        clock: Clock,
        answer: Result<Turn, Stop>,
        after: Coordinator,
    ) -> bool {
        match response {
            WorkerResponse::ClusteringQueries { target, queries } => {
                let messages = self.totals.cross_shard_messages + queries@.len();
                if target == origin || target >= self.config.workers {
                    super::fails(answer, "invalid clustering batch target"@) && after == *self
                } else if messages > u64::MAX {
                    answer == Err::<Turn, Stop>(Stop::Crash) && after == *self
                } else {
                    &&& answer is Ok
                    &&& after == (Coordinator {
                        stage: Stage::Resolving { origin },
                        totals: Totals { cross_shard_messages: messages as u64, ..self.totals },
                        ..*self
                    })
                    &&& answer->Ok_0.events@.len() == 0
                    &&& answer->Ok_0.action == (Action::Ask {
                        worker: target as usize,
                        command: WorkerCommand::ResolveEdgeQueries(queries),
                    })
                }
            },
            WorkerResponse::ClusteringPrepared { degrees, local_counts } => {
                if degrees@.len() != self.counts@.len() || local_counts@.len() != degrees@.len() {
                    super::fails(answer, "clustering summary count mismatch"@) && after == *self
                } else if outgrown(self.counts@, local_counts@) {
                    answer == Err::<Turn, Stop>(Stop::Crash) && after == *self
                } else {
                    &&& answer is Ok
                    &&& self.resolved_turn(
                        origin,
                        degrees@,
                        local_counts@,
                        clock,
                        answer->Ok_0,
                        after,
                    )
                }
            },
            _ => super::fails(answer, "unexpected clustering preparation response"@) && after
                == *self,
        }
    }

    /// A worker's vertices are resolved.
    pub open spec fn resolved_turn(
        &self,
        origin: usize,
        degrees: Seq<u32>,
        local_counts: Seq<u64>,
        clock: Clock,
        turn: Turn,
        after: Coordinator,
    ) -> bool {
        let seen = self.clustering@.len() + degrees.len();
        &&& turn.events@.len() >= 1
        &&& super::tells(
            turn.events@[0],
            Phase::Clustering,
            super::share(seen as int, self.config.clustering_count() as int),
            resolved_text(seen),
            clock.phase_ms,
        )
        &&& exists|ready: Coordinator|
            {
                &&& ready.config == self.config
                &&& ready.stage == self.stage
                &&& ready.totals == self.totals
                &&& ready.waiting == self.waiting
                &&& ready.sources == self.sources
                &&& ready.source == self.source
                &&& ready.clustering@ == self.clustering@ + resolved(
                    degrees,
                    self.counts@,
                    local_counts,
                )
                &&& #[trigger] ready.origin_turn(
                    origin + 1,
                    turn.events@.take(1),
                    clock,
                    turn,
                    after,
                )
            }
    }

    /// Takes a message of a clustering pass.
    pub fn on_preparing(
        &mut self,
        origin: usize,
        response: WorkerResponse,
        clock: Clock,
    ) -> (answer: Result<Turn, Stop>)
        requires
            old(self).wf(),
            old(self).stage == (Stage::Preparing { origin }),
        ensures
            old(self).prepared_turn(origin, response, clock, answer, *final(self)),
            final(self).wf(),
            answer is Ok ==> final(self).follows(answer->Ok_0.action),
    {
        let workers: usize = self.config.workers as usize;
        match response {
            WorkerResponse::ClusteringQueries { target, queries } => {
                let target: usize = target as usize;
                if target == origin || target >= workers {
                    return Err(Stop::Failed("invalid clustering batch target".to_owned()));
                }
                let messages: u64 = match self.totals.cross_shard_messages.checked_add(
                    queries.len() as u64,
                ) {
                    Some(messages) => messages,
                    None => return Err(Stop::Crash),
                };
                self.totals.cross_shard_messages = messages;
                self.stage = Stage::Resolving { origin };
                Ok(
                    Turn {
                        events: Vec::new(),
                        action: Action::Ask {
                            worker: target,
                            command: WorkerCommand::ResolveEdgeQueries(queries),
                        },
                    },
                )
            },
            WorkerResponse::ClusteringPrepared { degrees, local_counts } => {
                if degrees.len() != self.counts.len() || local_counts.len() != degrees.len() {
                    return Err(Stop::Failed("clustering summary count mismatch".to_owned()));
                }
                let mut found: Vec<LocalClustering> = match resolve(
                    &degrees,
                    &self.counts,
                    &local_counts,
                ) {
                    Some(found) => found,
                    None => return Err(Stop::Crash),
                };
                let ghost earlier = self.clustering@;
                self.clustering.append(&mut found);
                let seen: u64 = self.clustering.len() as u64;
                assert(seen == earlier.len() + degrees@.len());
                let mut detail = text::decimal_text(seen);
                detail.append(" sampled vertices resolved");
                let mut events: Vec<ProgressEvent> = Vec::new();
                events.push(
                    ProgressEvent::PhaseProgress {
                        phase: Phase::Clustering,
                        progress: super::clamped(seen, self.clustering_count() as u64),
                        detail,
                        elapsed_ms: clock.phase_ms,
                    },
                );
                let ghost ready = *self;
                let ghost told = events@;
                proof {
                    let waiting = rows::seqs(self.waiting@);
                    assert forall|t: int| 0 <= t < origin + 1 implies (
                    #[trigger] self.waiting@[t])@.len() == 0 by {
                        assert(waiting[t].len() == 0);
                    }
                }
                let turn = self.next_origin(origin + 1, events, clock);
                proof {
                    ready.lemma_origin_told(origin + 1, told, clock, turn, *self);
                    assert(ready.origin_turn(
                        origin + 1,
                        turn.events@.take(1),
                        clock,
                        turn,
                        *self,
                    ));
                    assert(old(self).resolved_turn(
                        origin,
                        degrees@,
                        local_counts@,
                        clock,
                        turn,
                        *self,
                    ));
                }
                Ok(turn)
            },
            _ => Err(Stop::Failed("unexpected clustering preparation response".to_owned())),
        }
    }

    /// What was told before stays in front.
    proof fn lemma_origin_told(
        &self,
        from: int,
        told: Seq<ProgressEvent>,
        clock: Clock,
        turn: Turn,
        after: Coordinator,
    )
        requires
            told.len() == 1,
            self.origin_turn(from, told, clock, turn, after),
        ensures
            turn.events@.len() >= 1,
            turn.events@.take(1) == told,
    {
        let waiting = rows::seqs(self.waiting@);
        if next_filled(waiting, from) >= waiting.len() {
            let longer = told.push(
                ProgressEvent::PhaseCompleted {
                    phase: Phase::Clustering,
                    elapsed_ms: clock.phase_ms,
                },
            ).push(ProgressEvent::PhaseStarted(Phase::Bfs));
            let ready = choose|ready: Coordinator|
                {
                    &&& ready.config == self.config
                    &&& ready.totals == self.totals
                    &&& ready.waiting == self.waiting
                    &&& ready.counts == self.counts
                    &&& ready.clustering == self.clustering
                    &&& ready.stage == self.stage
                    &&& ready.source == 0
                    &&& ready.sources@.len() == self.config.bfs_samples
                    &&& forall|i: int|
                        0 <= i < ready.sources@.len() ==> #[trigger] ready.sources@[i]
                            == self.config.source_sample()[i]
                    &&& #[trigger] ready.source_turn(longer, clock, turn, after)
                };
            assert(ready.source_turn(longer, clock, turn, after));
            assert(turn.events@.take(1) =~= told);
        } else {
            assert(turn.events@.take(1) =~= told);
        }
    }

    /// A batch of queries is answered: the links found count for their origins.
    pub open spec fn answered_turn(
        &self,
        origin: usize,
        response: WorkerResponse,
        answer: Result<Turn, Stop>,
        after: Coordinator,
    ) -> bool {
        match response {
            WorkerResponse::EdgeQueriesResolved { counts } => {
                if !within(counts@, self.counts@.len()) {
                    super::fails(answer, "invalid edge-query origin index"@) && after == *self
                } else if exists|i: int|
                    0 <= i < self.counts@.len() && #[trigger] gained(
                        self.counts@,
                        counts@,
                        i,
                    ) > u64::MAX {
                    answer == Err::<Turn, Stop>(Stop::Crash) && after == *self
                } else {
                    &&& answer is Ok
                    &&& after.config == self.config
                    &&& after.stage == (Stage::Preparing { origin })
                    &&& after.totals == self.totals
                    &&& after.waiting == self.waiting
                    &&& after.clustering == self.clustering
                    &&& after.sources == self.sources
                    &&& after.source == self.source
                    &&& after.counts@ == Seq::new(
                        self.counts@.len(),
                        |i: int| gained(self.counts@, counts@, i) as u64,
                    )
                    &&& answer->Ok_0.events@.len() == 0
                    &&& answer->Ok_0.action == (Action::Receive { worker: origin })
                }
            },
            _ => super::fails(answer, "unexpected edge-query response"@) && after == *self,
        }
    }

    /// Adds the links of an answered batch.
    pub fn on_resolved(&mut self, origin: usize, response: WorkerResponse) -> (answer: Result<
        Turn,
        Stop,
    >)
        requires
            old(self).wf(),
            old(self).stage == (Stage::Resolving { origin }),
        ensures
            old(self).answered_turn(origin, response, answer, *final(self)),
            final(self).wf(),
            answer is Ok ==> final(self).follows(answer->Ok_0.action),
    {
        let counts = match response {
            WorkerResponse::EdgeQueriesResolved { counts } => counts,
            _ => return Err(Stop::Failed("unexpected edge-query response".to_owned())),
        };
        if !origins_within(&counts, self.counts.len()) {
            return Err(Stop::Failed("invalid edge-query origin index".to_owned()));
        }
        let sums: Vec<u64> = match add_links(&self.counts, &counts) {
            Some(sums) => sums,
            None => return Err(Stop::Crash),
        };
        self.counts = sums;
        self.stage = Stage::Preparing { origin };
        Ok(Turn { events: Vec::new(), action: Action::Receive { worker: origin } })
    }
}

/// Every origin is one of those asked for.
pub open spec fn within(counts: Seq<(u32, u64)>, size: nat) -> bool {
    forall|j: int| 0 <= j < counts.len() ==> (#[trigger] counts[j]).0 < size
}

/// Whether every origin is one of those asked for.
fn origins_within(counts: &Vec<(u32, u64)>, size: usize) -> (all: bool)
    ensures
        all == within(counts@, size as nat),
{
    let mut i: usize = 0;
    while i < counts.len()
        invariant
            i <= counts@.len(),
            forall|j: int| 0 <= j < i ==> (#[trigger] counts@[j]).0 < size,
        decreases counts.len() - i,
    {
        if counts[i].0 as usize >= size {
            assert(counts@[i as int].0 >= size);
            return false;
        }
        i = i + 1;
    }
    true
}

/// The links that the entries tell for origin `i`.
pub open spec fn links_for(counts: Seq<(u32, u64)>, i: int) -> nat
    decreases counts.len(),
{
    if counts.len() == 0 {
        0
    } else {
        links_for(counts.drop_last(), i) + if counts.last().0 == i {
            counts.last().1 as nat
        } else {
            0
        }
    }
}

/// The links of origin `i` together with those that the entries tell for it.
pub open spec fn gained(sums: Seq<u64>, counts: Seq<(u32, u64)>, i: int) -> nat {
    sums[i] as nat + links_for(counts, i)
}

proof fn lemma_links_grow(counts: Seq<(u32, u64)>, i: int, k: int)
    requires
        0 <= k <= counts.len(),
    ensures
        links_for(counts.take(k), i) <= links_for(counts, i),
    decreases counts.len() - k,
{
    if k == counts.len() {
        assert(counts.take(k) =~= counts);
    } else {
        assert(counts.take(k + 1).drop_last() =~= counts.take(k));
        lemma_links_grow(counts, i, k + 1);
    }
}

/// Adds links to the sums of their origins, unless a sum outgrows its counter.
fn add_links(sums: &Vec<u64>, counts: &Vec<(u32, u64)>) -> (added: Option<Vec<u64>>)
    requires
        within(counts@, sums@.len()),
    ensures
        match added {
            None => exists|i: int|
                0 <= i < sums@.len() && #[trigger] gained(sums@, counts@, i) > u64::MAX,
            Some(added) => {
                &&& added@ == Seq::new(
                    sums@.len(),
                    |i: int| gained(sums@, counts@, i) as u64,
                )
                &&& forall|i: int|
                    0 <= i < sums@.len() ==> #[trigger] gained(sums@, counts@, i) <= u64::MAX
            },
        },
{
    let mut added: Vec<u64> = Vec::new();
    let mut i: usize = 0;
    while i < sums.len()
        invariant
            i <= sums@.len(),
            added@ =~= sums@.take(i as int),
        decreases sums.len() - i,
    {
        added.push(sums[i]);
        i = i + 1;
    }
    assert(added@ =~= sums@);
    let mut k: usize = 0;
    assert(counts@.take(0) =~= Seq::empty());
    while k < counts.len()
        invariant
            k <= counts@.len(),
            within(counts@, sums@.len()),
            added@.len() == sums@.len(),
            forall|i: int|
                0 <= i < sums@.len() ==> #[trigger] added@[i] == gained(
                    sums@,
                    counts@.take(k as int),
                    i,
                ),
        decreases counts.len() - k,
    {
        let (origin, links) = counts[k];
        assert(counts@[k as int].0 < sums@.len());
        let at: usize = origin as usize;
        let ghost before = added@;
        proof {
            assert(counts@.take(k + 1).drop_last() =~= counts@.take(k as int));
            assert(counts@.take(k + 1).last() == counts@[k as int]);
            lemma_links_grow(counts@, at as int, k + 1);
            assert(added@[at as int] == gained(sums@, counts@.take(k as int), at as int));
        }
        match added[at].checked_add(links) {
            None => {
                assert(gained(sums@, counts@, at as int) > u64::MAX);
                return None;
            },
            Some(sum) => {
                added.set(at, sum);
            },
        }
        assert forall|i: int| 0 <= i < sums@.len() implies #[trigger] added@[i] == gained(
            sums@,
            counts@.take(k + 1),
            i,
        ) by {
            assert(before[i] == gained(sums@, counts@.take(k as int), i));
        }
        k = k + 1;
    }
    proof {
        assert(counts@.take(k as int) =~= counts@);
        assert forall|i: int| 0 <= i < sums@.len() implies #[trigger] gained(sums@, counts@, i)
            <= u64::MAX by {
            assert(added@[i] == gained(sums@, counts@, i));
        }
        assert(added@ =~= Seq::new(sums@.len(), |i: int| gained(sums@, counts@, i) as u64));
    }
    Some(added)
}

/// Some vertex has more links than a counter holds.
pub open spec fn outgrown(counts: Seq<u64>, local_counts: Seq<u64>) -> bool {
    exists|i: int| 0 <= i < counts.len() && #[trigger] counts[i] + local_counts[i] > u64::MAX
}

/// The links and the degree of every vertex of a worker.
pub open spec fn resolved(degrees: Seq<u32>, counts: Seq<u64>, local_counts: Seq<u64>) -> Seq<
    LocalClustering,
> {
    Seq::new(
        degrees.len(),
        |i: int|
            LocalClustering {
                links: (counts[i] + local_counts[i]) as u64,
                degree: degrees[i] as usize,
            },
    )
}

/// Adds the links that a worker told itself to those that others told.
fn resolve(degrees: &Vec<u32>, counts: &Vec<u64>, local_counts: &Vec<u64>) -> (found: Option<
    Vec<LocalClustering>,
>)
    requires
        degrees@.len() == counts@.len(),
        local_counts@.len() == counts@.len(),
    ensures
        match found {
            None => outgrown(counts@, local_counts@),
            Some(found) => !outgrown(counts@, local_counts@) && found@ == resolved(
                degrees@,
                counts@,
                local_counts@,
            ),
        },
{
    let mut found: Vec<LocalClustering> = Vec::new();
    let mut i: usize = 0;
    while i < degrees.len()
        invariant
            i <= degrees@.len(),
            degrees@.len() == counts@.len(),
            local_counts@.len() == counts@.len(),
            found@ =~= resolved(degrees@, counts@, local_counts@).take(i as int),
            forall|j: int|
                0 <= j < i ==> #[trigger] counts@[j] + local_counts@[j] <= u64::MAX,
        decreases degrees.len() - i,
    {
        match counts[i].checked_add(local_counts[i]) {
            None => {
                assert(counts@[i as int] + local_counts@[i as int] > u64::MAX);
                return None;
            },
            Some(links) => {
                found.push(LocalClustering { links, degree: degrees[i] as usize });
            },
        }
        i = i + 1;
    }
    assert(resolved(degrees@, counts@, local_counts@).take(i as int) =~= resolved(
        degrees@,
        counts@,
        local_counts@,
    ));
    Some(found)
}

} // verus!
