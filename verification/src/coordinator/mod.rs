//! The conduct of an experiment over many workers.
//!
//! The coordinator never waits: it is handed what the workers answered, and
//! says what to tell the user and what to ask of the workers next.

pub mod acceptance;
pub mod clustering;
pub mod commands;
pub mod course;
pub mod rewiring;
pub mod search;
pub mod telling;

use crate::metrics::LocalClustering;
use crate::model::{ExperimentConfig, ExperimentResult, Phase, ProgressEvent, Ratio};
use crate::protocol::{ClusterConfig, WorkerCommand, WorkerResponse};
use crate::rows;
use vstd::prelude::*;
use vstd::string::*;

verus! {

/// Sets the draws for rewiring apart from the others.
pub const REWIRE_SEED: u64 = 0x736f_6d65_7073_6575;

/// Sets the draws for the clustering sample apart from the others.
pub const CLUSTERING_SEED: u64 = 0x646f_7261_6e64_6f6d;

/// Sets the draws for the sources apart from the others.
pub const SOURCE_SEED: u64 = 0x6c79_6765_6e65_7261;

/// The most vertices whose clustering is looked at.
pub const CLUSTERING_SAMPLE_LIMIT: u32 = 20_000;

/// What the coordinator waits for.
#[derive(Debug, Clone, Copy, PartialEq, Eq, Structural)]
pub enum Stage {
    /// All workers to build their shards.
    Building,
    /// The next message of a rewiring pass.
    Rewiring { source: usize },
    /// The mutations of a batch to be applied.
    Applying { source: usize, expected: u64 },
    /// All workers to tell the size of their shards.
    Counting,
    /// The next message of a clustering pass.
    Preparing { origin: usize },
    /// The queries of a batch to be answered.
    Resolving { origin: usize },
    /// All workers to tell their ring distances.
    Measuring,
    /// All workers to start a search.
    Starting,
    /// All workers to expand their frontiers.
    Expanding { level: u32 },
    /// All workers to finish a level.
    Finishing { level: u32, discovered: u64 },
    /// Nothing: the experiment is over.
    Done,
}

/// What has been counted so far.
#[derive(Debug, Clone, Copy, PartialEq, Eq, Structural)]
pub struct Totals {
    pub rewired_edges: u64,
    pub adjacency_entries: u64,
    pub cross_shard_messages: u64,
    pub total_distance: u64,
    pub total_reachable: u64,
    pub vertices_visited: u64,
}

/// An experiment under way.
///
/// `waiting` holds the sampled vertices of each worker whose clustering is not
/// asked for yet, `counts` the links found so far for those that are being
/// asked for, `clustering` what was found for the others. `source` is the
/// place of the current source among `sources`.
#[derive(Debug)]
pub struct Coordinator {
    pub config: ExperimentConfig,
    pub stage: Stage,
    pub totals: Totals,
    pub waiting: Vec<Vec<u32>>,
    pub counts: Vec<u64>,
    pub clustering: Vec<LocalClustering>,
    pub sources: Vec<u32>,
    pub source: usize,
}

/// What the workers answered.
#[derive(Debug)]
pub enum Reply {
    /// One worker's message.
    One(WorkerResponse),
    /// One answer of every worker, in their order.
    All(Vec<WorkerResponse>),
}

/// What to do next.
#[derive(Debug)]
pub enum Action {
    /// Ask all workers the same.
    Broadcast(WorkerCommand),
    /// Ask each worker its own.
    AskEach(Vec<WorkerCommand>),
    /// Ask one worker.
    Ask { worker: usize, command: WorkerCommand },
    /// Wait for one worker's next message.
    Receive { worker: usize },
    /// Stop the workers: this is what was found.
    Finish(ExperimentResult),
}

/// What to tell, and what to do next.
#[derive(Debug)]
pub struct Turn {
    pub events: Vec<ProgressEvent>,
    pub action: Action,
}

/// Why the experiment cannot go on.
#[derive(Debug)]
pub enum Stop {
    /// A worker answered what makes no sense.
    Failed(String),
    /// What the workers counted outgrows the counters, or a worker speaks of a
    /// worker that there is not.
    Crash,
}

/// The time since the phase began and since the run began, in milliseconds.
#[derive(Debug, Clone, Copy, PartialEq, Eq, Structural)]
pub struct Clock {
    pub phase_ms: u64,
    pub run_ms: u64,
}

/// The parts of the responses, summed.
pub open spec fn sum_of(
    responses: Seq<WorkerResponse>,
    part: spec_fn(WorkerResponse) -> nat,
) -> nat
    decreases responses.len(),
{
    if responses.len() == 0 {
        0
    } else {
        sum_of(responses.drop_last(), part) + part(responses.last())
    }
}

/// Every response is of the kind.
pub open spec fn all_are(
    responses: Seq<WorkerResponse>,
    kind: spec_fn(WorkerResponse) -> bool,
) -> bool {
    forall|i: int| 0 <= i < responses.len() ==> kind(#[trigger] responses[i])
}

/// The first responses sum up to no more than all of them.
pub proof fn lemma_sum_grows(
    responses: Seq<WorkerResponse>,
    part: spec_fn(WorkerResponse) -> nat,
    i: int,
)
    requires
        0 <= i <= responses.len(),
    ensures
        sum_of(responses.take(i), part) <= sum_of(responses, part),
    decreases responses.len() - i,
{
    if i == responses.len() {
        assert(responses.take(i) =~= responses);
    } else {
        assert(responses.take(i + 1).drop_last() =~= responses.take(i));
        lemma_sum_grows(responses, part, i + 1);
    }
}

/// One more response.
pub proof fn lemma_sum_step(
    responses: Seq<WorkerResponse>,
    part: spec_fn(WorkerResponse) -> nat,
    i: int,
)
    requires
        0 <= i < responses.len(),
    ensures
        sum_of(responses.take(i + 1), part) == sum_of(responses.take(i), part) + part(
            responses[i],
        ),
{
    assert(responses.take(i + 1).drop_last() =~= responses.take(i));
}

/// The number, unless it outgrows a counter.
pub open spec fn counted(number: nat) -> Option<u64> {
    if number <= u64::MAX {
        Some(number as u64)
    } else {
        None
    }
}

/// Adds to a counter that may have been outgrown already.
pub(crate) fn add_count(
    counter: Option<u64>,
    more: u64,
    Ghost(number): Ghost<nat>,
) -> (sum: Option<u64>)
    requires
        counter == counted(number),
    ensures
        sum == counted(number + more as nat),
{
    match counter {
        None => None,
        Some(count) => count.checked_add(more),
    }
}

/// The experiment failed, and this is said.
pub open spec fn fails(answer: Result<Turn, Stop>, message: Seq<char>) -> bool {
    match answer {
        Err(Stop::Failed(told)) => told@ == message,
        _ => false,
    }
}

/// The event tells how far a phase has come.
pub open spec fn tells(
    event: ProgressEvent,
    phase: Phase,
    progress: Ratio,
    detail: Seq<char>,
    elapsed_ms: u64,
) -> bool {
    match event {
        ProgressEvent::PhaseProgress { phase: p, progress: r, detail: d, elapsed_ms: e } => {
            p == phase && r == progress && d@ == detail && e == elapsed_ms
        },
        _ => false,
    }
}

/// A fraction of at most one.
pub open spec fn share(numerator: int, denominator: int) -> Ratio {
    if numerator >= denominator {
        Ratio { numerator: 1, denominator: 1 }
    } else {
        Ratio { numerator: numerator as u64, denominator: denominator as u64 }
    }
}

/// A fraction of at most one.
pub fn clamped(numerator: u64, denominator: u64) -> (ratio: Ratio)
    ensures
        ratio == share(numerator as int, denominator as int),
{
    if numerator >= denominator {
        Ratio { numerator: 1, denominator: 1 }
    } else {
        Ratio { numerator, denominator }
    }
}

/// The response of a worker, unless it is an error or the worker has gone.
pub fn accept_response(response: Option<WorkerResponse>) -> (accepted: Result<
    WorkerResponse,
    String,
>)
    ensures
        match response {
            None => accepted is Err && accepted->Err_0@ == "worker closed its protocol stream"@,
            Some(WorkerResponse::Error(message)) => accepted == Err::<WorkerResponse, String>(
                message,
            ),
            Some(response) => accepted == Ok::<WorkerResponse, String>(response),
        },
{
    match response {
        None => Err("worker closed its protocol stream".to_owned()),
        Some(WorkerResponse::Error(message)) => Err(message),
        Some(response) => Ok(response),
    }
}

impl ExperimentConfig {
    /// What the workers need to know to build their shards.
    pub open spec fn cluster(self) -> ClusterConfig {
        ClusterConfig {
            nodes: self.nodes,
            degree: self.degree,
            workers: self.workers,
            seed: self.seed,
        }
    }
}

/// Nothing counted yet.
pub open spec fn no_totals() -> Totals {
    Totals {
        rewired_edges: 0,
        adjacency_entries: 0,
        cross_shard_messages: 0,
        total_distance: 0,
        total_reachable: 0,
        vertices_visited: 0,
    }
}

impl Coordinator {
    /// The configuration is sound, and what is kept fits it.
    pub open spec fn wf(&self) -> bool {
        &&& self.config.sound()
        &&& self.waiting@.len() == self.config.workers
        &&& match self.stage {
            Stage::Rewiring { source } => source < self.config.workers,
            Stage::Applying { source, .. } => source < self.config.workers,
            Stage::Preparing { origin } => origin < self.config.workers,
            Stage::Resolving { origin } => origin < self.config.workers,
            Stage::Measuring | Stage::Starting | Stage::Expanding { .. } | Stage::Finishing {
                ..
            } => self.in_search(),
            _ => true,
        }
        &&& self.sampled()
    }

    /// The vertices whose clustering has been found, those that are being asked
    /// for and those that wait make up the sample, once it has been drawn; what
    /// waits belongs to later workers.
    pub open spec fn sampled(&self) -> bool {
        let waiting = rows::seqs(self.waiting@);
        let count = self.config.clustering_count() as nat;
        match self.stage {
            Stage::Building | Stage::Rewiring { .. } | Stage::Applying { .. } | Stage::Counting =>
                self.clustering@.len() == 0,
            Stage::Preparing { origin } | Stage::Resolving { origin } => {
                &&& self.clustering@.len() + self.counts@.len() + rows::total(waiting) == count
                &&& forall|t: int| 0 <= t <= origin ==> (#[trigger] waiting[t]).len() == 0
            },
            Stage::Measuring | Stage::Starting | Stage::Expanding { .. } | Stage::Finishing {
                ..
            } => self.clustering@.len() == count && rows::total(waiting) == 0,
            Stage::Done => true,
        }
    }

    /// A source is being searched from.
    pub open spec fn in_search(&self) -> bool {
        &&& self.sources@.len() == self.config.bfs_samples
        &&& self.source < self.sources@.len()
    }

    /// The answer of every worker is waited for.
    pub open spec fn awaits_all(&self) -> bool {
        match self.stage {
            Stage::Building | Stage::Counting | Stage::Measuring | Stage::Starting
            | Stage::Expanding { .. } | Stage::Finishing { .. } => true,
            _ => false,
        }
    }

    /// One worker's message is waited for.
    pub open spec fn awaits_one(&self) -> bool {
        match self.stage {
            Stage::Rewiring { .. } | Stage::Applying { .. } | Stage::Preparing { .. }
            | Stage::Resolving { .. } => true,
            _ => false,
        }
    }

    /// The coordinator waits for what the action brings. A result is about the
    /// whole sample.
    pub open spec fn follows(&self, action: Action) -> bool {
        match action {
            Action::Broadcast(_) => self.awaits_all(),
            Action::AskEach(commands) => self.awaits_all() && commands@.len()
                == self.config.workers,
            Action::Ask { worker, .. } => self.awaits_one() && worker < self.config.workers,
            Action::Receive { worker } => self.awaits_one() && worker < self.config.workers,
            Action::Finish(result) => {
                &&& self.stage == Stage::Done
                &&& result.clustering@.len() == self.config.clustering_count()
                &&& result.clustering_samples == self.config.clustering_count()
            },
        }
    }

    /// Begins an experiment with workers that have just been started: all of
    /// them are to build their shards. A configuration that no experiment can be
    /// run with is refused.
    pub fn start(config: ExperimentConfig, worker_limit: u32) -> (begun: Result<
        (Coordinator, Turn),
        String,
    >)
        ensures
            match begun {
                Err(message) => config.complaint(worker_limit) == Some(message@),
                Ok((coordinator, turn)) => {
                    &&& config.complaint(worker_limit) is None
                    &&& coordinator.wf()
                    &&& coordinator.config == config
                    &&& coordinator.stage == Stage::Building
                    &&& coordinator.totals == no_totals()
                    &&& coordinator.clustering@.len() == 0
                    &&& coordinator.counts@.len() == 0
                    &&& coordinator.sources@.len() == 0
                    &&& coordinator.source == 0
                    &&& forall|t: int|
                        0 <= t < config.workers ==> (
                        #[trigger] coordinator.waiting@[t])@.len() == 0
                    &&& turn.events@ == seq![
                        ProgressEvent::WorkersStarted(config.workers),
                        ProgressEvent::PhaseStarted(Phase::Build),
                    ]
                    &&& turn.action == Action::Broadcast(WorkerCommand::Build(config.cluster()))
                    &&& coordinator.follows(turn.action)
                },
            },
            begun is Ok <==> {
                &&& config.nodes >= 10_000
                &&& 2 <= config.degree <= 100
                &&& config.degree % 2 == 0
                &&& config.degree < config.nodes
                &&& config.probability.bits <= 0x3ff0_0000_0000_0000 || config.probability.bits
                    == 0x8000_0000_0000_0000
                &&& config.probability.chance is Some
                &&& 1 <= config.bfs_samples <= 256
                &&& 1 <= config.workers <= worker_limit
            },
            begun is Ok ==> {
                let totals = begun->Ok_0.0.totals;
                &&& totals.rewired_edges == 0
                &&& totals.adjacency_entries == 0
                &&& totals.cross_shard_messages == 0
                &&& totals.total_distance == 0
                &&& totals.total_reachable == 0
                &&& totals.vertices_visited == 0
            },
            begun is Ok ==> begun->Ok_0.1.action == Action::Broadcast(
                WorkerCommand::Build(
                    ClusterConfig {
                        nodes: config.nodes,
                        degree: config.degree,
                        workers: config.workers,
                        seed: config.seed,
                    },
                ),
            ),
    {
        let config = match config.validate(worker_limit) {
            Ok(config) => config,
            Err(message) => return Err(message),
        };
        let mut waiting: Vec<Vec<u32>> = Vec::new();
        let mut i: u32 = 0;
        while i < config.workers
            invariant
                i <= config.workers,
                waiting@.len() == i,
                forall|t: int| 0 <= t < i ==> (#[trigger] waiting@[t])@.len() == 0,
            decreases config.workers - i,
        {
            waiting.push(Vec::new());
            i = i + 1;
        }
        let coordinator = Coordinator {
            config,
            stage: Stage::Building,
            totals: Totals {
                rewired_edges: 0,
                adjacency_entries: 0,
                cross_shard_messages: 0,
                total_distance: 0,
                total_reachable: 0,
                vertices_visited: 0,
            },
            waiting,
            counts: Vec::new(),
            clustering: Vec::new(),
            sources: Vec::new(),
            source: 0,
        };
        let mut events: Vec<ProgressEvent> = Vec::new();
        events.push(ProgressEvent::WorkersStarted(config.workers));
        events.push(ProgressEvent::PhaseStarted(Phase::Build));
        let turn = Turn {
            events,
            action: Action::Broadcast(
                WorkerCommand::Build(
                    ClusterConfig {
                        nodes: config.nodes,
                        degree: config.degree,
                        workers: config.workers,
                        seed: config.seed,
                    },
                ),
            ),
        };
        assert(turn.events@ =~= seq![
            ProgressEvent::WorkersStarted(config.workers),
            ProgressEvent::PhaseStarted(Phase::Build),
        ]);
        Ok((coordinator, turn))
    }
}

impl Coordinator {
    /// The reply is of the kind that is waited for.
    pub open spec fn expects(&self, reply: Reply) -> bool {
        match reply {
            Reply::One(_) => self.awaits_one(),
            Reply::All(_) => self.awaits_all(),
        }
    }

    /// What follows from a reply, at every stage of an experiment.
    pub open spec fn turn(
        &self,
        reply: Reply,
        clock: Clock,
        answer: Result<Turn, Stop>,
        after: Coordinator,
    ) -> bool {
        match reply {
            Reply::One(response) => match self.stage {
                Stage::Rewiring { source } => self.pass_turn(
                    source,
                    response,
                    clock,
                    answer,
                    after,
                ),
                Stage::Applying { source, expected } => self.applied_turn(
                    source,
                    expected,
                    response,
                    answer,
                    after,
                ),
                Stage::Preparing { origin } => self.prepared_turn(
                    origin,
                    response,
                    clock,
                    answer,
                    after,
                ),
                Stage::Resolving { origin } => self.answered_turn(origin, response, answer, after),
                _ => true,
            },
            Reply::All(responses) => match self.stage {
                Stage::Building => self.built_turn(responses@, clock, answer, after),
                Stage::Counting => self.counted_turn(responses@, clock, answer, after),
                Stage::Measuring => self.ring_turn(responses@, clock, answer, after),
                Stage::Starting => {
                    &&& answer is Ok
                    &&& after == (Coordinator { stage: Stage::Expanding { level: 0 }, ..*self })
                    &&& answer->Ok_0.events@.len() == 0
                    &&& answer->Ok_0.action == Action::Broadcast(WorkerCommand::ExpandBfs)
                },
                Stage::Expanding { level } => self.expanded_turn(
                    level,
                    responses@,
                    answer,
                    after,
                ),
                Stage::Finishing { level, discovered } => self.finished_turn(
                    level,
                    discovered,
                    responses@,
                    clock,
                    answer,
                    after,
                ),
                _ => true,
            },
        }
    }

    /// Takes what the workers answered, and says what to tell and what to do next.
    pub fn step(&mut self, reply: Reply, clock: Clock) -> (answer: Result<Turn, Stop>)
        requires
            old(self).wf(),
            old(self).expects(reply),
        ensures
            old(self).turn(reply, clock, answer, *final(self)),
            final(self).wf(),
            answer is Ok ==> final(self).follows(answer->Ok_0.action),
    {
        match reply {
            Reply::One(response) => match self.stage {
                Stage::Rewiring { source } => self.on_rewiring(source, response, clock),
                Stage::Applying { source, expected } => self.on_applied(
                    source,
                    expected,
                    response,
                ),
                Stage::Preparing { origin } => self.on_preparing(origin, response, clock),
                Stage::Resolving { origin } => self.on_resolved(origin, response),
                _ => Err(Stop::Crash),
            },
            Reply::All(responses) => match self.stage {
                Stage::Building => self.on_built(&responses, clock),
                Stage::Counting => self.on_counted(&responses, clock),
                Stage::Measuring => self.on_measured(&responses, clock),
                Stage::Starting => Ok(self.on_started()),
                Stage::Expanding { level } => self.on_expanded(level, &responses),
                Stage::Finishing { level, discovered } => self.on_finished(
                    level,
                    discovered,
                    &responses,
                    clock,
                ),
                _ => Err(Stop::Crash),
            },
        }
    }
}

} // verus!
