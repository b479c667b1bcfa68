//! What a watcher of the experiments sees.

use crate::metrics::LocalClustering;
use crate::model::{
    BfsMethod, BfsProgress, ExperimentConfig, ExperimentResult, Phase, ProgressEvent, Ratio,
};
use vstd::prelude::*;
use vstd::string::*;

verus! {

/// Whether an experiment runs, and how the last one ended.
#[derive(Debug, Clone, Copy, PartialEq, Eq, Structural)]
pub enum RunStatus {
    Idle,
    Running,
    Complete,
    Failed,
}

impl RunStatus {
    /// The status in a word.
    pub fn name(self) -> (name: &'static str)
        ensures
            name@ == match self {
                RunStatus::Idle => "idle"@,
                RunStatus::Running => "running"@,
                RunStatus::Complete => "complete"@,
                RunStatus::Failed => "failed"@,
            },
    {
        match self {
            RunStatus::Idle => "idle",
            RunStatus::Running => "running",
            RunStatus::Complete => "complete",
            RunStatus::Failed => "failed",
        }
    }
}

/// How a phase stands.
#[derive(Debug, Clone, Copy, PartialEq, Eq, Structural)]
pub enum PhaseStatus {
    Pending,
    Active,
    Complete,
    Error,
}

impl PhaseStatus {
    /// The status in a word.
    pub fn name(self) -> (name: &'static str)
        ensures
            name@ == match self {
                PhaseStatus::Pending => "pending"@,
                PhaseStatus::Active => "active"@,
                PhaseStatus::Complete => "complete"@,
                PhaseStatus::Error => "error"@,
            },
    {
        match self {
            PhaseStatus::Pending => "pending",
            PhaseStatus::Active => "active",
            PhaseStatus::Complete => "complete",
            PhaseStatus::Error => "error",
        }
    }
}

/// The short name of a phase.
pub fn phase_key(phase: Phase) -> (key: &'static str)
    ensures
        key@ == match phase {
            Phase::Build => "build"@,
            Phase::Rewire => "rewire"@,
            Phase::Clustering => "clustering"@,
            Phase::Bfs => "bfs"@,
        },
{
    match phase {
        Phase::Build => "build",
        Phase::Rewire => "rewire",
        Phase::Clustering => "clustering",
        Phase::Bfs => "bfs",
    }
}

/// The heading of a phase.
pub fn phase_label(phase: Phase) -> (label: &'static str)
    ensures
        label@ == match phase {
            Phase::Build => "Build shards"@,
            Phase::Rewire => "Distributed rewiring"@,
            Phase::Clustering => "Clustering coefficient"@,
            Phase::Bfs => "Sampled distributed BFS"@,
        },
{
    match phase {
        Phase::Build => "Build shards",
        Phase::Rewire => "Distributed rewiring",
        Phase::Clustering => "Clustering coefficient",
        Phase::Bfs => "Sampled distributed BFS",
    }
}

/// The short name of a way to find distances.
pub fn method_name(method: BfsMethod) -> (name: &'static str)
    ensures
        name@ == match method {
            BfsMethod::Ring => "ring"@,
            BfsMethod::Traversal => "bfs"@,
        },
{
    match method {
        BfsMethod::Ring => "ring",
        BfsMethod::Traversal => "bfs",
    }
}

/// A phase as it is shown.
#[derive(Debug, Clone)]
pub struct PhaseView {
    pub key: Phase,
    pub status: PhaseStatus,
    pub progress: Ratio,
    pub detail: String,
    pub elapsed_ms: u64,
}

/// An experiment that has been run.
#[derive(Debug, Clone)]
pub struct RunRecord {
    pub id: u64,
    pub finished_at_ms: u64,
    pub config: ExperimentConfig,
    pub results: ExperimentResult,
}

/// All that is shown.
#[derive(Debug, Clone)]
pub struct DashboardState {
    pub status: RunStatus,
    pub workers_online: u32,
    pub worker_limit: u32,
    pub config: ExperimentConfig,
    pub phases: Vec<PhaseView>,
    pub current_bfs: Option<BfsProgress>,
    pub results: Option<ExperimentResult>,
    pub history: Vec<RunRecord>,
    pub error: Option<String>,
}

/// No progress.
pub open spec fn none_done() -> Ratio {
    Ratio { numerator: 0, denominator: 1 }
}

/// All done.
pub open spec fn all_done() -> Ratio {
    Ratio { numerator: 1, denominator: 1 }
}

/// The phases in their order.
pub open spec fn phase_order() -> Seq<Phase> {
    seq![Phase::Build, Phase::Rewire, Phase::Clustering, Phase::Bfs]
}

/// The place of a phase in their order.
pub open spec fn place(phase: Phase) -> int {
    match phase {
        Phase::Build => 0,
        Phase::Rewire => 1,
        Phase::Clustering => 2,
        Phase::Bfs => 3,
    }
}

/// What is shown of a phase before it begins.
pub open spec fn first_detail(phase: Phase) -> Seq<char> {
    match phase {
        Phase::Build => "Partition nodes and construct local rings"@,
        Phase::Rewire => "Route endpoint mutations to shard owners"@,
        Phase::Clustering => "Resolve sampled triangle queries across shards"@,
        Phase::Bfs => "Run level-synchronous BFS across all workers"@,
    }
}

/// A phase that has not begun.
pub open spec fn pending(view: PhaseView, phase: Phase) -> bool {
    &&& view.key == phase
    &&& view.status == PhaseStatus::Pending
    &&& view.progress == none_done()
    &&& view.detail@ == first_detail(phase)
    &&& view.elapsed_ms == 0
}

/// All four phases, none of them begun.
pub open spec fn fresh(phases: Seq<PhaseView>) -> bool {
    &&& phases.len() == 4
    &&& forall|i: int| 0 <= i < 4 ==> pending(#[trigger] phases[i], phase_order()[i])
}

fn pending_phase(key: Phase, detail: &str) -> (view: PhaseView)
    requires
        detail@ == first_detail(key),
    ensures
        pending(view, key),
{
    PhaseView {
        key,
        status: PhaseStatus::Pending,
        progress: Ratio { numerator: 0, denominator: 1 },
        detail: detail.to_owned(),
        elapsed_ms: 0,
    }
}

/// The phases before an experiment.
pub fn fresh_phases() -> (phases: Vec<PhaseView>)
    ensures
        fresh(phases@),
{
    let mut phases: Vec<PhaseView> = Vec::new();
    phases.push(pending_phase(Phase::Build, "Partition nodes and construct local rings"));
    phases.push(pending_phase(Phase::Rewire, "Route endpoint mutations to shard owners"));
    phases.push(
        pending_phase(Phase::Clustering, "Resolve sampled triangle queries across shards"),
    );
    phases.push(pending_phase(Phase::Bfs, "Run level-synchronous BFS across all workers"));
    phases
}

impl ExperimentResult {
    /// The same result.
    pub open spec fn same(&self, other: ExperimentResult) -> bool {
        &&& self.total_distance == other.total_distance
        &&& self.total_reachable == other.total_reachable
        &&& self.clustering@ == other.clustering@
        &&& self.elapsed_ms == other.elapsed_ms
        &&& self.cross_shard_messages == other.cross_shard_messages
        &&& self.vertices_visited == other.vertices_visited
        &&& self.rewired_edges == other.rewired_edges
        &&& self.clustering_samples == other.clustering_samples
        &&& self.adjacency_entries == other.adjacency_entries
    }

    /// A second copy of the result.
    pub fn duplicate(&self) -> (copy: ExperimentResult)
        ensures
            self.same(copy),
    {
        let mut clustering: Vec<LocalClustering> = Vec::new();
        let mut i: usize = 0;
        while i < self.clustering.len()
            invariant
                i <= self.clustering@.len(),
                clustering@ =~= self.clustering@.take(i as int),
            decreases self.clustering.len() - i,
        {
            clustering.push(self.clustering[i]);
            i = i + 1;
        }
        assert(clustering@ =~= self.clustering@);
        ExperimentResult {
            total_distance: self.total_distance,
            total_reachable: self.total_reachable,
            clustering,
            elapsed_ms: self.elapsed_ms,
            cross_shard_messages: self.cross_shard_messages,
            vertices_visited: self.vertices_visited,
            rewired_edges: self.rewired_edges,
            clustering_samples: self.clustering_samples,
            adjacency_entries: self.adjacency_entries,
        }
    }
}

impl DashboardState {
    /// The phases stand in their order, and the runs are numbered from one.
    pub open spec fn wf(&self) -> bool {
        &&& self.phases@.len() == 4
        &&& forall|i: int| 0 <= i < 4 ==> (#[trigger] self.phases@[i]).key == phase_order()[i]
        &&& forall|i: int|
            0 <= i < self.history@.len() ==> (#[trigger] self.history@[i]).id == i + 1
    }

    /// Nothing has been run yet.
    pub fn idle(config: ExperimentConfig, worker_limit: u32) -> (state: DashboardState)
        ensures
            state.wf(),
            state.status == RunStatus::Idle,
            state.workers_online == 0,
            state.worker_limit == worker_limit,
            state.config == config,
            fresh(state.phases@),
            state.current_bfs is None,
            state.results is None,
            state.history@.len() == 0,
            state.error is None,
    {
        DashboardState {
            status: RunStatus::Idle,
            workers_online: 0,
            worker_limit,
            config,
            phases: fresh_phases(),
            current_bfs: None,
            results: None,
            history: Vec::new(),
            error: None,
        }
    }

    /// Clears the way for an experiment. Refused where the configuration is
    /// wrong or another experiment runs; nothing changes then.
    pub fn prepare_run(&mut self, config: ExperimentConfig, worker_limit: u32) -> (answer: Result<
        (),
        String,
    >)
        requires
            old(self).wf(),
        ensures
            final(self).wf(),
            match answer {
                Err(message) => {
                    &&& *final(self) == *old(self)
                    &&& match config.complaint(worker_limit) {
                        Some(complaint) => message@ == complaint,
                        None => old(self).status == RunStatus::Running && message@
                            == "an experiment is already running"@,
                    }
                },
                Ok(_) => {
                    &&& config.complaint(worker_limit) is None
                    &&& old(self).status != RunStatus::Running
                    &&& final(self).status == RunStatus::Running
                    &&& final(self).workers_online == 0
                    &&& final(self).worker_limit == old(self).worker_limit
                    &&& final(self).config == config
                    &&& fresh(final(self).phases@)
                    &&& final(self).current_bfs is None
                    &&& final(self).results is None
                    &&& final(self).history == old(self).history
                    &&& final(self).error is None
                },
            },
            answer is Ok <==> {
                &&& old(self).status != RunStatus::Running
                &&& config.nodes >= 10_000
                &&& 2 <= config.degree <= 100
                &&& config.degree % 2 == 0
                &&& config.degree < config.nodes
                &&& config.probability.bits <= 0x3ff0_0000_0000_0000 || config.probability.bits
                    == 0x8000_0000_0000_0000
                &&& config.probability.chance is Some
                &&& 1 <= config.bfs_samples <= 256
                &&& 1 <= config.workers <= worker_limit
            },
    {
        let config = match config.validate(worker_limit) {
            Ok(config) => config,
            Err(message) => return Err(message),
        };
        if self.status == RunStatus::Running {
            return Err("an experiment is already running".to_owned());
        }
        self.status = RunStatus::Running;
        self.workers_online = 0;
        self.config = config;
        self.phases = fresh_phases();
        self.current_bfs = None;
        self.results = None;
        self.error = None;
        Ok(())
    }

    /// Nothing but one phase differs.
    pub open spec fn only_phase(&self, after: DashboardState, phase: Phase) -> bool {
        &&& after.status == self.status
        &&& after.workers_online == self.workers_online
        &&& after.worker_limit == self.worker_limit
        &&& after.config == self.config
        &&& after.current_bfs == self.current_bfs
        &&& after.results == self.results
        &&& after.history == self.history
        &&& after.error == self.error
        &&& after.phases@.len() == self.phases@.len()
        &&& forall|i: int|
            0 <= i < self.phases@.len() && i != place(phase) ==> #[trigger] after.phases@[i]
                == self.phases@[i]
    }

    /// What an event changes.
    pub open spec fn shows(&self, event: ProgressEvent, after: DashboardState) -> bool {
        match event {
            ProgressEvent::WorkersStarted(count) => after == (DashboardState {
                workers_online: count,
                ..*self
            }),
            ProgressEvent::PhaseStarted(phase) => {
                let view = self.phases@[place(phase)];
                &&& self.only_phase(after, phase)
                &&& after.phases@[place(phase)] == (PhaseView {
                    status: PhaseStatus::Active,
                    progress: none_done(),
                    elapsed_ms: 0,
                    ..view
                })
            },
            ProgressEvent::PhaseProgress { phase, progress, detail, elapsed_ms } => {
                let view = self.phases@[place(phase)];
                &&& self.only_phase(after, phase)
                &&& after.phases@[place(phase)] == (PhaseView {
                    progress,
                    detail,
                    elapsed_ms,
                    ..view
                })
            },
            ProgressEvent::PhaseCompleted { phase, elapsed_ms } => {
                let view = self.phases@[place(phase)];
                &&& self.only_phase(after, phase)
                &&& after.phases@[place(phase)] == (PhaseView {
                    status: PhaseStatus::Complete,
                    progress: all_done(),
                    elapsed_ms,
                    ..view
                })
            },
            ProgressEvent::Bfs(progress) => after == (DashboardState {
                current_bfs: Some(progress),
                ..*self
            }),
        }
    }

    /// Where the view of a phase stands.
    fn phase_index(&self, phase: Phase) -> (index: usize)
        requires
            self.wf(),
        ensures
            index == place(phase),
            index < self.phases@.len(),
            self.phases@[index as int].key == phase,
    {
        let mut i: usize = 0;
        while i < self.phases.len() && self.phases[i].key != phase
            invariant
                self.wf(),
                i <= 4,
                forall|j: int| 0 <= j < i ==> (#[trigger] self.phases@[j]).key != phase,
            decreases 4 - i,
        {
            i = i + 1;
        }
        proof {
            assert(self.phases@[place(phase)].key == phase_order()[place(phase)]);
            if i < place(phase) {
                assert(self.phases@[i as int].key == phase_order()[i as int]);
            }
        }
        i
    }

    /// Shows what is told while an experiment runs.
    pub fn apply_progress(&mut self, event: ProgressEvent)
        requires
            old(self).wf(),
        ensures
            old(self).shows(event, *final(self)),
            final(self).wf(),
    {
        match event {
            ProgressEvent::WorkersStarted(count) => {
                self.workers_online = count;
            },
            ProgressEvent::PhaseStarted(phase) => {
                let i: usize = self.phase_index(phase);
                self.phases[i].status = PhaseStatus::Active;
                self.phases[i].progress = Ratio { numerator: 0, denominator: 1 };
                self.phases[i].elapsed_ms = 0;
            },
            ProgressEvent::PhaseProgress { phase, progress, detail, elapsed_ms } => {
                let i: usize = self.phase_index(phase);
                self.phases[i].progress = progress;
                self.phases[i].detail = detail;
                self.phases[i].elapsed_ms = elapsed_ms;
            },
            ProgressEvent::PhaseCompleted { phase, elapsed_ms } => {
                let i: usize = self.phase_index(phase);
                self.phases[i].status = PhaseStatus::Complete;
                self.phases[i].progress = Ratio { numerator: 1, denominator: 1 };
                self.phases[i].elapsed_ms = elapsed_ms;
            },
            ProgressEvent::Bfs(progress) => {
                self.current_bfs = Some(progress);
            },
        }
    }

    /// Shows the results of an experiment and adds it to the history, under the next number.
    pub fn finish_run(
        &mut self,
        config: ExperimentConfig,
        results: ExperimentResult,
        finished_at_ms: u64,
    )
        requires
            old(self).wf(),
            old(self).history@.len() < u64::MAX,
        ensures
            final(self).wf(),
            final(self).status == RunStatus::Complete,
            final(self).workers_online == 0,
            final(self).worker_limit == old(self).worker_limit,
            final(self).config == old(self).config,
            final(self).phases == old(self).phases,
            final(self).current_bfs == old(self).current_bfs,
            final(self).error == old(self).error,
            final(self).results == Some(results),
            final(self).history@.len() == old(self).history@.len() + 1,
            final(self).history@.drop_last() == old(self).history@,
            final(self).history@.last().id == old(self).history@.len() + 1,
            final(self).history@.last().finished_at_ms == finished_at_ms,
            final(self).history@.last().config == config,
            results.same(final(self).history@.last().results),
    {
        let count: usize = self.history.len();
        let id: u64 = if count == 0 {
            1
        } else {
            assert(self.history@[count - 1].id == count);
            self.history[count - 1].id + 1
        };
        let ghost before = self.history@;
        self.history.push(
            RunRecord { id, finished_at_ms, config, results: results.duplicate() },
        );
        assert(self.history@.drop_last() =~= before);
        self.status = RunStatus::Complete;
        self.results = Some(results);
        self.workers_online = 0;
    }

    /// The first phase that is under way, or the number of phases.
    pub open spec fn first_active(&self, from: int) -> int
        decreases self.phases@.len() - from,
    {
        if from >= self.phases@.len() {
            self.phases@.len() as int
        } else if self.phases@[from].status == PhaseStatus::Active {
            from
        } else {
            self.first_active(from + 1)
        }
    }

    /// Shows why an experiment failed, and in which phase.
    pub fn fail_run(&mut self, error: String)
        requires
            old(self).wf(),
        ensures
            final(self).wf(),
            final(self).status == RunStatus::Failed,
            final(self).workers_online == 0,
            final(self).worker_limit == old(self).worker_limit,
            final(self).config == old(self).config,
            final(self).current_bfs == old(self).current_bfs,
            final(self).results == old(self).results,
            final(self).history == old(self).history,
            final(self).error == Some(error),
            final(self).phases@.len() == old(self).phases@.len(),
            forall|i: int|
                0 <= i < old(self).phases@.len() ==> #[trigger] final(self).phases@[i] == if i
                    == old(self).first_active(0) {
                    PhaseView { status: PhaseStatus::Error, ..old(self).phases@[i] }
                } else {
                    old(self).phases@[i]
                },
            forall|i: int|
                0 <= i < old(self).phases@.len() ==> (#[trigger] final(self).phases@[i]).status
                    == if old(self).phases@[i].status == PhaseStatus::Active && (forall|j: int|
                    0 <= j < i ==> (#[trigger] old(self).phases@[j]).status
                        != PhaseStatus::Active) {
                    PhaseStatus::Error
                } else {
                    old(self).phases@[i].status
                },
    {
        let ghost before = *self;
        proof {
            before.lemma_first_active(0);
        }
        let mut i: usize = 0;
        while i < self.phases.len() && self.phases[i].status != PhaseStatus::Active
            invariant
                before == *self,
                i <= self.phases@.len(),
                before.first_active(0) == before.first_active(i as int),
            decreases self.phases@.len() - i,
        {
            i = i + 1;
        }
        self.status = RunStatus::Failed;
        self.error = Some(error);
        self.workers_online = 0;
        if i < self.phases.len() {
            self.phases[i].status = PhaseStatus::Error;
        }
    }
}

impl DashboardState {
    /// The first phase under way has none under way before it.
    proof fn lemma_first_active(&self, from: int)
        requires
            0 <= from <= self.phases@.len(),
        ensures
            from <= self.first_active(from) <= self.phases@.len(),
            self.first_active(from) < self.phases@.len() ==> self.phases@[self.first_active(
                from,
            )].status == PhaseStatus::Active,
            forall|j: int|
                from <= j < self.first_active(from) ==> (#[trigger] self.phases@[j]).status
                    != PhaseStatus::Active,
        decreases self.phases@.len() - from,
    {
        if from < self.phases@.len() && self.phases@[from].status != PhaseStatus::Active {
            self.lemma_first_active(from + 1);
        }
    }
}

/// Before an experiment there are four phases, building, rewiring, clustering and
/// searching, of which none has begun.
pub proof fn lemma_fresh(phases: Seq<PhaseView>)
    requires
        fresh(phases),
    ensures
        phases.len() == 4,
        phases[0].key == Phase::Build,
        phases[1].key == Phase::Rewire,
        phases[2].key == Phase::Clustering,
        phases[3].key == Phase::Bfs,
        phases[0].detail@ == "Partition nodes and construct local rings"@,
        phases[1].detail@ == "Route endpoint mutations to shard owners"@,
        phases[2].detail@ == "Resolve sampled triangle queries across shards"@,
        phases[3].detail@ == "Run level-synchronous BFS across all workers"@,
        forall|i: int|
            0 <= i < 4 ==> (#[trigger] phases[i]).status == PhaseStatus::Pending
                && phases[i].progress.numerator == 0 && phases[i].progress.denominator == 1
                && phases[i].elapsed_ms == 0,
{
    assert(pending(phases[0], phase_order()[0]));
    assert(pending(phases[1], phase_order()[1]));
    assert(pending(phases[2], phase_order()[2]));
    assert(pending(phases[3], phase_order()[3]));
}

/// What is shown of the phase that an event is about.
pub open spec fn follows_event(view: PhaseView, event: ProgressEvent, after: PhaseView) -> bool {
    &&& after.key == view.key
    &&& match event {
        ProgressEvent::PhaseStarted(_) => {
            &&& after.status == PhaseStatus::Active
            &&& after.progress.numerator == 0
            &&& after.progress.denominator == 1
            &&& after.detail == view.detail
            &&& after.elapsed_ms == 0
        },
        ProgressEvent::PhaseProgress { progress, detail, elapsed_ms, .. } => {
            &&& after.status == view.status
            &&& after.progress == progress
            &&& after.detail == detail
            &&& after.elapsed_ms == elapsed_ms
        },
        ProgressEvent::PhaseCompleted { elapsed_ms, .. } => {
            &&& after.status == PhaseStatus::Complete
            &&& after.progress.numerator == 1
            &&& after.progress.denominator == 1
            &&& after.detail == view.detail
            &&& after.elapsed_ms == elapsed_ms
        },
        _ => after == view,
    }
}

/// The event is about the phase.
pub open spec fn is_about(event: ProgressEvent, phase: Phase) -> bool {
    match event {
        ProgressEvent::PhaseStarted(key) => key == phase,
        ProgressEvent::PhaseProgress { phase: key, .. } => key == phase,
        ProgressEvent::PhaseCompleted { phase: key, .. } => key == phase,
        _ => false,
    }
}

/// An event changes what is shown of the phase that it is about, and of no other: a
/// phase that starts is active with no progress and no time; a phase that
/// progresses shows the progress, the words and the time told; one that
/// completes is complete, with all its progress. The number of workers and the
/// current search are the last that were told; nothing else changes.
#[verifier::rlimit(60)]
pub proof fn lemma_event(before: DashboardState, event: ProgressEvent, after: DashboardState)
    requires
        before.wf(),
        before.shows(event, after),
    ensures
        after.phases@.len() == 4,
        forall|i: int|
            0 <= i < 4 ==> if is_about(event, before.phases@[i].key) {
                follows_event(before.phases@[i], event, #[trigger] after.phases@[i])
            } else {
                after.phases@[i] == before.phases@[i]
            },
        event is WorkersStarted || event is Bfs || exists|i: int|
            0 <= i < 4 && #[trigger] is_about(event, before.phases@[i].key),
        after.workers_online == match event {
            ProgressEvent::WorkersStarted(count) => count,
            _ => before.workers_online,
        },
        after.current_bfs == match event {
            ProgressEvent::Bfs(progress) => Some(progress),
            _ => before.current_bfs,
        },
        after.status == before.status,
        after.worker_limit == before.worker_limit,
        after.config == before.config,
        after.results == before.results,
        after.history == before.history,
        after.error == before.error,
{
    assert(before.phases@[0].key == phase_order()[0]);
    assert(before.phases@[1].key == phase_order()[1]);
    assert(before.phases@[2].key == phase_order()[2]);
    assert(before.phases@[3].key == phase_order()[3]);
    match event {
        ProgressEvent::PhaseStarted(phase) => {
            assert(is_about(event, before.phases@[place(phase)].key));
        },
        ProgressEvent::PhaseProgress { phase, .. } => {
            assert(is_about(event, before.phases@[place(phase)].key));
        },
        ProgressEvent::PhaseCompleted { phase, .. } => {
            assert(is_about(event, before.phases@[place(phase)].key));
        },
        _ => {
            assert(!is_about(event, before.phases@[0].key));
        },
    }
    assert forall|i: int| 0 <= i < 4 implies if is_about(event, before.phases@[i].key) {
        follows_event(before.phases@[i], event, #[trigger] after.phases@[i])
    } else {
        after.phases@[i] == before.phases@[i]
    } by {
        assert(i == 0 || i == 1 || i == 2 || i == 3);
    }
}

} // verus!
