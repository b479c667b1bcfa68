//! One request to a worker, of whatever kind.

use super::clustering::{query_responses, ClusteringLeg, ClusteringPass};
use super::rewire::{mutation_responses, RewireLeg, RewirePass};
use super::{ShardView, Worker};
use crate::batches;
use crate::protocol::{ClusterConfig, WorkerCommand, WorkerResponse};
use vstd::prelude::*;

verus! {

impl ShardView {
    /// The request is one that the worker can work on: a shard whose ring closes, a
    /// probability that can be drawn with, neighbors that are nodes of the graph.
    pub open spec fn accepts(self, command: WorkerCommand) -> bool {
        match command {
            WorkerCommand::Build(config) => self.buildable(config),
            WorkerCommand::Rewire { probability, .. } => self.rewirable(probability),
            WorkerCommand::PrepareClustering { vertices } => self.config is Some ==> self.askable(
                vertices@,
            ),
            WorkerCommand::StartBfs { .. } => self.config is Some ==> self.config->Some_0.nodes
                > 0,
            WorkerCommand::ExpandBfs => self.expandable(),
            _ => true,
        }
    }

    /// What each request is answered, and what becomes of the worker and of its output.
    pub open spec fn outcome(
        self,
        command: WorkerCommand,
        output: Seq<WorkerResponse>,
        answer: Result<WorkerResponse, String>,
        after: ShardView,
        written: Seq<WorkerResponse>,
    ) -> bool {
        match command {
            WorkerCommand::Build(config) => self.build_outcome(config, answer, after) && written
                == output,
            WorkerCommand::Rewire { probability, seed } => self.rewire_outcome(
                probability,
                seed,
                output,
                answer,
                after,
                written,
            ),
            WorkerCommand::ApplyMutations(mutations) => self.mutation_outcome(
                mutations@,
                answer,
                after,
            ) && written == output,
            WorkerCommand::GraphStats => answer is Ok && self.stats_outcome(answer->Ok_0) && after
                == self && written == output,
            WorkerCommand::PrepareClustering { vertices } => self.clustering_outcome(
                vertices@,
                output,
                answer,
                written,
            ) && after == self,
            WorkerCommand::ResolveEdgeQueries(queries) => self.query_outcome(queries@, answer)
                && after == self && written == output,
            WorkerCommand::StartBfs { source } => self.start_outcome(source, answer, after)
                && written == output,
            WorkerCommand::RingDistances { source } => self.ring_outcome(source, answer) && after
                == self && written == output,
            WorkerCommand::ExpandBfs => self.expand_outcome(answer, after) && written == output,
            WorkerCommand::ApplyDiscoveries(discoveries) => self.discovery_outcome(
                discoveries@,
                answer,
                after,
            ) && written == output,
            WorkerCommand::AdvanceBfs => answer is Ok && self.advance_outcome(answer->Ok_0, after)
                && written == output,
            WorkerCommand::FinishBfsLevel(discoveries) => self.level_outcome(
                discoveries@,
                answer,
                after,
            ) && written == output,
            WorkerCommand::Shutdown => answer == Ok::<WorkerResponse, String>(WorkerResponse::Ack)
                && after == self && written == output,
        }
    }
}

impl Worker {
    /// Whether the worker's shard of the ring can be built.
    fn can_build(&self, config: ClusterConfig) -> (can: bool)
        requires
            self@.wf(),
        ensures
            can == self@.buildable(config),
    {
        if config.workers == 0 || self.id >= config.workers as usize {
            return true;
        }
        let id: u64 = self.id as u64;
        proof {
            assert(config.nodes * id <= u32::MAX * u32::MAX) by (nonlinear_arith)
                requires
                    config.nodes <= u32::MAX,
                    id <= u32::MAX,
            ;
            assert(config.nodes * (id + 1) <= u32::MAX * u32::MAX) by (nonlinear_arith)
                requires
                    config.nodes <= u32::MAX,
                    id + 1 <= u32::MAX,
            ;
            crate::partition::lemma_shard_bounds(
                config.nodes as nat,
                config.workers as nat,
                id as nat,
            );
        }
        let start: u64 = (config.nodes as u64 * id) / config.workers as u64;
        let end: u64 = (config.nodes as u64 * (id + 1)) / config.workers as u64;
        start >= end || (config.degree / 2) as u64 <= start + config.nodes as u64
    }

    /// Whether every neighbor of the frontier can be looked at.
    fn can_expand(&self, config: ClusterConfig) -> (can: bool)
        requires
            self@.wf(),
            self.config == Some(config),
        ensures
            can == self@.expandable(),
    {
        let ghost shard = self@;
        let mut i: usize = 0;
        while i < self.frontier.len()
            invariant
                shard == self@,
                shard.wf(),
                self.config == Some(config),
                i <= shard.frontier.len(),
                forall|x: int, j: int|
                    0 <= x < i && 0 <= j < shard.row(shard.frontier[x] as int).len() ==> {
                        let v = #[trigger] shard.row(shard.frontier[x] as int)[j];
                        v < config.nodes && (shard.owns(v as int) || v < shard.remote.len())
                    },
            decreases shard.frontier.len() - i,
        {
            let u: u32 = self.frontier[i];
            assert(shard.owns(shard.frontier[i as int] as int));
            let index: usize = (u - self.start) as usize;
            let ghost row = shard.row(u as int);
            let mut j: usize = 0;
            while j < self.adjacency[index].len()
                invariant
                    shard == self@,
                    shard.wf(),
                    self.config == Some(config),
                    i < shard.frontier.len(),
                    u == shard.frontier[i as int],
                    shard.owns(u as int),
                    index == u - shard.start,
                    row == shard.row(u as int),
                    row == self.adjacency@[index as int]@,
                    j <= row.len(),
                    forall|x: int|
                        0 <= x < j ==> (#[trigger] row[x]) < config.nodes && (shard.owns(
                            row[x] as int,
                        ) || row[x] < shard.remote.len()),
                decreases row.len() - j,
            {
                let v: u32 = self.adjacency[index][j];
                let own = v >= self.start && v < self.end;
                if v >= config.nodes || !own && v as usize / 64 >= self.remote_seen.len() {
                    proof {
                        let entry = shard.row(shard.frontier[i as int] as int)[j as int];
                        assert(entry == v);
                    }
                    return false;
                }
                j = j + 1;
            }
            i = i + 1;
        }
        true
    }

    /// Whether every neighbor that the vertices' rows pair with a later one is a
    /// node of the graph, up to the first vertex that the worker does not own.
    fn can_ask(&self, vertices: &Vec<u32>, config: ClusterConfig) -> (can: bool)
        requires
            self@.wf(),
            self.config == Some(config),
        ensures
            can == self@.askable(vertices@),
    {
        let ghost shard = self@;
        let mut i: usize = 0;
        while i < vertices.len()
            invariant
                shard == self@,
                shard.wf(),
                self.config == Some(config),
                i <= vertices@.len(),
                forall|x: int| 0 <= x < i ==> shard.owns(#[trigger] vertices@[x] as int),
                forall|x: int, j: int|
                    0 <= x < i && 0 <= j && j + 1 < shard.row(vertices@[x] as int).len()
                        ==> #[trigger] shard.row(vertices@[x] as int)[j] < config.nodes,
            decreases vertices.len() - i,
        {
            let u: u32 = vertices[i];
            if u < self.start || u >= self.end {
                proof {
                    assert forall|x: int| i <= x < vertices@.len() implies !shard.owns_all(
                        #[trigger] vertices@.take(x + 1),
                    ) by {
                        assert(vertices@.take(x + 1)[i as int] == u);
                    }
                }
                return true;
            }
            let index: usize = (u - self.start) as usize;
            let ghost row = shard.row(u as int);
            let size: usize = self.adjacency[index].len();
            let mut j: usize = 0;
            while j < size
                invariant
                    shard == self@,
                    i < vertices@.len(),
                    u == vertices@[i as int],
                    self.config == Some(config),
                    shard.owns(u as int),
                    forall|x: int| 0 <= x < i ==> shard.owns(#[trigger] vertices@[x] as int),
                    row == shard.row(u as int),
                    index < self.adjacency@.len(),
                    row == self.adjacency@[index as int]@,
                    size == row.len(),
                    j <= size,
                    forall|x: int|
                        0 <= x < j && x + 1 < size ==> (#[trigger] row[x]) < config.nodes,
                decreases size - j,
            {
                if j + 1 < size && self.adjacency[index][j] >= config.nodes {
                    proof {
                        let entry = shard.row(vertices@[i as int] as int)[j as int];
                        assert(entry == row[j as int]);
                        assert(shard.owns_all(vertices@.take(i + 1)));
                    }
                    return false;
                }
                j = j + 1;
            }
            i = i + 1;
        }
        true
    }

    /// Whether the request is one that the worker can work on.
    pub fn accepts(&self, command: &WorkerCommand) -> (accepted: bool)
        requires
            self@.wf(),
        ensures
            accepted == self@.accepts(*command),
    {
        match command {
            WorkerCommand::Build(config) => self.can_build(*config),
            WorkerCommand::Rewire { probability, .. } => match self.config {
                None => true,
                Some(config) => {
                    let edges: u64 = (self.end - self.start) as u64;
                    proof {
                        if edges > 0 && config.degree / 2 > 0 {
                            assert(self@.edge_total() > 0) by (nonlinear_arith)
                                requires
                                    self@.edge_total() == edges * (config.degree / 2),
                                    edges > 0,
                                    config.degree / 2 > 0,
                            ;
                        } else {
                            assert(self@.edge_total() == 0) by (nonlinear_arith)
                                requires
                                    self@.edge_total() == edges * (config.degree / 2),
                                    edges == 0 || config.degree / 2 == 0,
                            ;
                        }
                    }
                    probability.chance.is_some() || probability.is_zero() || edges == 0
                        || config.degree / 2 == 0
                },
            },
            WorkerCommand::PrepareClustering { vertices } => match self.config {
                None => true,
                Some(config) => self.can_ask(vertices, config),
            },
            WorkerCommand::StartBfs { .. } => match self.config {
                None => true,
                Some(config) => config.nodes > 0,
            },
            WorkerCommand::ExpandBfs => match self.config {
                None => true,
                Some(config) => self.can_expand(config),
            },
            _ => true,
        }
    }

    /// Works on one request. Batches for other workers go to `output` before
    /// the answer is given.
    pub fn handle(
        &mut self,
        command: WorkerCommand,
        output: &mut Vec<WorkerResponse>,
    ) -> (answer: Result<WorkerResponse, String>)
        requires
            old(self)@.wf(),
            old(self)@.accepts(command),
        ensures
            old(self)@.outcome(command, old(output)@, answer, final(self)@, final(output)@),
            final(self)@.wf(),
    {
        match command {
            WorkerCommand::Build(config) => self.build(config),
            WorkerCommand::Rewire { probability, seed } => self.rewire(probability, seed, output),
            WorkerCommand::ApplyMutations(mutations) => self.apply_mutations(mutations),
            WorkerCommand::GraphStats => Ok(self.graph_stats()),
            WorkerCommand::PrepareClustering { vertices } => self.prepare_clustering(
                vertices,
                output,
            ),
            WorkerCommand::ResolveEdgeQueries(queries) => self.resolve_edge_queries(queries),
            WorkerCommand::StartBfs { source } => self.start_bfs(source),
            WorkerCommand::RingDistances { source } => self.ring_distances(source),
            WorkerCommand::ExpandBfs => self.expand_bfs(),
            WorkerCommand::ApplyDiscoveries(discoveries) => self.apply_discoveries(discoveries),
            WorkerCommand::AdvanceBfs => Ok(self.advance_bfs()),
            WorkerCommand::FinishBfsLevel(discoveries) => self.finish_bfs_level(discoveries),
            WorkerCommand::Shutdown => Ok(WorkerResponse::Ack),
        }
    }
}

/// A request that a worker has taken on.
pub enum Job {
    /// A rewiring pass that has not come to its end.
    Rewire(RewirePass),
    /// A clustering pass that has not come to its end.
    Clustering(ClusteringPass),
    /// The answer, with nothing left to do.
    Answered(WorkerResponse),
}

/// What is answered: the response, or the error as a response.
pub open spec fn answers(answer: Result<WorkerResponse, String>, response: WorkerResponse) -> bool {
    match answer {
        Ok(told) => response == told,
        Err(message) => match response {
            WorkerResponse::Error(told) => told@ == message@,
            _ => false,
        },
    }
}

/// The response tells the error.
pub open spec fn tells_error(response: WorkerResponse, message: Seq<char>) -> bool {
    match response {
        WorkerResponse::Error(told) => told@ == message,
        _ => false,
    }
}

impl ShardView {
    /// The worker can go on with the job.
    pub open spec fn fits_job(self, job: Job) -> bool {
        match job {
            Job::Rewire(pass) => self.fits_pass(pass),
            Job::Clustering(pass) => self.fits_queries(pass),
            Job::Answered(_) => true,
        }
    }

    /// What becomes of a request as it is taken on: a pass is readied, anything
    /// else is answered at once.
    pub open spec fn begin_outcome(
        self,
        command: WorkerCommand,
        job: Job,
        after: ShardView,
    ) -> bool {
        match command {
            WorkerCommand::Rewire { probability, seed } if self.config is Some => match job {
                Job::Rewire(pass) => {
                    &&& pass.probability == probability
                    &&& pass.seed == seed
                    &&& pass.position == 0
                    &&& self.resumed(pass) == self.pass_start()
                    &&& after == self
                },
                _ => false,
            },
            WorkerCommand::PrepareClustering { vertices } if self.config is Some => match job {
                Job::Clustering(pass) => {
                    &&& pass.vertices == vertices
                    &&& pass.vertex == 0
                    &&& pass.first == 0
                    &&& pass.batches@ == batches::Waiting::<crate::protocol::EdgeQuery>::none(
                        self.config->Some_0.workers as nat,
                    )
                    &&& after == self
                },
                _ => false,
            },
            _ => match job {
                Job::Answered(response) => exists|answer: Result<WorkerResponse, String>|
                    #[trigger] answers(answer, response) && self.outcome(
                        command,
                        Seq::empty(),
                        answer,
                        after,
                        Seq::empty(),
                    ),
                _ => false,
            },
        }
    }
}

/// A step of a rewiring pass, told as messages.
pub open spec fn rewire_step(
    before: ShardView,
    pass: RewirePass,
    frames: Seq<WorkerResponse>,
    job: Job,
    after: ShardView,
) -> bool {
    exists|leg: RewireLeg, next: RewirePass|
        {
            &&& #[trigger] before.rewire_leg(pass, leg, after, next)
            &&& super::rewire::carry_mutations(frames, 0, batches::sent_seqs(leg.sent@))
            &&& match leg.outcome {
                Ok(None) => job == Job::Rewire(next),
                Ok(Some(response)) => job == Job::Answered(response),
                Err(message) => job is Answered && tells_error(job->Answered_0, message@),
            }
        }
}

/// A step of a clustering pass, told as messages.
pub open spec fn clustering_step(
    before: ShardView,
    pass: ClusteringPass,
    frames: Seq<WorkerResponse>,
    job: Job,
) -> bool {
    exists|leg: ClusteringLeg, next: ClusteringPass|
        {
            &&& #[trigger] before.clustering_leg(pass, leg, next)
            &&& super::clustering::carry_queries(frames, 0, batches::sent_seqs(leg.sent@))
            &&& match leg.outcome {
                Ok(None) => job == Job::Clustering(next),
                Ok(Some(response)) => job == Job::Answered(response),
                Err(message) => job is Answered && tells_error(job->Answered_0, message@),
            }
        }
}

impl Worker {
    /// Takes on a request. Passes that may have much to send are only readied,
    /// so that what they send need not be held all at once.
    pub fn begin(&mut self, command: WorkerCommand) -> (job: Job)
        requires
            old(self)@.wf(),
            old(self)@.accepts(command),
        ensures
            old(self)@.begin_outcome(command, job, final(self)@),
            final(self)@.wf(),
            final(self)@.fits_job(job),
    {
        let ghost before = self@;
        match command {
            WorkerCommand::Rewire { probability, seed } if self.config.is_some() => {
                match self.begin_rewire(probability, seed) {
                    Ok(pass) => Job::Rewire(pass),
                    Err(message) => Job::Answered(WorkerResponse::Error(message)),
                }
            },
            WorkerCommand::PrepareClustering { vertices } if self.config.is_some() => {
                match self.begin_clustering(vertices) {
                    Ok(pass) => Job::Clustering(pass),
                    Err(message) => Job::Answered(WorkerResponse::Error(message)),
                }
            },
            command => {
                let mut output: Vec<WorkerResponse> = Vec::new();
                let answer = self.handle(command, &mut output);
                proof {
                    assert(output@.take(0) =~= Seq::empty());
                    assert(before.outcome(command, Seq::empty(), answer, self@, output@));
                    assert(output@ =~= Seq::empty());
                }
                let ghost told = answer;
                let response = match answer {
                    Ok(response) => response,
                    Err(message) => WorkerResponse::Error(message),
                };
                assert(answers(told, response));
                Job::Answered(response)
            },
        }
    }

    /// Goes on with a job until there is something to send, or to its end. An
    /// answer is handed back as it is.
    pub fn advance(&mut self, job: Job) -> (step: (Vec<WorkerResponse>, Job))
        requires
            old(self)@.wf(),
            old(self)@.fits_job(job),
        ensures
            match job {
                Job::Rewire(pass) => rewire_step(
                    old(self)@,
                    pass,
                    step.0@,
                    step.1,
                    final(self)@,
                ),
                Job::Clustering(pass) => final(self)@ == old(self)@ && clustering_step(
                    old(self)@,
                    pass,
                    step.0@,
                    step.1,
                ),
                Job::Answered(response) => final(self)@ == old(self)@ && step.0@.len() == 0
                    && step.1 == job,
            },
            final(self)@.wf(),
            final(self)@.fits_job(step.1),
    {
        let mut frames: Vec<WorkerResponse> = Vec::new();
        let ghost before = self@;
        match job {
            Job::Rewire(pass) => {
                let mut next = pass;
                let leg = self.continue_rewire(&mut next);
                let ghost told = leg;
                assert(before.rewire_leg(pass, told, self@, next));
                mutation_responses(leg.sent, &mut frames);
                let ghost went = next;
                let job = match leg.outcome {
                    Ok(None) => Job::Rewire(next),
                    Ok(Some(response)) => Job::Answered(response),
                    Err(message) => Job::Answered(WorkerResponse::Error(message)),
                };
                assert(rewire_step(before, pass, frames@, job, self@)) by {
                    assert(before.rewire_leg(pass, told, self@, went));
                }
                (frames, job)
            },
            Job::Clustering(pass) => {
                let mut next = pass;
                let leg = self.continue_clustering(&mut next);
                let ghost told = leg;
                assert(before.clustering_leg(pass, told, next));
                query_responses(leg.sent, &mut frames);
                let ghost went = next;
                let job = match leg.outcome {
                    Ok(None) => Job::Clustering(next),
                    Ok(Some(response)) => Job::Answered(response),
                    Err(message) => Job::Answered(WorkerResponse::Error(message)),
                };
                assert(clustering_step(before, pass, frames@, job)) by {
                    assert(before.clustering_leg(pass, told, went));
                }
                (frames, job)
            },
            Job::Answered(response) => (frames, Job::Answered(response)),
        }
    }
}

} // verus!
