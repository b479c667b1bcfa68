//! Experiments: what is asked for, what is told on the way, and what comes out.

use crate::metrics::LocalClustering;
use crate::probability::Probability;
use crate::text;
use vstd::prelude::*;
use vstd::string::*;

verus! {

/// The fewest nodes of an experiment.
pub const LEAST_NODES: u32 = 10_000;

/// The largest ring degree of an experiment.
pub const LARGEST_DEGREE: u32 = 100;

/// The most sources of an experiment.
pub const MOST_SOURCES: u32 = 256;

/// How many workers are started where nothing else is asked for.
pub const USUAL_WORKERS: u32 = 4;

/// How many worker processes the system can run at a time: as many as it says
/// that it runs in parallel, and one where it does not say.
pub fn system_worker_limit(available: Option<usize>) -> (limit: u32)
    ensures
        limit == match available {
            None => 1int,
            Some(count) => if count <= u32::MAX {
                count as int
            } else {
                u32::MAX as int
            },
        },
{
    match available {
        None => 1,
        Some(count) => if count <= u32::MAX as usize {
            count as u32
        } else {
            u32::MAX
        },
    }
}

/// What an experiment is run with.
#[derive(Debug, Clone, Copy)]
pub struct ExperimentConfig {
    pub nodes: u32,
    pub degree: u32,
    pub probability: Probability,
    pub bfs_samples: u32,
    pub workers: u32,
    pub seed: u64,
}

/// What an experiment is run with.
pub type RunConfig = ExperimentConfig;

impl ExperimentConfig {
    /// What is wrong with the configuration on a system with this worker limit, if anything is.
    pub open spec fn complaint(self, worker_limit: u32) -> Option<Seq<char>> {
        if self.nodes < LEAST_NODES {
            Some("nodes must be at least 10,000"@)
        } else if self.degree < 2 || self.degree >= self.nodes || self.degree % 2 != 0
            || self.degree > LARGEST_DEGREE {
            Some("degree must be even and between 2 and 100"@)
        } else if !self.probability.valid() {
            Some("rewiring probability must be in [0, 1]"@)
        } else if self.bfs_samples < 1 || self.bfs_samples > MOST_SOURCES {
            Some("BFS samples must be between 1 and 256"@)
        } else if self.workers == 0 || self.workers > worker_limit {
            Some(
                "worker processes must be between 1 and "@ + text::decimal(worker_limit as nat)
                    + " on this system"@,
            )
        } else {
            None
        }
    }

    /// The configuration is one that an experiment can be run with, on some system.
    pub open spec fn sound(self) -> bool {
        &&& self.nodes >= LEAST_NODES
        &&& 2 <= self.degree <= LARGEST_DEGREE
        &&& self.degree % 2 == 0
        &&& self.probability.valid()
        &&& 1 <= self.bfs_samples <= MOST_SOURCES
        &&& self.workers > 0
    }

    /// The usual experiment, with the given probability, on a system with this worker limit.
    pub fn usual(probability: Probability, worker_limit: u32) -> (config: ExperimentConfig)
        ensures
            config == (ExperimentConfig {
                nodes: 1_000_000,
                degree: 10,
                probability,
                bfs_samples: 32,
                workers: if worker_limit <= USUAL_WORKERS {
                    worker_limit
                } else {
                    USUAL_WORKERS
                },
                seed: 42,
            }),
            probability.valid() && worker_limit > 0 ==> config.complaint(worker_limit) is None,
            config.workers == if worker_limit <= 4 {
                worker_limit
            } else {
                4
            },
    {
        ExperimentConfig {
            nodes: 1_000_000,
            degree: 10,
            probability,
            bfs_samples: 32,
            workers: if worker_limit <= USUAL_WORKERS {
                worker_limit
            } else {
                USUAL_WORKERS
            },
            seed: 42,
        }
    }

    /// The configuration itself where an experiment can be run with it, and
    /// what is wrong with it where not.
    pub fn validate(self, worker_limit: u32) -> (verdict: Result<ExperimentConfig, String>)
        ensures
            match verdict {
                Ok(config) => config == self && self.complaint(worker_limit) is None
                    && self.sound(),
                Err(message) => self.complaint(worker_limit) == Some(message@),
            },
            verdict is Ok <==> {
                &&& self.nodes >= 10_000
                &&& 2 <= self.degree <= 100
                &&& self.degree % 2 == 0
                &&& self.degree < self.nodes
                &&& self.probability.bits <= 0x3ff0_0000_0000_0000 || self.probability.bits
                    == 0x8000_0000_0000_0000
                &&& self.probability.chance is Some
                &&& 1 <= self.bfs_samples <= 256
                &&& 1 <= self.workers <= worker_limit
            },
    {
        if self.nodes < LEAST_NODES {
            return Err("nodes must be at least 10,000".to_owned());
        }
        if self.degree < 2 || self.degree >= self.nodes || self.degree % 2 != 0 || self.degree
            > LARGEST_DEGREE {
            return Err("degree must be even and between 2 and 100".to_owned());
        }
        if !self.probability.is_valid() {
            return Err("rewiring probability must be in [0, 1]".to_owned());
        }
        if self.bfs_samples < 1 || self.bfs_samples > MOST_SOURCES {
            return Err("BFS samples must be between 1 and 256".to_owned());
        }
        if self.workers == 0 || self.workers > worker_limit {
            return Err(
                text::numbered(
                    "worker processes must be between 1 and ",
                    worker_limit as u64,
                    " on this system",
                ),
            );
        }
        Ok(self)
    }
}

/// The parts of an experiment.
#[derive(Debug, Clone, Copy, PartialEq, Eq, Structural)]
pub enum Phase {
    Build,
    Rewire,
    Clustering,
    Bfs,
}

/// How the distances from a source were found.
#[derive(Debug, Clone, Copy, PartialEq, Eq, Structural)]
pub enum BfsMethod {
    Ring,
    Traversal,
}

/// A fraction.
#[derive(Debug, Clone, Copy, PartialEq, Eq, Structural)]
pub struct Ratio {
    pub numerator: u64,
    pub denominator: u64,
}

/// How far the search from one source has come. The search may reach fewer
/// nodes than there are; its progress is whole once it has ended.
#[derive(Debug, Clone)]
pub struct BfsProgress {
    pub source_index: u32,
    pub source_total: u32,
    pub level: Option<u32>,
    pub frontier_by_worker: Vec<u64>,
    pub visited_nodes: u64,
    pub total_nodes: u32,
    pub source_progress: Ratio,
    pub method: BfsMethod,
}

/// What is told while an experiment runs.
#[derive(Debug, Clone)]
pub enum ProgressEvent {
    WorkersStarted(u32),
    PhaseStarted(Phase),
    PhaseProgress { phase: Phase, progress: Ratio, detail: String, elapsed_ms: u64 },
    PhaseCompleted { phase: Phase, elapsed_ms: u64 },
    Bfs(BfsProgress),
}

/// What an experiment found. The average path length is `total_distance /
/// total_reachable`; the clustering coefficient is the mean of the
/// coefficients of the sampled vertices.
#[derive(Debug, Clone)]
pub struct ExperimentResult {
    pub total_distance: u64,
    pub total_reachable: u64,
    pub clustering: Vec<LocalClustering>,
    pub elapsed_ms: u64,
    pub cross_shard_messages: u64,
    pub vertices_visited: u64,
    pub rewired_edges: u64,
    pub clustering_samples: u32,
    pub adjacency_entries: u64,
}

/// What an experiment found.
pub type RunResults = ExperimentResult;

/// How much of the graph the search from a source has reached, the source left
/// out; the whole of it once the search has ended.
pub open spec fn source_share(visited: u64, nodes: u32, complete: bool) -> Ratio {
    if complete {
        Ratio { numerator: 1, denominator: 1 }
    } else {
        Ratio {
            numerator: if visited == 0 {
                0
            } else {
                (visited - 1) as u64
            },
            denominator: (nodes - 1) as u64,
        }
    }
}

/// How much of the graph the search from a source has reached.
pub fn source_progress(visited: u64, nodes: u32, complete: bool) -> (share: Ratio)
    requires
        complete || nodes > 0,
    ensures
        share == source_share(visited, nodes, complete),
{
    if complete {
        Ratio { numerator: 1, denominator: 1 }
    } else {
        Ratio { numerator: visited.saturating_sub(1), denominator: (nodes - 1) as u64 }
    }
}

/// A configuration is refused just when it has too few nodes, a degree that is odd
/// or out of bounds, a number that is no probability, too few or too many sources,
/// or a number of workers that the system cannot run.
pub proof fn lemma_accepted(config: ExperimentConfig, worker_limit: u32)
    ensures
        config.complaint(worker_limit) is None <==> {
            &&& config.nodes >= 10_000
            &&& 2 <= config.degree <= 100
            &&& config.degree % 2 == 0
            &&& config.degree < config.nodes
            &&& config.probability.bits <= 0x3ff0_0000_0000_0000 || config.probability.bits
                == 0x8000_0000_0000_0000
            &&& config.probability.chance is Some
            &&& 1 <= config.bfs_samples <= 256
            &&& 1 <= config.workers <= worker_limit
        },
        config.complaint(worker_limit) is None <==> config.sound() && config.workers
            <= worker_limit,
{
}

/// What is wrong is told of the first setting that is wrong, in the order of nodes,
/// degree, probability, sources and workers.
pub proof fn lemma_first_complaint(config: ExperimentConfig, worker_limit: u32)
    ensures
        ({
            let told = config.complaint(worker_limit);
            let nodes = config.nodes >= 10_000;
            let degree = 2 <= config.degree <= 100 && config.degree % 2 == 0 && config.degree
                < config.nodes;
            let probability = (config.probability.bits <= 0x3ff0_0000_0000_0000
                || config.probability.bits == 0x8000_0000_0000_0000) && config.probability.chance
                is Some;
            let sources = 1 <= config.bfs_samples <= 256;
            let workers = 1 <= config.workers <= worker_limit;
            &&& !nodes ==> told == Some("nodes must be at least 10,000"@)
            &&& nodes && !degree ==> told == Some("degree must be even and between 2 and 100"@)
            &&& nodes && degree && !probability ==> told == Some(
                "rewiring probability must be in [0, 1]"@,
            )
            &&& nodes && degree && probability && !sources ==> told == Some(
                "BFS samples must be between 1 and 256"@,
            )
            &&& nodes && degree && probability && sources && !workers ==> told == Some(
                "worker processes must be between 1 and "@ + text::decimal(worker_limit as nat)
                    + " on this system"@,
            )
        }),
{
}

/// How much of the graph a search has reached: `visited - 1` of the `nodes - 1` nodes
/// other than the source, and all of it once the search has ended.
pub proof fn lemma_share(visited: u64, nodes: u32, complete: bool)
    requires
        nodes > 1,
    ensures
        ({
            let share = source_share(visited, nodes, complete);
            &&& share.denominator > 0
            &&& complete ==> share.numerator == share.denominator
            &&& !complete && visited >= 1 ==> share.numerator * (nodes - 1) == (visited - 1)
                * share.denominator
            &&& !complete && visited == 0 ==> share.numerator == 0
        }),
{
}

} // verus!
