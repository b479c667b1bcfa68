//! What a worker answers to each request, and what becomes of it.

use super::clustering::{ClusteringLeg, ClusteringPass};
use super::rewire::{RewireLeg, RewirePass};
use super::ShardView;
use crate::batches;
use crate::batches::Waiting;
use crate::partition;
use crate::probability::Probability;
use crate::protocol::{ClusterConfig, EdgeQuery, Mutation, WorkerResponse};
use crate::rows;
use vstd::prelude::*;

verus! {

impl ShardView {
    /// The worker's shard of the ring can be built: no step backwards along the
    /// ring leads below zero before the turn around it is added.
    pub open spec fn buildable(self, config: ClusterConfig) -> bool {
        let start = partition::shard_start(config.nodes as nat, config.workers as nat, self.id);
        let end = partition::shard_start(config.nodes as nat, config.workers as nat, self.id + 1);
        super::lattice::fits(self.id, config) && start < end ==> config.degree / 2 <= start
            + config.nodes
    }

    /// A shard is built just when the worker's number fits the configuration.
    /// What the worker held before is replaced, but for the record of nodes
    /// reported to other workers, which the next search clears.
    pub open spec fn build_outcome(
        self,
        config: ClusterConfig,
        answer: Result<WorkerResponse, String>,
        after: ShardView,
    ) -> bool {
        &&& super::lattice::fits(self.id, config) <==> answer is Ok
        &&& match answer {
            Ok(response) => {
                &&& after.id == self.id
                &&& after.config == Some(config)
                &&& after.holds_ring()
                &&& after.ring_intact
                &&& after.visited_count == 0
                &&& forall|i: int| 0 <= i < after.visited.len() ==> !after.visited[i]
                &&& after.remote == self.remote
                &&& after.frontier == Seq::<u32>::empty()
                &&& after.next_frontier == Seq::<u32>::empty()
                &&& response == (WorkerResponse::Built {
                    local_nodes: (after.end - after.start) as u32,
                    adjacency_entries: rows::total(after.rows) as u64,
                })
                &&& rows::total(after.rows) <= u64::MAX
            },
            Err(message) => after == self && message@ == super::lattice::bad_worker_text(),
        }
    }

    /// The number of nodes and of row entries.
    pub open spec fn stats_outcome(self, response: WorkerResponse) -> bool {
        &&& rows::total(self.rows) <= u64::MAX
        &&& response == (WorkerResponse::GraphStats {
            local_nodes: (self.end - self.start) as u32,
            adjacency_entries: rows::total(self.rows) as u64,
        })
    }

    /// Ring distances are told while the ring is intact, for a source in the
    /// graph, where the ring has links.
    pub open spec fn ring_outcome(
        self,
        source: u32,
        answer: Result<WorkerResponse, String>,
    ) -> bool {
        match self.config {
            None => answer is Err && answer->Err_0@ == super::not_built_text(),
            Some(config) => if !self.ring_intact || source >= config.nodes || config.degree < 2 {
                answer is Err && answer->Err_0@ == super::ring::no_ring_text()
            } else {
                let sum = super::ring::ring_distance_sum(
                    config.nodes as int,
                    (config.degree / 2) as int,
                    source as int,
                    self.start,
                    self.end,
                );
                &&& 0 <= sum <= u64::MAX
                &&& answer == Ok::<WorkerResponse, String>(
                    WorkerResponse::RingDistances {
                        distance_sum: sum as u64,
                        reachable: (self.end - self.start - if self.owns(source as int) {
                            1int
                        } else {
                            0
                        }) as u64,
                        visited: (self.end - self.start) as u64,
                    },
                )
            },
        }
    }

    /// A search starts from scratch, at the source where the worker owns it.
    pub open spec fn start_outcome(
        self,
        source: u32,
        answer: Result<WorkerResponse, String>,
        after: ShardView,
    ) -> bool {
        match self.config {
            None => answer is Err && answer->Err_0@ == super::not_built_text() && after == self,
            Some(_) => {
                &&& answer == Ok::<WorkerResponse, String>(WorkerResponse::BfsStarted)
                &&& after == self.started(source as int)
                &&& after.counted()
            },
        }
    }

    /// The answer speaks of the first of the nodes that the worker does not own.
    pub open spec fn foreign_outcome(self, nodes: Seq<u32>, k: int, message: Seq<char>) -> bool {
        &&& self.first_foreign(nodes, k)
        &&& message == super::not_owned_text(
            self.id,
            nodes[k] as nat,
            self.start as nat,
            self.end as nat,
        )
    }

    /// The nodes before the first that the worker does not own are marked.
    pub open spec fn stopped_marking(
        self,
        discoveries: Seq<u32>,
        message: Seq<char>,
        after: ShardView,
    ) -> bool {
        exists|k: int| #[trigger]
            self.foreign_outcome(discoveries, k, message) && after == self.marked(
                discoveries.take(k),
            )
    }

    /// The vertices before the first that the worker does not own were asked about.
    pub open spec fn stopped_asking(
        self,
        vertices: Seq<u32>,
        message: Seq<char>,
        skip: int,
        written: Seq<WorkerResponse>,
    ) -> bool {
        exists|k: int| #[trigger]
            self.foreign_outcome(vertices, k, message) && super::clustering::carry_queries(
                written,
                skip,
                Waiting::<EdgeQuery>::none(self.config->Some_0.workers as nat).sends_all(
                    self.all_queries(vertices.take(k)),
                    super::clustering::query_target(self.config->Some_0),
                ),
            )
    }

    /// One of the nodes is not the worker's, and the message speaks of the first such.
    pub open spec fn refused(self, nodes: Seq<u32>, message: Seq<char>) -> bool {
        exists|k: int| #[trigger] self.foreign_outcome(nodes, k, message)
    }

    /// The nodes are marked, up to the first that the worker does not own; the
    /// running count then stays behind.
    pub open spec fn discovery_outcome(
        self,
        discoveries: Seq<u32>,
        answer: Result<WorkerResponse, String>,
        after: ShardView,
    ) -> bool {
        &&& self.owns_all(discoveries) <==> answer is Ok
        &&& match answer {
            Ok(response) => {
                let accepted = super::bfs::fresh(self.visited_set(), discoveries).len();
                &&& accepted <= u32::MAX
                &&& response == (WorkerResponse::DiscoveriesApplied { accepted: accepted as u64 })
                &&& after == self.marked(discoveries).recounted(accepted)
                &&& self.counted() ==> after.counted()
            },
            Err(message) => self.stopped_marking(discoveries, message@, after),
        }
    }

    /// The next frontier becomes the frontier.
    pub open spec fn advance_outcome(self, response: WorkerResponse, after: ShardView) -> bool {
        &&& after == self.advanced()
        &&& response == (WorkerResponse::BfsAdvanced {
            frontier: self.next_frontier.len() as u64,
            visited: self.visited_count as u64,
        })
        &&& self.visited_count <= u64::MAX
    }

    /// Discoveries are applied, and the search advances.
    pub open spec fn level_outcome(
        self,
        discoveries: Seq<u32>,
        answer: Result<WorkerResponse, String>,
        after: ShardView,
    ) -> bool {
        &&& self.owns_all(discoveries) <==> answer is Ok
        &&& match answer {
            Ok(response) => {
                let accepted = super::bfs::fresh(self.visited_set(), discoveries).len();
                let applied = self.marked(discoveries).recounted(accepted);
                &&& accepted <= u32::MAX
                &&& applied.visited_count <= u64::MAX
                &&& response == (WorkerResponse::BfsLevelFinished {
                    accepted: accepted as u64,
                    frontier: applied.next_frontier.len() as u64,
                    visited: applied.visited_count as u64,
                })
                &&& after == applied.advanced()
                &&& self.counted() ==> after.counted()
            },
            Err(message) => self.stopped_marking(discoveries, message@, after),
        }
    }

    /// The frontier is expanded, and what was discovered for others is told by owner.
    pub open spec fn expand_outcome(
        self,
        answer: Result<WorkerResponse, String>,
        after: ShardView,
    ) -> bool {
        &&& self.counted() ==> after.counted()
        &&& match self.config {
            None => answer is Err && answer->Err_0@ == super::not_built_text() && after == self,
            Some(config) => {
                let found = super::bfs::fresh(self.visited_set(), self.local_reach()).len();
                &&& after == self.expanded()
                &&& found <= u32::MAX
                &&& match answer {
                    Ok(WorkerResponse::BfsExpanded { local_discovered, discoveries_by_owner }) => {
                        &&& local_discovered == found
                        &&& discoveries_by_owner@.len() == config.workers
                        &&& forall|t: int|
                            0 <= t < config.workers ==> #[trigger] discoveries_by_owner@[t]@
                                == self.discoveries_for(t)
                    },
                    _ => false,
                }
            },
        }
    }

    /// A coin can be flipped for every edge of the worker's pass, if any needs one.
    pub open spec fn rewirable(self, probability: Probability) -> bool {
        self.config is Some ==> probability.chance is Some || probability.zero()
            || self.edge_total() == 0
    }

    /// A whole rewiring pass. With probability zero it is told as done and
    /// nothing is drawn.
    pub open spec fn rewire_outcome(
        self,
        probability: Probability,
        seed: u64,
        output: Seq<WorkerResponse>,
        answer: Result<WorkerResponse, String>,
        after: ShardView,
        written: Seq<WorkerResponse>,
    ) -> bool {
        let skip = output.len() as int;
        let end = self.pass_end(probability.chance->Some_0, seed);
        &&& written.take(skip) == output
        &&& if self.config is None {
            &&& answer is Err
            &&& answer->Err_0@ == super::not_built_text()
            &&& after == self
            &&& written == output
        } else if probability.zero() {
            &&& self.edge_total() <= u64::MAX
            &&& answer == Ok::<WorkerResponse, String>(
                WorkerResponse::Rewired { considered: self.edge_total() as u64, rewired: 0 },
            )
            &&& after == self
            &&& written == output
        } else {
            &&& after == self.with_rows(end.rows, end.intact)
            &&& match answer {
                Err(message) => {
                    &&& end.failure == Some(message@)
                    &&& super::rewire::carry_mutations(written, skip, end.sent)
                },
                Ok(response) => {
                    &&& end.failure is None
                    &&& super::rewire::carry_mutations(
                        written,
                        skip,
                        end.sent + batches::flushed(end.waiting.groups),
                    )
                    &&& end.rewired <= u64::MAX
                    &&& self.edge_total() <= u64::MAX
                    &&& response == (WorkerResponse::Rewired {
                        considered: self.edge_total() as u64,
                        rewired: end.rewired as u64,
                    })
                },
            }
        }
    }

    /// One leg of a rewiring pass: it ends where a batch is due for another
    /// worker, at an edge that fails, or after the last edge.
    pub open spec fn rewire_leg(
        self,
        pass: RewirePass,
        leg: RewireLeg,
        after: ShardView,
        next: RewirePass,
    ) -> bool {
        let end = self.run(
            self.resumed(pass),
            pass.probability.chance->Some_0,
            pass.seed,
            pass.position as int,
            next.position as int,
        );
        let sent = batches::sent_seqs(leg.sent@);
        &&& next.probability == pass.probability
        &&& next.seed == pass.seed
        &&& self.edge_total() <= u64::MAX
        &&& if pass.probability.zero() {
            &&& after == self
            &&& next == pass
            &&& leg.sent@.len() == 0
            &&& leg.outcome == Ok::<Option<WorkerResponse>, String>(
                Some(
                    WorkerResponse::Rewired { considered: self.edge_total() as u64, rewired: 0 },
                ),
            )
        } else {
            &&& pass.position <= next.position <= self.edge_total()
            &&& after == self.with_rows(end.rows, end.intact)
            &&& match leg.outcome {
                Err(message) => {
                    &&& end.failure == Some(message@)
                    &&& sent == end.sent
                },
                Ok(None) => {
                    &&& end.failure is None
                    &&& sent == end.sent
                    &&& sent.len() > 0
                    &&& next.position < self.edge_total()
                    &&& next.batches@ == end.waiting
                    &&& next.rewired == end.rewired
                    &&& after.fits_pass(next)
                },
                Ok(Some(response)) => {
                    &&& end.failure is None
                    &&& sent == end.sent + batches::flushed(end.waiting.groups)
                    &&& next.position == self.edge_total()
                    &&& end.rewired <= u64::MAX
                    &&& response == (WorkerResponse::Rewired {
                        considered: self.edge_total() as u64,
                        rewired: end.rewired as u64,
                    })
                },
            }
        }
    }

    /// One leg of a clustering pass: it ends where a batch is due for another
    /// worker, at a vertex that the worker does not own, or after the last vertex.
    pub open spec fn clustering_leg(
        self,
        pass: ClusteringPass,
        leg: ClusteringLeg,
        next: ClusteringPass,
    ) -> bool {
        let from = self.asked_by(pass);
        let to = self.asked_by(next);
        let target = super::clustering::query_target(self.config->Some_0);
        let asked = to.skip(from.len() as int);
        let waiting = pass.batches@.queue_all(asked, target);
        let sends = pass.batches@.sends_all(asked, target);
        let sent = batches::sent_seqs(leg.sent@);
        let vertices = pass.vertices@;
        &&& next.vertices@ == vertices
        &&& from.len() <= to.len()
        &&& to.take(from.len() as int) == from
        &&& match leg.outcome {
            Err(message) => {
                &&& self.foreign_outcome(vertices, next.vertex as int, message@)
                &&& next.first == 0
                &&& sent == sends
            },
            Ok(None) => {
                &&& self.fits_queries(next)
                &&& next.vertex < vertices.len()
                &&& next.batches@ == waiting
                &&& sent == sends
                &&& sent.len() > 0
                &&& super::clustering::further(pass, next)
            },
            Ok(Some(response)) => {
                &&& self.owns_all(vertices)
                &&& next.vertex == vertices.len()
                &&& next.first == 0
                &&& sent == sends + batches::flushed(waiting.groups)
                &&& match response {
                    WorkerResponse::ClusteringPrepared { degrees, local_counts } => {
                        &&& degrees@ == self.degrees(vertices)
                        &&& local_counts@ == self.local_counts(vertices)
                    },
                    _ => false,
                }
            },
        }
    }

    /// One row is changed as the mutation says, where the worker owns it and it
    /// can be.
    pub open spec fn one_mutation_outcome(
        self,
        mutation: Mutation,
        answer: Result<(), String>,
        after: ShardView,
    ) -> bool {
        let at = mutation.node - self.start;
        if !self.owns(mutation.node as int) {
            &&& answer is Err
            &&& answer->Err_0@ == super::not_owned_text(
                self.id,
                mutation.node as nat,
                self.start as nat,
                self.end as nat,
            )
            &&& after == self
        } else if !super::rewire::applicable(self.rows[at], mutation) {
            &&& answer is Err
            &&& answer->Err_0@ == super::rewire::not_applicable_text(mutation)
            &&& after == self
        } else {
            &&& answer is Ok
            &&& after == self.with_rows(
                self.rows.update(at, super::rewire::mutated(self.rows[at], mutation)),
                false,
            )
        }
    }

    /// The mutations are applied in order, up to the first that cannot be.
    pub open spec fn mutation_outcome(
        self,
        mutations: Seq<Mutation>,
        answer: Result<WorkerResponse, String>,
        after: ShardView,
    ) -> bool {
        let end = self.mutated_by(mutations);
        &&& after == self.with_rows(end.rows, end.intact)
        &&& match answer {
            Ok(response) => end.failure is None && response == (WorkerResponse::MutationsApplied {
                count: mutations.len() as u64,
            }),
            Err(message) => end.failure == Some(message@),
        }
    }

    /// A whole clustering pass, up to the first vertex that the worker does not own.
    pub open spec fn clustering_outcome(
        self,
        vertices: Seq<u32>,
        output: Seq<WorkerResponse>,
        answer: Result<WorkerResponse, String>,
        written: Seq<WorkerResponse>,
    ) -> bool {
        let skip = output.len() as int;
        let none = Waiting::<EdgeQuery>::none(self.config->Some_0.workers as nat);
        let target = super::clustering::query_target(self.config->Some_0);
        &&& written.take(skip) == output
        &&& match answer {
            Err(message) => if self.config is None {
                &&& message@ == super::not_built_text()
                &&& written == output
            } else {
                self.stopped_asking(vertices, message@, skip, written)
            },
            Ok(response) => {
                let asked = self.all_queries(vertices);
                &&& self.config is Some
                &&& self.owns_all(vertices)
                &&& super::clustering::carry_queries(
                    written,
                    skip,
                    none.sends_all(asked, target) + batches::flushed(
                        none.queue_all(asked, target).groups,
                    ),
                )
                &&& match response {
                    WorkerResponse::ClusteringPrepared { degrees, local_counts } => {
                        &&& degrees@ == self.degrees(vertices)
                        &&& local_counts@ == self.local_counts(vertices)
                    },
                    _ => false,
                }
            },
        }
    }

    /// The queries are answered together: how many links each origin gains, by
    /// ascending origin, the origins without one left out.
    pub open spec fn query_outcome(
        self,
        queries: Seq<EdgeQuery>,
        answer: Result<WorkerResponse, String>,
    ) -> bool {
        &&& answer is Ok <==> self.owns_all(super::clustering::asked_nodes(queries))
        &&& match answer {
            Ok(WorkerResponse::EdgeQueriesResolved { counts }) => self.tallies(counts@, queries),
            Ok(_) => false,
            Err(message) => self.refused(super::clustering::asked_nodes(queries), message@),
        }
    }
}

} // verus!
