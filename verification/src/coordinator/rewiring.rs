//! Building and rewiring, as the coordinator sees them.

use super::{Action, Clock, Coordinator, Stage, Stop, Totals, Turn};
use crate::model::{ExperimentConfig, Phase, ProgressEvent, Ratio};
use crate::protocol::{WorkerCommand, WorkerResponse};
use crate::text;
use vstd::prelude::*;
use vstd::string::*;

verus! {

/// The response tells that a shard was built.
pub open spec fn is_built() -> spec_fn(WorkerResponse) -> bool {
    |response: WorkerResponse| response is Built
}

/// The nodes of a shard that was built.
pub open spec fn built_nodes() -> spec_fn(WorkerResponse) -> nat {
    |response: WorkerResponse|
        match response {
            WorkerResponse::Built { local_nodes, .. } => local_nodes as nat,
            _ => 0,
        }
}

/// The response tells the size of a shard.
pub open spec fn is_stats() -> spec_fn(WorkerResponse) -> bool {
    |response: WorkerResponse| response is GraphStats
}

/// The row entries of a shard.
pub open spec fn stats_entries() -> spec_fn(WorkerResponse) -> nat {
    |response: WorkerResponse|
        match response {
            WorkerResponse::GraphStats { adjacency_entries, .. } => adjacency_entries as nat,
            _ => 0,
        }
}

/// What is said where the shards do not add up to the graph.
pub open spec fn built_text(built: nat, nodes: nat) -> Seq<char> {
    "workers built "@ + text::decimal(built) + " nodes, expected "@ + text::decimal(nodes)
}

/// What is told once the shards are built.
pub open spec fn stored_text(built: nat, workers: nat) -> Seq<char> {
    text::decimal(built) + " vertices stored across "@ + text::decimal(workers) + " processes"@
}

/// What is told after each worker's rewiring pass.
pub open spec fn rewired_text(rewired: nat) -> Seq<char> {
    text::decimal(rewired) + " edges rewired; endpoint updates routed"@
}

/// What is said where rewiring lost or gained edges.
pub open spec fn entries_text(entries: nat, expected: nat) -> Seq<char> {
    "edge-count invariant failed: "@ + text::decimal(entries) + " adjacency entries, expected "@
        + text::decimal(expected)
}

impl ExperimentConfig {
    /// What a worker is asked to rewire its edges.
    pub open spec fn rewire_command(self) -> WorkerCommand {
        WorkerCommand::Rewire {
            probability: self.probability,
            seed: self.seed ^ super::REWIRE_SEED,
        }
    }
}

impl Coordinator {
    /// The shards are built. Where they add up to the graph the first worker is
    /// to rewire its edges.
    pub open spec fn built_turn(
        &self,
        responses: Seq<WorkerResponse>,
        clock: Clock,
        answer: Result<Turn, Stop>,
        after: Coordinator,
    ) -> bool {
        let built = super::sum_of(responses, built_nodes());
        if !super::all_are(responses, is_built()) {
            super::fails(answer, "unexpected build response"@) && after == *self
        } else if built > u64::MAX {
            answer == Err::<Turn, Stop>(Stop::Crash) && after == *self
        } else if built != self.config.nodes {
            super::fails(answer, built_text(built, self.config.nodes as nat)) && after == *self
        } else {
            &&& answer is Ok
            &&& after == (Coordinator { stage: Stage::Rewiring { source: 0 }, ..*self })
            &&& answer->Ok_0.events@.len() == 3
            &&& super::tells(
                answer->Ok_0.events@[0],
                Phase::Build,
                Ratio { numerator: 1, denominator: 1 },
                stored_text(built, self.config.workers as nat),
                clock.phase_ms,
            )
            &&& answer->Ok_0.events@[1] == (ProgressEvent::PhaseCompleted {
                phase: Phase::Build,
                elapsed_ms: clock.phase_ms,
            })
            &&& answer->Ok_0.events@[2] == ProgressEvent::PhaseStarted(Phase::Rewire)
            &&& answer->Ok_0.action == (Action::Ask {
                worker: 0,
                command: self.config.rewire_command(),
            })
        }
    }

    /// Checks that the shards add up to the graph.
    pub fn on_built(&mut self, responses: &Vec<WorkerResponse>, clock: Clock) -> (answer: Result<
        Turn,
        Stop,
    >)
        requires
            old(self).wf(),
            old(self).stage == Stage::Building,
        ensures
            old(self).built_turn(responses@, clock, answer, *final(self)),
            final(self).wf(),
            answer is Ok ==> final(self).follows(answer->Ok_0.action),
    {
        let ghost part = built_nodes();
        let mut built: u64 = 0;
        let mut overflow = false;
        let mut i: usize = 0;
        assert(responses@.take(0) =~= Seq::empty());
        while i < responses.len()
            invariant
                i <= responses@.len(),
                part == built_nodes(),
                *self == *old(self),
                self.wf(),
                forall|j: int| 0 <= j < i ==> #[trigger] responses@[j] is Built,
                overflow ==> super::sum_of(responses@, part) > u64::MAX,
                !overflow ==> built == super::sum_of(responses@.take(i as int), part),
            decreases responses.len() - i,
        {
            proof {
                super::lemma_sum_step(responses@, part, i as int);
                super::lemma_sum_grows(responses@, part, i + 1);
            }
            match &responses[i] {
                WorkerResponse::Built { local_nodes, .. } => {
                    match built.checked_add(*local_nodes as u64) {
                        Some(sum) => {
                            built = sum;
                        },
                        None => {
                            overflow = true;
                        },
                    }
                },
                _ => {
                    proof {
                        assert(!is_built()(responses@[i as int]));
                    }
                    return Err(Stop::Failed("unexpected build response".to_owned()));
                },
            }
            i = i + 1;
        }
        proof {
            assert(responses@.take(i as int) =~= responses@);
            assert(super::all_are(responses@, is_built()));
        }
        if overflow {
            return Err(Stop::Crash);
        }
        if built != self.config.nodes as u64 {
            let mut message = text::numbered("workers built ", built, " nodes, expected ");
            text::push_decimal(&mut message, self.config.nodes as u64);
            return Err(Stop::Failed(message));
        }
        let mut detail = text::decimal_text(built);
        detail.append(" vertices stored across ");
        text::push_decimal(&mut detail, self.config.workers as u64);
        detail.append(" processes");
        let mut events: Vec<ProgressEvent> = Vec::new();
        events.push(
            ProgressEvent::PhaseProgress {
                phase: Phase::Build,
                progress: Ratio { numerator: 1, denominator: 1 },
                detail,
                elapsed_ms: clock.phase_ms,
            },
        );
        events.push(
            ProgressEvent::PhaseCompleted { phase: Phase::Build, elapsed_ms: clock.phase_ms },
        );
        events.push(ProgressEvent::PhaseStarted(Phase::Rewire));
        self.stage = Stage::Rewiring { source: 0 };
        Ok(Turn { events, action: Action::Ask { worker: 0, command: self.rewire_command() } })
    }

    /// What a worker is asked to rewire its edges.
    fn rewire_command(&self) -> (command: WorkerCommand)
        ensures
            command == self.config.rewire_command(),
    {
        WorkerCommand::Rewire {
            probability: self.config.probability,
            seed: self.config.seed ^ super::REWIRE_SEED,
        }
    }

    /// A message of a rewiring pass: a batch goes on to its target, the summary
    /// ends the pass. After the last pass the shards are counted.
    pub open spec fn pass_turn(
        &self,
        source: usize,
        response: WorkerResponse,
        clock: Clock,
        answer: Result<Turn, Stop>,
        after: Coordinator,
    ) -> bool {
        match response {
            WorkerResponse::RewireMutations { target, mutations } => if target == source || target
                >= self.config.workers {
                super::fails(answer, "invalid rewiring batch target"@) && after == *self
            } else {
                &&& answer is Ok
                &&& after == (Coordinator {
                    stage: Stage::Applying { source, expected: mutations@.len() as u64 },
                    ..*self
                })
                &&& answer->Ok_0.events@.len() == 0
                &&& answer->Ok_0.action == (Action::Ask {
                    worker: target as usize,
                    command: WorkerCommand::ApplyMutations(mutations),
                })
            },
            WorkerResponse::Rewired { rewired, .. } => if self.totals.rewired_edges + rewired
                > u64::MAX {
                answer == Err::<Turn, Stop>(Stop::Crash) && after == *self
            } else {
                let total = (self.totals.rewired_edges + rewired) as u64;
                let last = source + 1 >= self.config.workers;
                &&& answer is Ok
                &&& after == (Coordinator {
                    stage: if last {
                        Stage::Counting
                    } else {
                        Stage::Rewiring { source: (source + 1) as usize }
                    },
                    totals: Totals { rewired_edges: total, ..self.totals },
                    ..*self
                })
                &&& answer->Ok_0.events@.len() == 1
                &&& super::tells(
                    answer->Ok_0.events@[0],
                    Phase::Rewire,
                    super::share(source + 1, self.config.workers as int),
                    rewired_text(total as nat),
                    clock.phase_ms,
                )
                &&& answer->Ok_0.action == if last {
                    Action::Broadcast(WorkerCommand::GraphStats)
                } else {
                    Action::Ask {
                        worker: (source + 1) as usize,
                        command: self.config.rewire_command(),
                    }
                }
            },
            _ => super::fails(answer, "unexpected rewiring response"@) && after == *self,
        }
    }

    /// Takes a message of a rewiring pass.
    pub fn on_rewiring(&mut self, source: usize, response: WorkerResponse, clock: Clock) -> (answer:
        Result<Turn, Stop>)
        requires
            old(self).wf(),
            old(self).stage == (Stage::Rewiring { source }),
        ensures
            old(self).pass_turn(source, response, clock, answer, *final(self)),
            final(self).wf(),
            answer is Ok ==> final(self).follows(answer->Ok_0.action),
    {
        let workers: usize = self.config.workers as usize;
        match response {
            WorkerResponse::RewireMutations { target, mutations } => {
                let target: usize = target as usize;
                if target == source || target >= workers {
                    return Err(Stop::Failed("invalid rewiring batch target".to_owned()));
                }
                self.stage = Stage::Applying { source, expected: mutations.len() as u64 };
                Ok(
                    Turn {
                        events: Vec::new(),
                        action: Action::Ask {
                            worker: target,
                            command: WorkerCommand::ApplyMutations(mutations),
                        },
                    },
                )
            },
            WorkerResponse::Rewired { rewired, .. } => {
                let total: u64 = match self.totals.rewired_edges.checked_add(rewired) {
                    Some(total) => total,
                    None => return Err(Stop::Crash),
                };
                self.totals.rewired_edges = total;
                let mut detail = text::decimal_text(total);
                detail.append(" edges rewired; endpoint updates routed");
                let mut events: Vec<ProgressEvent> = Vec::new();
                events.push(
                    ProgressEvent::PhaseProgress {
                        phase: Phase::Rewire,
                        progress: super::clamped(source as u64 + 1, workers as u64),
                        detail,
                        elapsed_ms: clock.phase_ms,
                    },
                );
                if source + 1 >= workers {
                    self.stage = Stage::Counting;
                    return Ok(
                        Turn { events, action: Action::Broadcast(WorkerCommand::GraphStats) },
                    );
                }
                self.stage = Stage::Rewiring { source: source + 1 };
                Ok(
                    Turn {
                        events,
                        action: Action::Ask { worker: source + 1, command: self.rewire_command() },
                    },
                )
            },
            _ => Err(Stop::Failed("unexpected rewiring response".to_owned())),
        }
    }

    /// A batch of mutations was applied: the pass it came from goes on.
    pub open spec fn applied_turn(
        &self,
        source: usize,
        expected: u64,
        response: WorkerResponse,
        answer: Result<Turn, Stop>,
        after: Coordinator,
    ) -> bool {
        if response != (WorkerResponse::MutationsApplied { count: expected }) {
            super::fails(answer, "unexpected mutation application response"@) && after == *self
        } else if self.totals.cross_shard_messages + expected > u64::MAX {
            answer == Err::<Turn, Stop>(Stop::Crash) && after == *self
        } else {
            &&& answer is Ok
            &&& after == (Coordinator {
                stage: Stage::Rewiring { source },
                totals: Totals {
                    cross_shard_messages: (self.totals.cross_shard_messages + expected) as u64,
                    ..self.totals
                },
                ..*self
            })
            &&& answer->Ok_0.events@.len() == 0
            &&& answer->Ok_0.action == (Action::Receive { worker: source })
        }
    }

    /// Checks that a batch of mutations was applied.
    pub fn on_applied(&mut self, source: usize, expected: u64, response: WorkerResponse) -> (answer:
        Result<Turn, Stop>)
        requires
            old(self).wf(),
            old(self).stage == (Stage::Applying { source, expected }),
        ensures
            old(self).applied_turn(source, expected, response, answer, *final(self)),
            final(self).wf(),
            answer is Ok ==> final(self).follows(answer->Ok_0.action),
    {
        let applied = match response {
            WorkerResponse::MutationsApplied { count } => count == expected,
            _ => false,
        };
        if !applied {
            return Err(Stop::Failed("unexpected mutation application response".to_owned()));
        }
        let total: u64 = match self.totals.cross_shard_messages.checked_add(expected) {
            Some(total) => total,
            None => return Err(Stop::Crash),
        };
        self.totals.cross_shard_messages = total;
        self.stage = Stage::Rewiring { source };
        Ok(Turn { events: Vec::new(), action: Action::Receive { worker: source } })
    }
}

} // verus!
