use rand::distributions::Bernoulli;
use small_world::coordinator::{accept_response, Action, Clock, Coordinator, Reply, Stage, Stop, Turn};
use small_world::graph::Graph;
use small_world::metrics::{local_clustering, sampled_path_length_sequential, LocalClustering};
use small_world::model::{
    source_progress, system_worker_limit, BfsMethod, ExperimentConfig, ExperimentResult, Phase,
    ProgressEvent, Ratio,
};
use small_world::probability::Probability;
use small_world::protocol::{EdgeQuery, Mutation, WorkerCommand, WorkerResponse};
use small_world::random::sample_sources;
use small_world::worker::Worker;
use std::collections::VecDeque;

const CLOCK: Clock = Clock { phase_ms: 5, run_ms: 9 };

fn chance(p: f64) -> Probability {
    Probability { bits: p.to_bits(), chance: Bernoulli::new(p).ok() }
}

fn config(p: f64, workers: u32, bfs_samples: u32) -> ExperimentConfig {
    ExperimentConfig { nodes: 10_000, degree: 10, probability: chance(p), bfs_samples, workers, seed: 42 }
}

fn value(ratio: Ratio) -> f64 {
    ratio.numerator as f64 / ratio.denominator as f64
}

/// Workers in this process, each with the messages that it has sent.
struct Team {
    workers: Vec<Worker>,
    sent: Vec<VecDeque<WorkerResponse>>,
}

impl Team {
    fn new(count: u32) -> Team {
        Team {
            workers: (0..count as usize).map(Worker::new).collect(),
            sent: (0..count).map(|_| VecDeque::new()).collect(),
        }
    }

    fn receive(&mut self, worker: usize) -> WorkerResponse {
        accept_response(self.sent[worker].pop_front()).unwrap()
    }

    fn ask(&mut self, worker: usize, command: WorkerCommand) -> WorkerResponse {
        assert!(self.workers[worker].accepts(&command));
        let mut output = Vec::new();
        let answer = self.workers[worker]
            .handle(command, &mut output)
            .unwrap_or_else(WorkerResponse::Error);
        self.sent[worker].extend(output);
        self.sent[worker].push_back(answer);
        self.receive(worker)
    }

    fn perform(&mut self, action: Action) -> Result<Reply, ExperimentResult> {
        match action {
            Action::Broadcast(command) => Ok(Reply::All(
                (0..self.workers.len()).map(|t| self.ask(t, command.clone())).collect(),
            )),
            Action::AskEach(commands) => Ok(Reply::All(
                commands.into_iter().enumerate().map(|(t, command)| self.ask(t, command)).collect(),
            )),
            Action::Ask { worker, command } => Ok(Reply::One(self.ask(worker, command))),
            Action::Receive { worker } => Ok(Reply::One(self.receive(worker))),
            Action::Finish(result) => Err(result),
        }
    }

    fn graph(&self) -> Graph {
        let adjacency: Vec<Vec<usize>> = self
            .workers
            .iter()
            .flat_map(|worker| worker.adjacency.iter())
            .map(|row| row.iter().map(|&v| v as usize).collect())
            .collect();
        let edge_count = adjacency.iter().map(Vec::len).sum::<usize>() / 2;
        Graph { adjacency, edge_count }
    }
}

fn run(config: ExperimentConfig) -> (ExperimentResult, Vec<ProgressEvent>, Team) {
    let mut team = Team::new(config.workers);
    let (mut coordinator, mut turn) = Coordinator::start(config, config.workers).unwrap();
    let mut events = Vec::new();
    loop {
        events.extend(turn.events);
        match team.perform(turn.action) {
            Err(result) => return (result, events, team),
            Ok(reply) => match coordinator.step(reply, CLOCK) {
                Ok(next) => turn = next,
                Err(stop) => panic!("stopped: {stop:?}"),
            },
        }
    }
}

fn check_progress() {
    assert_eq!(value(source_progress(1, 101, false)), 0.0);
    assert_eq!(value(source_progress(51, 101, false)), 0.5);
    assert_eq!(value(source_progress(101, 101, true)), 1.0);
    assert_eq!(value(source_progress(20, 101, true)), 1.0);
}

#[test]
fn engine_progress_advances_within_a_source_and_completes_disconnected_sources() {
    check_progress();
}

#[test]
fn coordinator_progress_advances_within_a_source_and_completes_disconnected_sources() {
    check_progress();
}

fn machine_limit() -> u32 {
    system_worker_limit(Some(rayon::current_num_threads()))
}

fn check_node_counts() {
    let config = ExperimentConfig {
        nodes: 5_000_001,
        workers: 1,
        ..ExperimentConfig::usual(chance(0.05), machine_limit())
    };

    assert!(config.validate(machine_limit()).is_ok());
}

#[test]
fn engine_accepts_node_counts_above_the_previous_demo_cap() {
    check_node_counts();
}

#[test]
fn coordinator_accepts_node_counts_above_the_previous_demo_cap() {
    check_node_counts();
}

fn check_worker_limit() {
    let limit = machine_limit();
    let valid =
        ExperimentConfig { workers: limit, ..ExperimentConfig::usual(chance(0.05), limit) };
    assert!(valid.validate(limit).is_ok());

    if let Some(too_many) = limit.checked_add(1) {
        let invalid =
            ExperimentConfig { workers: too_many, ..ExperimentConfig::usual(chance(0.05), limit) };
        assert!(invalid.validate(limit).is_err());
    }
}

#[test]
fn engine_worker_count_is_limited_by_available_parallelism() {
    check_worker_limit();
}

#[test]
fn coordinator_worker_count_is_limited_by_available_parallelism() {
    check_worker_limit();
}

#[test]
fn the_worker_limit_follows_the_system() {
    assert_eq!(system_worker_limit(None), 1);
    assert_eq!(system_worker_limit(Some(12)), 12);
    assert_eq!(system_worker_limit(Some(usize::MAX)), u32::MAX);
    assert_eq!(ExperimentConfig::usual(chance(0.05), 2).workers, 2);
    let usual = ExperimentConfig::usual(chance(0.05), 16);
    assert_eq!((usual.workers, usual.nodes, usual.degree), (4, 1_000_000, 10));
    assert_eq!((usual.bfs_samples, usual.seed), (32, 42));
}

#[test]
fn each_wrong_setting_has_its_message() {
    let good = config(0.05, 2, 4);
    let message = |config: ExperimentConfig| config.validate(8).unwrap_err();
    assert!(good.validate(8).is_ok());
    assert_eq!(
        message(ExperimentConfig { nodes: 9_999, ..good }),
        "nodes must be at least 10,000"
    );
    for degree in [0, 1, 7, 102] {
        assert_eq!(
            message(ExperimentConfig { degree, ..good }),
            "degree must be even and between 2 and 100"
        );
    }
    for p in [-0.01, 1.01, f64::NAN] {
        assert_eq!(
            message(ExperimentConfig { probability: chance(p), ..good }),
            "rewiring probability must be in [0, 1]"
        );
    }
    for bfs_samples in [0, 257] {
        assert_eq!(
            message(ExperimentConfig { bfs_samples, ..good }),
            "BFS samples must be between 1 and 256"
        );
    }
    for workers in [0, 9] {
        assert_eq!(
            message(ExperimentConfig { workers, ..good }),
            "worker processes must be between 1 and 8 on this system"
        );
    }
    for p in [0.0, -0.0, 1.0, f64::MIN_POSITIVE] {
        assert!(ExperimentConfig { probability: chance(p), ..good }.validate(8).is_ok());
    }
    assert_eq!(
        Coordinator::start(ExperimentConfig { nodes: 3, ..good }, 8).unwrap_err(),
        "nodes must be at least 10,000"
    );
}

#[test]
fn an_untouched_ring_is_measured_by_formula() {
    let (result, events, _) = run(config(0.0, 3, 4));
    // Every fifth ring step is one more hop: 2 * (1 + ... + 1000) hops of five nodes each,
    // the farthest of them short of one node.
    let from_one: u64 = 2 * (1..=4_999u64).map(|d| d.div_ceil(5)).sum::<u64>() + 1_000;
    assert_eq!(result.total_distance, 4 * from_one);
    assert_eq!(result.total_reachable, 4 * 9_999);
    assert_eq!(result.vertices_visited, 40_000);
    assert_eq!(result.rewired_edges, 0);
    assert_eq!(result.adjacency_entries, 100_000);
    assert_eq!(result.clustering_samples, 10_000);
    // A ring of degree K has 3 K (K - 2) / 8 links between the neighbors of a node.
    assert!(result.clustering.iter().all(|c| *c == LocalClustering { links: 30, degree: 10 }));
    assert_eq!(result.elapsed_ms, 9);
    assert!(matches!(events[0], ProgressEvent::WorkersStarted(3)));
    assert!(matches!(events[1], ProgressEvent::PhaseStarted(Phase::Build)));
    let details: Vec<&str> = events
        .iter()
        .filter_map(|event| match event {
            ProgressEvent::PhaseProgress { detail, .. } => Some(detail.as_str()),
            _ => None,
        })
        .collect();
    assert_eq!(details[0], "10000 vertices stored across 3 processes");
    assert_eq!(details[1], "0 edges rewired; endpoint updates routed");
    assert!(details.contains(&"10000 sampled vertices resolved"));
    assert_eq!(
        details.last().unwrap(),
        &"Source 4 of 4; exact ring distances; 10000 / 10000 vertices reached"
    );
    let last = events
        .iter()
        .rev()
        .find_map(|event| match event {
            ProgressEvent::Bfs(bfs) => Some(bfs),
            _ => None,
        })
        .unwrap();
    assert_eq!((last.source_index, last.source_total, last.level), (4, 4, None));
    assert_eq!(last.frontier_by_worker, vec![0, 0, 0]);
    assert_eq!(last.method, BfsMethod::Ring);
    assert!(matches!(
        events.last().unwrap(),
        ProgressEvent::PhaseCompleted { phase: Phase::Bfs, elapsed_ms: 5 }
    ));
}

#[test]
fn a_distributed_experiment_finds_what_one_process_finds() {
    let config = config(0.2, 3, 5);
    let (result, events, team) = run(config);
    let graph = team.graph();
    graph.validate().unwrap();
    assert_eq!(result.adjacency_entries, 100_000);
    let sources = sample_sources(10_000, 5, 42 ^ 0x6c79_6765_6e65_7261);
    let estimate = sampled_path_length_sequential(&graph, &sources);
    assert_eq!(result.total_distance, estimate.distance_sum);
    assert_eq!(result.total_reachable, estimate.reachable_pairs);
    assert_eq!(result.vertices_visited, estimate.reachable_pairs + 5);
    assert_eq!(result.clustering_samples, 10_000);
    let mut found: Vec<(u64, usize)> =
        result.clustering.iter().map(|c| (c.links, c.degree)).collect();
    let mut expected: Vec<(u64, usize)> = (0..10_000)
        .map(|u| local_clustering(&graph, u))
        .map(|c| (c.links, c.degree))
        .collect();
    found.sort_unstable();
    expected.sort_unstable();
    assert_eq!(found, expected);
    let levels: Vec<_> = events
        .iter()
        .filter_map(|event| match event {
            ProgressEvent::Bfs(bfs) if bfs.source_index == 1 => Some(bfs),
            _ => None,
        })
        .collect();
    assert_eq!(levels[0].level, Some(1));
    assert_eq!(levels[0].visited_nodes, 1 + graph.degree(sources[0]) as u64);
    assert!(value(levels[0].source_progress) < value(levels[1].source_progress));
    assert_eq!(value(levels.last().unwrap().source_progress), 1.0);
    assert!(levels.last().unwrap().frontier_by_worker.iter().all(|&size| size == 0));
}

#[test]
fn the_number_of_workers_does_not_change_what_is_found() {
    let (alone, _, one) = run(config(0.3, 1, 2));
    let (shared, _, four) = run(config(0.3, 4, 2));
    assert_eq!(one.graph().adjacency, four.graph().adjacency);
    assert_eq!(alone.total_distance, shared.total_distance);
    assert_eq!(alone.total_reachable, shared.total_reachable);
    assert_eq!(alone.rewired_edges, shared.rewired_edges);
    assert_eq!(alone.vertices_visited, shared.vertices_visited);
    assert_eq!(alone.cross_shard_messages, 0);
    assert!(shared.cross_shard_messages > 0);
}

fn at(stage: Stage) -> Coordinator {
    let (mut coordinator, _) = Coordinator::start(config(0.5, 2, 2), 2).unwrap();
    coordinator.stage = stage;
    coordinator.sources = vec![7, 8];
    match stage {
        Stage::Preparing { .. } | Stage::Resolving { .. } => {
            coordinator.waiting[1] = (0..10_000).collect();
        }
        Stage::Measuring
        | Stage::Starting
        | Stage::Expanding { .. }
        | Stage::Finishing { .. } => {
            coordinator.clustering = vec![LocalClustering { links: 0, degree: 2 }; 10_000];
        }
        _ => {}
    }
    coordinator
}

fn failure(answer: Result<Turn, Stop>) -> String {
    match answer {
        Err(Stop::Failed(message)) => message,
        other => panic!("expected a failure: {other:?}"),
    }
}

fn one(stage: Stage, response: WorkerResponse) -> Result<Turn, Stop> {
    at(stage).step(Reply::One(response), CLOCK)
}

fn all(stage: Stage, responses: Vec<WorkerResponse>) -> Result<Turn, Stop> {
    at(stage).step(Reply::All(responses), CLOCK)
}

#[test]
fn answers_that_make_no_sense_end_the_experiment() {
    let ack = || WorkerResponse::Ack;
    for (stage, message) in [
        (Stage::Building, "unexpected build response"),
        (Stage::Counting, "unexpected graph stats response"),
        (Stage::Measuring, "unexpected ring distance response"),
        (Stage::Expanding { level: 0 }, "unexpected BFS expansion response"),
        (Stage::Finishing { level: 0, discovered: 0 }, "unexpected BFS level response"),
    ] {
        assert_eq!(failure(all(stage, vec![ack(), ack()])), message);
    }
    for (stage, message) in [
        (Stage::Rewiring { source: 0 }, "unexpected rewiring response"),
        (
            Stage::Applying { source: 0, expected: 3 },
            "unexpected mutation application response",
        ),
        (Stage::Preparing { origin: 0 }, "unexpected clustering preparation response"),
        (Stage::Resolving { origin: 0 }, "unexpected edge-query response"),
    ] {
        assert_eq!(failure(one(stage, ack())), message);
    }
    assert_eq!(
        failure(one(
            Stage::Applying { source: 0, expected: 3 },
            WorkerResponse::MutationsApplied { count: 2 }
        )),
        "unexpected mutation application response"
    );
}

#[test]
fn counts_that_do_not_add_up_end_the_experiment() {
    let built = |local_nodes| WorkerResponse::Built { local_nodes, adjacency_entries: 0 };
    assert_eq!(
        failure(all(Stage::Building, vec![built(5_000), built(4_999)])),
        "workers built 9999 nodes, expected 10000"
    );
    let stats =
        |adjacency_entries| WorkerResponse::GraphStats { local_nodes: 0, adjacency_entries };
    assert_eq!(
        failure(all(Stage::Counting, vec![stats(50_000), stats(49_999)])),
        "edge-count invariant failed: 99999 adjacency entries, expected 100000"
    );
    assert!(matches!(
        all(Stage::Counting, vec![stats(u64::MAX), stats(1)]),
        Err(Stop::Crash)
    ));
    let prepared = WorkerResponse::ClusteringPrepared { degrees: vec![4], local_counts: vec![1] };
    assert_eq!(
        failure(one(Stage::Preparing { origin: 0 }, prepared)),
        "clustering summary count mismatch"
    );
    let resolved = WorkerResponse::EdgeQueriesResolved { counts: vec![(0, 1)] };
    assert_eq!(
        failure(one(Stage::Resolving { origin: 0 }, resolved)),
        "invalid edge-query origin index"
    );
}

#[test]
fn batches_go_to_other_workers_only() {
    let batch = |target| WorkerResponse::RewireMutations {
        target,
        mutations: vec![Mutation { node: 9_000, other: 1, add: true }],
    };
    let queries = |target| WorkerResponse::ClusteringQueries {
        target,
        queries: vec![EdgeQuery { origin_index: 0, a: 9_000, b: 9_001 }],
    };
    for target in [0, 2, 99] {
        assert_eq!(
            failure(one(Stage::Rewiring { source: 0 }, batch(target))),
            "invalid rewiring batch target"
        );
        assert_eq!(
            failure(one(Stage::Preparing { origin: 0 }, queries(target))),
            "invalid clustering batch target"
        );
    }
    let turn = one(Stage::Rewiring { source: 0 }, batch(1)).unwrap();
    assert!(matches!(
        turn.action,
        Action::Ask { worker: 1, command: WorkerCommand::ApplyMutations(_) }
    ));
    let turn = one(Stage::Preparing { origin: 0 }, queries(1)).unwrap();
    assert!(matches!(
        turn.action,
        Action::Ask { worker: 1, command: WorkerCommand::ResolveEdgeQueries(_) }
    ));
}

#[test]
fn discoveries_are_routed_once_and_in_order() {
    let expanded = |discoveries_by_owner| WorkerResponse::BfsExpanded {
        local_discovered: 2,
        discoveries_by_owner,
    };
    let mut coordinator = at(Stage::Expanding { level: 3 });
    let turn = coordinator
        .step(
            Reply::All(vec![
                expanded(vec![vec![], vec![9_007, 9_001, 9_007]]),
                expanded(vec![vec![4], vec![9_001, 9_002]]),
            ]),
            CLOCK,
        )
        .unwrap();
    let Action::AskEach(commands) = turn.action else { panic!() };
    let routes: Vec<Vec<u32>> = commands
        .into_iter()
        .map(|command| match command {
            WorkerCommand::FinishBfsLevel(route) => route,
            other => panic!("{other:?}"),
        })
        .collect();
    assert_eq!(routes, vec![vec![4], vec![9_001, 9_002, 9_007]]);
    assert_eq!(coordinator.totals.cross_shard_messages, 4);
    assert_eq!(coordinator.stage, Stage::Finishing { level: 3, discovered: 4 });
    assert!(matches!(
        all(Stage::Expanding { level: 0 }, vec![expanded(vec![vec![], vec![], vec![1]])]),
        Err(Stop::Crash)
    ));
}

#[test]
fn a_level_is_counted_at_its_distance() {
    let finished =
        |accepted, frontier, visited| WorkerResponse::BfsLevelFinished { accepted, frontier, visited };
    let mut coordinator = at(Stage::Finishing { level: 2, discovered: 10 });
    let turn = coordinator
        .step(Reply::All(vec![finished(1, 6, 20), finished(3, 8, 31)]), CLOCK)
        .unwrap();
    assert_eq!(coordinator.totals.total_distance, 14 * 3);
    assert_eq!(coordinator.totals.total_reachable, 14);
    assert_eq!(coordinator.totals.vertices_visited, 0);
    assert_eq!(coordinator.stage, Stage::Expanding { level: 3 });
    assert!(matches!(turn.action, Action::Broadcast(WorkerCommand::ExpandBfs)));
    let ProgressEvent::PhaseProgress { progress, ref detail, .. } = turn.events[0] else {
        panic!()
    };
    assert_eq!(detail, "Source 1 of 2; level 3; 51 / 10000 vertices reached");
    assert_eq!(progress, Ratio { numerator: 50, denominator: 2 * 9_999 });
    coordinator.stage = Stage::Finishing { level: 3, discovered: 0 };
    let turn = coordinator
        .step(Reply::All(vec![finished(0, 0, 20), finished(0, 0, 31)]), CLOCK)
        .unwrap();
    assert_eq!(coordinator.totals.vertices_visited, 51);
    assert!(matches!(
        turn.action,
        Action::Broadcast(WorkerCommand::StartBfs { source: 8 })
    ));
    let overflowing = all(
        Stage::Finishing { level: 2, discovered: u64::MAX },
        vec![finished(0, 1, 0), finished(0, 0, 0)],
    );
    assert!(matches!(overflowing, Err(Stop::Crash)));
}

#[test]
fn worker_errors_and_closed_streams_are_passed_on() {
    assert_eq!(
        accept_response(None).unwrap_err(),
        "worker closed its protocol stream"
    );
    assert_eq!(
        accept_response(Some(WorkerResponse::Error("broken".to_owned()))).unwrap_err(),
        "broken"
    );
    assert!(matches!(accept_response(Some(WorkerResponse::Ack)), Ok(WorkerResponse::Ack)));
}

#[test]
fn the_sample_stays_whole_from_its_draw_to_the_result() {
    let config = ExperimentConfig { nodes: 25_000, ..config(0.1, 3, 1) };
    let mut team = Team::new(3);
    let (mut coordinator, mut turn) = Coordinator::start(config, 3).unwrap();
    let result = loop {
        match team.perform(turn.action) {
            Err(result) => break result,
            Ok(reply) => turn = coordinator.step(reply, CLOCK).unwrap(),
        }
        let waiting: usize = coordinator.waiting.iter().map(Vec::len).sum();
        let found = coordinator.clustering.len();
        match coordinator.stage {
            Stage::Preparing { .. } | Stage::Resolving { .. } => {
                assert_eq!(found + coordinator.counts.len() + waiting, 20_000);
            }
            Stage::Starting | Stage::Expanding { .. } | Stage::Finishing { .. } => {
                assert_eq!((found, waiting), (20_000, 0));
            }
            _ => {}
        }
    };
    assert_eq!(result.clustering_samples, 20_000);
    assert_eq!(result.clustering.len(), 20_000);
}
