use rand::distributions::Bernoulli;
use small_world::dashboard::{
    fresh_phases, method_name, phase_key, phase_label, DashboardState, PhaseStatus, RunStatus,
};
use small_world::metrics::LocalClustering;
use small_world::model::{
    BfsMethod, BfsProgress, ExperimentConfig, ExperimentResult, Phase, ProgressEvent, Ratio,
};
use small_world::probability::Probability;

fn chance(p: f64) -> Probability {
    Probability { bits: p.to_bits(), chance: Bernoulli::new(p).ok() }
}

fn usual() -> ExperimentConfig {
    ExperimentConfig::usual(chance(0.05), 8)
}

fn result(total_distance: u64) -> ExperimentResult {
    ExperimentResult {
        total_distance,
        total_reachable: 2,
        clustering: vec![LocalClustering { links: 1, degree: 2 }],
        elapsed_ms: 3,
        cross_shard_messages: 4,
        vertices_visited: 5,
        rewired_edges: 6,
        clustering_samples: 1,
        adjacency_entries: 7,
    }
}

#[test]
fn fresh_phases_stand_in_order() {
    let phases = fresh_phases();
    let keys: Vec<&str> = phases.iter().map(|view| phase_key(view.key)).collect();
    assert_eq!(keys, ["build", "rewire", "clustering", "bfs"]);
    let labels: Vec<&str> = phases.iter().map(|view| phase_label(view.key)).collect();
    assert_eq!(
        labels,
        [
            "Build shards",
            "Distributed rewiring",
            "Clustering coefficient",
            "Sampled distributed BFS"
        ]
    );
    let details: Vec<&str> = phases.iter().map(|view| view.detail.as_str()).collect();
    assert_eq!(
        details,
        [
            "Partition nodes and construct local rings",
            "Route endpoint mutations to shard owners",
            "Resolve sampled triangle queries across shards",
            "Run level-synchronous BFS across all workers"
        ]
    );
    assert!(phases.iter().all(|view| view.status.name() == "pending" && view.elapsed_ms == 0));
}

#[test]
fn a_run_is_refused_while_another_runs() {
    let mut state = DashboardState::idle(usual(), 8);
    assert_eq!(state.status.name(), "idle");
    state.prepare_run(usual(), 8).unwrap();
    assert_eq!(state.status, RunStatus::Running);
    assert_eq!(
        state.prepare_run(usual(), 8).unwrap_err(),
        "an experiment is already running"
    );
    // A wrong configuration is told before the running experiment.
    let wrong = ExperimentConfig { nodes: 1, ..usual() };
    assert_eq!(state.prepare_run(wrong, 8).unwrap_err(), "nodes must be at least 10,000");
    assert_eq!(state.config.nodes, 1_000_000);
}

#[test]
fn events_change_the_phase_they_speak_of() {
    let mut state = DashboardState::idle(usual(), 8);
    state.apply_progress(ProgressEvent::WorkersStarted(3));
    assert_eq!(state.workers_online, 3);
    state.apply_progress(ProgressEvent::PhaseStarted(Phase::Clustering));
    assert_eq!(state.phases[2].status.name(), "active");
    state.apply_progress(ProgressEvent::PhaseProgress {
        phase: Phase::Clustering,
        progress: Ratio { numerator: 1, denominator: 4 },
        detail: "a quarter".to_owned(),
        elapsed_ms: 12,
    });
    assert_eq!(state.phases[2].detail, "a quarter");
    assert_eq!(state.phases[2].progress, Ratio { numerator: 1, denominator: 4 });
    assert_eq!(state.phases[2].status, PhaseStatus::Active);
    state.apply_progress(ProgressEvent::PhaseCompleted {
        phase: Phase::Clustering,
        elapsed_ms: 40,
    });
    assert_eq!(state.phases[2].status, PhaseStatus::Complete);
    assert_eq!(state.phases[2].elapsed_ms, 40);
    assert_eq!(state.phases[2].detail, "a quarter");
    for other in [0, 1, 3] {
        assert_eq!(state.phases[other].status, PhaseStatus::Pending);
    }
    state.apply_progress(ProgressEvent::Bfs(BfsProgress {
        source_index: 1,
        source_total: 2,
        level: Some(3),
        frontier_by_worker: vec![4],
        visited_nodes: 5,
        total_nodes: 6,
        source_progress: Ratio { numerator: 4, denominator: 5 },
        method: BfsMethod::Traversal,
    }));
    assert_eq!(state.current_bfs.as_ref().unwrap().visited_nodes, 5);
    assert_eq!(method_name(BfsMethod::Traversal), "bfs");
    assert_eq!(method_name(BfsMethod::Ring), "ring");
}

#[test]
fn finished_runs_are_numbered_from_one() {
    let mut state = DashboardState::idle(usual(), 8);
    for id in 1..=3u64 {
        state.prepare_run(usual(), 8).unwrap();
        state.finish_run(usual(), result(10 * id), 1000 + id);
        assert_eq!(state.status, RunStatus::Complete);
        let record = state.history.last().unwrap();
        assert_eq!((record.id, record.finished_at_ms), (id, 1000 + id));
        assert_eq!(record.results.total_distance, 10 * id);
        assert_eq!(record.results.clustering, state.results.as_ref().unwrap().clustering);
    }
    assert_eq!(state.history.len(), 3);
}

#[test]
fn a_failure_is_shown_in_the_phase_under_way() {
    let mut state = DashboardState::idle(usual(), 8);
    state.prepare_run(usual(), 8).unwrap();
    state.apply_progress(ProgressEvent::PhaseCompleted { phase: Phase::Build, elapsed_ms: 1 });
    state.apply_progress(ProgressEvent::PhaseStarted(Phase::Rewire));
    state.fail_run("worker lost".to_owned());
    assert_eq!(state.status.name(), "failed");
    assert_eq!(state.error.as_deref(), Some("worker lost"));
    assert_eq!(state.phases[1].status.name(), "error");
    assert_eq!(state.phases[0].status.name(), "complete");
    assert_eq!(state.workers_online, 0);
    // The next run starts from scratch.
    state.prepare_run(usual(), 8).unwrap();
    assert!(state.error.is_none());
    assert_eq!(state.phases[1].status, PhaseStatus::Pending);
}
