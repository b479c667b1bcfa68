use rand::distributions::Bernoulli;
use rand::SeedableRng;
use rand_chacha::ChaCha8Rng;
use small_world::partition::owner;
use small_world::probability::Probability;
use small_world::protocol::{
    ClusterConfig, EdgeQuery, Mutation, WorkerCommand, WorkerResponse, BATCH_ITEM_LIMIT,
    MAX_FRAME_BYTES,
};
use small_world::worker::handle::Job;
use small_world::worker::Worker;

fn chance(p: f64) -> Probability {
    Probability { bits: p.to_bits(), chance: Bernoulli::new(p).ok() }
}

fn build_workers(nodes: u32, degree: u32, count: u32) -> Vec<Worker> {
    (0..count as usize)
        .map(|id| {
            let mut worker = Worker::new(id);
            worker.build(ClusterConfig { nodes, degree, workers: count, seed: 42 }).unwrap();
            worker
        })
        .collect()
}

/// A batch in bytes: tag and target, the number of items, the items.
fn assert_batch_frame(items: usize, item_bytes: usize) {
    assert!((1..=BATCH_ITEM_LIMIT).contains(&items));
    let size = 4 + 4 + 8 + items * item_bytes;
    assert!(size < 1024 * 1024);
    assert!(size < MAX_FRAME_BYTES);
}

fn check_ring_prefix() {
    for nodes in 3..40u32 {
        for degree in (2..nodes).step_by(2) {
            for worker in build_workers(nodes, degree, 4) {
                for source in 0..nodes {
                    let expected: u64 = (worker.start..worker.end)
                        .map(|v| {
                            let d = v.abs_diff(source);
                            u64::from(d.min(nodes - d).div_ceil(degree / 2))
                        })
                        .sum();
                    let WorkerResponse::RingDistances { distance_sum, .. } =
                        worker.ring_distances(source).unwrap()
                    else {
                        panic!()
                    };
                    assert_eq!(distance_sum, expected);
                }
            }
        }
    }
}

#[test]
fn tests_ring_prefix_matches_enumeration_for_every_shard_and_source() {
    check_ring_prefix();
}

#[test]
fn worker_ring_prefix_matches_enumeration_for_every_shard_and_source() {
    check_ring_prefix();
}

fn check_fused_level() {
    let mut workers = build_workers(20, 4, 2);
    let worker = &mut workers[0];
    for _ in 0..2 {
        worker.start_bfs(0).unwrap();
        let WorkerResponse::BfsExpanded { discoveries_by_owner, .. } = worker.expand_bfs().unwrap()
        else {
            panic!()
        };
        assert_eq!(discoveries_by_owner[1].len(), 2);
        let WorkerResponse::BfsExpanded { discoveries_by_owner, .. } = worker.expand_bfs().unwrap()
        else {
            panic!()
        };
        assert!(discoveries_by_owner.iter().all(Vec::is_empty));
        let mut output = Vec::new();
        let response = worker
            .handle(WorkerCommand::FinishBfsLevel(vec![1, 3, 3]), &mut output)
            .unwrap();
        assert!(output.is_empty());
        assert!(matches!(
            response,
            WorkerResponse::BfsLevelFinished { accepted: 1, frontier: 3, visited: 4 }
        ));
    }
    let mut rng = ChaCha8Rng::seed_from_u64(7);
    assert_eq!(worker.choose_target(&mut rng, 0, 1, &vec![1, 2], 4), Some(3));
}

#[test]
fn tests_fused_level_keeps_duplicate_discoveries_and_remote_state_correct() {
    check_fused_level();
}

#[test]
fn worker_fused_level_keeps_duplicate_discoveries_and_remote_state_correct() {
    check_fused_level();
}

fn check_ring_distances_match_bfs() {
    for (nodes, degree, count) in [(19u32, 2, 3), (20, 4, 3), (31, 10, 4), (103, 100, 4)] {
        let mut workers = build_workers(nodes, degree, count);
        for source in [0, nodes / 2, nodes - 1] {
            let expected_distance: u64 = workers
                .iter()
                .map(|worker| {
                    let WorkerResponse::RingDistances { distance_sum, reachable, visited } =
                        worker.ring_distances(source).unwrap()
                    else {
                        panic!("expected ring distances")
                    };
                    assert_eq!(visited, u64::from(worker.end - worker.start));
                    assert_eq!(
                        reachable,
                        visited - u64::from(source >= worker.start && source < worker.end)
                    );
                    distance_sum
                })
                .sum();
            for worker in &mut workers {
                worker.start_bfs(source).unwrap();
            }
            let mut distance_sum = 0u64;
            for level in 1..=nodes {
                let mut routed: Vec<Vec<u32>> = vec![Vec::new(); count as usize];
                let mut discovered = 0u64;
                for worker in &mut workers {
                    let WorkerResponse::BfsExpanded { local_discovered, discoveries_by_owner } =
                        worker.expand_bfs().unwrap()
                    else {
                        panic!("expected expansion")
                    };
                    discovered += local_discovered;
                    for (target, discoveries) in discoveries_by_owner.into_iter().enumerate() {
                        routed[target].extend(discoveries);
                    }
                }
                for (worker, mut discoveries) in workers.iter_mut().zip(routed) {
                    // Duplicated remote messages must not inflate the counter.
                    discoveries.extend(discoveries.clone());
                    let WorkerResponse::DiscoveriesApplied { accepted } =
                        worker.apply_discoveries(discoveries).unwrap()
                    else {
                        panic!("expected discoveries")
                    };
                    discovered += accepted;
                }
                distance_sum += discovered * u64::from(level);
                let mut frontier_total = 0u64;
                let mut visited_total = 0u64;
                for worker in &mut workers {
                    let WorkerResponse::BfsAdvanced { frontier, visited } = worker.advance_bfs()
                    else {
                        panic!("expected frontier")
                    };
                    assert_eq!(
                        visited,
                        worker.visited.iter().filter(|&&value| value).count() as u64
                    );
                    frontier_total += frontier;
                    visited_total += visited;
                }
                if frontier_total == 0 {
                    assert_eq!(visited_total, u64::from(nodes));
                    break;
                }
            }
            assert_eq!(distance_sum, expected_distance);
        }
    }
}

#[test]
fn tests_ring_distances_match_bfs_and_visited_counts_reset_between_sources() {
    check_ring_distances_match_bfs();
}

#[test]
fn worker_ring_distances_match_bfs_and_visited_counts_reset_between_sources() {
    check_ring_distances_match_bfs();
}

#[test]
fn tests_ring_distances_reject_mutated_graphs() {
    let mut workers = build_workers(20, 4, 1);
    workers[0].apply_one_mutation(Mutation { node: 0, other: 1, add: false }).unwrap();
    assert!(workers[0].ring_distances(0).is_err());
}

#[test]
fn worker_ring_distances_reject_mutated_graphs() {
    let mut workers = build_workers(20, 4, 1);
    workers[0].apply_one_mutation(Mutation { node: 0, other: 1, add: false }).unwrap();
    assert!(workers[0].ring_distances(0).is_err());
}

fn check_rewiring_streams() {
    let nodes = 4096u32;
    let degree = 100u32;
    let mut workers = build_workers(nodes, degree, 3);
    let mut batches = 0;
    let mut routed = 0u64;
    let mut total_rewired = 0u64;
    for origin in 0..workers.len() {
        let mut source = workers.remove(origin);
        let expected_considered = u64::from(source.end - source.start) * u64::from(degree / 2);
        let mut pass = source.begin_rewire(chance(1.0), 42).unwrap();
        loop {
            let leg = source.continue_rewire(&mut pass);
            for (target, mutations) in leg.sent {
                assert_ne!(target as usize, origin);
                assert_batch_frame(mutations.len(), 9);
                batches += 1;
                routed += mutations.len() as u64;
                let index = target as usize - usize::from(target as usize > origin);
                workers[index].apply_mutations(mutations).unwrap();
            }
            match leg.outcome.unwrap() {
                None => {}
                Some(WorkerResponse::Rewired { considered, rewired }) => {
                    assert_eq!(considered, expected_considered);
                    total_rewired += rewired;
                    break;
                }
                Some(response) => panic!("unexpected response: {response:?}"),
            }
        }
        workers.insert(origin, source);
    }
    assert!(routed > BATCH_ITEM_LIMIT as u64);
    assert!(batches > workers.len());
    assert_eq!(total_rewired, u64::from(nodes) * u64::from(degree / 2));
    let mut entries = 0u64;
    for worker in &workers {
        for (index, neighbors) in worker.adjacency.iter().enumerate() {
            let u = worker.start + index as u32;
            assert!(neighbors.windows(2).all(|pair| pair[0] < pair[1]));
            entries += neighbors.len() as u64;
            for &v in neighbors {
                assert_ne!(u, v);
                assert!(workers[owner(v, nodes, workers.len() as u32)]
                    .contains_edge(v, u)
                    .unwrap());
            }
        }
    }
    assert_eq!(entries, u64::from(nodes) * u64::from(degree));
}

#[test]
fn tests_rewiring_streams_bounded_mutations_and_preserves_graph() {
    check_rewiring_streams();
}

#[test]
fn worker_rewiring_streams_bounded_mutations_and_preserves_graph() {
    check_rewiring_streams();
}

fn check_clustering_aggregates() {
    let workers = build_workers(512, 100, 3);
    let mut batches = 0;
    let mut remote_queries = 0;
    for source in &workers {
        let vertices: Vec<u32> = (source.start..source.end).collect();
        let mut totals = vec![0u64; vertices.len()];
        let mut pass = source.begin_clustering(vertices).unwrap();
        loop {
            let leg = source.continue_clustering(&mut pass);
            for (target, queries) in leg.sent {
                assert_ne!(target as usize, source.id);
                assert_batch_frame(queries.len(), 12);
                batches += 1;
                remote_queries += queries.len();
                let WorkerResponse::EdgeQueriesResolved { counts } =
                    workers[target as usize].resolve_edge_queries(queries).unwrap()
                else {
                    panic!("unexpected resolution response")
                };
                for (index, count) in counts {
                    totals[index as usize] += count;
                }
            }
            match leg.outcome.unwrap() {
                None => {}
                Some(WorkerResponse::ClusteringPrepared { degrees, local_counts }) => {
                    assert_eq!(degrees, vec![100; totals.len()]);
                    for (total, local) in totals.iter_mut().zip(local_counts) {
                        *total += local;
                    }
                    break;
                }
                Some(response) => panic!("unexpected response: {response:?}"),
            }
        }
        // Ring-lattice K=100 has 3*K*(K-2)/8 neighbor-neighbor links.
        assert!(totals.iter().all(|&count| count == 3675));
    }
    assert!(remote_queries > BATCH_ITEM_LIMIT);
    assert!(batches > workers.len());
}

#[test]
fn tests_clustering_aggregates_bounded_query_batches_across_owners() {
    check_clustering_aggregates();
}

#[test]
fn worker_clustering_aggregates_bounded_query_batches_across_owners() {
    check_clustering_aggregates();
}

fn check_single_worker_clustering() {
    let mut worker = Worker::new(0);
    let mut output = Vec::new();
    let built = worker
        .handle(
            WorkerCommand::Build(ClusterConfig { nodes: 10_000, degree: 100, workers: 1, seed: 42 }),
            &mut output,
        )
        .unwrap();
    assert!(matches!(built, WorkerResponse::Built { .. }));
    // All 49.5 million pairs are resolved locally: only a small summary is sent.
    let response = worker
        .handle(
            WorkerCommand::PrepareClustering { vertices: (0..10_000).collect() },
            &mut output,
        )
        .unwrap();
    assert!(output.is_empty());
    let WorkerResponse::ClusteringPrepared { degrees, local_counts } = response else {
        panic!("expected summary without local query frames")
    };
    assert!(4 + 8 + 4 * degrees.len() + 8 + 8 * local_counts.len() < MAX_FRAME_BYTES);
    assert_eq!(degrees, vec![100; 10_000]);
    assert_eq!(local_counts, vec![3675; 10_000]);
    let stats = worker.handle(WorkerCommand::GraphStats, &mut output).unwrap();
    assert!(matches!(stats, WorkerResponse::GraphStats { adjacency_entries: 1_000_000, .. }));
    let answer = worker.handle(WorkerCommand::Shutdown, &mut output).unwrap();
    assert!(matches!(answer, WorkerResponse::Ack));
    assert!(output.is_empty());
}

#[test]
fn tests_reported_single_worker_clustering_run_fits_and_keeps_stream_open() {
    check_single_worker_clustering();
}

#[test]
fn worker_reported_single_worker_clustering_run_fits_and_keeps_stream_open() {
    check_single_worker_clustering();
}

#[test]
fn a_worker_without_a_shard_says_so() {
    let mut worker = Worker::new(3);
    let text = "worker has not built a shard";
    let mut output = Vec::new();
    assert_eq!(worker.start_bfs(0).unwrap_err(), text);
    assert_eq!(worker.ring_distances(0).unwrap_err(), text);
    assert_eq!(worker.expand_bfs().unwrap_err(), text);
    assert_eq!(worker.rewire(chance(0.5), 1, &mut output).unwrap_err(), text);
    assert_eq!(worker.prepare_clustering(vec![1], &mut output).unwrap_err(), text);
    assert!(worker.begin_rewire(chance(0.5), 1).is_err());
    assert!(worker.begin_clustering(vec![1]).is_err());
    assert!(matches!(
        worker.graph_stats(),
        WorkerResponse::GraphStats { local_nodes: 0, adjacency_entries: 0 }
    ));
}

#[test]
fn a_worker_number_that_fits_no_shard_is_refused() {
    let mut worker = Worker::new(3);
    let text = "invalid worker count or worker id";
    for workers in [0, 1, 3] {
        let config = ClusterConfig { nodes: 20, degree: 4, workers, seed: 1 };
        assert_eq!(worker.build(config).unwrap_err(), text);
    }
    let config = ClusterConfig { nodes: 20, degree: 4, workers: 4, seed: 1 };
    let built = worker.build(config).unwrap();
    assert!(matches!(built, WorkerResponse::Built { local_nodes: 5, adjacency_entries: 20 }));
    assert_eq!(worker.adjacency[4], vec![0, 1, 17, 18]);
    assert_eq!((worker.start, worker.end), (15, 20));
}

#[test]
fn foreign_nodes_are_refused_by_name() {
    let mut workers = build_workers(20, 4, 2);
    let text = "worker 0 does not own node 12 (owns 0..10)";
    assert_eq!(workers[0].contains_edge(12, 1).unwrap_err(), text);
    assert_eq!(workers[0].local_index(12).unwrap_err(), text);
    assert_eq!(workers[0].local_index(9), Ok(9));
    assert_eq!(
        workers[0].apply_one_mutation(Mutation { node: 12, other: 1, add: true }).unwrap_err(),
        text
    );
    let query = EdgeQuery { origin_index: 0, a: 12, b: 1 };
    assert_eq!(workers[0].resolve_edge_queries(vec![query]).unwrap_err(), text);
    let mut output = Vec::new();
    assert_eq!(workers[0].prepare_clustering(vec![0, 12], &mut output).unwrap_err(), text);
    workers[0].start_bfs(0).unwrap();
    assert_eq!(workers[0].apply_discoveries(vec![5, 12, 6]).unwrap_err(), text);
    // The node before the foreign one was marked, the one after it was not.
    assert!(workers[0].visited[5] && !workers[0].visited[6]);
    assert_eq!(workers[0].visited_count, 1);
}

#[test]
fn mutations_that_change_nothing_are_refused() {
    let mut workers = build_workers(20, 4, 2);
    assert_eq!(
        workers[0].apply_one_mutation(Mutation { node: 3, other: 4, add: true }).unwrap_err(),
        "mutation was not applicable: node=3, other=4, add=true"
    );
    assert_eq!(
        workers[0].apply_one_mutation(Mutation { node: 3, other: 9, add: false }).unwrap_err(),
        "mutation was not applicable: node=3, other=9, add=false"
    );
    assert!(workers[0].ring_distances(0).is_ok());
    let applied = workers[0]
        .apply_mutations(vec![
            Mutation { node: 3, other: 4, add: false },
            Mutation { node: 3, other: 9, add: true },
        ])
        .unwrap();
    assert!(matches!(applied, WorkerResponse::MutationsApplied { count: 2 }));
    assert_eq!(workers[0].adjacency[3], vec![1, 2, 5, 9]);
    assert_eq!(
        workers[0].ring_distances(0).unwrap_err(),
        "ring distances require an intact ring and a valid source"
    );
}

#[test]
fn rewiring_an_edge_that_is_gone_fails() {
    let mut workers = build_workers(20, 4, 1);
    workers[0].apply_one_mutation(Mutation { node: 0, other: 1, add: false }).unwrap();
    let mut output = Vec::new();
    let error = workers[0].rewire(chance(1.0), 42, &mut output).unwrap_err();
    assert!(error.starts_with("rewiring invariant failed for (0, 1) -> (0, "));
}

#[test]
fn probability_zero_considers_every_edge_and_touches_none() {
    let mut workers = build_workers(20, 4, 2);
    let mut output = Vec::new();
    for zero in [0.0, -0.0] {
        let answer = workers[1].rewire(chance(zero), 42, &mut output).unwrap();
        assert!(matches!(answer, WorkerResponse::Rewired { considered: 20, rewired: 0 }));
    }
    assert!(output.is_empty());
    assert!(workers[1].ring_distances(3).is_ok());
}

#[test]
fn a_pass_in_legs_does_what_a_whole_pass_does() {
    let mut whole = build_workers(8000, 100, 2);
    let mut legs = build_workers(8000, 100, 2);
    let mut output = Vec::new();
    let answer = whole[0].rewire(chance(0.9), 7, &mut output).unwrap();
    let mut pass = legs[0].begin_rewire(chance(0.9), 7).unwrap();
    let mut sent = Vec::new();
    let mut rounds = 0;
    let summary = loop {
        let leg = legs[0].continue_rewire(&mut pass);
        rounds += 1;
        sent.extend(leg.sent);
        if let Some(summary) = leg.outcome.unwrap() {
            break summary;
        }
    };
    assert!(rounds > 1);
    assert_eq!(whole[0].adjacency, legs[0].adjacency);
    assert_eq!(output.len(), sent.len());
    for (response, (target, batch)) in output.iter().zip(&sent) {
        let WorkerResponse::RewireMutations { target: t, mutations } = response else { panic!() };
        assert_eq!((t, mutations), (target, batch));
    }
    let WorkerResponse::Rewired { rewired: a, .. } = answer else { panic!() };
    let WorkerResponse::Rewired { rewired: b, .. } = summary else { panic!() };
    assert_eq!(a, b);
}

/// Rewires a whole cluster, worker after worker, and counts the rewired edges.
fn rewired_cluster(
    nodes: u32,
    degree: u32,
    count: u32,
    p: f64,
    seed: u64,
) -> (Vec<Vec<u32>>, u64) {
    let mut workers = build_workers(nodes, degree, count);
    let mut total = 0;
    for origin in 0..workers.len() {
        let mut output = Vec::new();
        let summary = workers[origin].rewire(chance(p), seed, &mut output).unwrap();
        let WorkerResponse::Rewired { rewired, .. } = summary else { panic!() };
        total += rewired;
        for response in output {
            let WorkerResponse::RewireMutations { target, mutations } = response else { panic!() };
            workers[target as usize].apply_mutations(mutations).unwrap();
        }
    }
    (workers.into_iter().flat_map(|worker| worker.adjacency).collect(), total)
}

#[test]
fn the_rewired_graph_does_not_depend_on_the_number_of_workers() {
    let alone = rewired_cluster(500, 10, 1, 0.4, 9);
    assert!(alone.0.iter().all(|row| row.len() >= 5));
    for count in [2, 3, 7] {
        assert_eq!(rewired_cluster(500, 10, count, 0.4, 9), alone);
    }
    assert_ne!(rewired_cluster(500, 10, 3, 0.4, 10).0, alone.0);
}

#[test]
fn dense_clusters_rewire_to_the_last_free_node() {
    let (rows, _) = rewired_cluster(12, 10, 3, 1.0, 5);
    for (u, row) in rows.iter().enumerate() {
        assert!(row.windows(2).all(|pair| pair[0] < pair[1]));
        for &v in row {
            assert_ne!(v as usize, u);
            assert!(rows[v as usize].contains(&(u as u32)));
        }
    }
    assert_eq!(rows.iter().map(Vec::len).sum::<usize>(), 120);
}

#[test]
fn answered_queries_are_tallied_by_origin() {
    let workers = build_workers(20, 4, 2);
    let query = |origin_index, a, b| EdgeQuery { origin_index, a, b };
    let WorkerResponse::EdgeQueriesResolved { counts } = workers[0]
        .resolve_edge_queries(vec![
            query(7, 3, 4),
            query(2, 3, 5),
            query(7, 3, 2),
            query(4, 3, 9),
            query(2, 0, 19),
            query(7, 1, 9),
        ])
        .unwrap()
    else {
        panic!()
    };
    assert_eq!(counts, vec![(2, 2), (7, 2)]);
    let WorkerResponse::EdgeQueriesResolved { counts } =
        workers[0].resolve_edge_queries(Vec::new()).unwrap()
    else {
        panic!()
    };
    assert!(counts.is_empty());
}

#[test]
fn requests_that_cannot_be_worked_on_are_told_apart() {
    let mut workers = build_workers(20, 4, 2);
    let worker = &mut workers[0];
    assert!(worker.accepts(&WorkerCommand::ExpandBfs));
    assert!(worker.accepts(&WorkerCommand::Rewire { probability: chance(0.5), seed: 1 }));
    let broken = Probability { bits: 2.0f64.to_bits(), chance: None };
    assert!(!worker.accepts(&WorkerCommand::Rewire { probability: broken, seed: 1 }));
    assert!(!worker.accepts(&WorkerCommand::Build(ClusterConfig {
        nodes: 20,
        degree: 200,
        workers: 2,
        seed: 1
    })));
    worker.apply_one_mutation(Mutation { node: 0, other: 77, add: true }).unwrap();
    worker.apply_one_mutation(Mutation { node: 0, other: 78, add: true }).unwrap();
    assert!(!worker.accepts(&WorkerCommand::PrepareClustering { vertices: vec![0] }));
    assert!(worker.accepts(&WorkerCommand::PrepareClustering { vertices: vec![1] }));
    worker.start_bfs(0).unwrap();
    assert!(!worker.accepts(&WorkerCommand::ExpandBfs));
}

#[test]
fn remote_nodes_are_reported_once_and_again_for_the_next_source() {
    let mut workers = build_workers(200, 4, 2);
    for source in [99, 98] {
        workers[0].start_bfs(source).unwrap();
        let mut reported = Vec::new();
        for _ in 0..3 {
            let WorkerResponse::BfsExpanded { discoveries_by_owner, .. } =
                workers[0].expand_bfs().unwrap()
            else {
                panic!()
            };
            assert!(discoveries_by_owner[0].is_empty());
            reported.extend(discoveries_by_owner[1].clone());
            workers[0].advance_bfs();
        }
        let mut unique = reported.clone();
        unique.sort_unstable();
        unique.dedup();
        assert_eq!(unique.len(), reported.len());
        assert!(reported.contains(&100));
    }
}

/// Takes a request to its answer, with everything sent on the way.
fn work(worker: &mut Worker, command: WorkerCommand) -> (Vec<WorkerResponse>, WorkerResponse) {
    let mut sent = Vec::new();
    let mut job = worker.begin(command);
    loop {
        let (frames, next) = worker.advance(job);
        sent.extend(frames);
        match next {
            Job::Answered(response) => return (sent, response),
            unfinished => job = unfinished,
        }
    }
}

#[test]
fn a_job_sends_its_batches_before_its_answer() {
    let mut workers = build_workers(600, 10, 3);
    let (sent, answer) = work(
        &mut workers[1],
        WorkerCommand::Rewire { probability: chance(0.5), seed: 3 },
    );
    assert_eq!(sent.len(), 2);
    assert!(matches!(sent[0], WorkerResponse::RewireMutations { target: 0, .. }));
    assert!(matches!(sent[1], WorkerResponse::RewireMutations { target: 2, .. }));
    assert!(matches!(answer, WorkerResponse::Rewired { considered: 1000, .. }));
    let (sent, answer) = work(
        &mut workers[2],
        WorkerCommand::PrepareClustering { vertices: vec![400, 599] },
    );
    assert!(sent.iter().all(|frame| matches!(frame, WorkerResponse::ClusteringQueries { .. })));
    assert!(matches!(answer, WorkerResponse::ClusteringPrepared { .. }));
    let (sent, answer) = work(&mut workers[0], WorkerCommand::Shutdown);
    assert!(sent.is_empty());
    assert!(matches!(answer, WorkerResponse::Ack));
}

#[test]
fn errors_are_answered_as_responses() {
    let mut worker = Worker::new(0);
    for command in [
        WorkerCommand::Rewire { probability: chance(0.5), seed: 3 },
        WorkerCommand::PrepareClustering { vertices: vec![1] },
        WorkerCommand::ExpandBfs,
    ] {
        let (sent, answer) = work(&mut worker, command);
        assert!(sent.is_empty());
        let WorkerResponse::Error(message) = answer else { panic!() };
        assert_eq!(message, "worker has not built a shard");
    }
    let mut workers = build_workers(20, 4, 2);
    let (_, answer) =
        work(&mut workers[0], WorkerCommand::PrepareClustering { vertices: vec![3, 15] });
    let WorkerResponse::Error(message) = answer else { panic!() };
    assert_eq!(message, "worker 0 does not own node 15 (owns 0..10)");
}

#[test]
fn questions_go_in_batches_to_the_owners_of_their_rows() {
    let workers = build_workers(90, 8, 3);
    let vertices: Vec<u32> = (30..60).collect();
    let mut output = Vec::new();
    let summary = workers[1].prepare_clustering(vertices, &mut output).unwrap();
    let WorkerResponse::ClusteringPrepared { local_counts, .. } = summary else { panic!() };
    let mut links = local_counts;
    for frame in output {
        let WorkerResponse::ClusteringQueries { target, queries } = frame else { panic!() };
        assert!((1..=BATCH_ITEM_LIMIT).contains(&queries.len()));
        assert!(queries.iter().all(|query| owner(query.a, 90, 3) == target as usize));
        let answer = workers[target as usize].resolve_edge_queries(queries).unwrap();
        let WorkerResponse::EdgeQueriesResolved { counts } = answer else { panic!() };
        for (origin, count) in counts {
            links[origin as usize] += count;
        }
    }
    assert_eq!(links, vec![18; 30]);
}

#[test]
fn a_ring_stays_refused_after_a_change_is_undone_until_it_is_built_again() {
    let mut workers = build_workers(20, 4, 1);
    let worker = &mut workers[0];
    assert!(worker.ring_distances(0).is_ok());
    for add in [false, true] {
        worker.apply_one_mutation(Mutation { node: 3, other: 4, add }).unwrap();
        assert!(worker.ring_distances(0).is_err());
    }
    assert_eq!(worker.adjacency, build_workers(20, 4, 1)[0].adjacency);
    worker.build(ClusterConfig { nodes: 20, degree: 4, workers: 1, seed: 1 }).unwrap();
    assert!(worker.ring_distances(0).is_ok());
    assert!(worker.ring_distances(20).is_err());
}

#[test]
fn a_search_forgets_the_one_before() {
    let mut used = build_workers(60, 4, 2);
    let mut fresh = build_workers(60, 4, 2);
    used[0].start_bfs(29).unwrap();
    for _ in 0..4 {
        used[0].expand_bfs().unwrap();
        used[0].advance_bfs();
    }
    for worker in [&mut used[0], &mut fresh[0]] {
        worker.start_bfs(28).unwrap();
    }
    for _ in 0..6 {
        for command in [
            WorkerCommand::ExpandBfs,
            WorkerCommand::ApplyDiscoveries(vec![0, 5, 5]),
            WorkerCommand::AdvanceBfs,
        ] {
            let answer = |worker: &mut Worker| {
                format!("{:?}", worker.handle(command.clone(), &mut Vec::new()))
            };
            assert_eq!(answer(&mut used[0]), answer(&mut fresh[0]));
        }
    }
}

#[test]
fn an_advance_tells_what_was_first_marked_since_the_last() {
    let mut workers = build_workers(40, 4, 1);
    let worker = &mut workers[0];
    worker.start_bfs(10).unwrap();
    worker.expand_bfs().unwrap();
    worker.apply_discoveries(vec![30, 30, 11]).unwrap();
    // Nodes 8, 9, 11 and 12 by expansion, and node 30; the source is not among them.
    let first = worker.advance_bfs();
    assert!(matches!(first, WorkerResponse::BfsAdvanced { frontier: 5, visited: 6 }));
    let second = worker.advance_bfs();
    assert!(matches!(second, WorkerResponse::BfsAdvanced { frontier: 0, visited: 6 }));
}

#[test]
fn only_vertices_before_the_first_foreign_one_need_sound_rows() {
    let mut workers = build_workers(20, 4, 2);
    let worker = &mut workers[0];
    for other in [77, 78] {
        worker.apply_one_mutation(Mutation { node: 5, other, add: true }).unwrap();
    }
    let vertices = vec![1, 15, 5];
    assert!(worker.accepts(&WorkerCommand::PrepareClustering { vertices: vertices.clone() }));
    assert_eq!(
        worker.prepare_clustering(vertices, &mut Vec::new()).unwrap_err(),
        "worker 0 does not own node 15 (owns 0..10)"
    );
    assert!(!worker.accepts(&WorkerCommand::PrepareClustering { vertices: vec![1, 5, 15] }));
}
