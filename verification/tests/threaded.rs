use rand::distributions::Bernoulli;
use rand::SeedableRng;
use rand_chacha::ChaCha8Rng;
use small_world::demo::{accuracy_sources, check_threads, demo_sources};
use small_world::generation::{choose_target, generate_ws_partitioned, owner};
use small_world::graph::{Graph, GraphError, PathEstimate};
use small_world::metrics::{
    average_clustering_parallel, exact_path_length, local_clustering,
    sampled_path_length_parallel, sampled_path_length_sequential, try_bfs_totals,
    try_exact_path_length, try_sampled_path_length_parallel, try_sampled_path_length_sequential,
    LocalClustering,
};
use small_world::probability::Probability;
use small_world::random::{sample_sources, splitmix64};
use std::collections::HashSet;

fn chance(p: f64) -> Probability {
    Probability { bits: p.to_bits(), chance: Bernoulli::new(p).ok() }
}

fn mean_distance(estimate: PathEstimate) -> f64 {
    if estimate.reachable_pairs == 0 {
        0.0
    } else {
        estimate.distance_sum as f64 / estimate.reachable_pairs as f64
    }
}

fn coefficient(clustering: LocalClustering) -> f64 {
    if clustering.degree < 2 {
        0.0
    } else {
        2.0 * clustering.links as f64 / (clustering.degree * (clustering.degree - 1)) as f64
    }
}

fn average(clusterings: &[LocalClustering]) -> f64 {
    clusterings.iter().map(|&clustering| coefficient(clustering)).sum::<f64>()
        / clusterings.len() as f64
}

#[test]
fn batched_generation_is_independent_of_thread_count() {
    let generate = |threads| {
        rayon::ThreadPoolBuilder::new()
            .num_threads(threads)
            .build()
            .unwrap()
            .install(|| generate_ws_partitioned(15_000, 10, chance(0.4), 4, 42).unwrap())
    };
    let (sequential, a) = generate(1);
    let (parallel, b) = generate(4);
    assert_eq!(sequential.adjacency, parallel.adjacency);
    assert_eq!(a.rewired_edges, b.rewired_edges);
    parallel.validate().unwrap();
}

#[test]
fn bfs_handles_disconnected_and_repeated_sources() {
    let graph = Graph {
        adjacency: vec![vec![1], vec![0, 2], vec![1], vec![]],
        edge_count: 2,
    };
    let sources = [0, 3, 1, 0];
    for estimate in [
        sampled_path_length_sequential(&graph, &sources),
        sampled_path_length_parallel(&graph, &sources),
    ] {
        assert_eq!(estimate.reachable_pairs, 6);
        assert_eq!(mean_distance(estimate), 8.0 / 6.0);
    }
    assert_eq!(sampled_path_length_parallel(&graph, &[]).reachable_pairs, 0);
}

#[test]
fn clustering_matches_pairwise_reference_on_irregular_graphs() {
    for (n, k, p) in [(101, 2, 1.0), (200, 30, 0.4), (32, 30, 1.0)] {
        let (graph, _) = generate_ws_partitioned(n, k, chance(p), 3, 17).unwrap();
        graph.validate().unwrap();
        for u in 0..n {
            let neighbors = graph.neighbors(u);
            let links: usize = neighbors
                .iter()
                .enumerate()
                .map(|(i, &v)| {
                    neighbors[i + 1..]
                        .iter()
                        .filter(|&&w| graph.has_edge(v, w))
                        .count()
                })
                .sum();
            let expected = if neighbors.len() < 2 {
                0.0
            } else {
                2.0 * links as f64 / (neighbors.len() * (neighbors.len() - 1)) as f64
            };
            assert_eq!(coefficient(local_clustering(&graph, u)), expected);
        }
    }
}

#[test]
fn rewiring_can_use_the_last_non_neighbor() {
    let adjacency = vec![
        HashSet::from([1, 2]),
        HashSet::new(),
        HashSet::new(),
        HashSet::new(),
    ];
    let mut rng = ChaCha8Rng::seed_from_u64(7);
    assert_eq!(choose_target(&mut rng, 0, 1, &adjacency), Some(3));
    let (graph, stats) = generate_ws_partitioned(4, 2, chance(1.0), 2, 7).unwrap();
    assert!(stats.rewired_edges > 0);
    graph.validate().unwrap();
}

#[test]
fn lib_ring_lattice_matches_stage_one_example() {
    let (graph, stats) = generate_ws_partitioned(20, 4, chance(0.0), 4, 7).unwrap();
    assert_eq!(graph.neighbors(0), &[1, 2, 18, 19]);
    assert_eq!(graph.edge_count(), 40);
    assert_eq!(stats.rewired_edges, 0);
    assert!(graph.validate().is_ok());
}

#[test]
fn lib_rewiring_preserves_simple_undirected_graph() {
    let (graph, stats) = generate_ws_partitioned(500, 10, chance(1.0), 4, 42).unwrap();
    assert_eq!(graph.edge_count(), 2_500);
    assert_eq!(stats.rewired_edges, 2_500);
    assert!(stats.cross_partition_updates > 0);
    assert!(graph.validate().is_ok());
}

#[test]
fn lib_parallel_and_sequential_bfs_agree() {
    let (graph, _) = generate_ws_partitioned(800, 10, chance(0.05), 4, 11).unwrap();
    let sources = sample_sources(800, 40, 12);
    let sequential = sampled_path_length_sequential(&graph, &sources);
    let parallel = sampled_path_length_parallel(&graph, &sources);
    assert_eq!(sequential.reachable_pairs, parallel.reachable_pairs);
    assert_eq!(mean_distance(sequential), mean_distance(parallel));
}

#[test]
fn lib_sampling_is_within_five_percent_on_fixed_small_graph() {
    let (graph, _) = generate_ws_partitioned(400, 10, chance(0.05), 4, 21).unwrap();
    let exact = mean_distance(exact_path_length(&graph));
    let sources = sample_sources(400, 100, 22);
    let approximate = mean_distance(sampled_path_length_sequential(&graph, &sources));
    let relative_error = (approximate - exact).abs() / exact;
    assert!(relative_error < 0.05, "relative error was {relative_error}");
}

#[test]
fn lib_regular_k4_clustering_is_about_one_half() {
    let (graph, _) = generate_ws_partitioned(500, 4, chance(0.0), 2, 1).unwrap();
    let clustering = average(&average_clustering_parallel(&graph));
    assert!((clustering - 0.5).abs() < 1e-12);
}

#[test]
fn each_wrong_argument_has_its_error() {
    let error = |n, k, p, partitions| {
        generate_ws_partitioned(n, k, p, partitions, 1).map(|_| ()).unwrap_err()
    };
    assert_eq!(error(2, 2, chance(0.1), 1), GraphError::InvalidNodeCount);
    for k in [0, 1, 3, 10, 12] {
        assert_eq!(error(10, k, chance(0.1), 1), GraphError::InvalidDegree);
    }
    for p in [-0.1, 1.1, f64::NAN, f64::INFINITY] {
        assert_eq!(error(10, 4, chance(p), 1), GraphError::InvalidProbability);
    }
    assert_eq!(error(10, 4, chance(0.1), 0), GraphError::InvalidPartitionCount);
    // The first of several mistakes is told.
    assert_eq!(error(2, 3, chance(-1.0), 0), GraphError::InvalidNodeCount);
    assert_eq!(error(10, 3, chance(-1.0), 0), GraphError::InvalidDegree);
    assert_eq!(error(10, 4, chance(-1.0), 0), GraphError::InvalidProbability);
    assert_eq!(GraphError::InvalidNodeCount.message(), "N must be at least 3");
    assert_eq!(
        GraphError::InvalidDegree.message(),
        "K must be even and satisfy 2 <= K < N"
    );
    assert_eq!(GraphError::InvalidProbability.message(), "p must be in [0, 1]");
    assert_eq!(
        GraphError::InvalidPartitionCount.message(),
        "partitions must be at least 1"
    );
}

#[test]
fn complete_graphs_keep_every_edge() {
    let (graph, stats) = generate_ws_partitioned(5, 4, chance(1.0), 2, 3).unwrap();
    assert_eq!(stats.rewired_edges, 0);
    assert_eq!(stats.considered_edges, 10);
    assert_eq!(graph.neighbors(2), &[0, 1, 3, 4]);
}

#[test]
fn generation_depends_on_the_seed_and_not_on_the_partitions() {
    let rows = |partitions, seed| {
        generate_ws_partitioned(300, 6, chance(0.3), partitions, seed).unwrap().0.adjacency
    };
    assert_eq!(rows(1, 5), rows(9, 5));
    assert_ne!(rows(1, 5), rows(1, 6));
    let (_, one) = generate_ws_partitioned(300, 6, chance(0.3), 1, 5).unwrap();
    assert_eq!(one.cross_partition_updates, 0);
    assert_eq!(one.partitions, 1);
    assert_eq!(one.considered_edges, 900);
}

#[test]
fn logical_partitions_are_cut_by_multiplication() {
    assert_eq!(owner(0, 10, 4), 0);
    assert_eq!(owner(2, 10, 4), 0);
    assert_eq!(owner(3, 10, 4), 1);
    assert_eq!(owner(9, 10, 4), 3);
    assert_eq!(owner(usize::MAX, 2, 3), usize::MAX / 2);
}

#[test]
fn broken_graphs_are_described() {
    let verdict = |adjacency, edge_count| Graph { adjacency, edge_count }.validate().unwrap_err();
    assert_eq!(
        verdict(vec![vec![2, 1], vec![0], vec![0]], 2),
        "adjacency list 0 is not strictly sorted"
    );
    assert_eq!(
        verdict(vec![vec![1], vec![0, 0]], 1),
        "adjacency list 1 is not strictly sorted"
    );
    assert_eq!(verdict(vec![vec![7], vec![]], 1), "edge (0, 7) has an invalid endpoint");
    assert_eq!(verdict(vec![vec![], vec![1]], 1), "self-loop at node 1");
    assert_eq!(verdict(vec![vec![], vec![0]], 1), "edge (1, 0) is not symmetric");
    let counted = "stored edge count does not match adjacency lists";
    assert_eq!(verdict(vec![vec![1], vec![0]], 2), counted);
    assert_eq!(verdict(Vec::new(), 1), counted);
    assert!(Graph { adjacency: Vec::new(), edge_count: 0 }.validate().is_ok());
}

#[test]
fn a_path_has_known_distances_and_no_triangles() {
    let graph = Graph {
        adjacency: vec![vec![1], vec![0, 2], vec![1, 3], vec![2]],
        edge_count: 3,
    };
    graph.validate().unwrap();
    assert_eq!(try_bfs_totals(&graph, 0), Some((6, 3)));
    assert_eq!(try_exact_path_length(&graph), Some(exact_path_length(&graph)));
    for sources in [&[0, 1, 2, 3][..], &[2, 2][..], &[][..]] {
        let sequential = sampled_path_length_sequential(&graph, sources);
        assert_eq!(try_sampled_path_length_sequential(&graph, sources), Some(sequential));
        assert_eq!(try_sampled_path_length_parallel(&graph, sources), Some(sequential));
    }
    let exact = exact_path_length(&graph);
    assert_eq!((exact.distance_sum, exact.reachable_pairs), (20, 12));
    assert!(average_clustering_parallel(&graph).iter().all(|clustering| clustering.links == 0));
    assert_eq!(graph.degree(1), 2);
    assert_eq!(graph.node_count(), 4);
    assert!(graph.has_edge(2, 3) && !graph.has_edge(0, 2));
    let triangle = Graph { adjacency: vec![vec![1, 2], vec![0, 2], vec![0, 1]], edge_count: 3 };
    assert_eq!(local_clustering(&triangle, 0), LocalClustering { links: 1, degree: 2 });
}

#[test]
fn samples_hold_no_node_twice_and_repeat_with_their_seed() {
    let sample = sample_sources(1000, 250, 77);
    let unique: HashSet<usize> = sample.iter().copied().collect();
    assert_eq!(unique.len(), 250);
    assert!(sample.iter().all(|&node| node < 1000));
    assert_eq!(sample, sample_sources(1000, 250, 77));
    assert_ne!(sample, sample_sources(1000, 250, 78));
    assert_eq!(sample_sources(5, 50, 1).len(), 5);
}

#[test]
fn mixing_matches_the_published_generator() {
    assert_eq!(splitmix64(0), 0xe220_a839_7b1d_cdaf);
    assert_eq!(splitmix64(0x9e37_79b9_7f4a_7c15), 0x6e78_9e6a_a1b9_65f4);
}

#[test]
fn the_comparisons_draw_their_own_sources() {
    assert_eq!(demo_sources(500, 20, 42), sample_sources(500, 20, 42 ^ 0xb5ad_4ece));
    assert_eq!(accuracy_sources(500, 20, 42), sample_sources(500, 20, 42 ^ 0x1d2c_3b4a));
    assert_ne!(demo_sources(500, 20, 42), accuracy_sources(500, 20, 42));
    assert_eq!(check_threads(0).unwrap_err(), "threads must be at least 1");
    assert!(check_threads(1).is_ok());
}

#[test]
fn a_sample_of_everything_leaves_no_node_out() {
    let mut sample = sample_sources(300, 300, 8);
    assert_ne!(sample, (0..300).collect::<Vec<usize>>());
    sample.sort_unstable();
    assert_eq!(sample, (0..300).collect::<Vec<usize>>());
}

#[test]
fn every_node_keeps_half_of_its_degree() {
    for (n, k, p, seed) in [(300, 6, 1.0, 3), (40, 30, 0.7, 4), (500, 2, 1.0, 5)] {
        let (graph, _) = generate_ws_partitioned(n, k, chance(p), 2, seed).unwrap();
        assert!((0..n).all(|u| graph.degree(u) >= k / 2));
        let (_, stats) = generate_ws_partitioned(n, k, chance(p), 1, seed).unwrap();
        assert_eq!(stats.cross_partition_updates, 0);
    }
}
