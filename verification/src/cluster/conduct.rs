//! The coordinator's sums, held against what the workers of a cluster answer.

use super::entries::entries;
use super::ring::told_distances;
use super::search::{
    after_level, expansions, level_step, routed, search_at, total_found, total_visited,
};
use super::{cluster, first_of, half, placed, simple};
use crate::coordinator::rewiring::{built_nodes, is_built, is_stats, stats_entries};
use crate::coordinator::search::{
    accepted_found, frontier_size, is_finished, is_ring, level_visited, local_found,
    ring_reachable, ring_sum, ring_visited,
};
use crate::coordinator::{all_are, sum_of};
use crate::protocol::{ClusterConfig, WorkerResponse};
use crate::rows;
use crate::worker::bfs::fresh;
use crate::worker::ring::ring_distance_sum;
use crate::worker::ShardView;
use vstd::prelude::*;

verus! {

/// Each response is what the worker answers when it has built its shard.
pub open spec fn built_by(shards: Seq<ShardView>, responses: Seq<WorkerResponse>) -> bool {
    &&& responses.len() == shards.len()
    &&& forall|t: int|
        0 <= t < responses.len() ==> match #[trigger] responses[t] {
            WorkerResponse::Built { local_nodes, .. } => local_nodes == shards[t].end
                - shards[t].start,
            _ => false,
        }
}

/// Shards that have been built add up to the graph.
pub proof fn lemma_built_sum(
    shards: Seq<ShardView>,
    config: ClusterConfig,
    graph: Seq<Seq<u32>>,
    responses: Seq<WorkerResponse>,
)
    requires
        config.workers > 0,
        cluster(shards, config, graph),
        built_by(shards, responses),
    ensures
        all_are(responses, is_built()),
        sum_of(responses, built_nodes()) == config.nodes,
{
    lemma_built_upto(shards, config, graph, responses, config.workers as int);
    super::lemma_bounds(config, 0);
    assert(responses.take(config.workers as int) =~= responses);
}

proof fn lemma_built_upto(
    shards: Seq<ShardView>,
    config: ClusterConfig,
    graph: Seq<Seq<u32>>,
    responses: Seq<WorkerResponse>,
    count: int,
)
    requires
        config.workers > 0,
        cluster(shards, config, graph),
        built_by(shards, responses),
        0 <= count <= config.workers,
    ensures
        sum_of(responses.take(count), built_nodes()) == first_of(config, count),
    decreases count,
{
    super::lemma_bounds(config, 0);
    if count > 0 {
        lemma_built_upto(shards, config, graph, responses, count - 1);
        super::lemma_bounds(config, count - 1);
        assert(responses.take(count).drop_last() =~= responses.take(count - 1));
        assert(placed(shards[count - 1], config, count - 1));
        assert(responses[count - 1] is Built);
    }
}

/// Each response is what the worker answers when it is asked for its size.
pub open spec fn counted_by(shards: Seq<ShardView>, responses: Seq<WorkerResponse>) -> bool {
    &&& responses.len() == shards.len()
    &&& forall|t: int|
        0 <= t < responses.len() ==> match #[trigger] responses[t] {
            WorkerResponse::GraphStats { adjacency_entries, .. } => adjacency_entries
                == rows::total(shards[t].rows),
            _ => false,
        }
}

/// The entries that the coordinator counts are those that the workers hold.
pub proof fn lemma_stats_sum(shards: Seq<ShardView>, responses: Seq<WorkerResponse>)
    requires
        counted_by(shards, responses),
    ensures
        all_are(responses, is_stats()),
        sum_of(responses, stats_entries()) == entries(shards, shards.len() as int),
{
    lemma_stats_upto(shards, responses, shards.len() as int);
    assert(responses.take(responses.len() as int) =~= responses);
}

proof fn lemma_stats_upto(shards: Seq<ShardView>, responses: Seq<WorkerResponse>, count: int)
    requires
        counted_by(shards, responses),
        0 <= count <= shards.len(),
    ensures
        sum_of(responses.take(count), stats_entries()) == entries(shards, count),
    decreases count,
{
    if count > 0 {
        lemma_stats_upto(shards, responses, count - 1);
        assert(responses.take(count).drop_last() =~= responses.take(count - 1));
        assert(responses[count - 1] is GraphStats);
    }
}

/// Each response is what the worker answers when it is asked for ring distances.
pub open spec fn measured_by(
    shards: Seq<ShardView>,
    config: ClusterConfig,
    source: int,
    responses: Seq<WorkerResponse>,
) -> bool {
    &&& responses.len() == shards.len()
    &&& forall|t: int|
        0 <= t < responses.len() ==> match #[trigger] responses[t] {
            WorkerResponse::RingDistances { distance_sum, reachable, visited } => {
                &&& distance_sum == ring_distance_sum(
                    config.nodes as int,
                    half(config),
                    source,
                    shards[t].start,
                    shards[t].end,
                )
                &&& reachable == shards[t].end - shards[t].start - if shards[t].owns(source) {
                    1int
                } else {
                    0
                }
                &&& visited == shards[t].end - shards[t].start
            },
            _ => false,
        }
}

/// The ring distances that the coordinator sums up are those to every other
/// node, and every node is visited.
pub proof fn lemma_ring_sums(
    shards: Seq<ShardView>,
    config: ClusterConfig,
    graph: Seq<Seq<u32>>,
    source: int,
    responses: Seq<WorkerResponse>,
)
    requires
        config.workers > 0,
        cluster(shards, config, graph),
        0 <= source < config.nodes,
        measured_by(shards, config, source, responses),
    ensures
        all_are(responses, is_ring()),
        sum_of(responses, ring_sum()) == told_distances(config, source, config.workers as int),
        sum_of(responses, ring_reachable()) == config.nodes - 1,
        sum_of(responses, ring_visited()) == config.nodes,
{
    lemma_ring_upto(shards, config, graph, source, responses, config.workers as int);
    super::lemma_bounds(config, 0);
    assert(responses.take(config.workers as int) =~= responses);
}

proof fn lemma_ring_upto(
    shards: Seq<ShardView>,
    config: ClusterConfig,
    graph: Seq<Seq<u32>>,
    source: int,
    responses: Seq<WorkerResponse>,
    count: int,
)
    requires
        config.workers > 0,
        cluster(shards, config, graph),
        0 <= source < config.nodes,
        measured_by(shards, config, source, responses),
        0 <= count <= config.workers,
    ensures
        sum_of(responses.take(count), ring_sum()) == told_distances(config, source, count),
        sum_of(responses.take(count), ring_reachable()) == first_of(config, count) - if source
            < first_of(config, count) {
            1int
        } else {
            0
        },
        sum_of(responses.take(count), ring_visited()) == first_of(config, count),
    decreases count,
{
    super::lemma_bounds(config, 0);
    if count > 0 {
        lemma_ring_upto(shards, config, graph, source, responses, count - 1);
        super::lemma_bounds(config, count - 1);
        assert(responses.take(count).drop_last() =~= responses.take(count - 1));
        assert(placed(shards[count - 1], config, count - 1));
        assert(responses[count - 1] is RingDistances);
    }
}

/// Each response is what the worker answers when it expands its frontier.
pub open spec fn expanded_by(shards: Seq<ShardView>, responses: Seq<WorkerResponse>) -> bool {
    &&& expansions(shards, responses)
    &&& forall|t: int|
        0 <= t < responses.len() ==> match #[trigger] responses[t] {
            WorkerResponse::BfsExpanded { local_discovered, .. } => local_discovered == fresh(
                shards[t].visited_set(),
                shards[t].local_reach(),
            ).len(),
            _ => false,
        }
}

/// Each response is what the worker answers when it is told its route.
pub open spec fn finished_by(
    shards: Seq<ShardView>,
    routes: Seq<Seq<u32>>,
    responses: Seq<WorkerResponse>,
) -> bool {
    &&& responses.len() == shards.len()
    &&& forall|t: int|
        0 <= t < responses.len() ==> match #[trigger] responses[t] {
            WorkerResponse::BfsLevelFinished { accepted, frontier, visited } => {
                let after = level_step(shards[t], routes[t]);
                &&& accepted == fresh(shards[t].expanded().visited_set(), routes[t]).len()
                &&& frontier == after.frontier.len()
                &&& visited == after.visited_count
            },
            _ => false,
        }
}

/// What the coordinator counts on a level is what the workers found on it; the
/// frontiers are as large together, so the search ends just when nothing was
/// found; and the visited nodes are those that the workers count.
pub proof fn lemma_level_sums(
    shards: Seq<ShardView>,
    config: ClusterConfig,
    graph: Seq<Seq<u32>>,
    source: int,
    d: nat,
    routes: Seq<Seq<u32>>,
    expanded: Seq<WorkerResponse>,
    finished: Seq<WorkerResponse>,
)
    requires
        config.workers > 0,
        cluster(shards, config, graph),
        simple(graph),
        search_at(shards, graph, source, d),
        0 <= source < config.nodes,
        routed(shards, routes),
        expanded_by(shards, expanded),
        finished_by(shards, routes, finished),
    ensures
        all_are(finished, is_finished()),
        sum_of(expanded, local_found()) + sum_of(finished, accepted_found()) == total_found(
            shards,
            routes,
            config.workers as int,
        ),
        sum_of(finished, frontier_size()) == total_found(shards, routes, config.workers as int),
        sum_of(finished, level_visited()) == total_visited(
            after_level(shards, routes),
            config.workers as int,
        ),
{
    lemma_level_upto(
        shards,
        config,
        graph,
        source,
        d,
        routes,
        expanded,
        finished,
        config.workers as int,
    );
    assert(expanded.take(config.workers as int) =~= expanded);
    assert(finished.take(config.workers as int) =~= finished);
}

proof fn lemma_level_upto(
    shards: Seq<ShardView>,
    config: ClusterConfig,
    graph: Seq<Seq<u32>>,
    source: int,
    d: nat,
    routes: Seq<Seq<u32>>,
    expanded: Seq<WorkerResponse>,
    finished: Seq<WorkerResponse>,
    count: int,
)
    requires
        config.workers > 0,
        cluster(shards, config, graph),
        simple(graph),
        search_at(shards, graph, source, d),
        0 <= source < config.nodes,
        routed(shards, routes),
        expanded_by(shards, expanded),
        finished_by(shards, routes, finished),
        0 <= count <= config.workers,
    ensures
        sum_of(expanded.take(count), local_found()) + sum_of(
            finished.take(count),
            accepted_found(),
        ) == total_found(shards, routes, count),
        sum_of(finished.take(count), frontier_size()) == total_found(shards, routes, count),
        sum_of(finished.take(count), level_visited()) == total_visited(
            after_level(shards, routes),
            count,
        ),
    decreases count,
{
    if count > 0 {
        let t = count - 1;
        lemma_level_upto(shards, config, graph, source, d, routes, expanded, finished, t);
        super::search::lemma_level_part(shards, config, graph, source, d, routes, t);
        assert(expanded.take(count).drop_last() =~= expanded.take(t));
        assert(finished.take(count).drop_last() =~= finished.take(t));
        assert(expanded[t] is BfsExpanded);
        assert(finished[t] is BfsLevelFinished);
    }
}

/// A worker of a cluster that holds a simple undirected graph can prepare the
/// clustering of its vertices and, once a search has been started, expand its
/// frontier on every level.
pub proof fn lemma_accepts(
    shards: Seq<ShardView>,
    config: ClusterConfig,
    graph: Seq<Seq<u32>>,
    source: int,
    d: nat,
    t: int,
    vertices: Seq<u32>,
)
    requires
        cluster(shards, config, graph),
        simple(graph),
        search_at(shards, graph, source, d),
        0 <= t < config.workers,
    ensures
        shards[t].expandable(),
        shards[t].askable(vertices),
{
    let shard = shards[t];
    assert(placed(shards[t], config, t) && super::holds(shards[t], graph));
    assert(super::search::part_at(shards[t], super::graph_link(graph), source, d));
    super::lemma_bounds(config, t);
    assert forall|u: int, j: int|
        shard.owns(u) && 0 <= j < shard.row(u).len() implies (#[trigger] shard.row(u)[j])
        < config.nodes && (shard.owns(shard.row(u)[j] as int) || shard.row(u)[j]
        < shard.remote.len()) by {
        assert(shard.rows[u - shard.start] == graph[shard.start + (u - shard.start)]);
        assert(super::sound_row(graph, u));
        let v = shard.row(u)[j];
        assert(graph[u].contains(v));
        super::lemma_owner(shard, config, t, v as int);
        super::lemma_bounds(config, 0);
    }
    assert forall|i: int, j: int|
        0 <= i < vertices.len() && shard.owns_all(vertices.take(i + 1)) && 0 <= j && j + 1
            < shard.row(vertices[i] as int).len() implies #[trigger] shard.row(
        vertices[i] as int,
    )[j] < config.nodes by {
        assert(shard.owns(vertices.take(i + 1)[i] as int));
    }
    assert forall|i: int, j: int|
        0 <= i < shard.frontier.len() && 0 <= j < shard.row(
            shard.frontier[i] as int,
        ).len() implies {
        let v = #[trigger] shard.row(shard.frontier[i] as int)[j];
        v < config.nodes && (shard.owns(v as int) || v < shard.remote.len())
    } by {
        assert(shard.frontier.contains(shard.frontier[i]));
    }
}

} // verus!
