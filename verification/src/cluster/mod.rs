//! What holds of all workers together.
//!
//! The rows of the workers are pieces of the rows of one graph. Nothing here is
//! executed: these are the laws that the workers' own contracts add up to.

pub mod clustering;
pub mod conduct;
pub mod entries;
pub mod findings;
pub mod flips;
pub mod levels;
pub mod pairs;
pub mod passes;
pub mod replies;
pub mod rewiring;
pub mod ring;
pub mod search;
pub mod tally;
pub mod turns;

use crate::circle;
use crate::partition;
use crate::protocol::ClusterConfig;
use crate::rows;
use crate::sorted;
use crate::worker;
use crate::worker::ShardView;
use vstd::prelude::*;

verus! {

/// The first node of worker `t`.
pub open spec fn first_of(config: ClusterConfig, t: int) -> int {
    partition::shard_start(config.nodes as nat, config.workers as nat, t as nat) as int
}

/// The owner of a node.
pub open spec fn owner(config: ClusterConfig, node: int) -> int {
    partition::owner_of(node, config.nodes as nat, config.workers as nat)
}

/// Half the ring degree.
pub open spec fn half(config: ClusterConfig) -> int {
    (config.degree / 2) as int
}

/// The ring closes and leaves a node out: `2 <= K < N`, with `K` even.
pub open spec fn proper(config: ClusterConfig) -> bool {
    &&& config.workers > 0
    &&& 2 <= config.degree < config.nodes
    &&& config.degree % 2 == 0
}

/// The worker is number `t` of the cluster.
pub open spec fn placed(shard: ShardView, config: ClusterConfig, t: int) -> bool {
    &&& 0 <= t < config.workers
    &&& shard.id == t
    &&& shard.config == Some(config)
    &&& shard.start == first_of(config, t)
    &&& shard.end == first_of(config, t + 1)
}

/// The worker holds its piece of the graph's rows.
pub open spec fn holds(shard: ShardView, graph: Seq<Seq<u32>>) -> bool {
    &&& shard.rows.len() == shard.end - shard.start
    &&& forall|i: int|
        0 <= i < shard.rows.len() ==> #[trigger] shard.rows[i] == graph[shard.start + i]
}

/// The workers are those of the cluster and together hold the graph's rows.
pub open spec fn cluster(
    shards: Seq<ShardView>,
    config: ClusterConfig,
    graph: Seq<Seq<u32>>,
) -> bool {
    &&& shards.len() == config.workers
    &&& graph.len() == config.nodes
    &&& forall|t: int|
        0 <= t < shards.len() ==> placed(#[trigger] shards[t], config, t) && holds(
            shards[t],
            graph,
        )
}

/// The row ascends, holds nodes other than its own, and each of them holds it in turn.
pub open spec fn sound_row(graph: Seq<Seq<u32>>, u: int) -> bool {
    &&& sorted::ascending(graph[u])
    &&& forall|v: u32| #[trigger]
        graph[u].contains(v) ==> v < graph.len() && v != u && graph[v as int].contains(u as u32)
}

/// The rows are those of a simple undirected graph.
pub open spec fn simple(graph: Seq<Seq<u32>>) -> bool {
    &&& graph.len() <= u32::MAX
    &&& forall|u: int| 0 <= u < graph.len() ==> #[trigger] sound_row(graph, u)
}

/// The ring edges from `from` on are all there.
pub open spec fn keeps_edges(graph: Seq<Seq<u32>>, nodes: int, half: int, from: int) -> bool {
    forall|e: int|
        from <= e < nodes * half ==> graph[#[trigger] circle::edge_from(half, e)].contains(
            circle::edge_to(nodes, half, e) as u32,
        )
}

/// The links of the graph.
pub open spec fn graph_link(graph: Seq<Seq<u32>>) -> spec_fn(int, int) -> bool {
    |u: int, v: int|
        0 <= u < graph.len() && 0 <= v <= u32::MAX && graph[u].contains(v as u32)
}

/// The row of `u` in the untouched ring.
pub open spec fn ring_row(nodes: int, half: int, u: int) -> Seq<u32> {
    choose|row: Seq<u32>| worker::is_ring_row(row, nodes, half, u)
}

/// The rows of the untouched ring.
pub open spec fn ring_rows(config: ClusterConfig) -> Seq<Seq<u32>> {
    Seq::new(config.nodes as nat, |u: int| ring_row(config.nodes as int, half(config), u))
}

/// There is a row for every node of the untouched ring.
pub open spec fn holds_ring(config: ClusterConfig) -> bool {
    forall|u: int|
        0 <= u < config.nodes ==> worker::is_ring_row(
            #[trigger] ring_rows(config)[u],
            config.nodes as int,
            half(config),
            u,
        )
}

/// The workers are those of the cluster and have just built their shards.
pub open spec fn built(shards: Seq<ShardView>, config: ClusterConfig) -> bool {
    &&& shards.len() == config.workers
    &&& forall|t: int|
        0 <= t < shards.len() ==> placed(#[trigger] shards[t], config, t)
            && shards[t].rows.len() == shards[t].end - shards[t].start && shards[t].holds_ring()
}

/// The bounds of the workers' ranges.
pub proof fn lemma_bounds(config: ClusterConfig, t: int)
    requires
        0 <= t < config.workers,
    ensures
        first_of(config, 0) == 0,
        first_of(config, config.workers as int) == config.nodes,
        0 <= first_of(config, t) <= first_of(config, t + 1) <= config.nodes,
{
    partition::lemma_shard_bounds(config.nodes as nat, config.workers as nat, t as nat);
}

/// A worker of the cluster owns just the nodes whose owner it is.
pub proof fn lemma_owner(shard: ShardView, config: ClusterConfig, t: int, node: int)
    requires
        placed(shard, config, t),
        0 <= node < config.nodes,
    ensures
        shard.owns(node) <==> owner(config, node) == t,
        0 <= owner(config, node) < config.workers,
{
    partition::lemma_owner_range(node, config.nodes as nat, config.workers as nat, t as nat);
}

/// Every node has one owner, who has its row.
pub proof fn lemma_row(
    shards: Seq<ShardView>,
    config: ClusterConfig,
    graph: Seq<Seq<u32>>,
    node: int,
)
    requires
        cluster(shards, config, graph),
        config.workers > 0,
        0 <= node < config.nodes,
    ensures
        0 <= owner(config, node) < shards.len(),
        shards[owner(config, node)].owns(node),
        shards[owner(config, node)].row(node) == graph[node],
{
    partition::lemma_owner_range(node, config.nodes as nat, config.workers as nat, 0);
    let t = owner(config, node);
    assert(placed(shards[t], config, t));
    lemma_owner(shards[t], config, t, node);
    let shard = shards[t];
    assert(shard.rows[node - shard.start] == graph[shard.start + (node - shard.start)]);
}

/// Workers that have just built their shards hold the rows of the untouched ring.
pub proof fn lemma_built_rows(shards: Seq<ShardView>, config: ClusterConfig)
    requires
        config.workers > 0,
        built(shards, config),
    ensures
        cluster(shards, config, ring_rows(config)),
        holds_ring(config),
{
    let nodes = config.nodes as int;
    let h = half(config);
    let graph = ring_rows(config);
    assert forall|t: int| 0 <= t < shards.len() implies holds(#[trigger] shards[t], graph) by {
        let shard = shards[t];
        assert(placed(shard, config, t));
        lemma_bounds(config, t);
        assert forall|i: int| 0 <= i < shard.rows.len() implies #[trigger] shard.rows[i]
            == graph[shard.start + i] by {
            lemma_ring_row(shard.rows[i], nodes, h, shard.start + i);
        }
    }
    assert forall|u: int| 0 <= u < nodes implies worker::is_ring_row(
        #[trigger] graph[u],
        nodes,
        h,
        u,
    ) by {
        lemma_row(shards, config, graph, u);
        let shard = shards[owner(config, u)];
        assert(shard.holds_ring());
        assert(worker::is_ring_row(shard.rows[u - shard.start], nodes, h, u));
    }
}

/// The untouched ring is a simple undirected graph with all its edges.
pub proof fn lemma_built(shards: Seq<ShardView>, config: ClusterConfig)
    requires
        proper(config),
        built(shards, config),
    ensures
        cluster(shards, config, ring_rows(config)),
        simple(ring_rows(config)),
        keeps_edges(ring_rows(config), config.nodes as int, half(config), 0),
        holds_ring(config),
{
    let nodes = config.nodes as int;
    let h = half(config);
    let graph = ring_rows(config);
    lemma_built_rows(shards, config);
    assert forall|u: int| 0 <= u < nodes implies #[trigger] sound_row(graph, u) by {
        assert(worker::is_ring_row(graph[u], nodes, h, u));
        assert forall|v: u32| #[trigger] graph[u].contains(v) implies v < nodes && v != u
            && graph[v as int].contains(u as u32) by {
            lemma_link_below(nodes, h, u, v as int);
            circle::lemma_ring_link(nodes, h, u, v as int);
            circle::lemma_ring_link(nodes, h, v as int, u);
            assert(worker::is_ring_row(graph[v as int], nodes, h, v as int));
        }
    }
    assert forall|e: int| 0 <= e < nodes * h implies graph[#[trigger] circle::edge_from(
        h,
        e,
    )].contains(circle::edge_to(nodes, h, e) as u32) by {
        circle::lemma_edge(nodes, h, e);
        let u = circle::edge_from(h, e);
        let v = circle::edge_to(nodes, h, e);
        circle::lemma_joined_all(nodes, h, u, v);
        assert(circle::joins(nodes, h, e, u, v));
        assert(worker::is_ring_row(graph[u], nodes, h, u));
    }
}

/// A ring link leads to a node of the ring.
pub proof fn lemma_link_below(nodes: int, half: int, u: int, v: int)
    requires
        0 <= u < nodes,
        0 <= half < nodes,
        circle::ring_link(nodes, half, u, v),
    ensures
        0 <= v < nodes,
{
    let offset = choose|offset: int|
        1 <= offset <= half && #[trigger] circle::ring_apart(nodes, u, v, offset);
    circle::lemma_ring_step(nodes, u, offset);
    circle::lemma_ring_step(nodes, u, nodes - offset);
}

/// A node has one ring row.
pub proof fn lemma_ring_row(row: Seq<u32>, nodes: int, half: int, u: int)
    requires
        worker::is_ring_row(row, nodes, half, u),
    ensures
        row == ring_row(nodes, half, u),
{
    let other = ring_row(nodes, half, u);
    assert(worker::is_ring_row(other, nodes, half, u));
    assert forall|v: u32| row.contains(v) <==> other.contains(v) by {
        assert(row.contains(v) <==> circle::ring_link(nodes, half, u, v as int));
        assert(other.contains(v) <==> circle::ring_link(nodes, half, u, v as int));
    }
    sorted::lemma_ascending_unique(row, other);
}

} // verus!
