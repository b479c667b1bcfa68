//! Distances on the untouched ring.

use super::{first_of, graph_link, half, proper, ring_rows};
use crate::circle;
use crate::distance;
use crate::protocol::ClusterConfig;
use crate::worker::ring::{ring_distance, ring_distance_sum};
use crate::worker;
use vstd::prelude::*;

verus! {

/// The links are those of the ring.
pub open spec fn is_ring(link: spec_fn(int, int) -> bool, nodes: int, half: int) -> bool {
    forall|x: int, y: int| #[trigger]
        link(x, y) <==> 0 <= x < nodes && 0 <= y < nodes && circle::ring_link(nodes, half, x, y)
}

/// `d` steps reach just the nodes at most `d * half` ring steps away.
proof fn lemma_ring_within(
    link: spec_fn(int, int) -> bool,
    nodes: int,
    half: int,
    s: int,
    v: int,
    d: nat,
)
    requires
        is_ring(link, nodes, half),
        0 < half,
        2 * half < nodes,
        0 <= s < nodes,
    ensures
        distance::within(link, s, v, d) <==> 0 <= v < nodes && circle::cyclic(nodes, s, v) <= d
            * half,
    decreases d,
{
    if d == 0 {
        assert(d * half == 0) by (nonlinear_arith)
            requires
                d == 0,
        ;
    } else {
        let e = (d - 1) as nat;
        assert(d * half == e * half + half) by (nonlinear_arith)
            requires
                d == e + 1,
        ;
        lemma_ring_within(link, nodes, half, s, v, e);
        assert(e * half >= 0) by (nonlinear_arith)
            requires
                half > 0,
        ;
        if distance::within(link, s, v, d) && !distance::within(link, s, v, e) {
            let u = distance::lemma_within_split(link, s, v, e);
            lemma_ring_within(link, nodes, half, s, u, e);
            assert(link(u, v));
            circle::lemma_ring_link(nodes, half, u, v);
        }
        if 0 <= v < nodes && circle::cyclic(nodes, s, v) <= d * half && !distance::within(
            link,
            s,
            v,
            e,
        ) {
            let c = circle::cyclic(nodes, s, v);
            let back = if c <= half {
                c
            } else {
                half
            };
            // The node `back` steps before `v` on the shorter way from `s`.
            let forward = v == s + c || v == s + c - nodes;
            let u = if forward {
                if v >= back {
                    v - back
                } else {
                    v - back + nodes
                }
            } else {
                if v + back < nodes {
                    v + back
                } else {
                    v + back - nodes
                }
            };
            assert(circle::cyclic(nodes, s, u) == c - back);
            assert(circle::cyclic(nodes, u, v) == back);
            lemma_ring_within(link, nodes, half, s, u, e);
            circle::lemma_ring_link(nodes, half, u, v);
            assert(link(u, v));
            distance::lemma_within_step(link, s, u, v, e);
        }
    }
}

/// The formula gives the distance on the ring: the ring steps the shorter way
/// around, `half` at a time.
pub proof fn lemma_ring_distance(
    link: spec_fn(int, int) -> bool,
    nodes: int,
    half: int,
    s: int,
    v: int,
)
    requires
        is_ring(link, nodes, half),
        0 < half,
        2 * half < nodes,
        0 <= s < nodes,
        0 <= v < nodes,
    ensures
        ring_distance(nodes, half, s, v) >= 0,
        distance::at_distance(link, s, v, ring_distance(nodes, half, s, v) as nat),
        distance::distance(link, s, v) == ring_distance(nodes, half, s, v),
        distance::reachable(link, s, v),
{
    let c = circle::cyclic(nodes, s, v);
    let d = ring_distance(nodes, half, s, v);
    let top = c + half - 1;
    vstd::arithmetic::div_mod::lemma_fundamental_div_mod(top, half);
    vstd::arithmetic::div_mod::lemma_div_pos_is_pos(top, half);
    assert(half * d == d * half) by (nonlinear_arith);
    lemma_ring_within(link, nodes, half, s, v, d as nat);
    if d > 0 {
        lemma_ring_within(link, nodes, half, s, v, (d - 1) as nat);
        assert((d - 1) * half == d * half - half) by (nonlinear_arith);
    }
    distance::lemma_distance_unique(link, s, v, d as nat);
}

/// The formula sums up the distances from a node of the ring, and every other
/// node is reached.
pub proof fn lemma_ring_sum(
    link: spec_fn(int, int) -> bool,
    nodes: int,
    half: int,
    s: int,
    upto: nat,
)
    requires
        is_ring(link, nodes, half),
        0 < half,
        2 * half < nodes,
        0 <= s < nodes,
        upto <= nodes,
    ensures
        ring_distance_sum(nodes, half, s, 0, upto as int) == distance::distance_sum(
            link,
            s,
            upto,
        ),
        distance::reach_count(link, s, upto) == upto - if s < upto {
            1int
        } else {
            0
        },
    decreases upto,
{
    if upto > 0 {
        lemma_ring_sum(link, nodes, half, s, (upto - 1) as nat);
        lemma_ring_distance(link, nodes, half, s, upto - 1);
    }
}

/// The rows of the ring have the ring's links.
pub proof fn lemma_ring_links(config: ClusterConfig)
    requires
        proper(config),
        super::holds_ring(config),
    ensures
        is_ring(graph_link(ring_rows(config)), config.nodes as int, half(config)),
{
    let nodes = config.nodes as int;
    let h = half(config);
    let graph = ring_rows(config);
    let link = graph_link(graph);
    assert forall|x: int, y: int| #[trigger] link(x, y) <==> 0 <= x < nodes && 0 <= y < nodes
        && circle::ring_link(nodes, h, x, y) by {
        if 0 <= x < nodes {
            assert(worker::is_ring_row(graph[x], nodes, h, x));
            if 0 <= y <= u32::MAX {
                assert(graph[x].contains(y as u32) <==> circle::ring_link(nodes, h, x, y));
                if circle::ring_link(nodes, h, x, y) {
                    super::lemma_link_below(nodes, h, x, y);
                }
            }
        }
    }
}

/// The distances that the first `count` workers tell by formula.
pub open spec fn told_distances(config: ClusterConfig, source: int, count: int) -> int
    decreases count,
{
    if count <= 0 {
        0
    } else {
        told_distances(config, source, count - 1) + ring_distance_sum(
            config.nodes as int,
            half(config),
            source,
            first_of(config, count - 1),
            first_of(config, count),
        )
    }
}

proof fn lemma_told_distances(config: ClusterConfig, source: int, count: int)
    requires
        config.workers > 0,
        0 <= count <= config.workers,
    ensures
        told_distances(config, source, count) == ring_distance_sum(
            config.nodes as int,
            half(config),
            source,
            0,
            first_of(config, count),
        ),
    decreases count,
{
    super::lemma_bounds(config, 0);
    if count > 0 {
        lemma_told_distances(config, source, count - 1);
        super::lemma_bounds(config, count - 1);
        worker::ring::lemma_sum_split(
            config.nodes as int,
            half(config),
            source,
            0,
            first_of(config, count - 1),
            first_of(config, count),
        );
    }
}

/// What the workers tell by formula sums up to what a search of the ring would
/// find, and the search would reach every node.
pub proof fn lemma_ring_search(config: ClusterConfig, source: int)
    requires
        proper(config),
        0 <= source < config.nodes,
        super::holds_ring(config),
    ensures
        told_distances(config, source, config.workers as int) == distance::distance_sum(
            graph_link(ring_rows(config)),
            source,
            config.nodes as nat,
        ),
        distance::reach_count(
            graph_link(ring_rows(config)),
            source,
            config.nodes as nat,
        ) == config.nodes - 1,
{
    lemma_ring_links(config);
    lemma_told_distances(config, source, config.workers as int);
    super::lemma_bounds(config, 0);
    lemma_ring_sum(
        graph_link(ring_rows(config)),
        config.nodes as int,
        half(config),
        source,
        config.nodes as nat,
    );
}

} // verus!
