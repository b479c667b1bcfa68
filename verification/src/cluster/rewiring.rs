//! Rewiring one graph, edge by edge.

use super::{half, keeps_edges, proper, simple, sound_row};
use crate::circle;
use crate::ends;
use crate::protocol::ClusterConfig;
use crate::random;
use crate::rows;
use crate::sorted;
use crate::worker;
use rand::distributions::Bernoulli;
use vstd::prelude::*;

verus! {

/// The node that ring edge `e` starts in.
pub open spec fn from_node(config: ClusterConfig, e: int) -> u32 {
    circle::edge_from(super::half(config), e) as u32
}

/// The node that ring edge `e` led to.
pub open spec fn to_node(config: ClusterConfig, e: int) -> u32 {
    circle::edge_to(config.nodes as int, super::half(config), e) as u32
}

/// The new end of edge `e`, if the draw says that it gets one.
pub open spec fn choice(
    graph: Seq<Seq<u32>>,
    config: ClusterConfig,
    chance: Bernoulli,
    seed: u64,
    e: int,
) -> Option<u32> {
    let u = from_node(config, e);
    let (heads, rng) = random::coin(
        random::seeded(random::mixed(seed ^ (e as u64))),
        chance,
    );
    if heads {
        worker::rewire::target_choice(
            rng,
            u,
            to_node(config, e),
            graph[u as int],
            config.nodes,
        ).0
    } else {
        None
    }
}

/// The rows once the edge between `u` and `v` leads from `u` to `w` instead.
pub open spec fn redirected(graph: Seq<Seq<u32>>, u: u32, v: u32, w: u32) -> Seq<Seq<u32>> {
    let changed = graph.update(
        u as int,
        sorted::with_node(sorted::without_node(graph[u as int], v), w),
    );
    let released = changed.update(v as int, sorted::without_node(changed[v as int], u));
    released.update(w as int, sorted::with_node(released[w as int], u))
}

/// The rows once edge `e` has been considered.
pub open spec fn considered(
    graph: Seq<Seq<u32>>,
    config: ClusterConfig,
    chance: Bernoulli,
    seed: u64,
    e: int,
) -> Seq<Seq<u32>> {
    match choice(graph, config, chance, seed, e) {
        None => graph,
        Some(w) => redirected(graph, from_node(config, e), to_node(config, e), w),
    }
}

/// The rows once the edges `from..to` have been considered, one after the other.
pub open spec fn rewired(
    graph: Seq<Seq<u32>>,
    config: ClusterConfig,
    chance: Bernoulli,
    seed: u64,
    from: int,
    to: int,
) -> Seq<Seq<u32>>
    decreases to - from,
{
    if from >= to {
        graph
    } else {
        considered(rewired(graph, config, chance, seed, from, to - 1), config, chance, seed, to - 1)
    }
}

/// Rewiring in two parts is rewiring in one go.
pub proof fn lemma_rewired_sum(
    graph: Seq<Seq<u32>>,
    config: ClusterConfig,
    chance: Bernoulli,
    seed: u64,
    from: int,
    middle: int,
    to: int,
)
    requires
        from <= middle <= to,
    ensures
        rewired(
            rewired(graph, config, chance, seed, from, middle),
            config,
            chance,
            seed,
            middle,
            to,
        ) == rewired(graph, config, chance, seed, from, to),
    decreases to - middle,
{
    if middle < to {
        lemma_rewired_sum(graph, config, chance, seed, from, middle, to - 1);
    }
}

/// The rows that an edge touches, and what each of them holds.
pub proof fn lemma_redirected(
    graph: Seq<Seq<u32>>,
    config: ClusterConfig,
    e: int,
    w: u32,
)
    requires
        proper(config),
        graph.len() == config.nodes,
        simple(graph),
        0 <= e < config.nodes * half(config),
        keeps_edges(graph, config.nodes as int, half(config), e),
        worker::rewire::eligible(
            w,
            from_node(config, e),
            to_node(config, e),
            graph[from_node(config, e) as int],
            config.nodes,
        ),
    ensures
        ({
            let u = from_node(config, e);
            let v = to_node(config, e);
            let after = redirected(graph, u, v, w);
            &&& u == circle::edge_from(half(config), e)
            &&& v == circle::edge_to(config.nodes as int, half(config), e)
            &&& u < config.nodes
            &&& v < config.nodes
            &&& u != v
            &&& u != w
            &&& v != w
            &&& graph[u as int].contains(v)
            &&& graph[v as int].contains(u)
            &&& !graph[w as int].contains(u)
            &&& after.len() == graph.len()
            &&& simple(after)
            &&& keeps_edges(after, config.nodes as int, half(config), e + 1)
            &&& rows::total(after) == rows::total(graph)
            &&& forall|x: int, y: u32|
                0 <= x < graph.len() ==> (#[trigger] after[x].contains(y) <==> (
                graph[x].contains(y) && !(x == u && y == v) && !(x == v && y == u)) || (x == u && y
                    == w) || (x == w && y == u))
        }),
{
    let nodes = config.nodes as int;
    let h = half(config);
    circle::lemma_edge(nodes, h, e);
    let u = from_node(config, e);
    let v = to_node(config, e);
    assert(graph[circle::edge_from(h, e)].contains(v));
    assert(sound_row(graph, u as int));
    assert(sound_row(graph, v as int));
    assert(sound_row(graph, w as int));
    let row = graph[u as int];
    let kept = sorted::without_node(row, v);
    let changed = graph.update(u as int, sorted::with_node(kept, w));
    let released = changed.update(v as int, sorted::without_node(graph[v as int], u));
    let after = released.update(w as int, sorted::with_node(graph[w as int], u));
    assert(after == redirected(graph, u, v, w));
    assert(!graph[w as int].contains(u)) by {
        if graph[w as int].contains(u) {
            assert(graph[u as int].contains(w));
        }
    }
    sorted::lemma_without_node(row, v);
    sorted::lemma_with_node(kept, w);
    sorted::lemma_without_node(graph[v as int], u);
    sorted::lemma_with_node(graph[w as int], u);
    rows::lemma_total_update(graph, u as int, sorted::with_node(kept, w));
    rows::lemma_total_update(changed, v as int, sorted::without_node(graph[v as int], u));
    rows::lemma_total_update(released, w as int, sorted::with_node(graph[w as int], u));
    assert forall|x: int, y: u32| 0 <= x < nodes implies (#[trigger] after[x].contains(y) <==> (
    graph[x].contains(y) && !(x == u && y == v) && !(x == v && y == u)) || (x == u && y == w) || (x
        == w && y == u)) by {
        if x == u {
            assert(sorted::with_node(kept, w).contains(y) <==> y == w || kept.contains(y));
            assert(kept.contains(y) <==> y != v && row.contains(y));
        } else if x == v {
            assert(sorted::without_node(graph[v as int], u).contains(y) <==> y != u
                && graph[v as int].contains(y));
        } else if x == w {
            assert(sorted::with_node(graph[w as int], u).contains(y) <==> y == u
                || graph[w as int].contains(y));
        }
    }
    assert forall|x: int| 0 <= x < nodes implies #[trigger] sound_row(after, x) by {
        assert(sound_row(graph, x));
        assert forall|y: u32| #[trigger] after[x].contains(y) implies y < nodes && y != x
            && after[y as int].contains(x as u32) by {
            if !(x == u && y == w) && !(x == w && y == u) {
                assert(graph[x].contains(y));
                assert(graph[y as int].contains(x as u32));
            }
            assert(after[y as int].contains(x as u32) <==> (graph[y as int].contains(x as u32)
                && !(y == u && x == v) && !(y == v && x == u)) || (y == u && x == w) || (y == w && x
                == u));
        }
    }
    assert forall|i: int| e + 1 <= i < nodes * h implies after[#[trigger] circle::edge_from(
        h,
        i,
    )].contains(circle::edge_to(nodes, h, i) as u32) by {
        circle::lemma_edge(nodes, h, i);
        circle::lemma_edges_distinct(nodes, h, e, i);
        let a = circle::edge_from(h, i);
        let b = circle::edge_to(nodes, h, i);
        assert(graph[a].contains(b as u32));
        assert(!circle::joins(nodes, h, e, a, b));
        assert(after[a].contains(b as u32));
    }
}

/// Considering an edge leaves a simple undirected graph with as many entries,
/// and every later edge of the ring where it is.
pub proof fn lemma_considered(
    graph: Seq<Seq<u32>>,
    config: ClusterConfig,
    chance: Bernoulli,
    seed: u64,
    e: int,
)
    requires
        proper(config),
        graph.len() == config.nodes,
        simple(graph),
        0 <= e < config.nodes * half(config),
        keeps_edges(graph, config.nodes as int, half(config), e),
    ensures
        ({
            let after = considered(graph, config, chance, seed, e);
            &&& after.len() == graph.len()
            &&& simple(after)
            &&& keeps_edges(after, config.nodes as int, half(config), e + 1)
            &&& rows::total(after) == rows::total(graph)
        }),
        choice(graph, config, chance, seed, e) is Some ==> worker::rewire::eligible(
            choice(graph, config, chance, seed, e)->Some_0,
            from_node(config, e),
            to_node(config, e),
            graph[from_node(config, e) as int],
            config.nodes,
        ),
{
    let u = from_node(config, e);
    let v = to_node(config, e);
    let (heads, rng) = random::coin(
        random::seeded(random::mixed(seed ^ (e as u64))),
        chance,
    );
    worker::rewire::lemma_target_choice(rng, u, v, graph[u as int], config.nodes);
    match choice(graph, config, chance, seed, e) {
        None => {},
        Some(w) => {
            lemma_redirected(graph, config, e, w);
        },
    }
}

/// Rewiring leaves a simple undirected graph with as many edges as the ring had.
pub proof fn lemma_rewired(
    graph: Seq<Seq<u32>>,
    config: ClusterConfig,
    chance: Bernoulli,
    seed: u64,
    from: int,
    to: int,
)
    requires
        proper(config),
        graph.len() == config.nodes,
        simple(graph),
        0 <= from <= to <= config.nodes * half(config),
        keeps_edges(graph, config.nodes as int, half(config), from),
    ensures
        ({
            let after = rewired(graph, config, chance, seed, from, to);
            &&& after.len() == graph.len()
            &&& simple(after)
            &&& keeps_edges(after, config.nodes as int, half(config), to)
            &&& rows::total(after) == rows::total(graph)
        }),
    decreases to - from,
{
    if from < to {
        lemma_rewired(graph, config, chance, seed, from, to - 1);
        lemma_considered(
            rewired(graph, config, chance, seed, from, to - 1),
            config,
            chance,
            seed,
            to - 1,
        );
    }
}

/// How many of the edges `from..to` get a new end, considered one after the other.
pub open spec fn picks(
    graph: Seq<Seq<u32>>,
    config: ClusterConfig,
    chance: Bernoulli,
    seed: u64,
    from: int,
    to: int,
) -> nat
    decreases to - from,
{
    if from >= to {
        0
    } else {
        let now = rewired(graph, config, chance, seed, from, to - 1);
        picks(graph, config, chance, seed, from, to - 1) + if choice(
            now,
            config,
            chance,
            seed,
            to - 1,
        ) is Some {
            1nat
        } else {
            0
        }
    }
}

/// Edges counted in two parts.
pub proof fn lemma_picks_sum(
    graph: Seq<Seq<u32>>,
    config: ClusterConfig,
    chance: Bernoulli,
    seed: u64,
    from: int,
    middle: int,
    to: int,
)
    requires
        from <= middle <= to,
    ensures
        picks(graph, config, chance, seed, from, to) == picks(
            graph,
            config,
            chance,
            seed,
            from,
            middle,
        ) + picks(
            rewired(graph, config, chance, seed, from, middle),
            config,
            chance,
            seed,
            middle,
            to,
        ),
    decreases to - middle,
{
    if middle < to {
        lemma_picks_sum(graph, config, chance, seed, from, middle, to - 1);
        lemma_rewired_sum(graph, config, chance, seed, from, middle, to - 1);
    }
}

/// Rewiring depends on the nodes and the degree of the ring, not on how the
/// nodes are split over workers.
pub proof fn lemma_split_apart(
    graph: Seq<Seq<u32>>,
    a: ClusterConfig,
    b: ClusterConfig,
    chance: Bernoulli,
    seed: u64,
    from: int,
    to: int,
)
    requires
        a.nodes == b.nodes,
        a.degree == b.degree,
    ensures
        rewired(graph, a, chance, seed, from, to) == rewired(graph, b, chance, seed, from, to),
        picks(graph, a, chance, seed, from, to) == picks(graph, b, chance, seed, from, to),
    decreases to - from,
{
    if from < to {
        lemma_split_apart(graph, a, b, chance, seed, from, to - 1);
    }
}

proof fn lemma_rewired_ends(
    config: ClusterConfig,
    chance: Bernoulli,
    seed: u64,
    to: int,
) -> (own: Seq<Set<int>>)
    requires
        proper(config),
        super::holds_ring(config),
        simple(super::ring_rows(config)),
        keeps_edges(super::ring_rows(config), config.nodes as int, half(config), 0),
        0 <= to <= config.nodes * half(config),
    ensures
        ends::keeps_ends(
            super::graph_link(rewired(super::ring_rows(config), config, chance, seed, 0, to)),
            own,
            config.nodes as int,
            half(config),
            to,
        ),
    decreases to,
{
    let nodes = config.nodes as int;
    let h = half(config);
    let ring = super::ring_rows(config);
    let after = rewired(ring, config, chance, seed, 0, to);
    let next = super::graph_link(after);
    if to == 0 {
        assert forall|x: int, y: int|
            0 <= x < nodes && 0 <= y < nodes && #[trigger] circle::ring_link(
                nodes,
                h,
                x,
                y,
            ) implies next(x, y) by {
            assert(worker::is_ring_row(ring[x], nodes, h, x));
            assert(ring[x].contains(y as u32));
        }
        ends::lemma_first_ends(next, nodes, h)
    } else {
        let e = to - 1;
        let now = rewired(ring, config, chance, seed, 0, e);
        let link = super::graph_link(now);
        let own = lemma_rewired_ends(config, chance, seed, e);
        lemma_rewired(ring, config, chance, seed, 0, e);
        lemma_considered(now, config, chance, seed, e);
        match choice(now, config, chance, seed, e) {
            None => {
                ends::lemma_ends_carry(link, next, own, nodes, h, e, to);
                own
            },
            Some(w) => {
                lemma_redirected(now, config, e, w);
                let u = from_node(config, e);
                let v = to_node(config, e);
                assert(after == redirected(now, u, v, w));
                assert(next(u as int, w as int)) by {
                    assert(after[u as int].contains(w));
                }
                assert forall|x: int, y: int|
                    0 <= x < nodes && 0 <= y < nodes && link(x, y) && !circle::joins(
                        nodes,
                        h,
                        e,
                        x,
                        y,
                    ) implies #[trigger] next(x, y) by {
                    assert(now[x].contains(y as u32));
                    assert(after[x].contains(y as u32));
                }
                ends::lemma_next_ends(link, next, own, nodes, h, e, w as int)
            },
        }
    }
}

/// Every node keeps at least `K / 2` neighbors, however far the rewiring of the
/// ring has come: only one end of an edge is ever exchanged.
pub proof fn lemma_least_degree(
    config: ClusterConfig,
    chance: Bernoulli,
    seed: u64,
    to: int,
    u: int,
)
    requires
        proper(config),
        super::holds_ring(config),
        simple(super::ring_rows(config)),
        keeps_edges(super::ring_rows(config), config.nodes as int, half(config), 0),
        0 <= to <= config.nodes * half(config),
        0 <= u < config.nodes,
    ensures
        rewired(super::ring_rows(config), config, chance, seed, 0, to)[u].len() >= config.degree
            / 2,
{
    let own = lemma_rewired_ends(config, chance, seed, to);
    let after = rewired(super::ring_rows(config), config, chance, seed, 0, to);
    lemma_rewired(super::ring_rows(config), config, chance, seed, 0, to);
    assert(own[u].finite() && own[u].len() == half(config));
    ends::lemma_found_in_row(own[u], after[u]);
}

} // verus!
