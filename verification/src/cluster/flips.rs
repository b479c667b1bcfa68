//! What becomes of every single edge when a cluster rewires its ring.

use super::rewiring::{choice, from_node, rewired, to_node};
use super::turns::{take_turns, turns_rewired, TurnTaken};
use super::{built, half, owner, proper, ring_rows};
use crate::circle;
use crate::counting;
use crate::probability::Probability;
use crate::protocol::{ClusterConfig, WorkerResponse};
use crate::random;
use crate::sorted;
use crate::worker::draws::rounds;
use crate::worker::ShardView;
use crate::worker;
use rand_chacha::ChaCha8Rng;
use vstd::prelude::*;

verus! {

/// What rewiring the ring is, edge by edge: `graphs` are the rows before, between
/// and after the edges, `ends` the new ends, and `draws` the nodes that are drawn
/// for them. An edge gets a new end if and only if the first flip of its own
/// generator shows heads and some node is open to it; then it gets the first open
/// one of 64 draws, or the smallest open one where none of them is open.
#[verifier::opaque]
pub open spec fn every_edge(
    config: ClusterConfig,
    probability: Probability,
    seed: u64,
    graphs: Seq<Seq<Seq<u32>>>,
    ends: Seq<Option<u32>>,
    draws: Seq<Seq<(u32, ChaCha8Rng)>>,
) -> bool {
    let nodes = config.nodes as int;
    let half = (config.degree / 2) as int;
    let edges = nodes * half;
    let chance = probability.chance->Some_0;
    &&& graphs.len() == edges + 1
    &&& ends.len() == edges
    &&& draws.len() == edges
    &&& forall|u: u32, v: u32|
        u < nodes ==> (#[trigger] graphs[0][u as int].contains(v) <==> v < nodes && v != u
            && ((if u <= v {
            v - u
        } else {
            u - v
        }) <= half || nodes - (if u <= v {
            v - u
        } else {
            u - v
        }) <= half))
    &&& forall|e: int|
        0 <= e < edges ==> {
            let u = (e / half) as u32;
            let v = ((e / half + e % half + 1) % nodes) as u32;
            let (heads, rng) = random::coin(
                random::seeded(random::mixed(seed ^ (e as u64))),
                chance,
            );
            let row = graphs[e][u as int];
            let open = |x: u32| x < nodes && x != u && !row.contains(x);
            &&& u < nodes
            &&& v < nodes
            &&& row.contains(v)
            &&& graphs[e][v as int].contains(u)
            &&& (#[trigger] ends[e]) is Some <==> heads && exists|x: u32| #[trigger] open(x)
            &&& ends[e] is None ==> graphs[e + 1] == graphs[e]
            &&& draws[e].len() == 64
            &&& draws[e][0] == random::below(rng, config.nodes)
            &&& forall|i: int|
                1 <= i < 64 ==> #[trigger] draws[e][i] == random::below(
                    draws[e][i - 1].1,
                    config.nodes,
                )
            &&& ends[e] is Some ==> {
                let w = ends[e]->Some_0;
                &&& open(w)
                &&& forall|i: int|
                    0 <= i < 64 && open((#[trigger] draws[e][i]).0) && (forall|j: int|
                        0 <= j < i ==> !open((#[trigger] draws[e][j]).0)) ==> w
                        == draws[e][i].0
                &&& (forall|i: int| 0 <= i < 64 ==> !open((#[trigger] draws[e][i]).0))
                    ==> forall|x: u32| x < w ==> !#[trigger] open(x)
                &&& forall|x: int, y: u32|
                    0 <= x < nodes ==> (#[trigger] graphs[e + 1][x].contains(y) <==> (
                    graphs[e][x].contains(y) && !(x == u && y == v) && !(x == v && y == u))
                        || (x == u && y == w) || (x == w && y == u))
            }
            &&& forall|x: int|
                0 <= x < nodes ==> sorted::ascending(#[trigger] graphs[e + 1][x])
        }
}

/// The rewiring of a freshly built cluster, edge by edge: the rows before every
/// edge and after the last, the new ends, and the numbers drawn for them.
///
/// - It starts from the ring in which every node has the `K / 2` nodes on either
///   side as neighbors, and ends with the rows that the workers hold.
/// - Edge `e` starts in `u = e / (K / 2)` and led to the node `e % (K / 2) + 1`
///   steps along the ring. Its generator is seeded with the mixed seed and number.
/// - It gets a new end just when the first and only flip of that generator shows
///   heads and some node is neither `u` nor a neighbor of `u`.
/// - The new end is the first of 64 numbers drawn after the flip that is such a
///   node, or the smallest such node where none of them is.
/// - The old neighbor and `u` lose one another, the new end and `u` gain one
///   another, and no other neighbor changes.
/// - The counts that the workers tell sum up to the number of edges with a new
///   end, which is no more than `N * K / 2` and no more than the number of heads; it
///   is the number of heads where no edge starts in a node that all others are
///   neighbors of.
#[verifier::rlimit(60)]
pub proof fn lemma_every_edge(
    config: ClusterConfig,
    probability: Probability,
    seed: u64,
    clusters: Seq<Seq<ShardView>>,
    turns: Seq<TurnTaken>,
) -> (story: (Seq<Seq<Seq<u32>>>, Seq<Option<u32>>, Seq<Seq<(u32, ChaCha8Rng)>>))
    requires
        proper(config),
        built(clusters[0], config),
        take_turns(clusters, probability, seed, turns),
        turns.len() == config.workers,
        probability.bits != 0,
        probability.bits != 0x8000_0000_0000_0000,
    ensures
        ({
            let (graphs, ends, draws) = story;
            let nodes = config.nodes as int;
            let half = (config.degree / 2) as int;
            let edges = nodes * half;
            let chance = probability.chance->Some_0;
            &&& every_edge(config, probability, seed, graphs, ends, draws)
            &&& forall|node: int|
                0 <= node < nodes ==> #[trigger] clusters.last()[owner(config, node)].row(node)
                    == graphs[edges][node]
            &&& counting::sum(
                |t: int|
                    match turns[t].answer {
                        Ok(WorkerResponse::Rewired { rewired, .. }) => rewired as nat,
                        _ => 0,
                    },
                config.workers as nat,
            ) == Set::new(|e: int| 0 <= e < edges && ends[e] is Some).len()
            &&& Set::new(|e: int| 0 <= e < edges && ends[e] is Some).len() <= Set::new(
                |e: int|
                    0 <= e < edges && random::coin(
                        random::seeded(random::mixed(seed ^ (e as u64))),
                        chance,
                    ).0,
            ).len()
            &&& (forall|e: int|
                0 <= e < edges ==> (#[trigger] graphs[e])[e / half].len() + 1 < nodes) ==> Set::new(
                |e: int| 0 <= e < edges && ends[e] is Some,
            ).len() == Set::new(
                |e: int|
                    0 <= e < edges && random::coin(
                        random::seeded(random::mixed(seed ^ (e as u64))),
                        chance,
                    ).0,
            ).len()
            &&& Set::new(|e: int| 0 <= e < edges && ends[e] is Some).len() <= nodes
                * config.degree / 2
        }),
{
    let nodes = config.nodes as int;
    let h = half(config);
    let edges = nodes * h;
    let chance = probability.chance->Some_0;
    let ring = ring_rows(config);
    assert(edges >= 0) by (nonlinear_arith)
        requires
            edges == nodes * h,
            nodes >= 0,
            h >= 0,
    ;
    let graphs = Seq::new(
        (edges + 1) as nat,
        |e: int| rewired(ring, config, chance, seed, 0, e),
    );
    let ends = Seq::new(edges as nat, |e: int| choice(graphs[e], config, chance, seed, e));
    let draws = Seq::new(
        edges as nat,
        |e: int|
            rounds(
                random::coin(random::seeded(random::mixed(seed ^ (e as u64))), chance).1,
                config.nodes,
            ),
    );
    reveal(every_edge);
    super::turns::lemma_turns(
        config,
        probability,
        seed,
        clusters,
        turns,
        config.workers as int,
    );
    super::lemma_built(clusters[0], config);
    super::lemma_bounds(config, 0);
    assert forall|u: u32, v: u32| u < nodes implies (#[trigger] graphs[0][u as int].contains(v)
        <==> v < nodes && v != u && ((if u <= v {
        v - u
    } else {
        u - v
    }) <= h || nodes - (if u <= v {
        v - u
    } else {
        u - v
    }) <= h)) by {
        assert(worker::is_ring_row(ring[u as int], nodes, h, u as int));
        assert(ring[u as int].contains(v) <==> circle::ring_link(nodes, h, u as int, v as int));
        if circle::ring_link(nodes, h, u as int, v as int) {
            super::lemma_link_below(nodes, h, u as int, v as int);
        }
        if v < nodes {
            circle::lemma_ring_link(nodes, h, u as int, v as int);
        }
    }
    assert forall|node: int| 0 <= node < nodes implies #[trigger] clusters.last()[owner(
        config,
        node,
    )].row(node) == graphs[edges][node] by {
        super::lemma_row(clusters.last(), config, graphs[edges], node);
    }
    assert forall|e: int| 0 <= e < edges implies {
        let u = (e / h) as u32;
        let v = ((e / h + e % h + 1) % nodes) as u32;
        let (heads, rng) = random::coin(
            random::seeded(random::mixed(seed ^ (e as u64))),
            chance,
        );
        let row = graphs[e][u as int];
        let open = |x: u32| x < nodes && x != u && !row.contains(x);
        &&& u < nodes
        &&& v < nodes
        &&& row.contains(v)
        &&& graphs[e][v as int].contains(u)
        &&& (#[trigger] ends[e]) is Some <==> heads && exists|x: u32| #[trigger] open(x)
        &&& ends[e] is None ==> graphs[e + 1] == graphs[e]
        &&& draws[e].len() == 64
        &&& draws[e][0] == random::below(rng, config.nodes)
        &&& forall|i: int|
            1 <= i < 64 ==> #[trigger] draws[e][i] == random::below(
                draws[e][i - 1].1,
                config.nodes,
            )
        &&& ends[e] is Some ==> {
            let w = ends[e]->Some_0;
            &&& open(w)
            &&& forall|i: int|
                0 <= i < 64 && open((#[trigger] draws[e][i]).0) && (forall|j: int|
                    0 <= j < i ==> !open((#[trigger] draws[e][j]).0)) ==> w == draws[e][i].0
            &&& (forall|i: int| 0 <= i < 64 ==> !open((#[trigger] draws[e][i]).0)) ==> forall|
                x: u32,
            |
                x < w ==> !#[trigger] open(x)
            &&& forall|x: int, y: u32|
                0 <= x < nodes ==> (#[trigger] graphs[e + 1][x].contains(y) <==> (
                graphs[e][x].contains(y) && !(x == u && y == v) && !(x == v && y == u)) || (x == u
                    && y == w) || (x == w && y == u))
        }
        &&& forall|x: int| 0 <= x < nodes ==> sorted::ascending(#[trigger] graphs[e + 1][x])
    } by {
        lemma_one_edge(config, chance, seed, e);
    }
    let picked = |e: int| ends[e] is Some;
    let heads = |e: int|
        random::coin(random::seeded(random::mixed(seed ^ (e as u64))), chance).0;
    counting::lemma_count(picked, edges as nat);
    counting::lemma_count(heads, edges as nat);
    let moved = Set::new(|e: int| 0 <= e < edges && ends[e] is Some);
    let shown = Set::new(
        |e: int|
            0 <= e < edges && random::coin(
                random::seeded(random::mixed(seed ^ (e as u64))),
                chance,
            ).0,
    );
    assert(moved =~= Set::new(|e: int| 0 <= e < edges as nat && picked(e)));
    assert(shown =~= Set::new(|e: int| 0 <= e < edges as nat && heads(e)));
    assert(moved.subset_of(shown)) by {
        assert forall|e: int| moved.contains(e) implies shown.contains(e) by {
            assert(ends[e] is Some);
        }
    }
    vstd::set_lib::lemma_len_subset(moved, shown);
    if forall|e: int| 0 <= e < edges ==> (#[trigger] graphs[e])[e / h].len() + 1 < nodes {
        lemma_all_heads(config, chance, seed, graphs, ends);
    }
    let all = vstd::set_lib::set_int_range(0, edges);
    vstd::set_lib::lemma_int_range(0, edges);
    assert(moved.subset_of(all));
    vstd::set_lib::lemma_len_subset(moved, all);
    assert(edges == nodes * config.degree / 2) by {
        assert(nodes * config.degree == 2 * edges) by (nonlinear_arith)
            requires
                edges == nodes * h,
                config.degree == 2 * h,
        ;
    }
    lemma_picks_count(ring, config, chance, seed, edges);
    counting::lemma_same_sum(
        |e: int|
            if choice(rewired(ring, config, chance, seed, 0, e), config, chance, seed, e) is Some {
                1nat
            } else {
                0
            },
        |e: int|
            if picked(e) {
                1nat
            } else {
                0
            },
        edges as nat,
    );
    super::passes::lemma_cluster_rewired(
        clusters[0],
        config,
        chance,
        seed,
        config.workers as int,
    );
    lemma_turn_counts(turns, config.workers as nat);
    (graphs, ends, draws)
}

/// Where no node has all others as neighbors, every edge whose flip shows heads gets a
/// new end.
#[verifier::rlimit(60)]
proof fn lemma_all_heads(
    config: ClusterConfig,
    chance: rand::distributions::Bernoulli,
    seed: u64,
    graphs: Seq<Seq<Seq<u32>>>,
    ends: Seq<Option<u32>>,
)
    requires
        proper(config),
        super::simple(ring_rows(config)),
        super::keeps_edges(ring_rows(config), config.nodes as int, half(config), 0),
        forall|e: int|
            0 <= e < config.nodes * half(config) ==> {
                &&& (#[trigger] graphs[e])[e / half(config)].len() + 1 < config.nodes
                &&& graphs[e] == rewired(ring_rows(config), config, chance, seed, 0, e)
                &&& ends[e] == choice(graphs[e], config, chance, seed, e)
            },
    ensures
        Set::new(|e: int| 0 <= e < config.nodes * half(config) && ends[e] is Some) =~= Set::new(
            |e: int|
                0 <= e < config.nodes * half(config) && random::coin(
                    random::seeded(random::mixed(seed ^ (e as u64))),
                    chance,
                ).0,
        ),
{
    assert forall|e: int| 0 <= e < config.nodes * half(config) implies (ends[e] is Some
        <==> random::coin(random::seeded(random::mixed(seed ^ (e as u64))), chance).0) by {
        assert(graphs[e] == rewired(ring_rows(config), config, chance, seed, 0, e));
        assert(graphs[e][e / half(config)].len() + 1 < config.nodes);
        lemma_one_edge(config, chance, seed, e);
    }
}

/// One edge of the rewiring.
#[verifier::rlimit(100)]
#[verifier::spinoff_prover]
proof fn lemma_one_edge(
    config: ClusterConfig,
    chance: rand::distributions::Bernoulli,
    seed: u64,
    e: int,
)
    requires
        proper(config),
        super::simple(ring_rows(config)),
        super::keeps_edges(ring_rows(config), config.nodes as int, half(config), 0),
        0 <= e < config.nodes * half(config),
    ensures
        ({
            let nodes = config.nodes as int;
            let h = half(config);
            let graph = rewired(ring_rows(config), config, chance, seed, 0, e);
            let next = rewired(ring_rows(config), config, chance, seed, 0, e + 1);
            let end = choice(graph, config, chance, seed, e);
            let u = (e / h) as u32;
            let v = ((e / h + e % h + 1) % nodes) as u32;
            let (heads, rng) = random::coin(
                random::seeded(random::mixed(seed ^ (e as u64))),
                chance,
            );
            let draws = rounds(rng, config.nodes);
            let row = graph[u as int];
            let open = |x: u32| x < nodes && x != u && !row.contains(x);
            &&& u < nodes
            &&& v < nodes
            &&& row.contains(v)
            &&& graph[v as int].contains(u)
            &&& end is Some <==> heads && exists|x: u32| #[trigger] open(x)
            &&& end is None ==> next == graph
            &&& draws.len() == 64
            &&& draws[0] == random::below(rng, config.nodes)
            &&& forall|i: int|
                1 <= i < 64 ==> #[trigger] draws[i] == random::below(draws[i - 1].1, config.nodes)
            &&& end is Some ==> {
                let w = end->Some_0;
                &&& open(w)
                &&& forall|i: int|
                    0 <= i < 64 && open((#[trigger] draws[i]).0) && (forall|j: int|
                        0 <= j < i ==> !open((#[trigger] draws[j]).0)) ==> w == draws[i].0
                &&& (forall|i: int| 0 <= i < 64 ==> !open((#[trigger] draws[i]).0)) ==> forall|
                    x: u32,
                |
                    x < w ==> !#[trigger] open(x)
                &&& forall|x: int, y: u32|
                    0 <= x < nodes ==> (#[trigger] next[x].contains(y) <==> (graph[x].contains(y)
                        && !(x == u && y == v) && !(x == v && y == u)) || (x == u && y == w) || (x
                        == w && y == u))
            }
            &&& forall|x: int| 0 <= x < nodes ==> sorted::ascending(#[trigger] next[x])
        }),
        rewired(ring_rows(config), config, chance, seed, 0, e)[e / half(config)].len() + 1
            < config.nodes ==> (choice(
            rewired(ring_rows(config), config, chance, seed, 0, e),
            config,
            chance,
            seed,
            e,
        ) is Some <==> random::coin(
            random::seeded(random::mixed(seed ^ (e as u64))),
            chance,
        ).0),
{
    let nodes = config.nodes as int;
    let h = half(config);
    let ring = ring_rows(config);
    let graph = rewired(ring, config, chance, seed, 0, e);
    let next = rewired(ring, config, chance, seed, 0, e + 1);
    super::rewiring::lemma_rewired(ring, config, chance, seed, 0, e);
    super::rewiring::lemma_rewired(ring, config, chance, seed, 0, e + 1);
    super::rewiring::lemma_considered(graph, config, chance, seed, e);
    circle::lemma_edge(nodes, h, e);
    let u = from_node(config, e);
    let v = to_node(config, e);
    assert(e / h + e % h + 1 == e / h + (e % h + 1));
    assert(v == ((e / h + e % h + 1) % nodes) as u32);
    assert(graph[circle::edge_from(h, e)].contains(v));
    assert(super::sound_row(graph, u as int));
    let row = graph[u as int];
    let (heads, rng) = random::coin(random::seeded(random::mixed(seed ^ (e as u64))), chance);
    let open = |x: u32| x < nodes && x != u && !row.contains(x);
    worker::draws::lemma_room(u, row, config.nodes);
    assert((exists|x: u32| #[trigger] open(x)) <==> row.len() + 1 < nodes) by {
        if exists|x: u32| #[trigger] open(x) {
            let x = choose|x: u32| #[trigger] open(x);
            assert(x < config.nodes && x != u && !row.contains(x));
        }
        if row.len() + 1 < nodes {
            let x = choose|x: u32| x < config.nodes && x != u && !#[trigger] row.contains(x);
            assert(open(x));
        }
    }
    let end = choice(graph, config, chance, seed, e);
    let (target, after) = worker::rewire::target_choice(rng, u, v, row, config.nodes);
    let draws = worker::draws::lemma_target_rule(rng, u, v, row, config.nodes, target, after);
    let fits = worker::draws::free(u, v, row, config.nodes);
    assert forall|x: u32| #[trigger] fits(x) == open(x) by {}
    if row.len() + 1 < nodes {
        worker::rewire::lemma_target_exists(rng, u, v, row, config.nodes);
    }
    if end is Some {
        let w = end->Some_0;
        super::rewiring::lemma_redirected(graph, config, e, w);
        assert forall|i: int|
            0 <= i < 64 && open((#[trigger] draws[i]).0) && (forall|j: int|
                0 <= j < i ==> !open((#[trigger] draws[j]).0)) implies w == draws[i].0 by {
            assert(fits(draws[i].0));
            assert forall|j: int| 0 <= j < i implies !fits((#[trigger] draws[j]).0) by {
                assert(!open(draws[j].0));
            }
        }
        if forall|i: int| 0 <= i < 64 ==> !open((#[trigger] draws[i]).0) {
            assert forall|i: int| 0 <= i < 64 implies !fits((#[trigger] draws[i]).0) by {
                assert(!open(draws[i].0));
            }
            assert forall|x: u32| x < w implies !#[trigger] open(x) by {
                assert(!fits(x));
            }
        }
    }
    assert forall|x: int| 0 <= x < nodes implies sorted::ascending(#[trigger] next[x]) by {
        assert(super::sound_row(next, x));
    }
}

proof fn lemma_picks_count(
    graph: Seq<Seq<u32>>,
    config: ClusterConfig,
    chance: rand::distributions::Bernoulli,
    seed: u64,
    to: int,
)
    requires
        0 <= to,
    ensures
        super::rewiring::picks(graph, config, chance, seed, 0, to) == counting::sum(
            |e: int|
                if choice(
                    rewired(graph, config, chance, seed, 0, e),
                    config,
                    chance,
                    seed,
                    e,
                ) is Some {
                    1nat
                } else {
                    0
                },
            to as nat,
        ),
    decreases to,
{
    if to > 0 {
        lemma_picks_count(graph, config, chance, seed, to - 1);
    }
}

/// What the turns tell is the sum of what each tells.
pub proof fn lemma_turn_counts(turns: Seq<TurnTaken>, n: nat)
    ensures
        turns_rewired(turns, n as int) == counting::sum(
            |t: int|
                match turns[t].answer {
                    Ok(WorkerResponse::Rewired { rewired, .. }) => rewired as nat,
                    _ => 0,
                },
            n,
        ),
    decreases n,
{
    if n > 0 {
        lemma_turn_counts(turns, (n - 1) as nat);
    }
}

} // verus!
