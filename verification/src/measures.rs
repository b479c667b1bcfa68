//! What the measures of a graph mean, in terms of its rows alone.

use crate::counting;
use crate::distance;
use crate::graph::{Graph, PathEstimate};
use crate::metrics::{
    all_measurable, all_totals, clusterable, describes, every_node, linked_pairs, links_into,
    measurable, searchable, source_totals, told_estimate, LocalClustering,
};
use vstd::prelude::*;

verus! {

/// Every node of the path but the first is a link away from the one before it.
pub open spec fn walk(link: spec_fn(int, int) -> bool, path: Seq<int>) -> bool {
    path.len() > 0 && forall|i: int|
        0 <= i && i + 1 < path.len() ==> #[trigger] link(path[i], path[i + 1])
}

/// The walk leads from `s` to `v`.
pub open spec fn walk_between(
    link: spec_fn(int, int) -> bool,
    path: Seq<int>,
    s: int,
    v: int,
) -> bool {
    walk(link, path) && path.first() == s && path.last() == v
}

/// A node is within `d` steps just when a walk of at most `d` steps leads to it.
pub proof fn lemma_within_walk(link: spec_fn(int, int) -> bool, s: int, v: int, d: nat)
    ensures
        distance::within(link, s, v, d) <==> exists|path: Seq<int>| #[trigger]
            walk_between(link, path, s, v) && path.len() <= d + 1,
    decreases d,
{
    if distance::within(link, s, v, d) {
        lemma_walk_exists(link, s, v, d);
    }
    if exists|path: Seq<int>| #[trigger] walk_between(link, path, s, v) && path.len() <= d + 1 {
        let path = choose|path: Seq<int>| #[trigger]
            walk_between(link, path, s, v) && path.len() <= d + 1;
        lemma_walk_within(link, path, s, v);
        distance::lemma_within_more(link, s, v, (path.len() - 1) as nat, d);
    }
}

proof fn lemma_walk_exists(link: spec_fn(int, int) -> bool, s: int, v: int, d: nat)
    requires
        distance::within(link, s, v, d),
    ensures
        exists|path: Seq<int>| #[trigger] walk_between(link, path, s, v) && path.len() <= d + 1,
    decreases d,
{
    if d == 0 {
        let path = seq![v];
        assert(walk_between(link, path, s, v));
    } else if distance::within(link, s, v, (d - 1) as nat) {
        lemma_walk_exists(link, s, v, (d - 1) as nat);
        let path = choose|path: Seq<int>| #[trigger]
            walk_between(link, path, s, v) && path.len() <= d - 1 + 1;
        assert(walk_between(link, path, s, v) && path.len() <= d + 1);
    } else {
        let u = distance::lemma_within_split(link, s, v, (d - 1) as nat);
        lemma_walk_exists(link, s, u, (d - 1) as nat);
        let before = choose|path: Seq<int>| #[trigger]
            walk_between(link, path, s, u) && path.len() <= d - 1 + 1;
        let path = before.push(v);
        assert forall|i: int| 0 <= i && i + 1 < path.len() implies #[trigger] link(
            path[i],
            path[i + 1],
        ) by {
            if i + 1 < before.len() {
                assert(link(before[i], before[i + 1]));
            }
        }
        assert(walk_between(link, path, s, v));
    }
}

proof fn lemma_walk_within(link: spec_fn(int, int) -> bool, path: Seq<int>, s: int, v: int)
    requires
        walk_between(link, path, s, v),
    ensures
        distance::within(link, s, v, (path.len() - 1) as nat),
    decreases path.len(),
{
    if path.len() > 1 {
        let shorter = path.drop_last();
        let u = shorter.last();
        assert forall|i: int| 0 <= i && i + 1 < shorter.len() implies #[trigger] link(
            shorter[i],
            shorter[i + 1],
        ) by {
            assert(link(path[i], path[i + 1]));
        }
        lemma_walk_within(link, shorter, s, u);
        assert(link(path[path.len() - 2], path[path.len() - 2 + 1]));
        distance::lemma_within_step(link, s, u, v, (path.len() - 2) as nat);
        assert((path.len() - 2 + 1) as nat == (path.len() - 1) as nat);
    }
}

/// A node is reachable just when a walk leads to it, and the distance is that of
/// the shortest walk: some walk has as many steps, and none has fewer.
pub proof fn lemma_shortest_walk(link: spec_fn(int, int) -> bool, s: int, v: int)
    ensures
        distance::reachable(link, s, v) <==> exists|path: Seq<int>| #[trigger]
            walk_between(link, path, s, v),
        distance::reachable(link, s, v) ==> {
            &&& exists|path: Seq<int>| #[trigger]
                walk_between(link, path, s, v) && path.len() == distance::distance(link, s, v) + 1
            &&& forall|path: Seq<int>| #[trigger]
                walk_between(link, path, s, v) ==> path.len() > distance::distance(link, s, v)
        },
{
    if exists|path: Seq<int>| #[trigger] walk_between(link, path, s, v) {
        let path = choose|path: Seq<int>| #[trigger] walk_between(link, path, s, v);
        lemma_walk_within(link, path, s, v);
    }
    if distance::reachable(link, s, v) {
        let d = choose|d: nat| #[trigger] distance::within(link, s, v, d);
        distance::lemma_distance_exists(link, s, v, d);
        let least = distance::distance(link, s, v);
        assert forall|path: Seq<int>| #[trigger] walk_between(link, path, s, v) implies path.len()
            > least by {
            lemma_walk_within(link, path, s, v);
            let steps = (path.len() - 1) as nat;
            if steps < least {
                distance::lemma_within_more(link, s, v, steps, (least - 1) as nat);
            }
        }
        lemma_walk_exists(link, s, v, least);
        let path = choose|path: Seq<int>| #[trigger]
            walk_between(link, path, s, v) && path.len() <= least + 1;
        assert(path.len() == least + 1);
    }
}

/// The path leads from `u` to `v`, each node but the first standing in the row of
/// the one before it.
pub open spec fn leads(graph: &Graph, path: Seq<usize>, u: usize, v: usize) -> bool {
    &&& path.len() > 0
    &&& path.first() == u
    &&& path.last() == v
    &&& forall|i: int|
        0 <= i && i + 1 < path.len() ==> (#[trigger] path[i]) < graph.adjacency@.len()
            && graph.adjacency@[path[i] as int]@.contains(path[i + 1])
}

/// `steps` tells how many steps the shortest path between any two nodes has, if any leads.
pub open spec fn tells_steps(graph: &Graph, steps: spec_fn(usize, usize) -> Option<nat>) -> bool {
    forall|u: usize, v: usize|
        u < graph.adjacency@.len() && v < graph.adjacency@.len() ==> match #[trigger] steps(u, v) {
            Some(d) => {
                &&& exists|path: Seq<usize>| #[trigger]
                    leads(graph, path, u, v) && path.len() == d + 1
                &&& forall|path: Seq<usize>| #[trigger] leads(graph, path, u, v) ==> path.len() > d
            },
            None => forall|path: Seq<usize>| !#[trigger] leads(graph, path, u, v),
        }
}

proof fn lemma_same_walk(graph: &Graph, path: Seq<usize>, u: usize, v: usize)
    ensures
        leads(graph, path, u, v) <==> walk_between(
            graph.link(),
            path.map_values(|x: usize| x as int),
            u as int,
            v as int,
        ),
{
    let ints = path.map_values(|x: usize| x as int);
    let link = graph.link();
    if leads(graph, path, u, v) {
        assert forall|i: int| 0 <= i && i + 1 < ints.len() implies #[trigger] link(
            ints[i],
            ints[i + 1],
        ) by {
            assert(path[i] < graph.adjacency@.len());
        }
    }
    if walk_between(link, ints, u as int, v as int) {
        assert forall|i: int| 0 <= i && i + 1 < path.len() implies (#[trigger] path[i])
            < graph.adjacency@.len() && graph.adjacency@[path[i] as int]@.contains(
            path[i + 1],
        ) by {
            assert(link(ints[i], ints[i + 1]));
        }
    }
}

/// A walk from a node of the graph goes over numbers that fit.
proof fn lemma_walk_fits(graph: &Graph, path: Seq<int>, u: usize, v: usize)
    requires
        walk_between(graph.link(), path, u as int, v as int),
    ensures
        exists|nodes: Seq<usize>| #[trigger]
            leads(graph, nodes, u, v) && nodes.len() == path.len(),
{
    let link = graph.link();
    let nodes = Seq::new(path.len(), |i: int| path[i] as usize);
    let ints = nodes.map_values(|x: usize| x as int);
    assert forall|i: int| 0 <= i < path.len() implies 0 <= #[trigger] path[i] <= usize::MAX by {
        if i > 0 {
            assert(link(path[i - 1], path[i - 1 + 1]));
        }
    }
    assert(ints =~= path);
    lemma_same_walk(graph, nodes, u, v);
}

/// The steps told are the distances.
proof fn lemma_steps(
    graph: &Graph,
    steps: spec_fn(usize, usize) -> Option<nat>,
    u: usize,
    v: usize,
)
    requires
        tells_steps(graph, steps),
        u < graph.adjacency@.len(),
        v < graph.adjacency@.len(),
    ensures
        steps(u, v) is Some <==> distance::reachable(graph.link(), u as int, v as int),
        steps(u, v) is Some ==> steps(u, v)->Some_0 == distance::distance(
            graph.link(),
            u as int,
            v as int,
        ),
        steps(u, v) is Some ==> distance::at_distance(
            graph.link(),
            u as int,
            v as int,
            steps(u, v)->Some_0,
        ),
{
    let link = graph.link();
    lemma_shortest_walk(link, u as int, v as int);
    let told = steps(u, v);
    if told is Some {
        let path = choose|path: Seq<usize>| #[trigger]
            leads(graph, path, u, v) && path.len() == told->Some_0 + 1;
        lemma_same_walk(graph, path, u, v);
        assert(walk_between(link, path.map_values(|x: usize| x as int), u as int, v as int));
    }
    if distance::reachable(link, u as int, v as int) {
        let least = distance::distance(link, u as int, v as int);
        let path = choose|path: Seq<int>| #[trigger]
            walk_between(link, path, u as int, v as int) && path.len() == least + 1;
        lemma_walk_fits(graph, path, u, v);
        let nodes = choose|nodes: Seq<usize>| #[trigger]
            leads(graph, nodes, u, v) && nodes.len() == path.len();
        assert(leads(graph, nodes, u, v));
        let d = choose|d: nat| #[trigger] distance::within(link, u as int, v as int, d);
        distance::lemma_distance_exists(link, u as int, v as int, d);
    }
}

/// The steps as numbers, nothing counting as zero.
pub open spec fn known(steps: Option<nat>) -> nat {
    match steps {
        Some(d) => d,
        None => 0,
    }
}

proof fn lemma_source_sums(
    graph: &Graph,
    steps: spec_fn(usize, usize) -> Option<nat>,
    s: usize,
    n: nat,
)
    requires
        tells_steps(graph, steps),
        s < graph.adjacency@.len(),
        n <= graph.adjacency@.len(),
        graph.adjacency@.len() <= usize::MAX,
    ensures
        distance::distance_sum(graph.link(), s as int, n) == counting::sum(
            |v: int| known(steps(s, v as usize)),
            n,
        ),
        distance::reach_count(graph.link(), s as int, n) == counting::sum(
            |v: int|
                if v != s && steps(s, v as usize) is Some {
                    1nat
                } else {
                    0
                },
            n,
        ),
    decreases n,
{
    if n > 0 {
        lemma_source_sums(graph, steps, s, (n - 1) as nat);
        lemma_steps(graph, steps, s, (n - 1) as usize);
    }
}

proof fn lemma_total_sums(
    graph: &Graph,
    steps: spec_fn(usize, usize) -> Option<nat>,
    sources: Seq<usize>,
    count: nat,
)
    requires
        tells_steps(graph, steps),
        graph.adjacency@.len() <= usize::MAX,
        forall|i: int| 0 <= i < sources.len() ==> (#[trigger] sources[i]) < graph.adjacency@.len(),
        count <= sources.len(),
    ensures
        all_totals(*graph, sources.take(count as int)).0 == counting::sum(
            |i: int|
                counting::sum(
                    |v: int| known(steps(sources[i], v as usize)),
                    graph.adjacency@.len(),
                ),
            count,
        ),
        all_totals(*graph, sources.take(count as int)).1 == counting::sum(
            |i: int|
                counting::sum(
                    |v: int|
                        if v != sources[i] && steps(sources[i], v as usize) is Some {
                            1nat
                        } else {
                            0
                        },
                    graph.adjacency@.len(),
                ),
            count,
        ),
    decreases count,
{
    if count > 0 {
        let k = (count - 1) as nat;
        lemma_total_sums(graph, steps, sources, k);
        assert(sources.take(count as int).drop_last() =~= sources.take(k as int));
        let s = sources[k as int];
        lemma_source_sums(graph, steps, s, graph.adjacency@.len());
        counting::lemma_same_sum(
            |v: int|
                if v != s && steps(s, v as usize) is Some {
                    1nat
                } else {
                    0
                },
            |v: int|
                if v != sources[k as int] && steps(sources[k as int], v as usize) is Some {
                    1nat
                } else {
                    0
                },
            graph.adjacency@.len(),
        );
    }
}

/// Path lengths from the sources: the steps of the shortest paths from every source
/// to every node that it reaches, summed, a source that stands twice counted twice;
/// and how many pairs of a source and another node that it reaches there are.
/// There is no estimate just when a path is too long to be counted, or there are too
/// many steps or pairs.
#[verifier::rlimit(60)]
pub proof fn lemma_estimate(
    graph: &Graph,
    sources: Seq<usize>,
    estimate: Option<PathEstimate>,
    steps: spec_fn(usize, usize) -> Option<nat>,
)
    requires
        searchable(graph, sources),
        graph.adjacency@.len() <= usize::MAX,
        told_estimate(graph, sources, estimate),
        tells_steps(graph, steps),
    ensures
        ({
            let n = graph.adjacency@.len();
            let distances = counting::sum(
                |i: int| counting::sum(|v: int| known(steps(sources[i], v as usize)), n),
                sources.len(),
            );
            let pairs = Set::new(
                |p: (int, int)|
                    0 <= p.0 < sources.len() && 0 <= p.1 < n && p.1 != sources[p.0] && steps(
                        sources[p.0],
                        p.1 as usize,
                    ) is Some,
            );
            &&& pairs.finite()
            &&& estimate is Some ==> estimate->Some_0.distance_sum == distances
                && estimate->Some_0.reachable_pairs == pairs.len()
            &&& estimate is Some <==> {
                &&& forall|i: int, v: usize|
                    0 <= i < sources.len() && v < n ==> known(#[trigger] steps(sources[i], v))
                        < u32::MAX
                &&& distances <= u64::MAX
                &&& pairs.len() <= u64::MAX
            }
        }),
{
    let n = graph.adjacency@.len();
    let link = graph.link();
    assert forall|i: int| 0 <= i < sources.len() implies (#[trigger] sources[i]) < n by {}
    lemma_total_sums(graph, steps, sources, sources.len());
    assert(sources.take(sources.len() as int) =~= sources);
    let kind = |i: int, v: int| v != sources[i] && steps(sources[i], v as usize) is Some;
    counting::lemma_count_pairs(kind, sources.len(), n);
    let pairs = Set::new(
        |p: (int, int)|
            0 <= p.0 < sources.len() && 0 <= p.1 < n && p.1 != sources[p.0] && steps(
                sources[p.0],
                p.1 as usize,
            ) is Some,
    );
    assert(pairs =~= Set::new(
        |p: (int, int)| 0 <= p.0 < sources.len() && 0 <= p.1 < n && kind(p.0, p.1),
    ));
    let left = |i: int|
            counting::sum(
                |v: int|
                    if v != sources[i] && steps(sources[i], v as usize) is Some {
                        1nat
                    } else {
                        0
                    },
                n,
            );
    let right = |i: int|
            counting::sum(
                |j: int|
                    if kind(i, j) {
                        1nat
                    } else {
                        0
                    },
                n,
            );
    assert forall|i: int| 0 <= i < sources.len() implies #[trigger] left(i) == right(i) by {
        counting::lemma_same_sum(
            |v: int|
                if v != sources[i] && steps(sources[i], v as usize) is Some {
                    1nat
                } else {
                    0
                },
            |j: int|
                if kind(i, j) {
                    1nat
                } else {
                    0
                },
            n,
        );
    }
    counting::lemma_same_sum(left, right, sources.len());
    let short = forall|i: int, v: usize|
        0 <= i < sources.len() && v < n ==> known(#[trigger] steps(sources[i], v)) < u32::MAX;
    let totals = all_totals(*graph, sources);
    assert(all_measurable(*graph, sources) <==> short && totals.0 <= u64::MAX && totals.1
        <= u64::MAX) by {
        if all_measurable(*graph, sources) {
            assert forall|i: int, v: usize| 0 <= i < sources.len() && v < n implies known(
                #[trigger] steps(sources[i], v),
            ) < u32::MAX by {
                lemma_steps(graph, steps, sources[i], v);
                assert(measurable(graph, sources[i] as int));
            }
        }
        if short && totals.0 <= u64::MAX && totals.1 <= u64::MAX {
            assert forall|i: int| 0 <= i < sources.len() implies (#[trigger] sources[i])
                < graph.rows().len() && measurable(graph, sources[i] as int) by {
                let s = sources[i];
                assert forall|v: int, d: nat| #[trigger]
                    distance::at_distance(link, s as int, v, d) implies d < u32::MAX by {
                    assert(distance::stays_below(link, n)) by {
                        assert forall|a: int, b: int| #[trigger] link(a, b) implies 0 <= b < n by {
                            let j = choose|j: int|
                                0 <= j < graph.rows()[a].len() && graph.rows()[a][j] == b as usize;
                            assert(graph.rows()[a][j] < n);
                        }
                    }
                    distance::lemma_within_below(link, n, s as int, v, d);
                    lemma_steps(graph, steps, s, v as usize);
                    distance::lemma_distance_unique(link, s as int, v, d);
                    assert(known(steps(sources[i], v as usize)) < u32::MAX);
                }
                lemma_one_of_all(*graph, sources, i);
            }
        }
    }
}

proof fn lemma_one_of_all(graph: Graph, sources: Seq<usize>, i: int)
    requires
        0 <= i < sources.len(),
    ensures
        source_totals(&graph, sources[i] as int).0 <= all_totals(graph, sources).0,
    decreases sources.len(),
{
    if i < sources.len() - 1 {
        lemma_one_of_all(graph, sources.drop_last(), i);
    }
}

/// The exact path length: the steps of the shortest paths between all nodes, summed
/// over every ordered pair of nodes, and how many ordered pairs of different nodes
/// there are between which a path leads.
#[verifier::rlimit(60)]
pub proof fn lemma_exact(
    graph: &Graph,
    estimate: Option<PathEstimate>,
    steps: spec_fn(usize, usize) -> Option<nat>,
)
    requires
        graph.in_range(),
        graph.adjacency@.len() <= usize::MAX,
        told_estimate(graph, every_node(*graph), estimate),
        tells_steps(graph, steps),
    ensures
        ({
            let n = graph.adjacency@.len();
            let distances = counting::sum(
                |u: int| counting::sum(|v: int| known(steps(u as usize, v as usize)), n),
                n,
            );
            let pairs = Set::new(
                |p: (int, int)|
                    0 <= p.0 < n && 0 <= p.1 < n && p.0 != p.1 && steps(
                        p.0 as usize,
                        p.1 as usize,
                    ) is Some,
            );
            &&& pairs.finite()
            &&& estimate is Some ==> estimate->Some_0.distance_sum == distances
                && estimate->Some_0.reachable_pairs == pairs.len()
            &&& estimate is Some <==> {
                &&& forall|u: usize, v: usize|
                    u < n && v < n ==> known(#[trigger] steps(u, v)) < u32::MAX
                &&& distances <= u64::MAX
                &&& pairs.len() <= u64::MAX
            }
        }),
{
    let n = graph.adjacency@.len();
    let sources = every_node(*graph);
    assert(sources.len() == n);
    assert forall|i: int| 0 <= i < n implies #[trigger] sources[i] == i by {}
    lemma_estimate(graph, sources, estimate, steps);
    let distances = counting::sum(
        |u: int| counting::sum(|v: int| known(steps(u as usize, v as usize)), n),
        n,
    );
    let left = |i: int| counting::sum(|v: int| known(steps(sources[i], v as usize)), n);
    let right = |u: int| counting::sum(|v: int| known(steps(u as usize, v as usize)), n);
    assert forall|i: int| 0 <= i < n implies #[trigger] left(i) == right(i) by {
        assert(sources[i] == i as usize);
    }
    counting::lemma_same_sum(left, right, n);
    assert(Set::new(
        |p: (int, int)|
            0 <= p.0 < sources.len() && 0 <= p.1 < n && p.1 != sources[p.0] && steps(
                sources[p.0],
                p.1 as usize,
            ) is Some,
    ) =~= Set::new(
        |p: (int, int)|
            0 <= p.0 < n && 0 <= p.1 < n && p.0 != p.1 && steps(p.0 as usize, p.1 as usize)
                is Some,
    ));
    if estimate is Some {
        assert forall|u: usize, v: usize| u < n && v < n implies known(#[trigger] steps(u, v))
            < u32::MAX by {
            assert(known(steps(sources[u as int], v)) < u32::MAX);
        }
    }
}

/// The links between the neighbors of a node: how many pairs of its neighbors there
/// are of which one stands in the row of the other.
#[verifier::rlimit(60)]
pub proof fn lemma_clustering(graph: &Graph, clustering: LocalClustering, u: int)
    requires
        clusterable(graph, u),
        describes(graph, clustering, u),
    ensures
        ({
            let row = graph.adjacency@[u]@;
            let pairs = Set::new(
                |p: (int, int)|
                    0 <= p.0 < p.1 < row.len() && graph.adjacency@[row[p.0] as int]@.contains(
                        row[p.1],
                    ),
            );
            &&& pairs.finite()
            &&& clustering.links == pairs.len()
            &&& clustering.degree == row.len()
        }),
{
    let row = graph.adjacency@[u]@;
    let rows = graph.rows();
    let kind = |i: int, j: int| i < j && rows[row[i] as int].contains(row[j]);
    assert(row == rows[u]);
    lemma_pairs(rows, row, row.len());
    counting::lemma_count_pairs(kind, row.len(), row.len());
    assert forall|i: int| 0 <= i < row.len() implies row[i] < rows.len() by {
        assert(graph.rows()[u][i] < rows.len());
    }
    let pairs = Set::new(
        |p: (int, int)|
            0 <= p.0 < p.1 < row.len() && graph.adjacency@[row[p.0] as int]@.contains(row[p.1]),
    );
    assert(pairs =~= Set::new(
        |p: (int, int)| 0 <= p.0 < row.len() && 0 <= p.1 < row.len() && kind(p.0, p.1),
    ));
    let left = |i: int| counting::sum(|j: int| linked(rows, row, i, j), row.len());
    let right = |i: int|
            counting::sum(
                |j: int|
                    if kind(i, j) {
                        1nat
                    } else {
                        0
                    },
                row.len(),
            );
    assert forall|i: int| 0 <= i < row.len() implies #[trigger] left(i) == right(i) by {
        counting::lemma_same_sum(
            |j: int| linked(rows, row, i, j),
            |j: int|
                if kind(i, j) {
                    1nat
                } else {
                    0
                },
            row.len(),
        );
    }
    counting::lemma_same_sum(left, right, row.len());
}

/// One for a pair of linked neighbors.
spec fn linked(rows: Seq<Seq<usize>>, row: Seq<usize>, i: int, j: int) -> nat {
    if i < j && rows[row[i] as int].contains(row[j]) {
        1
    } else {
        0
    }
}

proof fn lemma_pairs(rows: Seq<Seq<usize>>, row: Seq<usize>, count: nat)
    requires
        count <= row.len(),
    ensures
        linked_pairs(rows, row, count as int) == counting::sum(
            |i: int| counting::sum(|j: int| linked(rows, row, i, j), row.len()),
            count,
        ),
    decreases count,
{
    if count > 0 {
        let i = count - 1;
        lemma_pairs(rows, row, i as nat);
        lemma_tail(rows, row, i, row.len());
        assert(row.subrange(count as int, row.len() as int) =~= row.skip(count as int));
    }
}

proof fn lemma_tail(rows: Seq<Seq<usize>>, row: Seq<usize>, i: int, upto: nat)
    requires
        0 <= i < row.len(),
        upto <= row.len(),
    ensures
        counting::sum(|j: int| linked(rows, row, i, j), upto) == if upto <= i + 1 {
            0
        } else {
            links_into(rows[row[i] as int], row.subrange(i + 1, upto as int))
        },
    decreases upto,
{
    if upto > 0 {
        lemma_tail(rows, row, i, (upto - 1) as nat);
        if upto > i + 1 {
            let nodes = row.subrange(i + 1, upto as int);
            assert(nodes.drop_last() =~= row.subrange(i + 1, upto - 1));
            assert(nodes.last() == row[upto - 1]);
            if upto == i + 2 {
                assert(nodes.drop_last() =~= Seq::empty());
                assert(links_into(rows[row[i] as int], nodes.drop_last()) == 0);
            }
            assert(links_into(rows[row[i] as int], nodes) == links_into(
                rows[row[i] as int],
                nodes.drop_last(),
            ) + linked(rows, row, i, upto - 1));
        }
    }
}

/// Between any two nodes of a graph there is a shortest path or none: its steps can be told.
#[verifier::rlimit(60)]
pub proof fn lemma_steps_told(graph: &Graph) -> (steps: spec_fn(usize, usize) -> Option<nat>)
    ensures
        tells_steps(graph, steps),
{
    let link = graph.link();
    let steps = |u: usize, v: usize|
        if distance::reachable(link, u as int, v as int) {
            Some(distance::distance(link, u as int, v as int))
        } else {
            None::<nat>
        };
    assert forall|u: usize, v: usize|
        u < graph.adjacency@.len() && v < graph.adjacency@.len() implies match #[trigger] steps(
        u,
        v,
    ) {
        Some(d) => {
            &&& exists|path: Seq<usize>| #[trigger]
                leads(graph, path, u, v) && path.len() == d + 1
            &&& forall|path: Seq<usize>| #[trigger] leads(graph, path, u, v) ==> path.len() > d
        },
        None => forall|path: Seq<usize>| !#[trigger] leads(graph, path, u, v),
    } by {
        lemma_shortest_walk(link, u as int, v as int);
        assert forall|path: Seq<usize>| #[trigger] leads(graph, path, u, v) implies walk_between(
            link,
            path.map_values(|x: usize| x as int),
            u as int,
            v as int,
        ) by {
            lemma_same_walk(graph, path, u, v);
        }
        if distance::reachable(link, u as int, v as int) {
            let d = distance::distance(link, u as int, v as int);
            let path = choose|path: Seq<int>| #[trigger]
                walk_between(link, path, u as int, v as int) && path.len() == d + 1;
            lemma_walk_fits(graph, path, u, v);
            assert forall|path: Seq<usize>| #[trigger] leads(
                graph,
                path,
                u,
                v,
            ) implies path.len() > d by {
                let ints = path.map_values(|x: usize| x as int);
                assert(walk_between(link, ints, u as int, v as int));
                assert(ints.len() > d);
            }
        } else {
            assert forall|path: Seq<usize>| !#[trigger] leads(graph, path, u, v) by {
                if leads(graph, path, u, v) {
                    let ints = path.map_values(|x: usize| x as int);
                    assert(walk_between(link, ints, u as int, v as int));
                }
            }
        }
    }
    steps
}

} // verus!
