//! Path lengths and clustering of a whole graph.

use crate::distance;
use crate::graph::{find, Graph, PathEstimate};
use crate::graph;
use crate::parallel::{indices, map_parallel};
use std::collections::VecDeque;
use vstd::prelude::*;

verus! {

/// No node that the source reaches is too far to be counted, and the distances
/// can be summed.
pub open spec fn measurable(graph: &Graph, source: int) -> bool {
    &&& forall|v: int, d: nat| #[trigger]
        distance::at_distance(graph.link(), source, v, d) ==> d < u32::MAX
    &&& distance::distance_sum(graph.link(), source, graph.rows().len()) <= u64::MAX
}

/// The distances from a source, summed, and how many nodes it reaches.
pub open spec fn source_totals(graph: &Graph, source: int) -> (nat, nat) {
    (
        distance::distance_sum(graph.link(), source, graph.rows().len()),
        distance::reach_count(graph.link(), source, graph.rows().len()),
    )
}

/// The totals of all the sources together, a source that stands twice counted twice.
pub open spec fn all_totals(graph: Graph, sources: Seq<usize>) -> (nat, nat)
    decreases sources.len(),
{
    if sources.len() == 0 {
        (0, 0)
    } else {
        let before = all_totals(graph, sources.drop_last());
        let last = source_totals(&graph, sources.last() as int);
        (before.0 + last.0, before.1 + last.1)
    }
}

/// The sources are nodes whose distances can be told and summed.
pub open spec fn all_measurable(graph: Graph, sources: Seq<usize>) -> bool {
    &&& graph.in_range()
    &&& forall|i: int|
        0 <= i < sources.len() ==> (#[trigger] sources[i]) < graph.rows().len() && measurable(
            &graph,
            sources[i] as int,
        )
    &&& all_totals(graph, sources).0 <= u64::MAX
    &&& all_totals(graph, sources).1 <= u64::MAX
}

/// The distances found so far, summed over the nodes below `n`.
spec fn found_sum(distances: Seq<u32>, n: nat) -> nat
    decreases n,
{
    if n == 0 {
        0
    } else {
        found_sum(distances, (n - 1) as nat) + if distances[n - 1] == u32::MAX {
            0
        } else {
            distances[n - 1] as nat
        }
    }
}

/// The nodes found so far below `n`, the source left out.
spec fn found_count(distances: Seq<u32>, source: int, n: nat) -> nat
    decreases n,
{
    if n == 0 {
        0
    } else {
        found_count(distances, source, (n - 1) as nat) + if n - 1 == source || distances[n - 1]
            == u32::MAX {
            0nat
        } else {
            1
        }
    }
}

/// The nodes below `n` not found yet.
spec fn missing(distances: Seq<u32>, n: nat) -> nat
    decreases n,
{
    if n == 0 {
        0
    } else {
        missing(distances, (n - 1) as nat) + if distances[n - 1] == u32::MAX {
            1nat
        } else {
            0
        }
    }
}

proof fn lemma_found_update(distances: Seq<u32>, source: int, v: int, d: u32, n: nat)
    requires
        0 <= v < distances.len(),
        n <= distances.len(),
        distances[v] == u32::MAX,
        d != u32::MAX,
        v != source,
    ensures
        found_sum(distances.update(v, d), n) == found_sum(distances, n) + if v < n {
            d as nat
        } else {
            0
        },
        found_count(distances.update(v, d), source, n) == found_count(distances, source, n)
            + if v < n {
            1nat
        } else {
            0
        },
        missing(distances.update(v, d), n) == missing(distances, n) - if v < n {
            1int
        } else {
            0
        },
    decreases n,
{
    if n > 0 {
        lemma_found_update(distances, source, v, d, (n - 1) as nat);
    }
}

/// What has been found is right so far.
spec fn right_so_far(graph: Graph, source: int, distances: Seq<u32>) -> bool {
    forall|v: int|
        0 <= v < distances.len() && #[trigger] distances[v] != u32::MAX ==> distance::at_distance(
            graph.link(),
            source,
            v,
            distances[v] as nat,
        )
}

proof fn lemma_found_bound(graph: Graph, source: int, distances: Seq<u32>, n: nat)
    requires
        right_so_far(graph, source, distances),
        n <= distances.len(),
    ensures
        found_sum(distances, n) <= distance::distance_sum(graph.link(), source, n),
        found_count(distances, source, n) <= distance::reach_count(graph.link(), source, n),
        found_count(distances, source, n) <= n,
    decreases n,
{
    if n > 0 {
        lemma_found_bound(graph, source, distances, (n - 1) as nat);
        if distances[n - 1] != u32::MAX {
            distance::lemma_distance_unique(
                graph.link(),
                source,
                n - 1,
                distances[n - 1] as nat,
            );
        }
    }
}

proof fn lemma_found_all(graph: Graph, source: int, distances: Seq<u32>, n: nat)
    requires
        right_so_far(graph, source, distances),
        n <= distances.len(),
        forall|v: int, d: nat|
            0 <= v < distances.len() && #[trigger] distance::within(graph.link(), source, v, d)
                ==> distances[v] != u32::MAX,
    ensures
        found_sum(distances, n) == distance::distance_sum(graph.link(), source, n),
        found_count(distances, source, n) == distance::reach_count(graph.link(), source, n),
    decreases n,
{
    if n > 0 {
        lemma_found_all(graph, source, distances, (n - 1) as nat);
        if distances[n - 1] != u32::MAX {
            distance::lemma_distance_unique(
                graph.link(),
                source,
                n - 1,
                distances[n - 1] as nat,
            );
        } else if distance::reachable(graph.link(), source, n - 1) {
            let d = choose|d: nat| #[trigger]
                distance::within(graph.link(), source, n - 1, d);
            assert(distances[n - 1] != u32::MAX);
        }
    }
}

/// The state of a search between two nodes of its queue.
spec fn searching(graph: Graph, source: int, distances: Seq<u32>, queue: Seq<usize>) -> bool {
    &&& distances.len() == graph.rows().len()
    &&& 0 <= source < distances.len()
    &&& distances[source] == 0
    &&& right_so_far(graph, source, distances)
    &&& forall|i: int|
        0 <= i < queue.len() ==> (#[trigger] queue[i]) < distances.len()
            && distances[queue[i] as int] != u32::MAX
    &&& forall|i: int, j: int|
        0 <= i <= j < queue.len() ==> distances[#[trigger] queue[i] as int]
            <= distances[#[trigger] queue[j] as int] <= distances[queue[i] as int] + 1
    // A found node waits in the queue, or all its neighbors are found.
    &&& forall|u: int|
        0 <= u < distances.len() && #[trigger] distances[u] != u32::MAX && !queue.contains(
            u as usize,
        ) ==> settled(graph, distances, u)
    // Nodes no farther than the head of the queue are found.
    &&& queue.len() > 0 ==> forall|v: int| #[trigger]
        distance::within(graph.link(), source, v, distances[queue[0] as int] as nat) ==> found(
            distances,
            v,
            distances[queue[0] as int] as nat,
        )
}

spec fn found(distances: Seq<u32>, v: int, d: nat) -> bool {
    0 <= v < distances.len() && distances[v] != u32::MAX && distances[v] <= d
}

/// All neighbors of the node are found, at most one step farther.
spec fn settled(graph: Graph, distances: Seq<u32>, u: int) -> bool {
    forall|v: int| #[trigger] graph.link()(u, v) ==> found(distances, v, (distances[u] + 1) as nat)
}

/// Nodes of the next level are found once the queue holds no node of the current one.
proof fn lemma_next_level(
    graph: Graph,
    source: int,
    distances: Seq<u32>,
    queue: Seq<usize>,
    level: nat,
)
    requires
        graph.in_range(),
        distances.len() == graph.rows().len(),
        distances.len() <= usize::MAX,
        right_so_far(graph, source, distances),
        forall|v: int| #[trigger]
            distance::within(graph.link(), source, v, level) ==> found(
                distances,
                v,
                level,
            ),
        forall|i: int| 0 <= i < queue.len() ==> distances[#[trigger] queue[i] as int] > level,
        forall|u: int|
            0 <= u < distances.len() && #[trigger] distances[u] != u32::MAX && !queue.contains(
                u as usize,
            ) ==> settled(graph, distances, u),
    ensures
        forall|v: int| #[trigger]
            distance::within(graph.link(), source, v, level + 1) ==> found(
                distances,
                v,
                level + 1,
            ),
{
    assert forall|v: int| #[trigger]
        distance::within(graph.link(), source, v, level + 1) implies found(
        distances,
        v,
        level + 1,
    ) by {
        if !distance::within(graph.link(), source, v, level) {
            let u = distance::lemma_within_split(graph.link(), source, v, level);
            assert(found(distances, u, level));
            if queue.contains(u as usize) {
                let i = choose|i: int| 0 <= i < queue.len() && queue[i] == u as usize;
                assert(distances[queue[i] as int] > level);
            }
            assert(settled(graph, distances, u));
            assert(graph.link()(u, v));
            assert(found(distances, v, (distances[u] + 1) as nat));
        }
    }
}

/// Everything reachable is found once the queue is empty.
proof fn lemma_all_levels(graph: Graph, source: int, distances: Seq<u32>, v: int, d: nat)
    requires
        graph.in_range(),
        distances.len() == graph.rows().len(),
        0 <= source < distances.len(),
        distances[source] == 0,
        forall|u: int|
            0 <= u < distances.len() && #[trigger] distances[u] != u32::MAX ==> settled(
                graph,
                distances,
                u,
            ),
        distance::within(graph.link(), source, v, d),
    ensures
        0 <= v < distances.len(),
        distances[v] != u32::MAX,
    decreases d,
{
    if d > 0 {
        if distance::within(graph.link(), source, v, (d - 1) as nat) {
            lemma_all_levels(graph, source, distances, v, (d - 1) as nat);
        } else {
            let u = distance::lemma_within_split(graph.link(), source, v, (d - 1) as nat);
            lemma_all_levels(graph, source, distances, u, (d - 1) as nat);
            assert(settled(graph, distances, u));
            assert(graph.link()(u, v));
        }
    }
}

/// What a search from the source gives: its totals, or nothing where a node is
/// too far to be counted or the distances cannot be summed.
pub open spec fn told_totals(graph: &Graph, source: int, totals: Option<(u64, u64)>) -> bool {
    match totals {
        Some(totals) => {
            &&& measurable(graph, source)
            &&& totals.0 == source_totals(graph, source).0
            &&& totals.1 == source_totals(graph, source).1
        },
        None => !measurable(graph, source),
    }
}

/// A breadth-first search from a source: the distances to all nodes that it
/// reaches, summed, and how many those are. Nothing comes back where a node is
/// too far to be counted or the distances cannot be summed.
#[verifier::rlimit(30)]
pub fn try_bfs_totals(graph: &Graph, source: usize) -> (totals: Option<(u64, u64)>)
    requires
        graph.in_range(),
        source < graph.rows().len(),
    ensures
        told_totals(graph, source as int, totals),
{
    let ghost link = graph.link();
    let ghost s: int = source as int;
    let n: usize = graph.node_count();
    let mut distances: Vec<u32> = Vec::new();
    distances.resize(n, u32::MAX);
    let mut queue: VecDeque<usize> = VecDeque::new();
    distances.set(source, 0);
    queue.push_back(source);
    let mut distance_sum: u64 = 0;
    let mut reachable: u64 = 0;
    proof {
        assert(distance::at_distance(link, s, s, 0));
        assert(queue@ =~= seq![source]);
        assert(queue@[0] == source);
        lemma_start(distances@, s, n as nat);
    }
    while queue.len() > 0
        invariant
            n == graph.rows().len(),
            source < n,
            s == source,
            link == graph.link(),
            graph.in_range(),
            searching(*graph, s, distances@, queue@),
            distance_sum == found_sum(distances@, n as nat),
            reachable == found_count(distances@, s, n as nat),
        decreases missing(distances@, n as nat), queue@.len(),
    {
        let ghost before = queue@;
        let ghost labels = distances@;
        let u: usize = match queue.pop_front() {
            Some(u) => u,
            None => return None,
        };
        assert(u == before[0]);
        assert(queue@ =~= before.skip(1));
        assert(distance::at_distance(link, s, u as int, labels[u as int] as nat));
        let ghost level: nat = labels[u as int] as nat;
        let next_distance: u32 = distances[u] + 1;
        let row = graph.neighbors(u);
        let mut j: usize = 0;
        proof {
            assert forall|i: int| 0 <= i < queue@.len() implies {
                &&& (#[trigger] queue@[i]) < n
                &&& distances@[queue@[i] as int] != u32::MAX
                &&& level <= distances@[queue@[i] as int] <= level + 1
            } by {
                assert(queue@[i] == before[i + 1]);
                assert(distances@[before[0] as int] <= distances@[before[i + 1] as int]);
            }
            assert forall|a: int, b: int| 0 <= a <= b < queue@.len() implies distances@[
            #[trigger] queue@[a] as int] <= distances@[#[trigger] queue@[b] as int] by {
                assert(queue@[a] == before[a + 1]);
                assert(queue@[b] == before[b + 1]);
            }
            assert forall|x: int|
                0 <= x < n && #[trigger] distances@[x] != u32::MAX && x != u && !queue@.contains(
                    x as usize,
                ) implies settled(*graph, distances@, x) by {
                if before.contains(x as usize) {
                    let i = choose|i: int| 0 <= i < before.len() && before[i] == x as usize;
                    assert(queue@[i - 1] == before[i]);
                }
            }
        }
        while j < row.len()
            invariant
                n == graph.rows().len(),
                source < n,
                s == source,
                u < n,
                link == graph.link(),
                graph.in_range(),
                    row@ == graph.rows()[u as int],
                j <= row@.len(),
                distances@.len() == n,
                distances@[s] == 0,
                distances@[u as int] == level,
                next_distance == level + 1,
                level < u32::MAX,
                right_so_far(*graph, s, distances@),
                forall|v: int| #[trigger]
                    distance::within(link, s, v, level) ==> found(distances@, v, level),
                forall|i: int|
                    0 <= i < queue@.len() ==> {
                        &&& (#[trigger] queue@[i]) < n
                        &&& distances@[queue@[i] as int] != u32::MAX
                        &&& level <= distances@[queue@[i] as int] <= level + 1
                    },
                forall|a: int, b: int|
                    0 <= a <= b < queue@.len() ==> distances@[#[trigger] queue@[a] as int]
                        <= distances@[#[trigger] queue@[b] as int],
                forall|x: int|
                    0 <= x < n && #[trigger] distances@[x] != u32::MAX && x != u
                        && !queue@.contains(x as usize) ==> settled(*graph, distances@, x),
                forall|i: int|
                    0 <= i < j ==> found(distances@, (#[trigger] row@[i]) as int, level + 1),
                distance_sum == found_sum(distances@, n as nat),
                reachable == found_count(distances@, s, n as nat),
                missing(distances@, n as nat) + queue@.len() <= missing(labels, n as nat)
                    + before.len() - 1,
                missing(distances@, n as nat) <= missing(labels, n as nat),
            decreases row@.len() - j,
        {
            let v: usize = row[j];
            assert(graph.rows()[u as int][j as int] == v);
            assert(link(u as int, v as int)) by {
                assert(graph.rows()[u as int].contains(v));
            }
            if distances[v] == u32::MAX {
                let ghost old_labels = distances@;
                let ghost old_queue = queue@;
                proof {
                    assert(!distance::within(link, s, v as int, level)) by {
                        if distance::within(link, s, v as int, level) {
                            assert(found(distances@, v as int, level));
                        }
                    }
                    assert(distance::at_distance(link, s, u as int, level)) by {
                        assert(distances@[u as int] != u32::MAX);
                    }
                    distance::lemma_within_step(link, s, u as int, v as int, level);
                    assert((level + 1 - 1) as nat == level);
                    assert(distance::at_distance(link, s, v as int, level + 1));
                }
                if next_distance == u32::MAX {
                    assert(distance::at_distance(link, s, v as int, u32::MAX as nat));
                    return None;
                }
                proof {
                    lemma_found_update(distances@, s, v as int, next_distance, n as nat);
                }
                distances.set(v, next_distance);
                proof {
                    assert(right_so_far(*graph, s, distances@)) by {
                        assert forall|x: int|
                            0 <= x < distances@.len() && #[trigger] distances@[x]
                                != u32::MAX implies distance::at_distance(
                            graph.link(),
                            s,
                            x,
                            distances@[x] as nat,
                        ) by {
                            if x != v {
                                assert(old_labels[x] == distances@[x]);
                            }
                        }
                    }
                    lemma_found_bound(*graph, s, distances@, n as nat);
                }
                match distance_sum.checked_add(next_distance as u64) {
                    Some(sum) => {
                        distance_sum = sum;
                    },
                    None => return None,
                }
                reachable = reachable + 1;
                queue.push_back(v);
                proof {
                    assert(queue@ =~= old_queue.push(v));
                    assert forall|x: int|
                        0 <= x < n && #[trigger] distances@[x] != u32::MAX && x != u
                            && !queue@.contains(x as usize) implies settled(
                        *graph,
                        distances@,
                        x,
                    ) by {
                        assert(queue@[old_queue.len() as int] == v);
                        assert(x != v);
                        assert(old_labels[x] == distances@[x]);
                        if old_queue.contains(x as usize) {
                            let i = choose|i: int|
                                0 <= i < old_queue.len() && old_queue[i] == x as usize;
                            assert(queue@[i] == x as usize);
                        }
                        assert(settled(*graph, old_labels, x));
                        assert forall|y: int| #[trigger] graph.link()(x, y) implies found(
                            distances@,
                            y,
                            (distances@[x] + 1) as nat,
                        ) by {
                            assert(found(old_labels, y, (old_labels[x] + 1) as nat));
                        }
                    }
                    assert forall|x: int| #[trigger]
                        distance::within(link, s, x, level) implies found(
                        distances@,
                        x,
                        level,
                    ) by {
                        assert(found(old_labels, x, level));
                    }
                    assert forall|i: int| 0 <= i < j implies found(
                        distances@,
                        (#[trigger] row@[i]) as int,
                        level + 1,
                    ) by {
                        assert(found(old_labels, row@[i] as int, level + 1));
                    }
                    assert forall|a: int, b: int|
                        0 <= a <= b < queue@.len() implies distances@[#[trigger] queue@[a] as int]
                        <= distances@[#[trigger] queue@[b] as int] by {
                        if b < old_queue.len() {
                            assert(queue@[a] == old_queue[a] && queue@[b] == old_queue[b]);
                        } else if a < old_queue.len() {
                            assert(queue@[a] == old_queue[a]);
                        }
                    }
                }
            } else {
                proof {
                    // The node was found before: at this level, or one beyond it.
                    assert(distance::at_distance(link, s, u as int, level)) by {
                        assert(distances@[u as int] != u32::MAX);
                    }
                    distance::lemma_within_step(link, s, u as int, v as int, level);
                    let d = distances@[v as int] as nat;
                    assert(distance::at_distance(link, s, v as int, d));
                    if d > level + 1 {
                        distance::lemma_within_more(
                            link,
                            s,
                            v as int,
                            level + 1,
                            (d - 1) as nat,
                        );
                    }
                }
            }
            j = j + 1;
        }
        proof {
            assert(settled(*graph, distances@, u as int)) by {
                assert forall|y: int| #[trigger] graph.link()(u as int, y) implies found(
                    distances@,
                    y,
                    (distances@[u as int] + 1) as nat,
                ) by {
                    let i = choose|i: int| 0 <= i < row@.len() && row@[i] == y as usize;
                    assert(found(distances@, row@[i] as int, level + 1));
                }
            }
            if queue@.len() > 0 && distances@[queue@[0] as int] != level {
                assert forall|i: int| 0 <= i < queue@.len() implies distances@[
                #[trigger] queue@[i] as int] > level by {
                    assert(distances@[queue@[0] as int] <= distances@[queue@[i] as int]);
                }
                lemma_next_level(*graph, s, distances@, queue@, level);
            }
            assert(searching(*graph, s, distances@, queue@));
        }
    }
    proof {
        assert forall|v: int, d: nat|
            0 <= v < n && #[trigger] distance::within(link, s, v, d) implies distances@[v]
            != u32::MAX by {
            assert forall|u: int|
                0 <= u < n && #[trigger] distances@[u] != u32::MAX implies settled(
                *graph,
                distances@,
                u,
            ) by {
                assert(!queue@.contains(u as usize));
            }
            lemma_all_levels(*graph, s, distances@, v, d);
        }
        lemma_found_all(*graph, s, distances@, n as nat);
        assert forall|v: int, d: nat| #[trigger] distance::at_distance(link, s, v, d) implies d
            < u32::MAX by {
            assert forall|u: int|
                0 <= u < n && #[trigger] distances@[u] != u32::MAX implies settled(
                *graph,
                distances@,
                u,
            ) by {
                assert(!queue@.contains(u as usize));
            }
            lemma_all_levels(*graph, s, distances@, v, d);
            assert(distance::at_distance(link, s, v, distances@[v] as nat));
            distance::lemma_distance_unique(link, s, v, d);
            distance::lemma_distance_unique(link, s, v, distances@[v] as nat);
        }
        assert(measurable(graph, s));
    }
    Some((distance_sum, reachable))
}

/// A breadth-first search from a source whose distances can be told and summed.
pub fn bfs_totals(graph: &Graph, source: usize) -> (totals: (u64, u64))
    requires
        graph.in_range(),
        source < graph.rows().len(),
        measurable(graph, source as int),
    ensures
        totals.0 == source_totals(graph, source as int).0,
        totals.1 == source_totals(graph, source as int).1,
{
    match try_bfs_totals(graph, source) {
        Some(totals) => totals,
        None => (0, 0),
    }
}


/// Only the source is found at the start.
proof fn lemma_start(distances: Seq<u32>, source: int, n: nat)
    requires
        n <= distances.len(),
        forall|v: int| 0 <= v < distances.len() ==> distances[v] == if v == source {
            0
        } else {
            u32::MAX
        },
    ensures
        found_sum(distances, n) == 0,
        found_count(distances, source, n) == 0,
    decreases n,
{
    if n > 0 {
        lemma_start(distances, source, (n - 1) as nat);
    }
}

/// The totals are those of the sources, which are nodes of the graph.
pub open spec fn all_told(
    graph: &Graph,
    sources: Seq<usize>,
    totals: Seq<Option<(u64, u64)>>,
) -> bool {
    &&& totals.len() == sources.len()
    &&& forall|i: int|
        0 <= i < totals.len() ==> sources[i] < graph.rows().len() && told_totals(
            graph,
            sources[i] as int,
            #[trigger] totals[i],
        )
}

/// Sums totals, unless a sum outgrows its counter.
fn sum_totals(
    totals: &Vec<Option<(u64, u64)>>,
    Ghost(graph): Ghost<&Graph>,
    sources: &[usize],
) -> (estimate: Option<PathEstimate>)
    requires
        graph.in_range(),
        all_told(graph, sources@, totals@),
    ensures
        told_estimate(graph, sources@, estimate),
{
    let mut distance_sum: u64 = 0;
    let mut reachable_pairs: u64 = 0;
    let mut i: usize = 0;
    assert(sources@.take(0) =~= Seq::empty());
    while i < totals.len()
        invariant
            i <= totals@.len(),
            graph.in_range(),
            all_told(graph, sources@, totals@),
            forall|j: int|
                0 <= j < i ==> (#[trigger] sources@[j]) < graph.rows().len() && measurable(
                    graph,
                    sources@[j] as int,
                ),
            distance_sum == all_totals(*graph, sources@.take(i as int)).0,
            reachable_pairs == all_totals(*graph, sources@.take(i as int)).1,
        decreases totals.len() - i,
    {
        proof {
            assert(told_totals(graph, sources@[i as int] as int, totals@[i as int]));
            assert(sources@.take(i + 1).drop_last() =~= sources@.take(i as int));
            assert(sources@.take(i + 1).last() == sources@[i as int]);
            lemma_partial_totals(*graph, sources@, i + 1);
        }
        let (distance, reachable): (u64, u64) = match totals[i] {
            Some(entry) => entry,
            None => return None,
        };
        distance_sum =
        match distance_sum.checked_add(distance) {
            Some(sum) => sum,
            None => return None,
        };
        reachable_pairs =
        match reachable_pairs.checked_add(reachable) {
            Some(sum) => sum,
            None => return None,
        };
        i = i + 1;
    }
    assert(sources@.take(i as int) =~= sources@);
    Some(PathEstimate { distance_sum, reachable_pairs })
}

proof fn lemma_partial_totals(graph: Graph, sources: Seq<usize>, i: int)
    requires
        0 <= i <= sources.len(),
    ensures
        all_totals(graph, sources.take(i)).0 <= all_totals(graph, sources).0,
        all_totals(graph, sources.take(i)).1 <= all_totals(graph, sources).1,
    decreases sources.len() - i,
{
    if i == sources.len() {
        assert(sources.take(i) =~= sources);
    } else {
        assert(sources.take(i + 1).drop_last() =~= sources.take(i));
        lemma_partial_totals(graph, sources, i + 1);
    }
}

/// The estimate is the one that the sources' totals give.
pub open spec fn estimates(graph: Graph, sources: Seq<usize>, estimate: PathEstimate) -> bool {
    &&& estimate.distance_sum == all_totals(graph, sources).0
    &&& estimate.reachable_pairs == all_totals(graph, sources).1
}

/// What searches from the sources give: the estimate, or nothing where a node is
/// too far to be counted or the distances cannot be summed.
pub open spec fn told_estimate(
    graph: &Graph,
    sources: Seq<usize>,
    estimate: Option<PathEstimate>,
) -> bool {
    match estimate {
        Some(estimate) => all_measurable(*graph, sources) && estimates(*graph, sources, estimate),
        None => !all_measurable(*graph, sources),
    }
}

/// The sources are nodes of the graph, and so is every neighbor.
pub open spec fn searchable(graph: &Graph, sources: Seq<usize>) -> bool {
    &&& graph.in_range()
    &&& forall|i: int| 0 <= i < sources.len() ==> (#[trigger] sources[i]) < graph.rows().len()
}

/// Path lengths from the sources, one search after the other, unless a sum
/// outgrows its counter.
pub fn try_sampled_path_length_sequential(graph: &Graph, sources: &[usize]) -> (estimate: Option<
    PathEstimate,
>)
    requires
        searchable(graph, sources@),
    ensures
        told_estimate(graph, sources@, estimate),
{
    let mut totals: Vec<Option<(u64, u64)>> = Vec::new();
    let mut i: usize = 0;
    while i < sources.len()
        invariant
            i <= sources@.len(),
            searchable(graph, sources@),
            totals@.len() == i,
            all_told(graph, sources@.take(i as int), totals@),
        decreases sources.len() - i,
    {
        let source: usize = sources[i];
        let ghost done = totals@;
        assert(source == sources@[i as int]);
        totals.push(try_bfs_totals(graph, source));
        proof {
            let taken = sources@.take(i + 1);
            assert forall|j: int| 0 <= j < totals@.len() implies taken[j] < graph.rows().len()
                && told_totals(graph, taken[j] as int, #[trigger] totals@[j]) by {
                if j < i {
                    assert(told_totals(graph, sources@.take(i as int)[j] as int, done[j]));
                }
            }
        }
        i = i + 1;
    }
    assert(sources@.take(i as int) =~= sources@);
    sum_totals(&totals, Ghost(graph), sources)
}

/// Path lengths from the sources, the searches spread over threads, unless a sum
/// outgrows its counter. The same as those of one search after the other.
pub fn try_sampled_path_length_parallel(graph: &Graph, sources: &[usize]) -> (estimate: Option<
    PathEstimate,
>)
    requires
        searchable(graph, sources@),
    ensures
        told_estimate(graph, sources@, estimate),
{
    let mut items: Vec<usize> = Vec::new();
    let mut i: usize = 0;
    while i < sources.len()
        invariant
            i <= sources@.len(),
            items@ =~= sources@.take(i as int),
        decreases sources.len() - i,
    {
        items.push(sources[i]);
        i = i + 1;
    }
    assert(items@ =~= sources@);
    let work = |source: usize| -> (totals: Option<(u64, u64)>)
        requires
            graph.in_range(),
            source < graph.rows().len(),
        ensures
            told_totals(graph, source as int, totals),
        { try_bfs_totals(graph, source) };
    let totals = map_parallel(items, work);
    proof {
        assert forall|i: int| 0 <= i < totals@.len() implies sources@[i] < graph.rows().len()
            && told_totals(graph, sources@[i] as int, #[trigger] totals@[i]) by {
            assert(work.ensures((items@[i],), totals@[i]));
        }
    }
    sum_totals(&totals, Ghost(graph), sources)
}

/// Path lengths from every node, unless a sum outgrows its counter.
pub fn try_exact_path_length(graph: &Graph) -> (estimate: Option<PathEstimate>)
    requires
        graph.in_range(),
    ensures
        told_estimate(graph, every_node(*graph), estimate),
{
    let sources: Vec<usize> = indices(0, graph.node_count());
    assert(sources@ =~= every_node(*graph));
    try_sampled_path_length_sequential(graph, sources.as_slice())
}

/// The estimate that all totals together allow.
fn unwrapped(estimate: Option<PathEstimate>) -> (value: PathEstimate)
    requires
        estimate is Some,
    ensures
        value == estimate->Some_0,
{
    match estimate {
        Some(estimate) => estimate,
        None => PathEstimate { distance_sum: 0, reachable_pairs: 0 },
    }
}

/// Path lengths from sources whose distances can be told and summed, one search
/// after the other.
pub fn sampled_path_length_sequential(graph: &Graph, sources: &[usize]) -> (estimate: PathEstimate)
    requires
        all_measurable(*graph, sources@),
    ensures
        estimates(*graph, sources@, estimate),
{
    unwrapped(try_sampled_path_length_sequential(graph, sources))
}

/// Path lengths from sources whose distances can be told and summed, the
/// searches spread over threads. The same estimate as that of one search after
/// the other.
pub fn sampled_path_length_parallel(graph: &Graph, sources: &[usize]) -> (estimate: PathEstimate)
    requires
        all_measurable(*graph, sources@),
    ensures
        estimates(*graph, sources@, estimate),
{
    unwrapped(try_sampled_path_length_parallel(graph, sources))
}

/// Every node of the graph, in order.
pub open spec fn every_node(graph: Graph) -> Seq<usize> {
    Seq::new(graph.rows().len(), |i: int| i as usize)
}

/// Path lengths from every node, where the distances can be told and summed.
pub fn exact_path_length(graph: &Graph) -> (estimate: PathEstimate)
    requires
        all_measurable(*graph, every_node(*graph)),
    ensures
        estimates(*graph, every_node(*graph), estimate),
{
    unwrapped(try_exact_path_length(graph))
}

/// The links between the neighbors of a node, and how many neighbors it has. Its
/// clustering coefficient is `2 * links / (degree * (degree - 1))`, and zero
/// where it has fewer than two neighbors.
#[derive(Debug, Clone, Copy, PartialEq, Eq, Structural)]
pub struct LocalClustering {
    pub links: u64,
    pub degree: usize,
}

/// How many of the nodes stand in the row.
pub open spec fn links_into(row: Seq<usize>, nodes: Seq<usize>) -> nat
    decreases nodes.len(),
{
    if nodes.len() == 0 {
        0
    } else {
        links_into(row, nodes.drop_last()) + if row.contains(nodes.last()) {
            1nat
        } else {
            0
        }
    }
}

/// The links between the first `count` neighbors in the row and the neighbors
/// after each of them.
pub open spec fn linked_pairs(rows: Seq<Seq<usize>>, row: Seq<usize>, count: int) -> nat
    decreases count,
{
    if count <= 0 {
        0
    } else {
        linked_pairs(rows, row, count - 1) + links_into(
            rows[row[count - 1] as int],
            row.skip(count),
        )
    }
}

/// The links between the neighbors of a node, where it has two or more.
pub open spec fn neighbor_links(rows: Seq<Seq<usize>>, u: int) -> nat {
    linked_pairs(rows, rows[u], rows[u].len() as int)
}

proof fn lemma_links_bound(row: Seq<usize>, nodes: Seq<usize>)
    ensures
        links_into(row, nodes) <= nodes.len(),
    decreases nodes.len(),
{
    if nodes.len() > 0 {
        lemma_links_bound(row, nodes.drop_last());
    }
}

proof fn lemma_pairs_bound(rows: Seq<Seq<usize>>, row: Seq<usize>, count: int)
    requires
        0 <= count <= row.len(),
    ensures
        linked_pairs(rows, row, count) <= count * row.len(),
    decreases count,
{
    if count > 0 {
        lemma_pairs_bound(rows, row, count - 1);
        lemma_links_bound(rows[row[count - 1] as int], row.skip(count));
        assert((count - 1) * row.len() + row.len() == count * row.len()) by (nonlinear_arith);
    } else {
        assert(count * row.len() == 0) by (nonlinear_arith)
            requires
                count == 0,
        ;
    }
}

/// From here on, every node of the tail is looked for in the rest of the row.
proof fn lemma_links_split(row: Seq<usize>, nodes: Seq<usize>, t: int)
    requires
        0 <= t < nodes.len(),
    ensures
        links_into(row, nodes.take(t + 1)) == links_into(row, nodes.take(t)) + if row.contains(
            nodes[t],
        ) {
            1nat
        } else {
            0
        },
{
    assert(nodes.take(t + 1).drop_last() =~= nodes.take(t));
}

/// The nodes from `t` on stand nowhere in the row.
proof fn lemma_links_rest(row: Seq<usize>, nodes: Seq<usize>, t: int)
    requires
        0 <= t <= nodes.len(),
        forall|i: int| t <= i < nodes.len() ==> !row.contains(#[trigger] nodes[i]),
    ensures
        links_into(row, nodes) == links_into(row, nodes.take(t)),
    decreases nodes.len() - t,
{
    if t == nodes.len() {
        assert(nodes.take(t) =~= nodes);
    } else {
        lemma_links_split(row, nodes, t);
        assert(!row.contains(nodes[t]));
        lemma_links_rest(row, nodes, t + 1);
    }
}

/// How long a tail may be for its nodes to be looked up one by one.
pub const SHORT_TAIL: usize = 16;

/// Counts the nodes of `row` after position `first` that stand in `adjacent`.
fn count_links(row: &[usize], first: usize, adjacent: &[usize]) -> (links: usize)
    requires
        first < row@.len(),
        graph::ascending(row@),
        graph::ascending(adjacent@),
    ensures
        links == links_into(adjacent@, row@.skip(first + 1)),
        links <= row@.len(),
{
    let ghost tail = row@.skip(first + 1);
    let size: usize = row.len();
    let mut links: usize = 0;
    assert(tail.take(0) =~= Seq::empty());
    if size - (first + 1) <= SHORT_TAIL {
        let mut t: usize = first + 1;
        while t < size
            invariant
                first < t <= size,
                size == row@.len(),
                tail == row@.skip(first + 1),
                graph::ascending(adjacent@),
                links == links_into(adjacent@, tail.take(t - first - 1)),
                links <= t,
            decreases size - t,
        {
            proof {
                lemma_links_split(adjacent@, tail, t - first - 1);
            }
            if find(adjacent, row[t]) {
                links = links + 1;
            }
            t = t + 1;
        }
        assert(tail.take(t - first - 1) =~= tail);
        return links;
    }
    let node: usize = row[first];
    let mut j: usize = partition_point(adjacent, node);
    let mut t: usize = first + 1;
    while t < size && j < adjacent.len()
        invariant
            first < t <= size,
            size == row@.len(),
            j <= adjacent@.len(),
            node == row@[first as int],
            tail == row@.skip(first + 1),
            graph::ascending(row@),
            graph::ascending(adjacent@),
            forall|x: int|
                0 <= x < j ==> adjacent@[x] <= node || t < size && adjacent@[x] < row@[t as int]
                    || t == size,
            links == links_into(adjacent@, tail.take(t - first - 1)),
            links <= t,
        decreases size - t + adjacent@.len() - j,
    {
        let a: usize = row[t];
        let b: usize = adjacent[j];
        proof {
            assert(tail[t - first - 1] == a);
            assert(row@[first as int] < row@[t as int]);
        }
        if a < b {
            proof {
                lemma_links_split(adjacent@, tail, t - first - 1);
                assert(!adjacent@.contains(a)) by {
                    assert forall|x: int| 0 <= x < adjacent@.len() implies adjacent@[x] != a by {
                        if x > j {
                            assert(adjacent@[j as int] < adjacent@[x]);
                        }
                    }
                }
                if t + 1 < size {
                    assert(row@[t as int] < row@[t + 1]);
                }
            }
            t = t + 1;
        } else if a > b {
            j = j + 1;
        } else {
            proof {
                lemma_links_split(adjacent@, tail, t - first - 1);
                assert(adjacent@.contains(a));
                if t + 1 < size {
                    assert(row@[t as int] < row@[t + 1]);
                }
            }
            links = links + 1;
            t = t + 1;
            j = j + 1;
        }
    }
    proof {
        assert forall|i: int| t - first - 1 <= i < tail.len() implies !adjacent@.contains(
            #[trigger] tail[i],
        ) by {
            let a = row@[first + 1 + i];
            assert(tail[i] == a);
            assert(row@[first as int] < a);
            if t < first + 1 + i {
                assert(row@[t as int] < a);
            }
            assert forall|x: int| 0 <= x < adjacent@.len() implies adjacent@[x] != a by {}
        }
        lemma_links_rest(adjacent@, tail, t - first - 1);
    }
    links
}

/// The first position whose node is above the given one.
fn partition_point(row: &[usize], node: usize) -> (position: usize)
    requires
        graph::ascending(row@),
    ensures
        position <= row@.len(),
        forall|i: int| 0 <= i < position ==> row@[i] <= node,
        forall|i: int| position <= i < row@.len() ==> row@[i] > node,
{
    let mut low: usize = 0;
    let mut high: usize = row.len();
    while low < high
        invariant
            low <= high <= row@.len(),
            graph::ascending(row@),
            forall|i: int| 0 <= i < low ==> row@[i] <= node,
            forall|i: int| high <= i < row@.len() ==> row@[i] > node,
        decreases high - low,
    {
        let middle: usize = low + (high - low) / 2;
        if row[middle] <= node {
            low = middle + 1;
        } else {
            high = middle;
        }
    }
    low
}

/// The rows are in order, and the links between the node's neighbors can be counted.
pub open spec fn clusterable(graph: &Graph, u: int) -> bool {
    &&& graph.in_range()
    &&& graph.ordered()
    &&& 0 <= u < graph.rows().len()
    &&& neighbor_links(graph.rows(), u) <= u64::MAX
}

/// These are the links and the degree of the node.
pub open spec fn describes(graph: &Graph, clustering: LocalClustering, u: int) -> bool {
    &&& clustering.links == neighbor_links(graph.rows(), u)
    &&& clustering.degree == graph.rows()[u].len()
}

/// The links between the neighbors of a node.
pub fn local_clustering(graph: &Graph, u: usize) -> (clustering: LocalClustering)
    requires
        clusterable(graph, u as int),
    ensures
        describes(graph, clustering, u as int),
{
    let ghost rows = graph.rows();
    let neighbors = graph.neighbors(u);
    let ghost row = neighbors@;
    let size: usize = neighbors.len();
    let mut links: u64 = 0;
    let mut i: usize = 0;
    assert(graph::ascending(rows[u as int]));
    while i < size
        invariant
            rows == graph.rows(),
            graph.in_range(),
            graph.ordered(),
            u < rows.len(),
            row == rows[u as int],
            row == neighbors@,
            graph::ascending(row),
            size == row.len(),
            i <= size,
            links == linked_pairs(rows, row, i as int),
            neighbor_links(rows, u as int) <= u64::MAX,
        decreases size - i,
    {
        let v: usize = neighbors[i];
        assert(rows[u as int][i as int] < rows.len());
        let adjacent = graph.neighbors(v);
        assert(graph::ascending(rows[v as int]));
        let more: usize = count_links(neighbors, i, adjacent);
        proof {
            lemma_pairs_grow(rows, row, i + 1, size as int);
        }
        links = links + more as u64;
        i = i + 1;
    }
    LocalClustering { links, degree: size }
}

proof fn lemma_pairs_grow(rows: Seq<Seq<usize>>, row: Seq<usize>, a: int, b: int)
    requires
        0 <= a <= b,
    ensures
        linked_pairs(rows, row, a) <= linked_pairs(rows, row, b),
    decreases b - a,
{
    if a < b {
        lemma_pairs_grow(rows, row, a, b - 1);
    }
}

/// The links between the neighbors of every node, in order. The average
/// clustering of the graph is the mean of their coefficients.
pub fn average_clustering_parallel(graph: &Graph) -> (clusterings: Vec<LocalClustering>)
    requires
        forall|u: int| 0 <= u < graph.rows().len() ==> #[trigger] clusterable(graph, u),
    ensures
        clusterings@.len() == graph.rows().len(),
        forall|u: int|
            0 <= u < graph.rows().len() ==> describes(graph, #[trigger] clusterings@[u], u),
{
    let nodes: Vec<usize> = indices(0, graph.node_count());
    let work = |u: usize| -> (clustering: LocalClustering)
        requires
            clusterable(graph, u as int),
        ensures
            describes(graph, clustering, u as int),
        { local_clustering(graph, u) };
    map_parallel(nodes, work)
}

/// Distances in a graph of at most `2^32 - 1` nodes can be told and summed.
pub proof fn lemma_small_graph(graph: &Graph, source: int)
    requires
        graph.in_range(),
        0 <= source < graph.rows().len() <= u32::MAX,
    ensures
        measurable(graph, source),
        source_totals(graph, source).0 <= graph.rows().len() * graph.rows().len(),
        source_totals(graph, source).1 <= graph.rows().len(),
{
    let n = graph.rows().len();
    let link = graph.link();
    assert(distance::stays_below(link, n)) by {
        assert forall|u: int, v: int| #[trigger] link(u, v) implies 0 <= v < n by {
            let j = choose|j: int|
                0 <= j < graph.rows()[u].len() && graph.rows()[u][j] == v as usize;
            assert(graph.rows()[u][j] < n);
        }
    }
    assert forall|v: int, d: nat| #[trigger] distance::at_distance(link, source, v, d) implies d
        < u32::MAX by {
        distance::lemma_distance_below(link, n, source, v, d);
    }
    distance::lemma_sum_bound(link, n, source, n);
    assert(n * n <= u32::MAX * u32::MAX) by (nonlinear_arith)
        requires
            n <= u32::MAX,
    ;
}

/// The links between the neighbors of a node can be counted in a graph in order,
/// if the node has at most `2^32 - 1` neighbors.
pub proof fn lemma_small_clustering(graph: &Graph, u: int)
    requires
        graph.in_range(),
        graph.ordered(),
        0 <= u < graph.rows().len(),
        graph.rows()[u].len() <= u32::MAX,
    ensures
        clusterable(graph, u),
{
    let row = graph.rows()[u];
    lemma_pairs_bound(graph.rows(), row, row.len() as int);
    assert(row.len() * row.len() <= u32::MAX * u32::MAX) by (nonlinear_arith)
        requires
            row.len() <= u32::MAX,
    ;
}

/// The searches and counts that a sound graph allows: its neighbors are nodes in order.
pub proof fn lemma_sound_graph(graph: &Graph)
    requires
        graph.sound(),
    ensures
        graph.in_range(),
        graph.ordered(),
{
    assert forall|u: int, j: int|
        0 <= u < graph.rows().len() && 0 <= j < graph.rows()[u].len() implies #[trigger]
        graph.rows()[u][j] < graph.rows().len() by {
        assert(graph::sound_row(graph.rows(), u));
    }
    assert forall|u: int| 0 <= u < graph.rows().len() implies graph::ascending(
        #[trigger] graph.rows()[u],
    ) by {
        assert(graph::sound_row(graph.rows(), u));
    }
}

/// There is one estimate for a graph and its sources: however the searches are
/// spread over threads, they give the same.
pub proof fn lemma_one_estimate(
    graph: Graph,
    sources: Seq<usize>,
    a: PathEstimate,
    b: PathEstimate,
)
    requires
        estimates(graph, sources, a),
        estimates(graph, sources, b),
    ensures
        a == b,
{
}

/// In a sound graph a source with a neighbor reaches some node, so that its
/// distances have a mean.
pub proof fn lemma_source_reaches(graph: &Graph, source: int)
    requires
        graph.sound(),
        graph.rows().len() <= usize::MAX,
        0 <= source < graph.rows().len(),
        graph.rows()[source].len() > 0,
    ensures
        source_totals(graph, source).1 > 0,
{
    let v = graph.rows()[source][0];
    assert(graph::sound_row(graph.rows(), source));
    assert(graph.rows()[source].contains(v));
    assert(graph.link()(source, v as int));
    distance::lemma_reaches(graph.link(), source, v as int, graph.rows().len());
}

} // verus!
