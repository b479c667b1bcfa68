//! What single requests do, told of the rows and the nodes themselves.

use super::bfs::{fresh, lemma_fresh};
use super::ShardView;
use crate::circle;
use crate::counting;
use crate::protocol::{ClusterConfig, EdgeQuery, Mutation, WorkerResponse};
use crate::rows;
use crate::sorted;
use vstd::prelude::*;

verus! {

/// The count of set flags is the number of places where a flag is set.
pub proof fn lemma_flags(flags: Seq<bool>)
    ensures
        super::set_count(flags) == Set::new(|i: int| 0 <= i < flags.len() && flags[i]).len(),
        Set::new(|i: int| 0 <= i < flags.len() && flags[i]).finite(),
    decreases flags.len(),
{
    let all = Set::new(|i: int| 0 <= i < flags.len() && flags[i]);
    if flags.len() == 0 {
        assert(all =~= Set::empty());
    } else {
        let short = flags.drop_last();
        let fewer = Set::new(|i: int| 0 <= i < short.len() && short[i]);
        lemma_flags(short);
        if flags.last() {
            assert(all =~= fewer.insert(flags.len() - 1));
        } else {
            assert(all =~= fewer);
        }
    }
}

/// A worker builds its shard if and only if its number is below that of the workers.
/// Its nodes are those from `floor(N * id / W)` to `floor(N * (id + 1) / W)`, each
/// linked to the nodes at most `K / 2` steps along the ring, and it tells how many
/// nodes and links it holds.
#[verifier::rlimit(60)]
pub proof fn lemma_build_rule(
    before: ShardView,
    config: ClusterConfig,
    answer: Result<WorkerResponse, String>,
    after: ShardView,
)
    requires
        before.build_outcome(config, answer, after),
        after.wf(),
    ensures
        answer is Ok <==> before.id < config.workers,
        answer is Err ==> after == before,
        answer is Ok ==> {
            let nodes = config.nodes as int;
            let half = (config.degree / 2) as int;
            &&& after.start == (nodes * before.id) / (config.workers as int)
            &&& after.end == (nodes * (before.id + 1)) / (config.workers as int)
            &&& after.rows.len() == after.end - after.start
            &&& half < nodes ==> forall|i: int, v: u32|
                0 <= i < after.rows.len() ==> (#[trigger] after.rows[i].contains(v) <==> {
                    let u = after.start + i;
                    let apart = if u <= v {
                        v - u
                    } else {
                        u - v
                    };
                    v < nodes && v != u && (apart <= half || nodes - apart <= half)
                })
            &&& forall|i: int, x: int, y: int|
                0 <= i < after.rows.len() && 0 <= x < y < after.rows[i].len()
                    ==> #[trigger] after.rows[i][x] < #[trigger] after.rows[i][y]
            &&& answer == Ok::<WorkerResponse, String>(
                WorkerResponse::Built {
                    local_nodes: (after.end - after.start) as u32,
                    adjacency_entries: counting::sum(
                        |i: int| after.rows[i].len(),
                        after.rows.len(),
                    ) as u64,
                },
            )
        },
{
    if answer is Ok {
        let nodes = config.nodes as int;
        let half = (config.degree / 2) as int;
        rows::lemma_lengths(after.rows);
        assert((nodes * before.id) / (config.workers as int) == after.start);
        assert((nodes * (before.id + 1)) / (config.workers as int) == after.end);
        if half < nodes {
            assert forall|i: int, v: u32| 0 <= i < after.rows.len() implies (
            #[trigger] after.rows[i].contains(v) <==> {
                let u = after.start + i;
                let apart = if u <= v {
                    v - u
                } else {
                    u - v
                };
                v < nodes && v != u && (apart <= half || nodes - apart <= half)
            }) by {
                let u = after.start + i;
                assert(super::is_ring_row(after.rows[i], nodes, half, u));
                if circle::ring_link(nodes, half, u, v as int) {
                    crate::cluster::lemma_link_below(nodes, half, u, v as int);
                }
                if v < nodes {
                    circle::lemma_ring_link(nodes, half, u, v as int);
                }
            }
        }
        assert forall|i: int, x: int, y: int|
            0 <= i < after.rows.len() && 0 <= x < y < after.rows[i].len() implies
            #[trigger] after.rows[i][x] < #[trigger] after.rows[i][y] by {
            assert(sorted::ascending(after.rows[i]));
        }
    }
}

/// A worker tells how many nodes it owns, and how many entries its rows have.
pub proof fn lemma_stats_rule(shard: ShardView, response: WorkerResponse)
    requires
        shard.stats_outcome(response),
    ensures
        response == (WorkerResponse::GraphStats {
            local_nodes: (shard.end - shard.start) as u32,
            adjacency_entries: counting::sum(
                |i: int| shard.rows[i].len(),
                shard.rows.len(),
            ) as u64,
        }),
        counting::sum(|i: int| shard.rows[i].len(), shard.rows.len()) <= u64::MAX,
{
    rows::lemma_lengths(shard.rows);
}

/// Ring distances are told if and only if the ring is intact and the source is a node
/// of a ring that has links: for every node of the worker's the shorter way around
/// to the source, `K / 2` steps at a time, rounded up; all its nodes are visited, and
/// all but the source are reachable from it.
pub proof fn lemma_distance_rule(
    shard: ShardView,
    source: u32,
    answer: Result<WorkerResponse, String>,
)
    requires
        shard.wf(),
        shard.ring_outcome(source, answer),
    ensures
        answer is Ok <==> shard.config is Some && shard.ring_intact && source
            < shard.config->Some_0.nodes && shard.config->Some_0.degree >= 2,
        answer is Ok ==> {
            let nodes = shard.config->Some_0.nodes as int;
            let half = (shard.config->Some_0.degree / 2) as int;
            let sum = counting::sum(
                |i: int|
                    {
                        let node = shard.start + i;
                        let apart = if node <= source {
                            source - node
                        } else {
                            node - source
                        };
                        ((if apart <= nodes - apart {
                            apart
                        } else {
                            nodes - apart
                        } + half - 1) / half) as nat
                    },
                (shard.end - shard.start) as nat,
            );
            &&& sum <= u64::MAX
            &&& answer == Ok::<WorkerResponse, String>(
                WorkerResponse::RingDistances {
                    distance_sum: sum as u64,
                    reachable: (shard.end - shard.start - if shard.start <= source < shard.end {
                        1int
                    } else {
                        0
                    }) as u64,
                    visited: (shard.end - shard.start) as u64,
                },
            )
        },
{
    if answer is Ok {
        let nodes = shard.config->Some_0.nodes as int;
        let half = (shard.config->Some_0.degree / 2) as int;
        let step = |i: int|
            {
                let node = shard.start + i;
                let apart = if node <= source {
                    source - node
                } else {
                    node - source
                };
                ((if apart <= nodes - apart {
                    apart
                } else {
                    nodes - apart
                } + half - 1) / half) as nat
            };
        lemma_distance_sum(
            nodes,
            half,
            source as int,
            shard.start,
            (shard.end - shard.start) as nat,
            step,
        );
    }
}

proof fn lemma_distance_sum(
    nodes: int,
    half: int,
    source: int,
    start: int,
    count: nat,
    step: spec_fn(int) -> nat,
)
    requires
        0 <= source < nodes,
        0 < half,
        0 <= start,
        start + count <= nodes,
        forall|i: int|
            0 <= i < count ==> #[trigger] step(i) == ({
                let node = start + i;
                let apart = if node <= source {
                    source - node
                } else {
                    node - source
                };
                ((if apart <= nodes - apart {
                    apart
                } else {
                    nodes - apart
                } + half - 1) / half) as nat
            }),
    ensures
        super::ring::ring_distance_sum(nodes, half, source, start, start + count)
            == counting::sum(step, count),
    decreases count,
{
    if count > 0 {
        lemma_distance_sum(nodes, half, source, start, (count - 1) as nat, step);
        assert(step(count - 1) >= 0);
        let node = start + count - 1;
        let way = circle::cyclic(nodes, source, node);
        vstd::arithmetic::div_mod::lemma_div_pos_is_pos(way + half - 1, half);
    }
}

/// Discoveries are accepted if and only if the worker owns them all; as accepted count
/// those not marked before, each once, and all of them are marked.
pub proof fn lemma_discovery_rule(
    shard: ShardView,
    discoveries: Seq<u32>,
    answer: Result<WorkerResponse, String>,
    after: ShardView,
)
    requires
        shard.wf(),
        shard.level_outcome(discoveries, answer, after),
    ensures
        answer is Ok <==> forall|i: int|
            0 <= i < discoveries.len() ==> shard.start <= (#[trigger] discoveries[i]) < shard.end,
        match answer {
            Ok(WorkerResponse::BfsLevelFinished { accepted, frontier, visited }) => {
                &&& accepted == Set::new(
                    |v: u32| discoveries.contains(v) && !shard.visited[v - shard.start],
                ).len()
                &&& after.frontier.len() == shard.next_frontier.len() + accepted
                &&& frontier == after.frontier.len() as u64
                &&& visited == shard.visited_count + accepted
                &&& after.next_frontier.len() == 0
                &&& forall|i: int|
                    0 <= i < shard.visited.len() ==> (#[trigger] after.visited[i]
                        <==> shard.visited[i] || discoveries.contains((shard.start + i) as u32))
            },
            Ok(_) => false,
            Err(_) => true,
        },
{
    if answer is Ok {
        let seen = shard.visited_set();
        let new = fresh(seen, discoveries);
        lemma_fresh(seen, discoveries);
        let set = Set::new(|v: u32| discoveries.contains(v) && !shard.visited[v - shard.start]);
        assert forall|v: u32| set.contains(v) <==> new.contains(v) by {
            if discoveries.contains(v) {
                let i = choose|i: int| 0 <= i < discoveries.len() && discoveries[i] == v;
                assert(shard.owns(discoveries[i] as int));
            }
        }
        assert(set =~= new.to_set());
        new.unique_seq_to_set();
        let all = shard.next_frontier + new;
        assert(all.len() == shard.next_frontier.len() + new.len());
    }
}

/// The last mutation of a row and a neighbor, if any.
pub open spec fn last_change(mutations: Seq<Mutation>, node: u32, other: u32) -> Option<bool>
    decreases mutations.len(),
{
    if mutations.len() == 0 {
        None
    } else if mutations.last().node == node && mutations.last().other == other {
        Some(mutations.last().add)
    } else {
        last_change(mutations.drop_last(), node, other)
    }
}

/// The worker owns the node of mutation `i`, and the mutation changes its row when its
/// turn comes: a neighbor to be added is not there, one to be removed is.
pub open spec fn changes_row(shard: ShardView, mutations: Seq<Mutation>, i: int) -> bool {
    let mutation = mutations[i];
    &&& shard.start <= mutation.node < shard.end
    &&& mutation.add != (match last_change(mutations.take(i), mutation.node, mutation.other) {
        Some(added) => added,
        None => shard.rows[mutation.node - shard.start].contains(mutation.other),
    })
}

/// Mutations are applied if and only if the worker owns all their nodes and each of
/// them changes something when its turn comes: a neighbor to be added is not there, one
/// to be removed is. Then a row holds a neighbor where the last mutation of the
/// two added it, or where there is none and it held it before; the answer counts
/// them, and the ring is intact no more if there was any.
pub proof fn lemma_mutation_rule(
    shard: ShardView,
    mutations: Seq<Mutation>,
    answer: Result<WorkerResponse, String>,
    after: ShardView,
)
    requires
        shard.wf(),
        shard.mutation_outcome(mutations, answer, after),
    ensures
        answer is Ok <==> forall|i: int|
            0 <= i < mutations.len() ==> #[trigger] changes_row(shard, mutations, i),
        answer is Ok ==> {
            &&& answer == Ok::<WorkerResponse, String>(
                WorkerResponse::MutationsApplied { count: mutations.len() as u64 },
            )
            &&& after.rows.len() == shard.rows.len()
            &&& after.ring_intact == (shard.ring_intact && mutations.len() == 0)
            &&& forall|node: u32, other: u32|
                shard.start <= node < shard.end ==> #[trigger] after.rows[node
                    - shard.start].contains(other) == (match last_change(mutations, node, other) {
                    Some(added) => added,
                    None => shard.rows[node - shard.start].contains(other),
                })
        },
{
    lemma_mutations_upto(shard, mutations, mutations.len() as int);
    assert(mutations.take(mutations.len() as int) =~= mutations);
}

#[verifier::rlimit(60)]
proof fn lemma_mutations_upto(shard: ShardView, mutations: Seq<Mutation>, n: int)
    requires
        shard.wf(),
        0 <= n <= mutations.len(),
    ensures
        ({
            let end = shard.mutated_by(mutations.take(n));
            &&& end.failure is None <==> forall|i: int|
                0 <= i < n ==> #[trigger] changes_row(shard, mutations, i)
            &&& end.rows.len() == shard.rows.len()
            &&& forall|i: int|
                0 <= i < end.rows.len() ==> sorted::ascending(#[trigger] end.rows[i])
            &&& end.failure is None ==> {
                &&& end.intact == (shard.ring_intact && n == 0)
                &&& forall|node: u32, other: u32|
                    shard.start <= node < shard.end ==> #[trigger] end.rows[node
                        - shard.start].contains(other) == (match last_change(
                        mutations.take(n),
                        node,
                        other,
                    ) {
                        Some(added) => added,
                        None => shard.rows[node - shard.start].contains(other),
                    })
            }
        }),
    decreases n,
{
    if n == 0 {
        assert(mutations.take(0) =~= Seq::empty());
    } else {
        lemma_mutations_upto(shard, mutations, n - 1);
        let some = mutations.take(n);
        let fewer = mutations.take(n - 1);
        assert(some.drop_last() =~= fewer);
        let mutation = mutations[n - 1];
        assert(some.last() == mutation);
        let before = shard.mutated_by(fewer);
        let end = shard.mutated_by(some);
        assert(end == shard.mutate(before, mutation));
        assert(before.failure is None && shard.owns(mutation.node as int) ==> before.rows[
        mutation.node - shard.start].contains(mutation.other) == (match last_change(
            fewer,
            mutation.node,
            mutation.other,
        ) {
            Some(added) => added,
            None => shard.rows[mutation.node - shard.start].contains(mutation.other),
        }));
        assert(end.failure is None <==> before.failure is None && changes_row(
            shard,
            mutations,
            n - 1,
        ));
        if before.failure is None && shard.owns(mutation.node as int) {
            let at = mutation.node - shard.start;
            let row = before.rows[at];
            assert(sorted::ascending(row));
            assert(before.rows[mutation.node - shard.start].contains(mutation.other) == (
            match last_change(fewer, mutation.node, mutation.other) {
                Some(added) => added,
                None => shard.rows[mutation.node - shard.start].contains(mutation.other),
            }));
            if super::rewire::applicable(row, mutation) {
                if mutation.add {
                    sorted::lemma_with_node(row, mutation.other);
                } else {
                    sorted::lemma_without_node(row, mutation.other);
                }
                assert forall|node: u32, other: u32| shard.start <= node < shard.end implies
                    #[trigger] end.rows[node - shard.start].contains(other) == (
                match last_change(some, node, other) {
                    Some(added) => added,
                    None => shard.rows[node - shard.start].contains(other),
                }) by {
                    assert(before.rows[node - shard.start].contains(other) == (match last_change(
                        fewer,
                        node,
                        other,
                    ) {
                        Some(added) => added,
                        None => shard.rows[node - shard.start].contains(other),
                    }));
                }
            }
        }
    }
}

/// Neighbor `x` of the row is one of the worker's nodes, and linked to neighbor `y`
/// after it.
pub open spec fn knows_link(shard: ShardView, row: Seq<u32>, x: int, y: int) -> bool {
    &&& x < y
    &&& shard.start <= row[x] < shard.end
    &&& shard.rows[row[x] - shard.start].contains(row[y])
}

/// The links into the tail of a sequence, one by one.
pub proof fn lemma_tail_links(row: Seq<u32>, nodes: Seq<u32>, from: int, to: int)
    requires
        0 <= from <= to <= nodes.len(),
    ensures
        super::clustering::links_into(row, nodes.subrange(from, to)) == counting::sum(
            |y: int|
                if from <= y && row.contains(nodes[y]) {
                    1nat
                } else {
                    0
                },
            to as nat,
        ),
    decreases to,
{
    let part = nodes.subrange(from, to);
    if from == to {
        counting::lemma_zero_sum(
            |y: int|
                if from <= y && row.contains(nodes[y]) {
                    1nat
                } else {
                    0
                },
            to as nat,
        );
    } else {
        assert(part.drop_last() =~= nodes.subrange(from, to - 1));
        assert(part.last() == nodes[to - 1]);
        lemma_tail_links(row, nodes, from, to - 1);
    }
}

proof fn lemma_own_links(shard: ShardView, row: Seq<u32>, count: nat)
    requires
        count <= row.len(),
    ensures
        shard.own_links(row, count as int) == counting::sum(
            |x: int|
                counting::sum(
                    |y: int|
                        if knows_link(shard, row, x, y) {
                            1nat
                        } else {
                            0
                        },
                    row.len(),
                ),
            count,
        ),
    decreases count,
{
    if count > 0 {
        let x = count - 1;
        lemma_own_links(shard, row, x as nat);
        let told = |y: int|
            if knows_link(shard, row, x, y) {
                1nat
            } else {
                0
            };
        if shard.owns(row[x] as int) {
            let near = shard.row(row[x] as int);
            assert(row.skip(count as int) =~= row.subrange(count as int, row.len() as int));
            lemma_tail_links(near, row, count as int, row.len() as int);
            let tail = |y: int|
                if count <= y && near.contains(row[y]) {
                    1nat
                } else {
                    0
                };
            counting::lemma_same_sum(tail, told, row.len());
            counting::lemma_same_sum(
                |y: int|
                    if count as int <= y && near.contains(row[y]) {
                        1nat
                    } else {
                        0
                    },
                tail,
                row.len(),
            );
        } else {
            counting::lemma_zero_sum(told, row.len());
        }
    }
}

/// For the vertices that it is asked to prepare a worker tells their degrees, and how
/// many pairs of their neighbors it knows to be linked, the first one being its own.
#[verifier::rlimit(60)]
pub proof fn lemma_prepared_rule(
    shard: ShardView,
    vertices: Seq<u32>,
    output: Seq<WorkerResponse>,
    answer: Result<WorkerResponse, String>,
    written: Seq<WorkerResponse>,
)
    requires
        shard.wf(),
        shard.clustering_outcome(vertices, output, answer, written),
        answer is Ok,
    ensures
        match answer {
            Ok(WorkerResponse::ClusteringPrepared { degrees, local_counts }) => {
                &&& degrees@.len() == vertices.len()
                &&& local_counts@.len() == vertices.len()
                &&& forall|o: int|
                    0 <= o < vertices.len() ==> {
                        let row = shard.rows[vertices[o] - shard.start];
                        &&& shard.start <= vertices[o] < shard.end
                        &&& #[trigger] degrees@[o] == row.len() as u32
                        &&& local_counts@[o] == Set::new(
                            |p: (int, int)|
                                0 <= p.0 < row.len() && 0 <= p.1 < row.len() && knows_link(
                                    shard,
                                    row,
                                    p.0,
                                    p.1,
                                ),
                        ).len() as u64
                    }
            },
            _ => false,
        },
{
    let told = answer->Ok_0;
    assert forall|o: int| 0 <= o < vertices.len() implies {
        let row = shard.rows[vertices[o] - shard.start];
        &&& shard.start <= vertices[o] < shard.end
        &&& #[trigger] told->degrees@[o] == row.len() as u32
        &&& told->local_counts@[o] == Set::new(
            |p: (int, int)|
                0 <= p.0 < row.len() && 0 <= p.1 < row.len() && knows_link(shard, row, p.0, p.1),
        ).len() as u64
    } by {
        let row = shard.rows[vertices[o] - shard.start];
        assert(shard.owns(vertices[o] as int));
        lemma_own_links(shard, row, row.len());
        let kind = |x: int, y: int| knows_link(shard, row, x, y);
        counting::lemma_count_pairs(kind, row.len(), row.len());
        let left = |x: int|
            counting::sum(
                |y: int|
                    if knows_link(shard, row, x, y) {
                        1nat
                    } else {
                        0
                    },
                row.len(),
            );
        let right = |x: int|
            counting::sum(
                |y: int|
                    if kind(x, y) {
                        1nat
                    } else {
                        0
                    },
                row.len(),
            );
        assert forall|x: int| 0 <= x < row.len() implies #[trigger] left(x) == right(x) by {
            counting::lemma_same_sum(
                |y: int|
                    if knows_link(shard, row, x, y) {
                        1nat
                    } else {
                        0
                    },
                |y: int|
                    if kind(x, y) {
                        1nat
                    } else {
                        0
                    },
                row.len(),
            );
        }
        counting::lemma_same_sum(left, right, row.len());
        assert(Set::new(
            |p: (int, int)|
                0 <= p.0 < row.len() && 0 <= p.1 < row.len() && kind(p.0, p.1),
        ) =~= Set::new(
            |p: (int, int)|
                0 <= p.0 < row.len() && 0 <= p.1 < row.len() && knows_link(shard, row, p.0, p.1),
        ));
    }
}

proof fn lemma_hits(shard: ShardView, queries: Seq<EdgeQuery>, origin: u32)
    ensures
        shard.hits(queries, origin) == Set::new(
            |i: int|
                0 <= i < queries.len() && queries[i].origin_index == origin && shard.row(
                    queries[i].a as int,
                ).contains(queries[i].b),
        ).len(),
        Set::new(
            |i: int|
                0 <= i < queries.len() && queries[i].origin_index == origin && shard.row(
                    queries[i].a as int,
                ).contains(queries[i].b),
        ).finite(),
    decreases queries.len(),
{
    let all = Set::new(
        |i: int|
            0 <= i < queries.len() && queries[i].origin_index == origin && shard.row(
                queries[i].a as int,
            ).contains(queries[i].b),
    );
    if queries.len() == 0 {
        assert(all =~= Set::empty());
    } else {
        let short = queries.drop_last();
        lemma_hits(shard, short, origin);
        let fewer = Set::new(
            |i: int|
                0 <= i < short.len() && short[i].origin_index == origin && shard.row(
                    short[i].a as int,
                ).contains(short[i].b),
        );
        let last = queries.len() - 1;
        if queries[last].origin_index == origin && shard.row(queries[last].a as int).contains(
            queries[last].b,
        ) {
            assert(all =~= fewer.insert(last));
        } else {
            assert(all =~= fewer);
        }
    }
}

/// Queries are answered if and only if the worker owns all the nodes whose rows they ask
/// about: for every origin with a hit, in ascending order, how many of its queries
/// found a link.
#[verifier::rlimit(60)]
pub proof fn lemma_answer_rule(
    shard: ShardView,
    queries: Seq<EdgeQuery>,
    answer: Result<WorkerResponse, String>,
)
    requires
        shard.query_outcome(queries, answer),
    ensures
        answer is Ok <==> forall|i: int|
            0 <= i < queries.len() ==> shard.start <= (#[trigger] queries[i]).a < shard.end,
        match answer {
            Ok(WorkerResponse::EdgeQueriesResolved { counts }) => {
                &&& forall|k: int, l: int|
                    0 <= k < l < counts@.len() ==> (#[trigger] counts@[k]).0 < (
                    #[trigger] counts@[l]).0
                &&& forall|k: int|
                    0 <= k < counts@.len() ==> (#[trigger] counts@[k]).1 > 0 && counts@[k].1
                        == Set::new(
                        |i: int|
                            0 <= i < queries.len() && queries[i].origin_index == counts@[k].0
                                && shard.rows[queries[i].a - shard.start].contains(queries[i].b),
                    ).len()
                &&& forall|i: int|
                    0 <= i < queries.len() && shard.rows[(#[trigger] queries[i]).a
                        - shard.start].contains(queries[i].b) ==> exists|k: int|
                        0 <= k < counts@.len() && (#[trigger] counts@[k]).0
                            == queries[i].origin_index
            },
            Ok(_) => false,
            Err(_) => true,
        },
{
    let nodes = super::clustering::asked_nodes(queries);
    assert(shard.owns_all(nodes) <==> forall|i: int|
        0 <= i < queries.len() ==> shard.start <= (#[trigger] queries[i]).a < shard.end) by {
        if shard.owns_all(nodes) {
            assert forall|i: int| 0 <= i < queries.len() implies shard.start <= (
            #[trigger] queries[i]).a < shard.end by {
                assert(shard.owns(nodes[i] as int));
            }
        }
    }
    if answer is Ok {
        let counts = answer->Ok_0->counts;
        assert forall|k: int| 0 <= k < counts@.len() implies (#[trigger] counts@[k]).1 > 0
            && counts@[k].1 == Set::new(
            |i: int|
                0 <= i < queries.len() && queries[i].origin_index == counts@[k].0
                    && shard.rows[queries[i].a - shard.start].contains(queries[i].b),
        ).len() by {
            lemma_hits(shard, queries, counts@[k].0);
            assert(Set::new(
                |i: int|
                    0 <= i < queries.len() && queries[i].origin_index == counts@[k].0
                        && shard.rows[queries[i].a - shard.start].contains(queries[i].b),
            ) =~= Set::new(
                |i: int|
                    0 <= i < queries.len() && queries[i].origin_index == counts@[k].0 && shard.row(
                        queries[i].a as int,
                    ).contains(queries[i].b),
            ));
        }
        assert forall|i: int|
            0 <= i < queries.len() && shard.rows[(#[trigger] queries[i]).a
                - shard.start].contains(queries[i].b) implies exists|k: int|
            0 <= k < counts@.len() && (#[trigger] counts@[k]).0 == queries[i].origin_index by {
            let origin = queries[i].origin_index;
            lemma_hits(shard, queries, origin);
            let found = Set::new(
                |i: int|
                    0 <= i < queries.len() && queries[i].origin_index == origin && shard.row(
                        queries[i].a as int,
                    ).contains(queries[i].b),
            );
            assert(found.contains(i));
            if found.len() == 0 {
                assert(found =~= Set::empty());
            }
            assert(super::clustering::has_origin(counts@, origin));
        }
    }
}

/// A search starts with the source marked, counted and in the frontier, where the worker
/// owns it; with no other node marked or reported, and nothing found yet.
pub proof fn lemma_start_rule(
    shard: ShardView,
    source: u32,
    answer: Result<WorkerResponse, String>,
    after: ShardView,
)
    requires
        shard.wf(),
        shard.start_outcome(source, answer, after),
    ensures
        answer is Ok <==> shard.config is Some,
        answer is Err ==> after == shard,
        answer is Ok ==> {
            let own = shard.start <= source < shard.end;
            &&& answer == Ok::<WorkerResponse, String>(WorkerResponse::BfsStarted)
            &&& after.visited.len() == shard.end - shard.start
            &&& forall|i: int|
                0 <= i < after.visited.len() ==> (#[trigger] after.visited[i] <==> shard.start + i
                    == source)
            &&& after.visited_count == if own {
                1nat
            } else {
                0
            }
            &&& after.frontier == if own {
                seq![source]
            } else {
                Seq::<u32>::empty()
            }
            &&& after.next_frontier.len() == 0
            &&& forall|v: int| 0 <= v < after.remote.len() ==> !#[trigger] after.remote[v]
            &&& shard.config->Some_0.workers > 1 ==> after.remote.len()
                >= shard.config->Some_0.nodes
            &&& after.rows == shard.rows
            &&& after.ring_intact == shard.ring_intact
        },
{
}

/// An advance makes the next frontier the frontier, tells how long it is and how many
/// nodes are counted, and changes nothing else.
pub proof fn lemma_advance_rule(shard: ShardView, response: WorkerResponse, after: ShardView)
    requires
        shard.advance_outcome(response, after),
    ensures
        after.frontier == shard.next_frontier,
        after.next_frontier.len() == 0,
        after.visited == shard.visited,
        after.visited_count == shard.visited_count,
        after.remote == shard.remote,
        after.rows == shard.rows,
        response == (WorkerResponse::BfsAdvanced {
            frontier: shard.next_frontier.len() as u64,
            visited: shard.visited_count as u64,
        }),
{
}

/// What is found by an expansion joins the next frontier and the count: the new nodes of
/// the frontier are those newly marked, each once, and the count grows by as many.
#[verifier::rlimit(60)]
pub proof fn lemma_expand_rule(
    shard: ShardView,
    answer: Result<WorkerResponse, String>,
    after: ShardView,
)
    requires
        shard.wf(),
        shard.config is Some,
        shard.expandable(),
        shard.expand_outcome(answer, after),
    ensures
        match answer {
            Ok(WorkerResponse::BfsExpanded { local_discovered, .. }) => {
                let new = after.next_frontier.skip(shard.next_frontier.len() as int);
                &&& after.frontier == shard.frontier
                &&& after.next_frontier.take(shard.next_frontier.len() as int)
                    == shard.next_frontier
                &&& new.no_duplicates()
                &&& new.len() == local_discovered
                &&& after.visited_count == shard.visited_count + local_discovered
                &&& forall|v: u32| #[trigger]
                    new.contains(v) <==> {
                        &&& shard.start <= v < shard.end
                        &&& !shard.visited[v - shard.start]
                        &&& exists|u: u32| #[trigger]
                            shard.frontier.contains(u) && shard.rows[u - shard.start].contains(v)
                    }
                &&& forall|i: int|
                    0 <= i < shard.visited.len() ==> (#[trigger] after.visited[i]
                        <==> shard.visited[i] || new.contains((shard.start + i) as u32))
                &&& after.rows == shard.rows
            },
            _ => false,
        },
{
    let local = shard.local_reach();
    let new = fresh(shard.visited_set(), local);
    lemma_fresh(shard.visited_set(), local);
    assert(after.next_frontier.skip(shard.next_frontier.len() as int) =~= new);
    assert(after.next_frontier.take(shard.next_frontier.len() as int) =~= shard.next_frontier);
    super::bfs::lemma_owned_part(shard.reach(), shard.config->Some_0, shard.id as int);
    assert forall|v: u32| local.contains(v) implies shard.owns(v as int) by {
        lemma_reached_below(shard, v);
        super::bfs::lemma_own(shard, v as int);
    }
    assert forall|v: u32| #[trigger] new.contains(v) <==> {
        &&& shard.start <= v < shard.end
        &&& !shard.visited[v - shard.start]
        &&& exists|u: u32| #[trigger]
            shard.frontier.contains(u) && shard.rows[u - shard.start].contains(v)
    } by {
        super::bfs::lemma_reached(shard.rows, shard.start, shard.frontier, v);
        if shard.reach().contains(v) {
            lemma_reached_below(shard, v);
            super::bfs::lemma_own(shard, v as int);
        }
    }
    assert forall|i: int| 0 <= i < shard.visited.len() implies (#[trigger] after.visited[i]
        <==> shard.visited[i] || new.contains((shard.start + i) as u32)) by {
        let v = (shard.start + i) as u32;
        assert(v as int == shard.start + i);
    }
}

proof fn lemma_reached_below(shard: ShardView, v: u32)
    requires
        shard.wf(),
        shard.config is Some,
        shard.expandable(),
        shard.reach().contains(v),
    ensures
        v < shard.config->Some_0.nodes,
{
    super::bfs::lemma_reached(shard.rows, shard.start, shard.frontier, v);
    let u = choose|u: u32| #[trigger]
        shard.frontier.contains(u) && shard.rows[u - shard.start].contains(v);
    let i = choose|i: int| 0 <= i < shard.frontier.len() && shard.frontier[i] == u;
    let row = shard.row(u as int);
    let j = choose|j: int| 0 <= j < row.len() && row[j] == v;
    assert(shard.row(shard.frontier[i] as int)[j] == v);
}

/// A pass considers `K / 2` edges for each of the worker's nodes, whatever becomes of
/// them, and rewires no more than it considers; none where the probability is zero.
pub proof fn lemma_considered_rule(
    shard: ShardView,
    probability: crate::probability::Probability,
    seed: u64,
    output: Seq<WorkerResponse>,
    answer: Result<WorkerResponse, String>,
    after: ShardView,
    written: Seq<WorkerResponse>,
)
    requires
        shard.wf(),
        shard.rewire_outcome(probability, seed, output, answer, after, written),
        answer is Ok,
    ensures
        match answer {
            Ok(WorkerResponse::Rewired { considered, rewired }) => {
                &&& considered == (shard.end - shard.start) * (shard.config->Some_0.degree / 2)
                &&& rewired <= considered
                &&& (probability.bits == 0 || probability.bits == 0x8000_0000_0000_0000)
                    ==> rewired == 0 && after == shard && written == output
            },
            _ => false,
        },
{
    let total = shard.edge_total();
    if !probability.zero() {
        lemma_no_more(
            shard,
            shard.pass_start(),
            probability.chance->Some_0,
            seed,
            0,
            total,
        );
    }
}

proof fn lemma_no_more(
    shard: ShardView,
    state: super::rewire::PassState,
    chance: rand::distributions::Bernoulli,
    seed: u64,
    from: int,
    to: int,
)
    requires
        from <= to,
    ensures
        shard.run(state, chance, seed, from, to).rewired <= state.rewired + (to - from),
    decreases to - from,
{
    if from < to {
        lemma_no_more(shard, state, chance, seed, from, to - 1);
    }
}

/// What is said of requests that cannot be met.
pub proof fn lemma_words(id: nat, node: nat, start: nat, end: nat, mutation: Mutation)
    ensures
        super::not_built_text() == "worker has not built a shard"@,
        super::not_owned_text(id, node, start, end) == "worker "@ + crate::text::decimal(id)
            + " does not own node "@ + crate::text::decimal(node) + " (owns "@
            + crate::text::decimal(start) + ".."@ + crate::text::decimal(end) + ")"@,
        super::ring::no_ring_text() == "ring distances require an intact ring and a valid source"@,
        super::rewire::not_applicable_text(mutation) == "mutation was not applicable: node="@
            + crate::text::decimal(mutation.node as nat) + ", other="@ + crate::text::decimal(
            mutation.other as nat,
        ) + ", add="@ + if mutation.add {
            "true"@
        } else {
            "false"@
        },
{
}

} // verus!
