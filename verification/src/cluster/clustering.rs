//! The links between neighbors, counted by many workers.

use super::{cluster, owner, placed, simple, sound_row};
use crate::batches;
use crate::coordinator;
use crate::protocol::{ClusterConfig, EdgeQuery};
use crate::worker::clustering::{links_into, query_target};
use crate::worker::ShardView;
use crate::worker;
use vstd::prelude::*;

verus! {

/// The links between the first `count` neighbors in the row and the neighbors
/// after each of them.
pub open spec fn linked_pairs(graph: Seq<Seq<u32>>, row: Seq<u32>, count: int) -> nat
    decreases count,
{
    if count <= 0 {
        0
    } else {
        linked_pairs(graph, row, count - 1) + links_into(
            graph[row[count - 1] as int],
            row.skip(count),
        )
    }
}

/// How many queries of this origin find a link in the graph.
pub open spec fn true_hits(graph: Seq<Seq<u32>>, queries: Seq<EdgeQuery>, origin: u32) -> nat
    decreases queries.len(),
{
    if queries.len() == 0 {
        0
    } else {
        let last = queries.last();
        true_hits(graph, queries.drop_last(), origin) + if last.origin_index == origin
            && graph[last.a as int].contains(last.b) {
            1nat
        } else {
            0
        }
    }
}

/// What the first `count` workers answer for this origin, each to the queries meant for it.
pub open spec fn all_hits(
    shards: Seq<ShardView>,
    config: ClusterConfig,
    queries: Seq<EdgeQuery>,
    origin: u32,
    count: int,
) -> nat
    decreases count,
{
    if count <= 0 {
        0
    } else {
        all_hits(shards, config, queries, origin, count - 1) + shards[count - 1].hits(
            batches::meant_for(queries, query_target(config), count - 1),
            origin,
        )
    }
}

/// Queries in two parts.
pub proof fn lemma_true_hits_sum(
    graph: Seq<Seq<u32>>,
    a: Seq<EdgeQuery>,
    b: Seq<EdgeQuery>,
    origin: u32,
)
    ensures
        true_hits(graph, a + b, origin) == true_hits(graph, a, origin) + true_hits(
            graph,
            b,
            origin,
        ),
    decreases b.len(),
{
    if b.len() == 0 {
        assert(a + b =~= a);
    } else {
        assert((a + b).drop_last() =~= a + b.drop_last());
        lemma_true_hits_sum(graph, a, b.drop_last(), origin);
    }
}

/// A worker answers two batches as it answers them in one.
pub proof fn lemma_hits_sum(shard: ShardView, a: Seq<EdgeQuery>, b: Seq<EdgeQuery>, origin: u32)
    ensures
        shard.hits(a + b, origin) == shard.hits(a, origin) + shard.hits(b, origin),
    decreases b.len(),
{
    if b.len() == 0 {
        assert(a + b =~= a);
    } else {
        assert((a + b).drop_last() =~= a + b.drop_last());
        lemma_hits_sum(shard, a, b.drop_last(), origin);
    }
}

/// Asking every worker what is meant for it finds every link there is.
pub proof fn lemma_all_hits(
    shards: Seq<ShardView>,
    config: ClusterConfig,
    graph: Seq<Seq<u32>>,
    queries: Seq<EdgeQuery>,
    origin: u32,
)
    requires
        config.workers > 0,
        cluster(shards, config, graph),
        forall|i: int| 0 <= i < queries.len() ==> (#[trigger] queries[i]).a < config.nodes,
    ensures
        all_hits(shards, config, queries, origin, config.workers as int) == true_hits(
            graph,
            queries,
            origin,
        ),
    decreases queries.len(),
{
    let workers = config.workers as int;
    if queries.len() == 0 {
        lemma_no_hits(shards, config, queries, origin, workers);
    } else {
        let shorter = queries.drop_last();
        let last = queries.last();
        assert(queries[queries.len() - 1] == last);
        assert forall|i: int| 0 <= i < shorter.len() implies (#[trigger] shorter[i]).a
            < config.nodes by {
            assert(shorter[i] == queries[i]);
        }
        lemma_all_hits(shards, config, graph, shorter, origin);
        super::lemma_row(shards, config, graph, last.a as int);
        lemma_hits_push(shards, config, graph, queries, origin, workers);
    }
}

proof fn lemma_no_hits(
    shards: Seq<ShardView>,
    config: ClusterConfig,
    queries: Seq<EdgeQuery>,
    origin: u32,
    count: int,
)
    requires
        queries.len() == 0,
    ensures
        all_hits(shards, config, queries, origin, count) == 0,
    decreases count,
{
    if count > 0 {
        lemma_no_hits(shards, config, queries, origin, count - 1);
    }
}

/// One more query is answered by one worker.
proof fn lemma_hits_push(
    shards: Seq<ShardView>,
    config: ClusterConfig,
    graph: Seq<Seq<u32>>,
    queries: Seq<EdgeQuery>,
    origin: u32,
    count: int,
)
    requires
        queries.len() > 0,
        0 <= count <= shards.len(),
        0 <= owner(config, queries.last().a as int) < shards.len(),
        shards[owner(config, queries.last().a as int)].row(queries.last().a as int)
            == graph[queries.last().a as int],
    ensures
        all_hits(shards, config, queries, origin, count) == all_hits(
            shards,
            config,
            queries.drop_last(),
            origin,
            count,
        ) + if owner(config, queries.last().a as int) < count && queries.last().origin_index
            == origin && graph[queries.last().a as int].contains(queries.last().b) {
            1nat
        } else {
            0
        },
    decreases count,
{
    if count > 0 {
        lemma_hits_push(shards, config, graph, queries, origin, count - 1);
        let t = count - 1;
        let target = query_target(config);
        assert(target(queries.last()) == owner(config, queries.last().a as int));
        let fewer = batches::meant_for(queries.drop_last(), target, t);
        if target(queries.last()) == t {
            assert(fewer.push(queries.last()).drop_last() =~= fewer);
        }
    }
}

/// The links that a worker tells itself and those that the others tell are all
/// the links between the neighbors.
proof fn lemma_row_links(
    shard: ShardView,
    config: ClusterConfig,
    t: int,
    graph: Seq<Seq<u32>>,
    origin: int,
    row: Seq<u32>,
    count: int,
)
    requires
        placed(shard, config, t),
        super::holds(shard, graph),
        0 <= count <= row.len(),
        0 <= origin <= u32::MAX,
    ensures
        shard.own_links(row, count) + true_hits(
            graph,
            shard.row_queries(origin, row, count),
            origin as u32,
        ) == linked_pairs(graph, row, count),
    decreases count,
{
    if count > 0 {
        lemma_row_links(shard, config, t, graph, origin, row, count - 1);
        let tail = shard.tail_queries(origin, row, count - 1, row.len() as int);
        lemma_true_hits_sum(
            graph,
            shard.row_queries(origin, row, count - 1),
            tail,
            origin as u32,
        );
        let a = row[count - 1];
        if shard.owns(a as int) {
            assert(shard.rows[a - shard.start] == graph[shard.start + (a - shard.start)]);
        } else {
            lemma_tail_hits(shard, graph, origin, row, count - 1, row.len() as int);
            assert(row.subrange(count, row.len() as int) =~= row.skip(count));
        }
    }
}

/// Questions about one neighbor.
proof fn lemma_tail_hits(
    shard: ShardView,
    graph: Seq<Seq<u32>>,
    origin: int,
    row: Seq<u32>,
    first: int,
    end: int,
)
    requires
        0 <= first < end <= row.len(),
        0 <= origin <= u32::MAX,
        !shard.owns(row[first] as int),
    ensures
        true_hits(graph, shard.tail_queries(origin, row, first, end), origin as u32) == links_into(
            graph[row[first] as int],
            row.subrange(first + 1, end),
        ),
    decreases end,
{
    let queries = shard.tail_queries(origin, row, first, end);
    let nodes = row.subrange(first + 1, end);
    if end > first + 1 {
        lemma_tail_hits(shard, graph, origin, row, first, end - 1);
        assert(queries.drop_last() =~= shard.tail_queries(origin, row, first, end - 1));
        assert(nodes.drop_last() =~= row.subrange(first + 1, end - 1));
        assert(queries.last() == (EdgeQuery {
            origin_index: origin as u32,
            a: row[first],
            b: row[end - 1],
        }));
    }
}

/// Questions of one vertex do not count for another.
proof fn lemma_foreign_origin(
    shard: ShardView,
    graph: Seq<Seq<u32>>,
    row: Seq<u32>,
    origin: int,
    other: int,
    count: int,
)
    requires
        0 <= origin <= u32::MAX,
        0 <= other <= u32::MAX,
        origin != other,
        0 <= count <= row.len(),
    ensures
        true_hits(graph, shard.row_queries(origin, row, count), other as u32) == 0,
    decreases count,
{
    if count > 0 {
        lemma_foreign_origin(shard, graph, row, origin, other, count - 1);
        let tail = shard.tail_queries(origin, row, count - 1, row.len() as int);
        lemma_true_hits_sum(
            graph,
            shard.row_queries(origin, row, count - 1),
            tail,
            other as u32,
        );
        lemma_other_hits(graph, tail, origin as u32, other as u32);
    }
}

proof fn lemma_other_hits(
    graph: Seq<Seq<u32>>,
    queries: Seq<EdgeQuery>,
    origin: u32,
    other: u32,
)
    requires
        origin != other,
        forall|i: int| 0 <= i < queries.len() ==> (#[trigger] queries[i]).origin_index == origin,
    ensures
        true_hits(graph, queries, other) == 0,
    decreases queries.len(),
{
    if queries.len() > 0 {
        let shorter = queries.drop_last();
        assert forall|i: int| 0 <= i < shorter.len() implies (#[trigger] shorter[i]).origin_index
            == origin by {
            assert(shorter[i] == queries[i]);
        }
        lemma_other_hits(graph, shorter, origin, other);
        assert(queries[queries.len() - 1].origin_index == origin);
    }
}

/// The questions about all vertices, seen from one of them.
proof fn lemma_vertex_hits(
    shard: ShardView,
    graph: Seq<Seq<u32>>,
    vertices: Seq<u32>,
    o: int,
)
    requires
        0 <= o < vertices.len() <= u32::MAX + 1,
    ensures
        ({
            let row = shard.row(vertices[o] as int);
            true_hits(graph, shard.all_queries(vertices), o as u32) == true_hits(
                graph,
                shard.row_queries(o, row, row.len() as int),
                o as u32,
            )
        }),
    decreases vertices.len(),
{
    let shorter = vertices.drop_last();
    let last = vertices.len() - 1;
    let row = shard.row(vertices.last() as int);
    let more = shard.row_queries(last, row, row.len() as int);
    lemma_true_hits_sum(graph, shard.all_queries(shorter), more, o as u32);
    if o == last {
        lemma_earlier_hits(shard, graph, shorter, o);
    } else {
        assert(shorter[o] == vertices[o]);
        lemma_vertex_hits(shard, graph, shorter, o);
        lemma_foreign_origin(shard, graph, row, last, o, row.len() as int);
    }
}

proof fn lemma_earlier_hits(shard: ShardView, graph: Seq<Seq<u32>>, vertices: Seq<u32>, o: int)
    requires
        vertices.len() <= o <= u32::MAX,
    ensures
        true_hits(graph, shard.all_queries(vertices), o as u32) == 0,
    decreases vertices.len(),
{
    if vertices.len() > 0 {
        let shorter = vertices.drop_last();
        let last = vertices.len() - 1;
        let row = shard.row(vertices.last() as int);
        let more = shard.row_queries(last, row, row.len() as int);
        lemma_true_hits_sum(graph, shard.all_queries(shorter), more, o as u32);
        lemma_earlier_hits(shard, graph, shorter, o);
        lemma_foreign_origin(shard, graph, row, last, o, row.len() as int);
    }
}

/// Every question is about a node of the graph.
pub proof fn lemma_queries_below(
    shard: ShardView,
    config: ClusterConfig,
    t: int,
    graph: Seq<Seq<u32>>,
    vertices: Seq<u32>,
)
    requires
        placed(shard, config, t),
        super::holds(shard, graph),
        graph.len() == config.nodes,
        simple(graph),
        shard.owns_all(vertices),
    ensures
        forall|i: int|
            0 <= i < shard.all_queries(vertices).len() ==> (#[trigger] shard.all_queries(
                vertices,
            )[i]).a < config.nodes,
    decreases vertices.len(),
{
    if vertices.len() > 0 {
        let shorter = vertices.drop_last();
        assert forall|i: int| 0 <= i < shorter.len() implies shard.owns(
            #[trigger] shorter[i] as int,
        ) by {
            assert(shorter[i] == vertices[i]);
        }
        lemma_queries_below(shard, config, t, graph, shorter);
        let u = vertices[vertices.len() - 1];
        assert(shard.owns(u as int));
        super::lemma_bounds(config, t);
        let row = shard.row(u as int);
        assert(shard.rows[u - shard.start] == graph[shard.start + (u - shard.start)]);
        assert(sound_row(graph, u as int));
        lemma_row_below(shard, config, vertices.len() - 1, row, row.len() as int);
        let earlier = shard.all_queries(shorter);
        let more = shard.row_queries(vertices.len() - 1, row, row.len() as int);
        let all = shard.all_queries(vertices);
        assert forall|i: int| 0 <= i < all.len() implies (#[trigger] all[i]).a < config.nodes by {
            if i < earlier.len() {
                assert(all[i] == earlier[i]);
            } else {
                assert(all[i] == more[i - earlier.len()]);
            }
        }
    }
}

proof fn lemma_row_below(
    shard: ShardView,
    config: ClusterConfig,
    origin: int,
    row: Seq<u32>,
    count: int,
)
    requires
        0 <= count <= row.len(),
        forall|v: u32| #[trigger] row.contains(v) ==> v < config.nodes,
    ensures
        forall|i: int|
            0 <= i < shard.row_queries(origin, row, count).len() ==> (
            #[trigger] shard.row_queries(origin, row, count)[i]).a < config.nodes,
    decreases count,
{
    if count > 0 {
        lemma_row_below(shard, config, origin, row, count - 1);
        assert(row.contains(row[count - 1]));
        let earlier = shard.row_queries(origin, row, count - 1);
        let tail = shard.tail_queries(origin, row, count - 1, row.len() as int);
        let all = shard.row_queries(origin, row, count);
        assert forall|i: int| 0 <= i < all.len() implies (#[trigger] all[i]).a < config.nodes by {
            if i < earlier.len() {
                assert(all[i] == earlier[i]);
            } else {
                assert(all[i] == tail[i - earlier.len()]);
            }
        }
    }
}

/// No question is about a row of the worker's own.
pub proof fn lemma_asked_foreign(shard: ShardView, vertices: Seq<u32>, x: int)
    requires
        0 <= x < shard.all_queries(vertices).len(),
    ensures
        !shard.owns(shard.all_queries(vertices)[x].a as int),
    decreases vertices.len(),
{
    if vertices.len() > 0 {
        let shorter = vertices.drop_last();
        let earlier = shard.all_queries(shorter);
        let row = shard.row(vertices.last() as int);
        let more = shard.row_queries(vertices.len() - 1, row, row.len() as int);
        if x < earlier.len() {
            lemma_asked_foreign(shard, shorter, x);
            assert(shard.all_queries(vertices)[x] == earlier[x]);
        } else {
            lemma_row_foreign(shard, vertices.len() - 1, row, row.len() as int, x - earlier.len());
            assert(shard.all_queries(vertices)[x] == more[x - earlier.len()]);
        }
    }
}

proof fn lemma_row_foreign(shard: ShardView, origin: int, row: Seq<u32>, count: int, x: int)
    requires
        0 <= count <= row.len(),
        0 <= x < shard.row_queries(origin, row, count).len(),
    ensures
        !shard.owns(shard.row_queries(origin, row, count)[x].a as int),
    decreases count,
{
    if count > 0 {
        let earlier = shard.row_queries(origin, row, count - 1);
        let tail = shard.tail_queries(origin, row, count - 1, row.len() as int);
        let all = shard.row_queries(origin, row, count);
        if x < earlier.len() {
            lemma_row_foreign(shard, origin, row, count - 1, x);
            assert(all[x] == earlier[x]);
        } else {
            assert(all[x] == tail[x - earlier.len()]);
        }
    }
}

/// The links that a worker tells for a vertex of its own, together with what
/// all the workers answer to its questions, are the linked pairs among the
/// vertex's neighbors in the graph.
pub proof fn lemma_clustering(
    shards: Seq<ShardView>,
    config: ClusterConfig,
    graph: Seq<Seq<u32>>,
    t: int,
    vertices: Seq<u32>,
    o: int,
)
    requires
        config.workers > 0,
        cluster(shards, config, graph),
        simple(graph),
        0 <= t < config.workers,
        shards[t].owns_all(vertices),
        0 <= o < vertices.len() <= u32::MAX + 1,
    ensures
        ({
            let row = graph[vertices[o] as int];
            shards[t].own_links(shards[t].row(vertices[o] as int), row.len() as int) + all_hits(
                shards,
                config,
                shards[t].all_queries(vertices),
                o as u32,
                config.workers as int,
            ) == linked_pairs(graph, row, row.len() as int)
        }),
{
    let shard = shards[t];
    assert(placed(shard, config, t) && super::holds(shard, graph));
    lemma_queries_below(shard, config, t, graph, vertices);
    lemma_all_hits(shards, config, graph, shard.all_queries(vertices), o as u32);
    lemma_vertex_hits(shard, graph, vertices, o);
    let u = vertices[o];
    assert(shard.owns(u as int));
    assert(shard.rows[u - shard.start] == graph[shard.start + (u - shard.start)]);
    let row = shard.row(u as int);
    lemma_row_links(shard, config, t, graph, o, row, row.len() as int);
}

/// The coordinator counts for every origin what the worker's answer tells of it.
pub proof fn lemma_tallied(
    shard: ShardView,
    queries: Seq<EdgeQuery>,
    counts: Seq<(u32, u64)>,
    origin: u32,
)
    requires
        shard.tallies(counts, queries),
    ensures
        coordinator::clustering::links_for(counts, origin as int) == shard.hits(queries, origin),
{
    let hits = shard.hits(queries, origin);
    if hits > 0 {
        assert(worker::clustering::has_origin(counts, origin));
        let i = choose|i: int| 0 <= i < counts.len() && (#[trigger] counts[i]).0 == origin;
        assert(counts[i].1 == hits);
        lemma_one_entry(counts, origin, i, counts.len() as int);
    } else {
        assert forall|j: int| 0 <= j < counts.len() implies (#[trigger] counts[j]).0
            != origin by {}
        lemma_no_entry(counts, origin, counts.len() as int);
    }
    assert(counts.take(counts.len() as int) =~= counts);
}

proof fn lemma_no_entry(counts: Seq<(u32, u64)>, origin: u32, k: int)
    requires
        0 <= k <= counts.len(),
        forall|j: int| 0 <= j < k ==> (#[trigger] counts[j]).0 != origin,
    ensures
        coordinator::clustering::links_for(counts.take(k), origin as int) == 0,
    decreases k,
{
    if k > 0 {
        lemma_no_entry(counts, origin, k - 1);
        assert(counts.take(k).drop_last() =~= counts.take(k - 1));
        assert(counts[k - 1].0 != origin);
    }
}

proof fn lemma_one_entry(counts: Seq<(u32, u64)>, origin: u32, i: int, k: int)
    requires
        worker::clustering::origins_ascend(counts),
        0 <= i < k <= counts.len(),
        counts[i].0 == origin,
    ensures
        coordinator::clustering::links_for(counts.take(k), origin as int) == counts[i].1,
    decreases k,
{
    assert(counts.take(k).drop_last() =~= counts.take(k - 1));
    if i == k - 1 {
        assert forall|j: int| 0 <= j < k - 1 implies (#[trigger] counts[j]).0 != origin by {
            assert(counts[j].0 < counts[i].0);
        }
        lemma_no_entry(counts, origin, k - 1);
    } else {
        lemma_one_entry(counts, origin, i, k - 1);
        assert(counts[i].0 < counts[k - 1].0);
    }
}

/// All the batches that a worker's clustering pass sends for its vertices.
pub open spec fn query_batches(shard: ShardView, config: ClusterConfig, vertices: Seq<u32>) -> Seq<
    (u32, Seq<EdgeQuery>),
> {
    batches::sent_in_all(
        batches::Waiting::<EdgeQuery>::none(config.workers as nat),
        shard.all_queries(vertices),
        query_target(config),
    )
}

/// What the workers answer for this origin, each to the batches sent to it, batch by batch.
pub open spec fn batch_hits(
    shards: Seq<ShardView>,
    sent: Seq<(u32, Seq<EdgeQuery>)>,
    origin: u32,
) -> nat
    decreases sent.len(),
{
    if sent.len() == 0 {
        0
    } else {
        batch_hits(shards, sent.drop_last(), origin) + shards[sent.last().0 as int].hits(
            sent.last().1,
            origin,
        )
    }
}

/// What the first `count` workers answer to all that was delivered to them.
spec fn delivered_hits(
    shards: Seq<ShardView>,
    sent: Seq<(u32, Seq<EdgeQuery>)>,
    origin: u32,
    count: int,
) -> nat
    decreases count,
{
    if count <= 0 {
        0
    } else {
        delivered_hits(shards, sent, origin, count - 1) + shards[count - 1].hits(
            batches::delivered(sent, count - 1),
            origin,
        )
    }
}

/// One more batch counts for its target.
proof fn lemma_delivered_hits_step(
    shards: Seq<ShardView>,
    sent: Seq<(u32, Seq<EdgeQuery>)>,
    origin: u32,
    count: int,
)
    requires
        sent.len() > 0,
        0 <= count,
    ensures
        delivered_hits(shards, sent, origin, count) == delivered_hits(
            shards,
            sent.drop_last(),
            origin,
            count,
        ) + if sent.last().0 < count {
            shards[sent.last().0 as int].hits(sent.last().1, origin)
        } else {
            0
        },
    decreases count,
{
    if count > 0 {
        lemma_delivered_hits_step(shards, sent, origin, count - 1);
        let t = count - 1;
        if sent.last().0 == t {
            lemma_hits_sum(
                shards[t],
                batches::delivered(sent.drop_last(), t),
                sent.last().1,
                origin,
            );
        }
    }
}

proof fn lemma_no_delivered_hits(shards: Seq<ShardView>, origin: u32, count: int)
    ensures
        delivered_hits(shards, Seq::empty(), origin, count) == 0,
    decreases count,
{
    if count > 0 {
        lemma_no_delivered_hits(shards, origin, count - 1);
    }
}

/// The hits of the single batches are the hits of all that was delivered.
proof fn lemma_batch_hits(
    shards: Seq<ShardView>,
    sent: Seq<(u32, Seq<EdgeQuery>)>,
    origin: u32,
    count: int,
)
    requires
        0 <= count,
        forall|i: int| 0 <= i < sent.len() ==> (#[trigger] sent[i]).0 < count,
    ensures
        batch_hits(shards, sent, origin) == delivered_hits(shards, sent, origin, count),
    decreases sent.len(),
{
    if sent.len() == 0 {
        assert(sent =~= Seq::empty());
        lemma_no_delivered_hits(shards, origin, count);
    } else {
        let shorter = sent.drop_last();
        assert forall|i: int| 0 <= i < shorter.len() implies (#[trigger] shorter[i]).0 < count by {
            assert(shorter[i] == sent[i]);
        }
        assert(sent[sent.len() - 1].0 < count);
        lemma_batch_hits(shards, shorter, origin, count);
        lemma_delivered_hits_step(shards, sent, origin, count);
    }
}

proof fn lemma_delivered_all(
    shards: Seq<ShardView>,
    config: ClusterConfig,
    queries: Seq<EdgeQuery>,
    sent: Seq<(u32, Seq<EdgeQuery>)>,
    origin: u32,
    count: int,
)
    requires
        forall|t: int|
            0 <= t < count ==> #[trigger] batches::delivered(sent, t) == batches::meant_for(
                queries,
                query_target(config),
                t,
            ),
    ensures
        delivered_hits(shards, sent, origin, count) == all_hits(
            shards,
            config,
            queries,
            origin,
            count,
        ),
    decreases count,
{
    if count > 0 {
        lemma_delivered_all(shards, config, queries, sent, origin, count - 1);
        assert(batches::delivered(sent, count - 1) == batches::meant_for(
            queries,
            query_target(config),
            count - 1,
        ));
    }
}

/// The questions of a clustering pass reach their owners: the batches are not
/// empty and within the limit, each holds only questions about rows of the
/// worker it is sent to, a worker gets just the questions meant for it, whole
/// and in order, and what the workers answer to the single batches sums up to
/// what they would answer to all the questions.
pub proof fn lemma_query_batches(
    shards: Seq<ShardView>,
    config: ClusterConfig,
    graph: Seq<Seq<u32>>,
    t: int,
    vertices: Seq<u32>,
)
    requires
        config.workers > 0,
        cluster(shards, config, graph),
        simple(graph),
        0 <= t < config.workers,
        shards[t].owns_all(vertices),
    ensures
        ({
            let sent = query_batches(shards[t], config, vertices);
            let asked = shards[t].all_queries(vertices);
            &&& batches::bounded(sent)
            &&& batches::addressed(sent, query_target(config))
            &&& forall|i: int| 0 <= i < sent.len() ==> (#[trigger] sent[i]).0 < config.workers
            &&& forall|x: int|
                0 <= x < config.workers ==> #[trigger] batches::delivered(sent, x)
                    == batches::meant_for(asked, query_target(config), x)
            &&& forall|origin: u32| #[trigger]
                batch_hits(shards, sent, origin) == all_hits(
                    shards,
                    config,
                    asked,
                    origin,
                    config.workers as int,
                )
        }),
{
    let shard = shards[t];
    let asked = shard.all_queries(vertices);
    let target = query_target(config);
    let none = batches::Waiting::<EdgeQuery>::none(config.workers as nat);
    assert(placed(shard, config, t) && super::holds(shard, graph));
    lemma_queries_below(shard, config, t, graph, vertices);
    assert forall|i: int| 0 <= i < asked.len() implies 0 <= #[trigger] target(asked[i])
        < none.groups.len() by {
        super::lemma_owner(shard, config, t, asked[i].a as int);
    }
    batches::lemma_all_sent(none, asked, target);
    let sent = query_batches(shard, config, vertices);
    assert forall|origin: u32| #[trigger] batch_hits(shards, sent, origin) == all_hits(
        shards,
        config,
        asked,
        origin,
        config.workers as int,
    ) by {
        lemma_batch_hits(shards, sent, origin, config.workers as int);
        lemma_delivered_all(shards, config, asked, sent, origin, config.workers as int);
    }
}

/// The links that a worker tells for a vertex of its own, together with what
/// the workers answer to the batches that its pass sent, batch by batch, are
/// the linked pairs among the vertex's neighbors in the graph.
pub proof fn lemma_batched_clustering(
    shards: Seq<ShardView>,
    config: ClusterConfig,
    graph: Seq<Seq<u32>>,
    t: int,
    vertices: Seq<u32>,
    o: int,
)
    requires
        config.workers > 0,
        cluster(shards, config, graph),
        simple(graph),
        0 <= t < config.workers,
        shards[t].owns_all(vertices),
        0 <= o < vertices.len() <= u32::MAX + 1,
    ensures
        ({
            let row = graph[vertices[o] as int];
            shards[t].own_links(shards[t].row(vertices[o] as int), row.len() as int) + batch_hits(
                shards,
                query_batches(shards[t], config, vertices),
                o as u32,
            ) == linked_pairs(graph, row, row.len() as int)
        }),
{
    lemma_query_batches(shards, config, graph, t, vertices);
    lemma_clustering(shards, config, graph, t, vertices, o);
}

} // verus!
