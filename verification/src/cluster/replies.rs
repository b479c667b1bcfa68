//! Counting links over a whole cluster, as the calls of its workers.

use super::clustering::{batch_hits, linked_pairs, query_batches};
use super::{cluster, placed, simple, sound_row};
use crate::batches;
use crate::coordinator;
use crate::protocol::{ClusterConfig, EdgeQuery, WorkerResponse};
use crate::sorted;
use crate::worker::clustering::{asked_nodes, carries_queries, query_target};
use crate::worker::ShardView;
use crate::worker;
use vstd::prelude::*;

verus! {

/// The questions of a message are answered by its target.
pub open spec fn replied(
    shards: Seq<ShardView>,
    message: WorkerResponse,
    reply: Result<WorkerResponse, String>,
) -> bool {
    match message {
        WorkerResponse::ClusteringQueries { target, queries } => (target as int) < shards.len()
            ==> shards[target as int].query_outcome(queries@, reply),
        _ => true,
    }
}

/// The links that a reply tells for origin `o`.
pub open spec fn reply_links(reply: Result<WorkerResponse, String>, o: int) -> nat {
    match reply {
        Ok(WorkerResponse::EdgeQueriesResolved { counts }) =>
            coordinator::clustering::links_for(counts@, o),
        _ => 0,
    }
}

/// The links that the first `n` replies tell for origin `o`, together.
pub open spec fn replies_links(
    replies: Seq<Result<WorkerResponse, String>>,
    o: int,
    n: int,
) -> nat
    decreases n,
{
    if n <= 0 {
        0
    } else {
        replies_links(replies, o, n - 1) + reply_links(replies[n - 1], o)
    }
}

/// A reply tells the hits of its batch.
proof fn lemma_reply(
    shards: Seq<ShardView>,
    config: ClusterConfig,
    graph: Seq<Seq<u32>>,
    batch: (u32, Seq<EdgeQuery>),
    message: WorkerResponse,
    reply: Result<WorkerResponse, String>,
)
    requires
        cluster(shards, config, graph),
        batch.0 < config.workers,
        forall|i: int|
            0 <= i < batch.1.len() ==> (#[trigger] batch.1[i]).a < config.nodes && query_target(
                config,
            )(batch.1[i]) == batch.0,
        carries_queries(message, batch),
        replied(shards, message, reply),
    ensures
        reply is Ok,
        forall|o: u32| #[trigger]
            reply_links(reply, o as int) == shards[batch.0 as int].hits(batch.1, o),
{
    let shard = shards[batch.0 as int];
    let nodes = asked_nodes(batch.1);
    assert(placed(shards[batch.0 as int], config, batch.0 as int));
    assert(shard.owns_all(nodes)) by {
        assert forall|i: int| 0 <= i < nodes.len() implies shard.owns(
            #[trigger] nodes[i] as int,
        ) by {
            let query = batch.1[i];
            assert(query.a < config.nodes && query_target(config)(query) == batch.0);
            super::lemma_owner(shard, config, batch.0 as int, query.a as int);
        }
    }
    let counts = reply->Ok_0->counts;
    assert forall|o: u32| #[trigger] reply_links(reply, o as int) == shard.hits(batch.1, o) by {
        super::clustering::lemma_tallied(shard, batch.1, counts@, o);
    }
}

/// The replies tell the hits of their batches.
proof fn lemma_replies(
    shards: Seq<ShardView>,
    config: ClusterConfig,
    graph: Seq<Seq<u32>>,
    sent: Seq<(u32, Seq<EdgeQuery>)>,
    written: Seq<WorkerResponse>,
    replies: Seq<Result<WorkerResponse, String>>,
    o: u32,
    n: int,
)
    requires
        cluster(shards, config, graph),
        written.len() == sent.len(),
        replies.len() == sent.len(),
        forall|j: int|
            0 <= j < sent.len() ==> {
                &&& (#[trigger] sent[j]).0 < config.workers
                &&& carries_queries(written[j], sent[j])
            },
        forall|j: int, i: int|
            0 <= j < sent.len() && 0 <= i < sent[j].1.len() ==> (#[trigger] sent[j].1[i]).a
                < config.nodes && query_target(config)(sent[j].1[i]) == sent[j].0,
        forall|j: int|
            0 <= j < replies.len() ==> replied(shards, written[j], #[trigger] replies[j]),
        0 <= n <= sent.len(),
    ensures
        forall|j: int| 0 <= j < n ==> (#[trigger] replies[j]) is Ok,
        replies_links(replies, o as int, n) == batch_hits(shards, sent.take(n), o),
    decreases n,
{
    if n > 0 {
        lemma_replies(shards, config, graph, sent, written, replies, o, n - 1);
        let j = n - 1;
        assert(replied(shards, written[j], replies[j]));
        assert(sent[j].0 < config.workers && carries_queries(written[j], sent[j]));
        assert forall|i: int| 0 <= i < sent[j].1.len() implies (#[trigger] sent[j].1[i]).a
            < config.nodes && query_target(config)(sent[j].1[i]) == sent[j].0 by {}
        lemma_reply(shards, config, graph, sent[j], written[j], replies[j]);
        assert(sent.take(n).drop_last() =~= sent.take(j));
        assert(reply_links(replies[j], o as int) == shards[sent[j].0 as int].hits(
            sent[j].1,
            o,
        ));
    } else {
        assert(sent.take(0) =~= Seq::empty());
    }
}

/// A worker prepares the clustering of its own vertices, and every message that
/// it writes is answered by its target: every call succeeds, no message goes to
/// the worker itself, the degrees are those of the vertices, and what the worker
/// counted of a vertex, together with what all replies tell of it, are the pairs
/// of its neighbors that a link joins.
pub proof fn lemma_prepared(
    shards: Seq<ShardView>,
    config: ClusterConfig,
    graph: Seq<Seq<u32>>,
    t: int,
    vertices: Seq<u32>,
    answer: Result<WorkerResponse, String>,
    written: Seq<WorkerResponse>,
    replies: Seq<Result<WorkerResponse, String>>,
)
    requires
        config.workers > 0,
        cluster(shards, config, graph),
        simple(graph),
        0 <= t < config.workers,
        shards[t].owns_all(vertices),
        vertices.len() <= u32::MAX + 1,
        shards[t].clustering_outcome(vertices, Seq::empty(), answer, written),
        replies.len() == written.len(),
        forall|j: int|
            0 <= j < replies.len() ==> replied(shards, written[j], #[trigger] replies[j]),
    ensures
        forall|j: int| 0 <= j < replies.len() ==> (#[trigger] replies[j]) is Ok,
        forall|j: int|
            0 <= j < written.len() ==> match #[trigger] written[j] {
                WorkerResponse::ClusteringQueries { target, queries } => {
                    &&& target < config.workers
                    &&& target != t
                    &&& 1 <= queries@.len() <= crate::protocol::BATCH_ITEM_LIMIT
                },
                _ => false,
            },
        match answer {
            Ok(WorkerResponse::ClusteringPrepared { degrees, local_counts }) => {
                &&& degrees@.len() == vertices.len()
                &&& local_counts@.len() == vertices.len()
                &&& forall|o: int|
                    0 <= o < vertices.len() ==> {
                        let row = graph[#[trigger] vertices[o] as int];
                        &&& degrees@[o] == row.len()
                        &&& local_counts@[o] + replies_links(
                            replies,
                            o,
                            replies.len() as int,
                        ) == linked_pairs(graph, row, row.len() as int)
                    }
            },
            _ => false,
        },
{
    let shard = shards[t];
    let sent = query_batches(shard, config, vertices);
    let asked = shard.all_queries(vertices);
    let target = query_target(config);
    let none = batches::Waiting::<EdgeQuery>::none(config.workers as nat);
    assert(placed(shards[t], config, t) && super::holds(shards[t], graph));
    super::lemma_bounds(config, t);
    assert(answer is Ok) by {
        if answer is Err {
            let message = answer->Err_0@;
            assert(shard.stopped_asking(vertices, message, 0, written));
            let k = choose|k: int| #[trigger]
                shard.foreign_outcome(vertices, k, message)
                    && worker::clustering::carry_queries(
                    written,
                    0,
                    none.sends_all(shard.all_queries(vertices.take(k)), target),
                );
            assert(shard.first_foreign(vertices, k));
            assert(shard.owns(vertices[k] as int));
        }
    }
    super::clustering::lemma_query_batches(shards, config, graph, t, vertices);
    super::clustering::lemma_queries_below(shard, config, t, graph, vertices);
    assert forall|j: int| 0 <= j < sent.len() implies (#[trigger] sent[j]).0 < config.workers
        && carries_queries(written[j], sent[j]) by {
        assert(carries_queries(written[0 + j], sent[j]));
    }
    assert forall|i: int| 0 <= i < asked.len() implies 0 <= #[trigger] target(asked[i])
        < none.groups.len() by {
        super::lemma_owner(shard, config, t, asked[i].a as int);
    }
    assert forall|j: int, i: int| 0 <= j < sent.len() && 0 <= i < sent[j].1.len() implies (
    #[trigger] sent[j].1[i]).a < config.nodes && target(sent[j].1[i]) == sent[j].0
        && !shard.owns(sent[j].1[i].a as int) by {
        batches::lemma_batch_member(none, asked, target, j, i);
        let x = choose|x: int| 0 <= x < asked.len() && asked[x] == sent[j].1[i];
        assert(asked[x].a < config.nodes);
        super::clustering::lemma_asked_foreign(shard, vertices, x);
    }
    lemma_replies(shards, config, graph, sent, written, replies, 0, sent.len() as int);
    assert forall|j: int| 0 <= j < written.len() implies match #[trigger] written[j] {
        WorkerResponse::ClusteringQueries { target, queries } => {
            &&& target < config.workers
            &&& target != t
            &&& 1 <= queries@.len() <= crate::protocol::BATCH_ITEM_LIMIT
        },
        _ => false,
    } by {
        assert(carries_queries(written[j], sent[j]));
        assert(1 <= sent[j].1.len());
        let query = sent[j].1[0];
        assert(query.a < config.nodes && target(query) == sent[j].0);
        super::lemma_owner(shard, config, t, query.a as int);
    }
    let degrees = answer->Ok_0->degrees;
    let local_counts = answer->Ok_0->local_counts;
    assert forall|o: int| 0 <= o < vertices.len() implies {
        let row = graph[#[trigger] vertices[o] as int];
        &&& degrees@[o] == row.len()
        &&& local_counts@[o] + replies_links(replies, o, replies.len() as int) == linked_pairs(
            graph,
            row,
            row.len() as int,
        )
    } by {
        let u = vertices[o] as int;
        assert(shard.owns(u));
        assert(shard.rows[u - shard.start] == graph[shard.start + (u - shard.start)]);
        let row = graph[u];
        assert(shard.row(u) == row);
        assert(sound_row(graph, u));
        assert forall|i: int| 0 <= i < row.len() implies row[i] < config.nodes as nat by {
            assert(row.contains(row[i]));
        }
        sorted::lemma_ascending_len(row, config.nodes as nat);
        worker::clustering::lemma_own_links_bound(shard, row, row.len() as int);
        assert(row.len() * row.len() <= u32::MAX * u32::MAX) by (nonlinear_arith)
            requires
                row.len() <= u32::MAX,
        ;
        super::clustering::lemma_batched_clustering(shards, config, graph, t, vertices, o);
        lemma_replies(
            shards,
            config,
            graph,
            sent,
            written,
            replies,
            o as u32,
            sent.len() as int,
        );
        assert(sent.take(sent.len() as int) =~= sent);
    }
}

} // verus!
