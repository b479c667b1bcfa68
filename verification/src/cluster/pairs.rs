//! How many pairs of a vertex's neighbors are linked, counted over a whole cluster.

use super::clustering::linked_pairs;
use super::replies::{replied, replies_links};
use super::{cluster, simple};
use crate::coordinator::commands::found;
use crate::coordinator::course::{course, links_at, links_since};
use crate::coordinator::{Clock, Coordinator, Reply, Stop, Turn};
use crate::counting;
use crate::model::ExperimentConfig;
use crate::protocol::{ClusterConfig, WorkerResponse};
use crate::worker::ShardView;
use vstd::prelude::*;

verus! {

proof fn lemma_pair_rows(graph: Seq<Seq<u32>>, row: Seq<u32>, count: nat)
    requires
        count <= row.len(),
    ensures
        linked_pairs(graph, row, count as int) == counting::sum(
            |x: int|
                counting::sum(
                    |y: int|
                        if x < y && graph[row[x] as int].contains(row[y]) {
                            1nat
                        } else {
                            0
                        },
                    row.len(),
                ),
            count,
        ),
    decreases count,
{
    if count > 0 {
        let x = count - 1;
        lemma_pair_rows(graph, row, x as nat);
        let near = graph[row[x] as int];
        assert(row.skip(count as int) =~= row.subrange(count as int, row.len() as int));
        crate::worker::deeds::lemma_tail_links(near, row, count as int, row.len() as int);
        let told = |y: int|
            if x < y && graph[row[x] as int].contains(row[y]) {
                1nat
            } else {
                0
            };
        let from = count as int;
        counting::lemma_same_sum(
            |y: int|
                if from <= y && near.contains(row[y]) {
                    1nat
                } else {
                    0
                },
            told,
            row.len(),
        );
    }
}

/// The linked pairs of a row are its pairs of neighbors of which the second stands in
/// the row of the first.
#[verifier::rlimit(60)]
pub proof fn lemma_linked_pairs(graph: Seq<Seq<u32>>, row: Seq<u32>)
    ensures
        linked_pairs(graph, row, row.len() as int) == Set::new(
            |p: (int, int)| 0 <= p.0 < p.1 < row.len() && graph[row[p.0] as int].contains(row[p.1]),
        ).len(),
{
    lemma_pair_rows(graph, row, row.len());
    let kind = |x: int, y: int| x < y && graph[row[x] as int].contains(row[y]);
    counting::lemma_count_pairs(kind, row.len(), row.len());
    let left = |x: int|
        counting::sum(
            |y: int|
                if x < y && graph[row[x] as int].contains(row[y]) {
                    1nat
                } else {
                    0
                },
            row.len(),
        );
    let right = |x: int|
        counting::sum(
            |y: int|
                if kind(x, y) {
                    1nat
                } else {
                    0
                },
            row.len(),
        );
    assert forall|x: int| 0 <= x < row.len() implies #[trigger] left(x) == right(x) by {
        counting::lemma_same_sum(
            |y: int|
                if x < y && graph[row[x] as int].contains(row[y]) {
                    1nat
                } else {
                    0
                },
            |y: int|
                if kind(x, y) {
                    1nat
                } else {
                    0
                },
            row.len(),
        );
    }
    counting::lemma_same_sum(left, right, row.len());
    assert(Set::new(
        |p: (int, int)| 0 <= p.0 < row.len() && 0 <= p.1 < row.len() && kind(p.0, p.1),
    ) =~= Set::new(
        |p: (int, int)| 0 <= p.0 < p.1 < row.len() && graph[row[p.0] as int].contains(row[p.1]),
    ));
}

/// The links that a reply tells for the vertex at place `o`.
pub open spec fn told_by(reply: Result<WorkerResponse, String>, o: int) -> nat {
    match reply {
        Ok(WorkerResponse::EdgeQueriesResolved { counts }) => links_at(counts@, o),
        _ => 0,
    }
}

proof fn lemma_replies_sum(replies: Seq<Result<WorkerResponse, String>>, o: int, n: nat)
    requires
        n <= replies.len(),
    ensures
        replies_links(replies, o, n as int) == counting::sum(|j: int| told_by(replies[j], o), n),
    decreases n,
{
    if n > 0 {
        lemma_replies_sum(replies, o, (n - 1) as nat);
        match replies[n - 1] {
            Ok(WorkerResponse::EdgeQueriesResolved { counts }) => {
                crate::coordinator::commands::lemma_links(counts@, o);
            },
            _ => {},
        }
    }
}

/// A worker prepares the clustering of vertices of its own, and every message that it
/// writes is answered by its target: what the worker counted of a vertex and what
/// the replies tell of it are together the number of pairs of its neighbors that are
/// linked.
#[verifier::rlimit(60)]
pub proof fn lemma_true_clustering(
    shards: Seq<ShardView>,
    config: ClusterConfig,
    graph: Seq<Seq<u32>>,
    t: int,
    vertices: Seq<u32>,
    answer: Result<WorkerResponse, String>,
    written: Seq<WorkerResponse>,
    replies: Seq<Result<WorkerResponse, String>>,
)
    requires
        config.workers > 0,
        cluster(shards, config, graph),
        simple(graph),
        0 <= t < config.workers,
        shards[t].owns_all(vertices),
        vertices.len() <= u32::MAX + 1,
        shards[t].clustering_outcome(vertices, Seq::empty(), answer, written),
        replies.len() == written.len(),
        forall|j: int|
            0 <= j < replies.len() ==> replied(shards, written[j], #[trigger] replies[j]),
    ensures
        match answer {
            Ok(WorkerResponse::ClusteringPrepared { degrees, local_counts }) => {
                &&& degrees@.len() == vertices.len()
                &&& local_counts@.len() == vertices.len()
                &&& forall|o: int|
                    0 <= o < vertices.len() ==> {
                        let row = graph[#[trigger] vertices[o] as int];
                        &&& degrees@[o] == row.len()
                        &&& local_counts@[o] + counting::sum(
                            |j: int| told_by(replies[j], o),
                            replies.len(),
                        ) == Set::new(
                            |p: (int, int)|
                                0 <= p.0 < p.1 < row.len() && graph[row[p.0] as int].contains(
                                    row[p.1],
                                ),
                        ).len()
                    }
            },
            _ => false,
        },
{
    super::replies::lemma_prepared(shards, config, graph, t, vertices, answer, written, replies);
    assert forall|o: int| 0 <= o < vertices.len() implies {
        let row = graph[#[trigger] vertices[o] as int];
        answer->Ok_0->local_counts@[o] + counting::sum(
            |j: int| told_by(replies[j], o),
            replies.len(),
        ) == Set::new(
            |p: (int, int)| 0 <= p.0 < p.1 < row.len() && graph[row[p.0] as int].contains(row[p.1]),
        ).len()
    } by {
        lemma_linked_pairs(graph, graph[vertices[o] as int]);
        lemma_replies_sum(replies, o, replies.len());
    }
}

/// From reply `at + 1` on the coordinator was given the messages that a worker wrote about
/// its vertices, each followed by the answer of its target, and then the summary.
#[verifier::opaque]
pub open spec fn told_links(
    replies: Seq<Reply>,
    at: int,
    written: Seq<WorkerResponse>,
    answered: Seq<Result<WorkerResponse, String>>,
    summary: WorkerResponse,
) -> bool {
    &&& answered.len() == written.len()
    &&& forall|j: int|
        0 <= j < written.len() ==> {
            &&& replies[at + 1 + 2 * j] == Reply::One(#[trigger] written[j])
            &&& answered[j] is Ok
            &&& replies[at + 2 + 2 * j] == Reply::One(answered[j]->Ok_0)
        }
    &&& replies[at + 1 + 2 * written.len()] == Reply::One(summary)
}

/// A message about a vertex's neighbors is passed on, and its answer leads back.
proof fn lemma_pass_on(
    a: Coordinator,
    queries: WorkerResponse,
    first: Turn,
    b: Coordinator,
    answer: WorkerResponse,
    second: Turn,
    c: Coordinator,
    clocks: (Clock, Clock),
)
    requires
        queries is ClusteringQueries,
        answer is EdgeQueriesResolved,
        a.expects(Reply::One(queries)),
        a.turn(Reply::One(queries), clocks.0, Ok::<Turn, Stop>(first), b),
        b.expects(Reply::One(answer)),
        b.turn(Reply::One(answer), clocks.1, Ok::<Turn, Stop>(second), c),
    ensures
        first.action is Ask,
        first.action->command is ResolveEdgeQueries,
        second.action is Receive,
{
}

/// The links told since the worker was asked are those that the answers so far told.
#[verifier::rlimit(60)]
proof fn lemma_links_told(
    config: ExperimentConfig,
    states: Seq<Coordinator>,
    replies: Seq<Reply>,
    clocks: Seq<Clock>,
    turns: Seq<Turn>,
    at: int,
    written: Seq<WorkerResponse>,
    answered: Seq<Result<WorkerResponse, String>>,
    summary: WorkerResponse,
    j: nat,
    o: int,
)
    requires
        course(config, states, replies, clocks, turns),
        0 <= at,
        at + 1 + 2 * written.len() < replies.len(),
        turns[at].action is Ask,
        turns[at].action->command is PrepareClustering,
        told_links(replies, at, written, answered, summary),
        forall|k: int|
            0 <= k < written.len() ==> (#[trigger] written[k]) is ClusteringQueries
                && answered[k]->Ok_0 is EdgeQueriesResolved,
        j <= written.len(),
    ensures
        links_since(replies, turns, at + 1 + 2 * j, o) == counting::sum(
            |k: int| told_by(answered[k], o),
            j,
        ),
        found(replies, turns, at + 1 + 2 * j) == found(replies, turns, at + 1),
    decreases j,
{
    if j > 0 {
        let k = j - 1;
        let i = at + 1 + 2 * k;
        lemma_links_told(
            config,
            states,
            replies,
            clocks,
            turns,
            at,
            written,
            answered,
            summary,
            k as nat,
            o,
        );
        reveal(told_links);
        assert(written[k] is ClusteringQueries);
        assert(replies[i] == Reply::One(written[k]));
        assert(i + 1 == at + 2 + 2 * k);
        assert(replies[i + 1] == Reply::One(answered[k]->Ok_0));
        crate::coordinator::course::lemma_at(config, states, replies, clocks, turns, i);
        crate::coordinator::course::lemma_at(config, states, replies, clocks, turns, i + 1);
        lemma_pass_on(
            states[i],
            written[k],
            turns[i],
            states[i + 1],
            answered[k]->Ok_0,
            turns[i + 1],
            states[i + 1 + 1],
            (clocks[i], clocks[i + 1]),
        );
        assert(at + 1 + 2 * j == i + 2);
        assert(links_since(replies, turns, i + 1, o) == links_since(replies, turns, i, o));
        assert(links_since(replies, turns, i + 2, o) == links_since(replies, turns, i + 1, o)
            + told_by(answered[k], o));
        assert(found(replies, turns, i + 1) == found(replies, turns, i));
        assert(found(replies, turns, i + 2) == found(replies, turns, i + 1));
    }
}

/// Once a worker of a cluster has prepared its vertices, and every message that it wrote
/// has been answered, the coordinator knows for each of them, in order, the number of
/// its neighbors and the number of pairs of them that are linked.
#[verifier::rlimit(60)]
pub proof fn lemma_clustering_total(
    config: ExperimentConfig,
    states: Seq<Coordinator>,
    replies: Seq<Reply>,
    clocks: Seq<Clock>,
    turns: Seq<Turn>,
    at: int,
    shards: Seq<ShardView>,
    graph: Seq<Seq<u32>>,
    t: int,
    vertices: Seq<u32>,
    answer: Result<WorkerResponse, String>,
    written: Seq<WorkerResponse>,
    answered: Seq<Result<WorkerResponse, String>>,
)
    requires
        course(config, states, replies, clocks, turns),
        0 <= at,
        at + 1 + 2 * written.len() < replies.len(),
        turns[at].action is Ask,
        turns[at].action->command is PrepareClustering,
        config.workers > 0,
        cluster(shards, config.cluster(), graph),
        simple(graph),
        0 <= t < config.workers,
        shards[t].owns_all(vertices),
        vertices.len() <= u32::MAX + 1,
        shards[t].clustering_outcome(vertices, Seq::empty(), answer, written),
        answered.len() == written.len(),
        forall|j: int|
            0 <= j < answered.len() ==> replied(shards, written[j], #[trigger] answered[j]),
        answer is Ok,
        told_links(replies, at, written, answered, answer->Ok_0),
    ensures
        ({
            let before = found(replies, turns, at + 1);
            let after = found(replies, turns, at + 2 + 2 * written.len());
            &&& after.len() == before.len() + vertices.len()
            &&& after.take(before.len() as int) == before
            &&& forall|o: int|
                0 <= o < vertices.len() ==> {
                    let row = graph[#[trigger] vertices[o] as int];
                    let known = after[before.len() + o];
                    &&& known.degree == row.len() as usize
                    &&& known.links == Set::new(
                        |p: (int, int)|
                            0 <= p.0 < p.1 < row.len() && graph[row[p.0] as int].contains(
                                row[p.1],
                            ),
                    ).len() as u64
                }
        }),
{
    super::replies::lemma_prepared(
        shards,
        config.cluster(),
        graph,
        t,
        vertices,
        answer,
        written,
        answered,
    );
    lemma_true_clustering(
        shards,
        config.cluster(),
        graph,
        t,
        vertices,
        answer,
        written,
        answered,
    );
    let m = written.len();
    let end = at + 1 + 2 * m;
    assert forall|k: int| 0 <= k < written.len() implies (
    #[trigger] written[k]) is ClusteringQueries && answered[k]->Ok_0 is EdgeQueriesResolved by {
        assert(replied(shards, written[k], answered[k]));
    }
    reveal(told_links);
    let before = found(replies, turns, at + 1);
    let after = found(replies, turns, end + 1);
    lemma_links_told(
        config,
        states,
        replies,
        clocks,
        turns,
        at,
        written,
        answered,
        answer->Ok_0,
        m,
        0,
    );
    assert(replies[end] == Reply::One(answer->Ok_0));
    assert(found(replies, turns, end) == before);
    assert forall|o: int| 0 <= o < vertices.len() implies {
        let row = graph[#[trigger] vertices[o] as int];
        let known = after[before.len() + o];
        &&& known.degree == row.len() as usize
        &&& known.links == Set::new(
            |p: (int, int)| 0 <= p.0 < p.1 < row.len() && graph[row[p.0] as int].contains(row[p.1]),
        ).len() as u64
    } by {
        lemma_links_told(
            config,
            states,
            replies,
            clocks,
            turns,
            at,
            written,
            answered,
            answer->Ok_0,
            m,
            o,
        );
    }
    assert(after.take(before.len() as int) =~= before);
}

} // verus!
