//! Building and rewiring a whole cluster, as the calls of its workers.

use super::entries::{entries, lemma_entries, lemma_ring_entries};
use super::passes::{after_pass, after_passes, all_sent, rewired_total};
use super::rewiring::rewired;
use super::{
    built, cluster, first_of, half, holds, keeps_edges, owner, placed, proper, ring_rows, simple,
};
use crate::batches;
use crate::circle;
use crate::coordinator::rewiring::built_nodes;
use crate::coordinator::sum_of;
use crate::probability::Probability;
use crate::protocol::{ClusterConfig, Mutation, WorkerResponse};
use crate::rows;
use crate::worker::rewire::carries_mutations;
use crate::worker::ShardView;
use crate::worker;
use vstd::prelude::*;

verus! {

/// The answers without the wrapping.
pub open spec fn told(answers: Seq<Result<WorkerResponse, String>>) -> Seq<WorkerResponse> {
    Seq::new(answers.len(), |t: int| answers[t]->Ok_0)
}

/// The row entries of a shard that was built.
pub open spec fn built_entries() -> spec_fn(WorkerResponse) -> nat {
    |response: WorkerResponse|
        match response {
            WorkerResponse::Built { adjacency_entries, .. } => adjacency_entries as nat,
            _ => 0,
        }
}

/// Each worker has been asked to build its shard of the same ring.
pub open spec fn asked_to_build(
    fresh: Seq<ShardView>,
    config: ClusterConfig,
    answers: Seq<Result<WorkerResponse, String>>,
    shards: Seq<ShardView>,
) -> bool {
    &&& fresh.len() == config.workers
    &&& answers.len() == config.workers
    &&& shards.len() == config.workers
    &&& forall|t: int|
        0 <= t < config.workers ==> {
            &&& (#[trigger] shards[t]).wf()
            &&& fresh[t].id == t
            &&& fresh[t].build_outcome(config, answers[t], shards[t])
        }
}

/// Workers that build their shards of one ring all succeed and hold it together:
/// their nodes sum up to `N` and their entries to `N * K`; every node is owned by
/// one worker, its owner; and a link is known at both its ends or at neither.
pub proof fn lemma_cluster_built(
    fresh: Seq<ShardView>,
    config: ClusterConfig,
    answers: Seq<Result<WorkerResponse, String>>,
    shards: Seq<ShardView>,
)
    requires
        config.workers > 0,
        config.degree % 2 == 0,
        config.degree < config.nodes,
        asked_to_build(fresh, config, answers, shards),
    ensures
        built(shards, config),
        forall|t: int| 0 <= t < config.workers ==> (#[trigger] answers[t]) is Ok,
        sum_of(told(answers), built_nodes()) == config.nodes,
        sum_of(told(answers), built_entries()) == config.nodes * config.degree,
        forall|node: int, t: int|
            0 <= node < config.nodes && 0 <= t < config.workers ==> (
            #[trigger] shards[t].owns(node) <==> t == owner(config, node)),
        forall|u: u32, v: u32|
            u < config.nodes && v < config.nodes ==> #[trigger] shards[owner(
                config,
                u as int,
            )].row(u as int).contains(v) == shards[owner(config, v as int)].row(
                v as int,
            ).contains(u),
{
    let nodes = config.nodes as int;
    let h = half(config);
    assert forall|t: int| 0 <= t < shards.len() implies placed(#[trigger] shards[t], config, t)
        && shards[t].rows.len() == shards[t].end - shards[t].start && shards[t].holds_ring()
        && answers[t] is Ok by {
        assert(fresh[t].build_outcome(config, answers[t], shards[t]));
    }
    assert forall|t: int| 0 <= t < config.workers implies (#[trigger] answers[t]) is Ok by {
        assert(placed(shards[t], config, t));
    }
    let graph = ring_rows(config);
    super::lemma_built_rows(shards, config);
    lemma_built_upto(fresh, config, answers, shards, config.workers as int);
    assert(told(answers).take(config.workers as int) =~= told(answers));
    super::lemma_bounds(config, 0);
    lemma_entries(shards, config, graph, config.workers as int);
    if config.degree >= 2 {
        super::lemma_built(shards, config);
        lemma_ring_entries(config);
    } else {
        assert forall|u: int| 0 <= u < graph.len() implies (#[trigger] graph[u]).len() == 0 by {
            assert(worker::is_ring_row(graph[u], nodes, h, u));
            if graph[u].len() > 0 {
                assert(graph[u].contains(graph[u][0]));
                assert(circle::ring_link(nodes, h, u, graph[u][0] as int));
            }
        }
        rows::lemma_total_empty(graph);
        assert(config.nodes * config.degree == 0) by (nonlinear_arith)
            requires
                config.degree == 0,
        ;
    }
    assert forall|node: int, t: int| 0 <= node < config.nodes && 0 <= t < config.workers implies (
    #[trigger] shards[t].owns(node) <==> t == owner(config, node)) by {
        super::lemma_owner(shards[t], config, t, node);
    }
    assert forall|u: u32, v: u32| u < config.nodes && v < config.nodes implies
        #[trigger] shards[owner(config, u as int)].row(u as int).contains(v) == shards[owner(
        config,
        v as int,
    )].row(v as int).contains(u) by {
        super::lemma_row(shards, config, graph, u as int);
        super::lemma_row(shards, config, graph, v as int);
        assert(worker::is_ring_row(graph[u as int], nodes, h, u as int));
        assert(worker::is_ring_row(graph[v as int], nodes, h, v as int));
        circle::lemma_ring_link(nodes, h, u as int, v as int);
        circle::lemma_ring_link(nodes, h, v as int, u as int);
    }
}

proof fn lemma_built_upto(
    fresh: Seq<ShardView>,
    config: ClusterConfig,
    answers: Seq<Result<WorkerResponse, String>>,
    shards: Seq<ShardView>,
    count: int,
)
    requires
        config.workers > 0,
        asked_to_build(fresh, config, answers, shards),
        0 <= count <= config.workers,
    ensures
        sum_of(told(answers).take(count), built_nodes()) == first_of(config, count),
        sum_of(told(answers).take(count), built_entries()) == entries(shards, count),
    decreases count,
{
    super::lemma_bounds(config, 0);
    if count > 0 {
        let t = count - 1;
        lemma_built_upto(fresh, config, answers, shards, t);
        super::lemma_bounds(config, t);
        assert(told(answers).take(count).drop_last() =~= told(answers).take(t));
        assert(shards[t].wf());
        assert(fresh[t].build_outcome(config, answers[t], shards[t]));
    }
}

/// A worker's turn: the answer to its rewiring pass, the messages that it wrote,
/// what their targets answered, and the cluster after the pass and after each message.
pub struct TurnTaken {
    pub answer: Result<WorkerResponse, String>,
    pub written: Seq<WorkerResponse>,
    pub applied: Seq<Result<WorkerResponse, String>>,
    pub clusters: Seq<Seq<ShardView>>,
}

/// The mutations of a message are applied by its target.
pub open spec fn batch_applied(
    before: Seq<ShardView>,
    message: WorkerResponse,
    answer: Result<WorkerResponse, String>,
    after: Seq<ShardView>,
) -> bool {
    match message {
        WorkerResponse::RewireMutations { target, mutations } => (target as int) < before.len()
            ==> {
            &&& after == before.update(target as int, after[target as int])
            &&& before[target as int].mutation_outcome(mutations@, answer, after[target as int])
        },
        _ => true,
    }
}

/// Worker `i` rewires its edges, and every message that it writes is applied.
pub open spec fn takes_turn(
    before: Seq<ShardView>,
    i: int,
    probability: Probability,
    seed: u64,
    turn: TurnTaken,
    after: Seq<ShardView>,
) -> bool {
    &&& turn.clusters.len() == turn.written.len() + 1
    &&& turn.applied.len() == turn.written.len()
    &&& turn.clusters[0] == before.update(i, turn.clusters[0][i])
    &&& before[i].rewire_outcome(
        probability,
        seed,
        Seq::empty(),
        turn.answer,
        turn.clusters[0][i],
        turn.written,
    )
    &&& forall|j: int|
        0 <= j < turn.written.len() ==> batch_applied(
            turn.clusters[j],
            #[trigger] turn.written[j],
            turn.applied[j],
            turn.clusters[j + 1],
        )
    &&& after == turn.clusters.last()
}

/// Every call of a turn was answered without an error.
pub open spec fn turn_succeeds(turn: TurnTaken) -> bool {
    &&& turn.answer is Ok
    &&& forall|j: int| 0 <= j < turn.applied.len() ==> (#[trigger] turn.applied[j]) is Ok
}

/// The edges that a turn tells as rewired.
pub open spec fn turn_rewired(turn: TurnTaken) -> nat {
    match turn.answer {
        Ok(WorkerResponse::Rewired { rewired, .. }) => rewired as nat,
        _ => 0,
    }
}

/// The cluster after a worker's turn.
pub open spec fn after_turn(
    shards: Seq<ShardView>,
    i: int,
    probability: Probability,
    seed: u64,
) -> Seq<ShardView> {
    if probability.zero() {
        shards
    } else {
        after_pass(shards, i, probability.chance->Some_0, seed)
    }
}

/// What could be applied whole could be applied in part.
proof fn lemma_prefix_applies(shard: ShardView, a: Seq<Mutation>, b: Seq<Mutation>)
    requires
        shard.mutated_by(a + b).failure is None,
    ensures
        shard.mutated_by(a).failure is None,
    decreases b.len(),
{
    if b.len() == 0 {
        assert(a + b =~= a);
    } else {
        assert((a + b).drop_last() =~= a + b.drop_last());
        lemma_prefix_applies(shard, a, b.drop_last());
    }
}

/// The cluster once the first `j` batches of a pass have been applied.
pub open spec fn partly_applied(
    shards: Seq<ShardView>,
    i: int,
    sent: Seq<(u32, Seq<Mutation>)>,
    own: ShardView,
    j: int,
) -> Seq<ShardView> {
    Seq::new(
        shards.len(),
        |t: int|
            if t == i {
                own
            } else {
                let taken = shards[t].mutated_by(batches::delivered(sent.take(j), t));
                shards[t].with_rows(taken.rows, taken.intact)
            },
    )
}

proof fn lemma_batches_applied(
    before: Seq<ShardView>,
    config: ClusterConfig,
    i: int,
    sent: Seq<(u32, Seq<Mutation>)>,
    turn: TurnTaken,
    j: int,
)
    requires
        0 <= i < before.len(),
        before.len() == config.workers,
        turn.clusters.len() == turn.written.len() + 1,
        turn.applied.len() == turn.written.len(),
        turn.clusters[0] == before.update(i, turn.clusters[0][i]),
        turn.written.len() == sent.len(),
        forall|x: int|
            0 <= x < sent.len() ==> carries_mutations(turn.written[x], #[trigger] sent[x]),
        forall|x: int|
            0 <= x < sent.len() ==> (#[trigger] sent[x]).0 < config.workers && sent[x].0 != i,
        forall|x: int|
            0 <= x < turn.written.len() ==> batch_applied(
                turn.clusters[x],
                #[trigger] turn.written[x],
                turn.applied[x],
                turn.clusters[x + 1],
            ),
        forall|t: int|
            0 <= t < before.len() && t != i ==> (#[trigger] before[t].mutated_by(
                batches::delivered(sent, t),
            )).failure is None,
        0 <= j <= sent.len(),
    ensures
        turn.clusters[j] == partly_applied(before, i, sent, turn.clusters[0][i], j),
        forall|x: int| 0 <= x < j ==> (#[trigger] turn.applied[x]) is Ok,
    decreases j,
{
    let own = turn.clusters[0][i];
    if j == 0 {
        assert(sent.take(0) =~= Seq::empty());
        assert forall|t: int| 0 <= t < before.len() implies turn.clusters[0][t] == partly_applied(
            before,
            i,
            sent,
            own,
            0,
        )[t] by {
            assert(batches::delivered(sent.take(0), t) =~= Seq::empty());
        }
        assert(turn.clusters[0] =~= partly_applied(before, i, sent, own, 0));
    } else {
        lemma_batches_applied(before, config, i, sent, turn, j - 1);
        let now = turn.clusters[j - 1];
        let next = turn.clusters[j];
        assert(batch_applied(now, turn.written[j - 1], turn.applied[j - 1], next));
        assert(carries_mutations(turn.written[j - 1], sent[j - 1]));
        let target = sent[j - 1].0 as int;
        let batch = sent[j - 1].1;
        let earlier = batches::delivered(sent.take(j - 1), target);
        assert(sent.take(j).drop_last() =~= sent.take(j - 1));
        assert(sent.take(j).last() == sent[j - 1]);
        assert(batches::delivered(sent.take(j), target) == earlier + batch);
        assert(sent =~= sent.take(j) + sent.skip(j));
        batches::lemma_delivered_sum(sent.take(j), sent.skip(j), target);
        assert(before[target].mutated_by(batches::delivered(sent, target)).failure is None);
        lemma_prefix_applies(
            before[target],
            batches::delivered(sent.take(j), target),
            batches::delivered(sent.skip(j), target),
        );
        lemma_prefix_applies(before[target], earlier, batch);
        super::passes::lemma_mutated_sum(before[target], earlier, batch);
        let goal = partly_applied(before, i, sent, own, j);
        assert forall|t: int| 0 <= t < before.len() implies next[t] == goal[t] by {
            if t != target {
                assert(next[t] == now[t]);
                assert(batches::delivered(sent.take(j), t) == batches::delivered(
                    sent.take(j - 1),
                    t,
                ));
            }
        }
        assert(next =~= goal);
    }
}

/// In a cluster that holds a simple undirected graph every call of a worker's
/// turn succeeds, and the cluster then holds the graph with that worker's edges
/// considered; the turn tells how many of them got a new end.
pub proof fn lemma_turn(
    before: Seq<ShardView>,
    config: ClusterConfig,
    graph: Seq<Seq<u32>>,
    i: int,
    probability: Probability,
    seed: u64,
    turn: TurnTaken,
    after: Seq<ShardView>,
)
    requires
        proper(config),
        cluster(before, config, graph),
        simple(graph),
        0 <= i < config.workers,
        keeps_edges(
            graph,
            config.nodes as int,
            half(config),
            first_of(config, i) * half(config),
        ),
        takes_turn(before, i, probability, seed, turn, after),
    ensures
        turn_succeeds(turn),
        after == after_turn(before, i, probability, seed),
        turn_rewired(turn) == if probability.zero() {
            0
        } else {
            before[i].pass_end(probability.chance->Some_0, seed).rewired
        },
{
    let chance = probability.chance->Some_0;
    assert(placed(before[i], config, i));
    if probability.zero() {
        assert(turn.clusters[0] =~= before);
        assert(turn.written.len() == 0);
    } else {
        super::passes::lemma_cluster_pass(before, config, graph, i, chance, seed);
        let shard = before[i];
        let end = shard.pass_end(chance, seed);
        let sent = all_sent(end);
        super::lemma_bounds(config, i);
        assert(0 <= shard.edge_total()) by (nonlinear_arith)
            requires
                shard.edge_total() == (shard.end - shard.start) * shard.half(),
                shard.end >= shard.start,
                shard.half() >= 0,
        ;
        super::passes::lemma_pass_batches(shard, config, i, chance, seed, shard.edge_total());
        assert(turn.answer is Ok);
        assert forall|x: int| 0 <= x < sent.len() implies carries_mutations(
            turn.written[x],
            #[trigger] sent[x],
        ) by {
            assert(carries_mutations(turn.written[0 + x], sent[x]));
        }
        assert forall|x: int| 0 <= x < sent.len() implies (#[trigger] sent[x]).0 < config.workers
            && sent[x].0 != i by {}
        lemma_batches_applied(before, config, i, sent, turn, sent.len() as int);
        assert(sent.take(sent.len() as int) =~= sent);
        assert(after =~= after_pass(before, i, chance, seed));
    }
}

/// The workers of a cluster take their turns, one after the other; `clusters`
/// are the states before, between and after them.
pub open spec fn take_turns(
    clusters: Seq<Seq<ShardView>>,
    probability: Probability,
    seed: u64,
    turns: Seq<TurnTaken>,
) -> bool {
    &&& clusters.len() == turns.len() + 1
    &&& forall|i: int|
        0 <= i < turns.len() ==> takes_turn(
            clusters[i],
            i,
            probability,
            seed,
            #[trigger] turns[i],
            clusters[i + 1],
        )
}

/// The graph that a cluster holds after the turns of its first `n` workers.
pub open spec fn graph_after(
    config: ClusterConfig,
    probability: Probability,
    seed: u64,
    n: int,
) -> Seq<Seq<u32>> {
    if probability.zero() {
        ring_rows(config)
    } else {
        rewired(
            ring_rows(config),
            config,
            probability.chance->Some_0,
            seed,
            0,
            first_of(config, n) * half(config),
        )
    }
}

/// The edges that the first `n` turns tell as rewired, together.
pub open spec fn turns_rewired(turns: Seq<TurnTaken>, n: int) -> nat
    decreases n,
{
    if n <= 0 {
        0
    } else {
        turns_rewired(turns, n - 1) + turn_rewired(turns[n - 1])
    }
}

/// A cluster that has built the ring and rewires it, worker after worker, each
/// message applied before the next worker starts: every call succeeds, and after
/// each turn the cluster holds a simple undirected graph with `N * K` entries in
/// which every node has at least `K / 2` neighbors.
#[verifier::rlimit(60)]
#[verifier::spinoff_prover]
pub proof fn lemma_turns(
    config: ClusterConfig,
    probability: Probability,
    seed: u64,
    clusters: Seq<Seq<ShardView>>,
    turns: Seq<TurnTaken>,
    n: int,
)
    requires
        proper(config),
        built(clusters[0], config),
        take_turns(clusters, probability, seed, turns),
        0 <= n <= turns.len() <= config.workers,
    ensures
        forall|i: int| 0 <= i < n ==> turn_succeeds(#[trigger] turns[i]),
        cluster(clusters[n], config, graph_after(config, probability, seed, n)),
        simple(graph_after(config, probability, seed, n)),
        entries(clusters[n], config.workers as int) == config.nodes * config.degree,
        forall|node: int|
            0 <= node < config.nodes ==> #[trigger] clusters[n][owner(config, node)].row(
                node,
            ).len() >= config.degree / 2,
        clusters[n] == if probability.zero() {
            clusters[0]
        } else {
            after_passes(clusters[0], probability.chance->Some_0, seed, n)
        },
        turns_rewired(turns, n) == if probability.zero() {
            0
        } else {
            rewired_total(clusters[0], probability.chance->Some_0, seed, n)
        },
    decreases n,
{
    let chance = probability.chance->Some_0;
    let start = clusters[0];
    let ring = ring_rows(config);
    let graph = graph_after(config, probability, seed, n);
    super::lemma_built(start, config);
    super::passes::lemma_cluster_rewired(start, config, chance, seed, n);
    super::lemma_bounds(config, 0);
    if n > 0 {
        let i = n - 1;
        lemma_turns(config, probability, seed, clusters, turns, i);
        assert(takes_turn(clusters[i], i, probability, seed, turns[i], clusters[i + 1]));
        let before = graph_after(config, probability, seed, i);
        super::passes::lemma_cluster_rewired(start, config, chance, seed, i);
        super::lemma_bounds(config, i);
        assert(0 <= first_of(config, i) * half(config)) by (nonlinear_arith)
            requires
                0 <= first_of(config, i),
                0 <= half(config),
        ;
        lemma_turn(clusters[i], config, before, i, probability, seed, turns[i], clusters[n]);
    }
    lemma_entries(clusters[n], config, graph, config.workers as int);
    lemma_ring_entries(config);
    assert forall|node: int| 0 <= node < config.nodes implies #[trigger] clusters[n][owner(
        config,
        node,
    )].row(node).len() >= config.degree / 2 by {
        super::lemma_row(clusters[n], config, graph, node);
        if probability.zero() {
            super::rewiring::lemma_least_degree(config, chance, seed, 0, node);
        } else {
            super::rewiring::lemma_least_degree(
                config,
                chance,
                seed,
                first_of(config, n) * half(config),
                node,
            );
        }
    }
}

/// However many workers two clusters have: if they build the same ring and rewire
/// it with the same probability and seed, all workers in turn, they end with the
/// same row for every node, and their turns tell the same number of rewired edges.
pub proof fn lemma_two_clusters(
    a: ClusterConfig,
    a_clusters: Seq<Seq<ShardView>>,
    a_turns: Seq<TurnTaken>,
    b: ClusterConfig,
    b_clusters: Seq<Seq<ShardView>>,
    b_turns: Seq<TurnTaken>,
    probability: Probability,
    seed: u64,
)
    requires
        proper(a),
        proper(b),
        a.nodes == b.nodes,
        a.degree == b.degree,
        built(a_clusters[0], a),
        built(b_clusters[0], b),
        take_turns(a_clusters, probability, seed, a_turns),
        take_turns(b_clusters, probability, seed, b_turns),
        a_turns.len() == a.workers,
        b_turns.len() == b.workers,
    ensures
        forall|node: int|
            0 <= node < a.nodes ==> #[trigger] a_clusters.last()[owner(a, node)].row(node)
                == b_clusters.last()[owner(b, node)].row(node),
        turns_rewired(a_turns, a.workers as int) == turns_rewired(b_turns, b.workers as int),
{
    let chance = probability.chance->Some_0;
    lemma_turns(a, probability, seed, a_clusters, a_turns, a.workers as int);
    lemma_turns(b, probability, seed, b_clusters, b_turns, b.workers as int);
    if probability.zero() {
        let ring = ring_rows(a);
        assert(ring_rows(b) =~= ring);
        assert forall|node: int| 0 <= node < a.nodes implies #[trigger] a_clusters.last()[owner(
            a,
            node,
        )].row(node) == b_clusters.last()[owner(b, node)].row(node) by {
            super::lemma_row(a_clusters.last(), a, ring, node);
            super::lemma_row(b_clusters.last(), b, ring, node);
        }
    } else {
        super::passes::lemma_workers_apart(
            a_clusters[0],
            a,
            b_clusters[0],
            b,
            chance,
            seed,
        );
    }
}

} // verus!
