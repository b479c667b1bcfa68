//! The workers' rewiring passes, held against the rewiring of the whole graph.

use super::rewiring::{choice, considered, from_node, picks, rewired, to_node};
use super::{cluster, first_of, half, holds, keeps_edges, owner, placed, proper, simple};
use crate::batches;
use crate::batches::Waiting;
use crate::circle;
use crate::distance;
use crate::protocol::{ClusterConfig, Mutation};
use crate::rows;
use crate::sorted;
use crate::worker::rewire::{attach, release, PassState};
use crate::worker::ShardView;
use crate::worker;
use rand::distributions::Bernoulli;
use vstd::prelude::*;

verus! {

/// Whom a mutation is for: the owner of the row that it changes.
pub open spec fn mutation_target(config: ClusterConfig) -> spec_fn(Mutation) -> int {
    |mutation: Mutation| owner(config, mutation.node as int)
}

/// All the batches of a pass that has come to its end.
pub open spec fn all_sent(state: PassState) -> Seq<(u32, Seq<Mutation>)> {
    state.sent + batches::flushed(state.waiting.groups)
}

/// The mutations that have left a pass of worker `t` or wait in it are those of
/// its outbox, and all of them change rows of other workers.
pub open spec fn accounted(state: PassState, config: ClusterConfig, t: int) -> bool {
    let none = Waiting::<Mutation>::none(config.workers as nat);
    &&& state.waiting == none.queue_all(state.outbox, mutation_target(config))
    &&& state.sent == none.sends_all(state.outbox, mutation_target(config))
    &&& forall|i: int|
        0 <= i < state.outbox.len() ==> {
            let node = (#[trigger] state.outbox[i]).node;
            node < config.nodes && owner(config, node as int) != t
        }
}

proof fn lemma_deliver_accounted(
    shard: ShardView,
    config: ClusterConfig,
    t: int,
    state: PassState,
    mutation: Mutation,
)
    requires
        placed(shard, config, t),
        accounted(state, config, t),
        mutation.node < config.nodes,
    ensures
        accounted(shard.deliver(state, mutation), config, t),
{
    let after = shard.deliver(state, mutation);
    super::lemma_owner(shard, config, t, mutation.node as int);
    if after.outbox != state.outbox {
        assert(after.outbox.drop_last() =~= state.outbox);
        assert(after.outbox.last() == mutation);
        assert(mutation_target(config)(mutation) == shard.owner(mutation.node));
    }
}

/// Whatever a pass queued for a worker reaches it once the pass is over, whole
/// and in order, in batches that are not empty and within the limit.
pub proof fn lemma_pass_batches(
    shard: ShardView,
    config: ClusterConfig,
    t: int,
    chance: Bernoulli,
    seed: u64,
    k: int,
)
    requires
        placed(shard, config, t),
        proper(config),
        0 <= k <= shard.edge_total(),
    ensures
        ({
            let state = shard.run(shard.pass_start(), chance, seed, 0, k);
            &&& accounted(state, config, t)
            &&& state.waiting.wf()
            &&& batches::bounded(all_sent(state))
            &&& batches::addressed(all_sent(state), mutation_target(config))
            &&& forall|i: int|
                0 <= i < all_sent(state).len() ==> {
                    let batch = #[trigger] all_sent(state)[i];
                    batch.0 < config.workers && batch.0 != t
                }
            &&& forall|x: int|
                0 <= x < config.workers ==> #[trigger] batches::delivered(all_sent(state), x)
                    == batches::meant_for(state.outbox, mutation_target(config), x)
        }),
{
    lemma_run_accounted(shard, config, t, chance, seed, k);
    let state = shard.run(shard.pass_start(), chance, seed, 0, k);
    let none = Waiting::<Mutation>::none(config.workers as nat);
    let target = mutation_target(config);
    assert forall|i: int| 0 <= i < state.outbox.len() implies 0 <= #[trigger] target(
        state.outbox[i],
    ) < none.groups.len() by {
        super::lemma_owner(shard, config, t, state.outbox[i].node as int);
    }
    batches::lemma_all_sent(none, state.outbox, target);
    let all = all_sent(state);
    assert forall|i: int| 0 <= i < all.len() implies {
        let batch = #[trigger] all[i];
        batch.0 < config.workers && batch.0 != t
    } by {
        assert(1 <= all[i].1.len());
        if all[i].0 == t {
            batches::lemma_batch_member(none, state.outbox, target, i, 0);
            let item = all[i].1[0];
            let j = choose|j: int| 0 <= j < state.outbox.len() && state.outbox[j] == item;
            assert(owner(config, state.outbox[j].node as int) != t);
            assert(target(all[i].1[0]) == all[i].0);
        }
    }
}

proof fn lemma_run_accounted(
    shard: ShardView,
    config: ClusterConfig,
    t: int,
    chance: Bernoulli,
    seed: u64,
    k: int,
)
    requires
        placed(shard, config, t),
        proper(config),
        0 <= k <= shard.edge_total(),
    ensures
        accounted(shard.run(shard.pass_start(), chance, seed, 0, k), config, t),
    decreases k,
{
    let start = shard.pass_start();
    if k > 0 {
        lemma_run_accounted(shard, config, t, chance, seed, k - 1);
        lemma_edge(shard, config, t, k - 1);
        let before = shard.run(start, chance, seed, 0, k - 1);
        if before.failure is None {
            match shard.edge_choice(before.rows, chance, seed, k - 1) {
                None => {},
                Some(w) => {
                    lemma_choice_below(shard, config, before.rows, chance, seed, k - 1);
                    let u = shard.edge_from(k - 1);
                    let v = shard.edge_to(k - 1);
                    let at = u - shard.start;
                    let row = before.rows[at];
                    if row.contains(v) {
                        let moved = PassState {
                            rows: before.rows.update(
                                at,
                                sorted::with_node(sorted::without_node(row, v), w),
                            ),
                            intact: false,
                            ..before
                        };
                        lemma_deliver_accounted(shard, config, t, moved, release(u, v));
                        lemma_deliver_accounted(
                            shard,
                            config,
                            t,
                            shard.deliver(moved, release(u, v)),
                            attach(u, w),
                        );
                    }
                },
            }
        }
    }
}

proof fn lemma_choice_below(
    shard: ShardView,
    config: ClusterConfig,
    rows: Seq<Seq<u32>>,
    chance: Bernoulli,
    seed: u64,
    k: int,
)
    requires
        shard.config == Some(config),
    ensures
        shard.edge_choice(rows, chance, seed, k) is Some ==> worker::rewire::eligible(
            shard.edge_choice(rows, chance, seed, k)->Some_0,
            shard.edge_from(k),
            shard.edge_to(k),
            rows[shard.edge_from(k) - shard.start],
            config.nodes,
        ),
{
    let u = shard.edge_from(k);
    let (heads, rng) = crate::random::coin(
        crate::random::seeded(crate::random::mixed(seed ^ shard.edge_number(k))),
        chance,
    );
    worker::rewire::lemma_target_choice(
        rng,
        u,
        shard.edge_to(k),
        rows[u - shard.start],
        config.nodes,
    );
}

/// Edge `k` of a worker's pass is an edge of the whole ring.
proof fn lemma_edge(shard: ShardView, config: ClusterConfig, t: int, k: int)
    requires
        placed(shard, config, t),
        proper(config),
        0 <= k < shard.edge_total(),
    ensures
        ({
            let e = shard.start * half(config) + k;
            &&& 0 <= e < config.nodes * half(config)
            &&& shard.edge_from(k) == from_node(config, e)
            &&& shard.edge_to(k) == to_node(config, e)
            &&& shard.edge_number(k) == e
            &&& shard.edge_from(k) == circle::edge_from(half(config), e)
            &&& shard.edge_to(k) == circle::edge_to(config.nodes as int, half(config), e)
            &&& shard.edge_from(k) < config.nodes
            &&& shard.edge_to(k) < config.nodes
            &&& shard.owns(shard.edge_from(k) as int)
        }),
{
    super::lemma_bounds(config, t);
    let h = half(config);
    let start = shard.start;
    let size = shard.end - start;
    let e = start * h + k;
    assert(start * h >= 0) by (nonlinear_arith)
        requires
            start >= 0,
            h >= 0,
    ;
    assert(e < config.nodes * h) by (nonlinear_arith)
        requires
            e == start * h + k,
            k < (shard.end - start) * h,
            shard.end <= config.nodes,
            h > 0,
    ;
    assert(config.nodes * h <= u64::MAX) by (nonlinear_arith)
        requires
            0 <= config.nodes <= 0xffff_ffff,
            0 <= h <= 0x7fff_ffff,
    ;
    vstd::arithmetic::div_mod::lemma_fundamental_div_mod(k, h);
    vstd::arithmetic::div_mod::lemma_div_pos_is_pos(k, h);
    let q = k / h;
    assert(q < size) by (nonlinear_arith)
        requires
            h * q <= k,
            k < size * h,
            h > 0,
    ;
    assert(e == (start + q) * h + k % h) by (nonlinear_arith)
        requires
            e == start * h + k,
            k == h * q + k % h,
    ;
    vstd::arithmetic::div_mod::lemma_fundamental_div_mod_converse(e, h, start + q, k % h);
    circle::lemma_edge(config.nodes as int, h, e);
}

/// A worker that takes mutations one by one.
proof fn lemma_mutated_push(shard: ShardView, mutations: Seq<Mutation>, mutation: Mutation)
    ensures
        shard.mutated_by(mutations.push(mutation)) == shard.mutate(
            shard.mutated_by(mutations),
            mutation,
        ),
{
    assert(mutations.push(mutation).drop_last() =~= mutations);
}

proof fn lemma_meant_push(
    items: Seq<Mutation>,
    target: spec_fn(Mutation) -> int,
    x: int,
    item: Mutation,
)
    ensures
        batches::meant_for(items.push(item), target, x) == if target(item) == x {
            batches::meant_for(items, target, x).push(item)
        } else {
            batches::meant_for(items, target, x)
        },
{
    assert(items.push(item).drop_last() =~= items);
}

/// Where a pass stands: it has not failed, its rows are those of the graph, and
/// another worker that takes what was queued for it comes to the graph's rows too.
pub open spec fn in_step(
    state: PassState,
    shard: ShardView,
    other: ShardView,
    config: ClusterConfig,
    graph: Seq<Seq<u32>>,
) -> bool {
    let taken = other.mutated_by(
        batches::meant_for(state.outbox, mutation_target(config), other.id as int),
    );
    &&& state.failure is None
    &&& state.rows.len() == shard.end - shard.start
    &&& forall|i: int|
        0 <= i < state.rows.len() ==> #[trigger] state.rows[i] == graph[shard.start + i]
    &&& other.id != shard.id ==> {
        &&& taken.failure is None
        &&& taken.rows.len() == other.end - other.start
        &&& forall|i: int|
            0 <= i < taken.rows.len() ==> #[trigger] taken.rows[i] == graph[other.start + i]
    }
}

/// One mutation comes to its row, here or there.
proof fn lemma_deliver_step(
    shard: ShardView,
    other: ShardView,
    config: ClusterConfig,
    t: int,
    x: int,
    state: PassState,
    graph: Seq<Seq<u32>>,
    mutation: Mutation,
)
    requires
        placed(shard, config, t),
        placed(other, config, x),
        graph.len() == config.nodes,
        in_step(state, shard, other, config, graph),
        mutation.node < config.nodes,
        worker::rewire::applicable(graph[mutation.node as int], mutation),
    ensures
        in_step(
            shard.deliver(state, mutation),
            shard,
            other,
            config,
            graph.update(
                mutation.node as int,
                worker::rewire::mutated(graph[mutation.node as int], mutation),
            ),
        ),
        shard.deliver(state, mutation).rewired == state.rewired,
{
    let target = mutation_target(config);
    let node = mutation.node as int;
    super::lemma_owner(shard, config, t, node);
    super::lemma_owner(other, config, x, node);
    super::lemma_bounds(config, t);
    super::lemma_bounds(config, x);
    let queued = batches::meant_for(state.outbox, target, x);
    let taken = other.mutated_by(queued);
    let changed = graph.update(node, worker::rewire::mutated(graph[node], mutation));
    if shard.owns(node) {
        assert(state.rows[node - shard.start] == graph[shard.start + (node - shard.start)]);
        if t != x {
            assert forall|i: int| 0 <= i < taken.rows.len() implies #[trigger] taken.rows[i]
                == changed[other.start + i] by {
                assert(other.owns(other.start + i));
            }
        }
    } else {
        lemma_meant_push(state.outbox, target, x, mutation);
        if t != x && other.owns(node) {
            lemma_mutated_push(other, queued, mutation);
            assert(taken.rows[node - other.start] == graph[other.start + (node - other.start)]);
        }
        assert forall|i: int| 0 <= i < state.rows.len() implies #[trigger] state.rows[i]
            == changed[shard.start + i] by {
            assert(shard.owns(shard.start + i));
        }
    }
}

/// A pass does to the workers' rows what rewiring does to the graph.
pub proof fn lemma_pass_step(
    shard: ShardView,
    other: ShardView,
    config: ClusterConfig,
    t: int,
    x: int,
    graph: Seq<Seq<u32>>,
    chance: Bernoulli,
    seed: u64,
    k: int,
)
    requires
        proper(config),
        placed(shard, config, t),
        placed(other, config, x),
        holds(shard, graph),
        holds(other, graph),
        graph.len() == config.nodes,
        simple(graph),
        keeps_edges(graph, config.nodes as int, half(config), shard.start * half(config)),
        0 <= k <= shard.edge_total(),
    ensures
        in_step(
            shard.run(shard.pass_start(), chance, seed, 0, k),
            shard,
            other,
            config,
            rewired(
                graph,
                config,
                chance,
                seed,
                shard.start * half(config),
                shard.start * half(config) + k,
            ),
        ),
        shard.run(shard.pass_start(), chance, seed, 0, k).rewired == picks(
            graph,
            config,
            chance,
            seed,
            shard.start * half(config),
            shard.start * half(config) + k,
        ),
    decreases k,
{
    let h = half(config);
    let first = shard.start * h;
    super::lemma_bounds(config, t);
    super::lemma_bounds(config, x);
    if k > 0 {
        lemma_pass_step(shard, other, config, t, x, graph, chance, seed, k - 1);
        lemma_edge(shard, config, t, k - 1);
        let e = first + k - 1;
        let before = shard.run(shard.pass_start(), chance, seed, 0, k - 1);
        let now = rewired(graph, config, chance, seed, first, e);
        assert(first >= 0) by (nonlinear_arith)
            requires
                first == shard.start * h,
                shard.start >= 0,
                h >= 0,
        ;
        super::rewiring::lemma_rewired(graph, config, chance, seed, first, e);
        super::rewiring::lemma_considered(now, config, chance, seed, e);
        let u = from_node(config, e);
        let v = to_node(config, e);
        assert(before.rows[u - shard.start] == now[shard.start + (u - shard.start)]);
        assert(shard.edge_choice(before.rows, chance, seed, k - 1) == choice(
            now,
            config,
            chance,
            seed,
            e,
        ));
        assert(rewired(graph, config, chance, seed, first, first + k) == considered(
            now,
            config,
            chance,
            seed,
            e,
        ));
        match choice(now, config, chance, seed, e) {
            None => {},
            Some(w) => {
                super::rewiring::lemma_redirected(now, config, e, w);
                let at = u - shard.start;
                let row = sorted::with_node(sorted::without_node(now[u as int], v), w);
                let moved = PassState {
                    rows: before.rows.update(at, row),
                    intact: false,
                    ..before
                };
                let changed = now.update(u as int, row);
                super::lemma_owner(shard, config, t, u as int);
                super::lemma_owner(other, config, x, u as int);
                assert(in_step(moved, shard, other, config, changed)) by {
                    let taken = other.mutated_by(
                        batches::meant_for(before.outbox, mutation_target(config), x),
                    );
                    if t != x {
                        assert forall|i: int| 0 <= i < taken.rows.len() implies #[trigger]
                            taken.rows[i] == changed[other.start + i] by {
                            assert(other.owns(other.start + i));
                        }
                    }
                }
                lemma_deliver_step(
                    shard,
                    other,
                    config,
                    t,
                    x,
                    moved,
                    changed,
                    release(u, v),
                );
                let released = shard.deliver(moved, release(u, v));
                let second = changed.update(
                    v as int,
                    sorted::without_node(changed[v as int], u),
                );
                lemma_deliver_step(
                    shard,
                    other,
                    config,
                    t,
                    x,
                    released,
                    second,
                    attach(u, w),
                );
            },
        }
    }
}

/// Mutations applied in two batches are applied as in one.
pub proof fn lemma_mutated_sum(shard: ShardView, a: Seq<Mutation>, b: Seq<Mutation>)
    requires
        shard.mutated_by(a).failure is None,
    ensures
        shard.mutated_by(a + b) == shard.with_rows(
            shard.mutated_by(a).rows,
            shard.mutated_by(a).intact,
        ).mutated_by(b),
    decreases b.len(),
{
    if b.len() == 0 {
        assert(a + b =~= a);
    } else {
        assert((a + b).drop_last() =~= a + b.drop_last());
        lemma_mutated_sum(shard, a, b.drop_last());
    }
}

/// A pass that is left between two edges and taken up again does what it does in
/// one go: the rows, the counters, a failure and all that is sent are the same.
pub proof fn lemma_paused_pass(
    shard: ShardView,
    state: PassState,
    chance: Bernoulli,
    seed: u64,
    from: int,
    middle: int,
    to: int,
)
    requires
        from <= middle <= to,
    ensures
        ({
            let left = shard.run(state, chance, seed, from, middle);
            let taken_up = PassState {
                outbox: Seq::empty(),
                sent: Seq::empty(),
                ..left
            };
            let rest = shard.run(taken_up, chance, seed, middle, to);
            let whole = shard.run(state, chance, seed, from, to);
            whole == (PassState {
                outbox: left.outbox + rest.outbox,
                sent: left.sent + rest.sent,
                ..rest
            })
        }),
    decreases to - middle,
{
    let left = shard.run(state, chance, seed, from, middle);
    let taken_up = PassState { outbox: Seq::empty(), sent: Seq::empty(), ..left };
    if middle == to {
        assert(left.outbox + Seq::<Mutation>::empty() =~= left.outbox);
        assert(left.sent + Seq::<(u32, Seq<Mutation>)>::empty() =~= left.sent);
    } else {
        lemma_paused_pass(shard, state, chance, seed, from, middle, to - 1);
        let rest = shard.run(taken_up, chance, seed, middle, to - 1);
        lemma_prefixed(shard, rest, left.outbox, left.sent, chance, seed, to - 1);
    }
}

/// What was sent before an edge has no bearing on what becomes of it.
proof fn lemma_prefixed(
    shard: ShardView,
    state: PassState,
    outbox: Seq<Mutation>,
    sent: Seq<(u32, Seq<Mutation>)>,
    chance: Bernoulli,
    seed: u64,
    k: int,
)
    ensures
        shard.consider(
            PassState { outbox: outbox + state.outbox, sent: sent + state.sent, ..state },
            chance,
            seed,
            k,
        ) == (PassState {
            outbox: outbox + shard.consider(state, chance, seed, k).outbox,
            sent: sent + shard.consider(state, chance, seed, k).sent,
            ..shard.consider(state, chance, seed, k)
        }),
{
    if state.failure is None {
        match shard.edge_choice(state.rows, chance, seed, k) {
            None => {},
            Some(w) => {
                let u = shard.edge_from(k);
                let v = shard.edge_to(k);
                let at = u - shard.start;
                let row = sorted::with_node(sorted::without_node(state.rows[at], v), w);
                let moved = PassState {
                    rows: state.rows.update(at, row),
                    intact: false,
                    ..state
                };
                lemma_prefixed_deliver(shard, moved, outbox, sent, release(u, v));
                lemma_prefixed_deliver(
                    shard,
                    shard.deliver(moved, release(u, v)),
                    outbox,
                    sent,
                    attach(u, w),
                );
            },
        }
    }
}

proof fn lemma_prefixed_deliver(
    shard: ShardView,
    state: PassState,
    outbox: Seq<Mutation>,
    sent: Seq<(u32, Seq<Mutation>)>,
    mutation: Mutation,
)
    ensures
        shard.deliver(
            PassState { outbox: outbox + state.outbox, sent: sent + state.sent, ..state },
            mutation,
        ) == (PassState {
            outbox: outbox + shard.deliver(state, mutation).outbox,
            sent: sent + shard.deliver(state, mutation).sent,
            ..shard.deliver(state, mutation)
        }),
{
    let more = state.waiting.sends(shard.owner(mutation.node), mutation);
    assert((outbox + state.outbox).push(mutation) =~= outbox + state.outbox.push(mutation));
    assert((sent + state.sent) + more =~= sent + (state.sent + more));
}

/// The workers once worker `i` has gone through its pass and every other worker
/// has applied what the pass sent it.
pub open spec fn after_pass(
    shards: Seq<ShardView>,
    i: int,
    chance: Bernoulli,
    seed: u64,
) -> Seq<ShardView> {
    let end = shards[i].pass_end(chance, seed);
    Seq::new(
        shards.len(),
        |t: int|
            if t == i {
                shards[i].with_rows(end.rows, end.intact)
            } else {
                let taken = shards[t].mutated_by(batches::delivered(all_sent(end), t));
                shards[t].with_rows(taken.rows, taken.intact)
            },
    )
}

/// Nothing goes wrong in worker `i`'s pass, here or with those that it sends mutations to.
pub open spec fn pass_succeeds(
    shards: Seq<ShardView>,
    i: int,
    chance: Bernoulli,
    seed: u64,
) -> bool {
    let end = shards[i].pass_end(chance, seed);
    &&& end.failure is None
    &&& forall|t: int|
        0 <= t < shards.len() && t != i ==> (#[trigger] shards[t].mutated_by(
            batches::delivered(all_sent(end), t),
        )).failure is None
}

/// In a cluster that holds a simple undirected graph a worker's pass succeeds,
/// and the cluster then holds the graph with that worker's edges rewired.
pub proof fn lemma_cluster_pass(
    shards: Seq<ShardView>,
    config: ClusterConfig,
    graph: Seq<Seq<u32>>,
    i: int,
    chance: Bernoulli,
    seed: u64,
)
    requires
        proper(config),
        cluster(shards, config, graph),
        simple(graph),
        0 <= i < config.workers,
        keeps_edges(
            graph,
            config.nodes as int,
            half(config),
            first_of(config, i) * half(config),
        ),
    ensures
        pass_succeeds(shards, i, chance, seed),
        shards[i].pass_end(chance, seed).rewired == picks(
            graph,
            config,
            chance,
            seed,
            first_of(config, i) * half(config),
            first_of(config, i + 1) * half(config),
        ),
        cluster(
            after_pass(shards, i, chance, seed),
            config,
            rewired(
                graph,
                config,
                chance,
                seed,
                first_of(config, i) * half(config),
                first_of(config, i + 1) * half(config),
            ),
        ),
{
    let shard = shards[i];
    let h = half(config);
    assert(placed(shard, config, i));
    super::lemma_bounds(config, i);
    let total = shard.edge_total();
    let first = shard.start * h;
    assert(first + total == shard.end * h) by (nonlinear_arith)
        requires
            first == shard.start * h,
            total == (shard.end - shard.start) * h,
    ;
    assert(0 <= total) by (nonlinear_arith)
        requires
            total == (shard.end - shard.start) * h,
            shard.end >= shard.start,
            h >= 0,
    ;
    assert(0 <= first && shard.end * h <= config.nodes * h) by (nonlinear_arith)
        requires
            first == shard.start * h,
            0 <= shard.start,
            shard.end <= config.nodes,
            h >= 0,
    ;
    let after = rewired(graph, config, chance, seed, first, first + total);
    let end = shard.pass_end(chance, seed);
    super::rewiring::lemma_rewired(graph, config, chance, seed, first, first + total);
    lemma_pass_batches(shard, config, i, chance, seed, total);
    lemma_pass_step(shard, shard, config, i, i, graph, chance, seed, total);
    let next = after_pass(shards, i, chance, seed);
    assert forall|t: int| 0 <= t < shards.len() && t != i implies (
    #[trigger] shards[t].mutated_by(batches::delivered(all_sent(end), t))).failure is None by {
        assert(placed(shards[t], config, t));
        lemma_pass_step(shard, shards[t], config, i, t, graph, chance, seed, total);
        assert(batches::delivered(all_sent(end), t) == batches::meant_for(
            end.outbox,
            mutation_target(config),
            t,
        ));
    }
    assert forall|t: int| 0 <= t < next.len() implies placed(#[trigger] next[t], config, t)
        && holds(next[t], after) by {
        assert(placed(shards[t], config, t));
        if t != i {
            lemma_pass_step(shard, shards[t], config, i, t, graph, chance, seed, total);
            assert(batches::delivered(all_sent(end), t) == batches::meant_for(
                end.outbox,
                mutation_target(config),
                t,
            ));
        }
    }
}

/// The workers after the passes of the first `count` of them, one after the other.
pub open spec fn after_passes(
    shards: Seq<ShardView>,
    chance: Bernoulli,
    seed: u64,
    count: int,
) -> Seq<ShardView>
    decreases count,
{
    if count <= 0 {
        shards
    } else {
        after_pass(after_passes(shards, chance, seed, count - 1), count - 1, chance, seed)
    }
}

/// The edges that the first `count` workers tell as rewired, together.
pub open spec fn rewired_total(
    shards: Seq<ShardView>,
    chance: Bernoulli,
    seed: u64,
    count: int,
) -> nat
    decreases count,
{
    if count <= 0 {
        0
    } else {
        rewired_total(shards, chance, seed, count - 1) + after_passes(
            shards,
            chance,
            seed,
            count - 1,
        )[count - 1].pass_end(chance, seed).rewired
    }
}

/// A cluster that has built the ring rewires it without a failure. What it
/// holds then is the ring with every edge considered in turn, whatever the
/// number of workers; it is a simple undirected graph with as many entries. The
/// workers' counts sum up to the edges that got a new end.
#[verifier::rlimit(30)]
#[verifier::spinoff_prover]
pub proof fn lemma_cluster_rewired(
    shards: Seq<ShardView>,
    config: ClusterConfig,
    chance: Bernoulli,
    seed: u64,
    count: int,
)
    requires
        proper(config),
        cluster(shards, config, super::ring_rows(config)),
        simple(super::ring_rows(config)),
        keeps_edges(super::ring_rows(config), config.nodes as int, half(config), 0),
        0 <= count <= config.workers,
    ensures
        ({
            let end = first_of(config, count) * half(config);
            let graph = rewired(super::ring_rows(config), config, chance, seed, 0, end);
            &&& 0 <= end <= config.nodes * half(config)
            &&& cluster(after_passes(shards, chance, seed, count), config, graph)
            &&& simple(graph)
            &&& keeps_edges(graph, config.nodes as int, half(config), end)
            &&& rows::total(graph) == rows::total(super::ring_rows(config))
            &&& rewired_total(shards, chance, seed, count) == picks(
                super::ring_rows(config),
                config,
                chance,
                seed,
                0,
                end,
            )
        }),
        forall|i: int|
            0 <= i < count ==> #[trigger] pass_succeeds(
                after_passes(shards, chance, seed, i),
                i,
                chance,
                seed,
            ),
    decreases count,
{
    let ring = super::ring_rows(config);
    let h = half(config);
    let end = first_of(config, count) * h;
    if count == 0 {
        super::lemma_bounds(config, 0);
        assert(end == 0 && config.nodes * h >= 0) by (nonlinear_arith)
            requires
                end == first_of(config, count) * h,
                first_of(config, count) == 0,
                h >= 0,
        ;
    } else {
        let i = count - 1;
        lemma_cluster_rewired(shards, config, chance, seed, i);
        super::lemma_bounds(config, i);
        let begin = first_of(config, i) * h;
        assert(begin <= end <= config.nodes * h) by (nonlinear_arith)
            requires
                begin == first_of(config, i) * h,
                end == first_of(config, count) * h,
                first_of(config, i) <= first_of(config, count) <= config.nodes,
                h >= 0,
        ;
        let graph = rewired(ring, config, chance, seed, 0, begin);
        lemma_cluster_pass(
            after_passes(shards, chance, seed, i),
            config,
            graph,
            i,
            chance,
            seed,
        );
        super::rewiring::lemma_rewired_sum(ring, config, chance, seed, 0, begin, end);
        super::rewiring::lemma_picks_sum(ring, config, chance, seed, 0, begin, end);
        super::rewiring::lemma_rewired(ring, config, chance, seed, 0, end);
    }
}

/// Two clusters that build the same ring and rewire it with the same chance and
/// seed end with the same row for every node and with the same number of
/// rewired edges, however many workers each of them has.
pub proof fn lemma_workers_apart(
    a_shards: Seq<ShardView>,
    a: ClusterConfig,
    b_shards: Seq<ShardView>,
    b: ClusterConfig,
    chance: Bernoulli,
    seed: u64,
)
    requires
        proper(a),
        proper(b),
        a.nodes == b.nodes,
        a.degree == b.degree,
        super::built(a_shards, a),
        super::built(b_shards, b),
    ensures
        ({
            let ends_a = after_passes(a_shards, chance, seed, a.workers as int);
            let ends_b = after_passes(b_shards, chance, seed, b.workers as int);
            &&& forall|node: int|
                0 <= node < a.nodes ==> #[trigger] ends_a[owner(a, node)].row(node)
                    == ends_b[owner(b, node)].row(node)
            &&& rewired_total(a_shards, chance, seed, a.workers as int) == rewired_total(
                b_shards,
                chance,
                seed,
                b.workers as int,
            )
        }),
{
    let ends_a = after_passes(a_shards, chance, seed, a.workers as int);
    let ends_b = after_passes(b_shards, chance, seed, b.workers as int);
    let ring = super::ring_rows(a);
    super::lemma_built(a_shards, a);
    super::lemma_built(b_shards, b);
    assert(super::ring_rows(b) =~= ring);
    super::lemma_bounds(a, 0);
    super::lemma_bounds(b, 0);
    lemma_cluster_rewired(a_shards, a, chance, seed, a.workers as int);
    lemma_cluster_rewired(b_shards, b, chance, seed, b.workers as int);
    let end = a.nodes * half(a);
    super::rewiring::lemma_split_apart(ring, a, b, chance, seed, 0, end);
    let graph = rewired(ring, a, chance, seed, 0, end);
    assert forall|node: int| 0 <= node < a.nodes implies #[trigger] ends_a[owner(a, node)].row(
        node,
    ) == ends_b[owner(b, node)].row(node) by {
        super::lemma_row(ends_a, a, graph, node);
        super::lemma_row(ends_b, b, graph, node);
    }
}

/// After the passes of all workers every node has at least `K / 2` neighbors
/// and so reaches some node: the distances from a source have a mean.
pub proof fn lemma_kept_neighbors(
    shards: Seq<ShardView>,
    config: ClusterConfig,
    chance: Bernoulli,
    seed: u64,
    node: int,
)
    requires
        proper(config),
        super::built(shards, config),
        0 <= node < config.nodes,
    ensures
        ({
            let ends = after_passes(shards, chance, seed, config.workers as int);
            let graph = rewired(
                super::ring_rows(config),
                config,
                chance,
                seed,
                0,
                config.nodes * half(config),
            );
            &&& cluster(ends, config, graph)
            &&& ends[owner(config, node)].row(node).len() >= config.degree / 2
            &&& distance::reach_count(super::graph_link(graph), node, config.nodes as nat) > 0
        }),
{
    let ends = after_passes(shards, chance, seed, config.workers as int);
    let edges = config.nodes * half(config);
    let graph = rewired(super::ring_rows(config), config, chance, seed, 0, edges);
    super::lemma_built(shards, config);
    super::lemma_bounds(config, 0);
    lemma_cluster_rewired(shards, config, chance, seed, config.workers as int);
    super::lemma_row(ends, config, graph, node);
    super::rewiring::lemma_least_degree(config, chance, seed, edges, node);
    let v = graph[node][0];
    assert(graph[node].contains(v));
    assert(super::sound_row(graph, node));
    assert(super::graph_link(graph)(node, v as int));
    distance::lemma_reaches(super::graph_link(graph), node, v as int, config.nodes as nat);
}

} // verus!
