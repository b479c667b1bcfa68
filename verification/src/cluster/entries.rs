//! The number of row entries that the workers hold together.

use super::{cluster, first_of, half, holds, placed, proper, ring_rows};
use crate::circle;
use crate::generation;
use crate::protocol::ClusterConfig;
use crate::rows;
use crate::worker::ShardView;
use crate::worker;
use vstd::prelude::*;

verus! {

/// The entries that the first `count` workers hold together.
pub open spec fn entries(shards: Seq<ShardView>, count: int) -> nat
    decreases count,
{
    if count <= 0 {
        0
    } else {
        entries(shards, count - 1) + rows::total(shards[count - 1].rows)
    }
}

/// The workers together hold as many entries as the graph has.
pub proof fn lemma_entries(
    shards: Seq<ShardView>,
    config: ClusterConfig,
    graph: Seq<Seq<u32>>,
    count: int,
)
    requires
        config.workers > 0,
        cluster(shards, config, graph),
        0 <= count <= config.workers,
    ensures
        entries(shards, count) == rows::total(graph.take(first_of(config, count))),
        count == config.workers ==> entries(shards, count) == rows::total(graph),
    decreases count,
{
    super::lemma_bounds(config, 0);
    if count == 0 {
        assert(graph.take(0) =~= Seq::empty());
    } else {
        let t = count - 1;
        lemma_entries(shards, config, graph, t);
        super::lemma_bounds(config, t);
        assert(placed(shards[t], config, t) && holds(shards[t], graph));
        let a = first_of(config, t);
        let b = first_of(config, count);
        assert(graph.take(b) =~= graph.take(a) + shards[t].rows);
        rows::lemma_total_sum(graph.take(a), shards[t].rows);
    }
    if count == config.workers {
        assert(graph.take(config.nodes as int) =~= graph);
    }
}

/// A row of 32-bit nodes and the set of the same nodes are of one size.
proof fn lemma_same_size(row: Seq<u32>, nodes: Set<usize>)
    requires
        row.no_duplicates(),
        forall|y: usize| nodes.contains(y) <==> y <= u32::MAX && row.contains(y as u32),
    ensures
        nodes.finite(),
        nodes.len() == row.len(),
    decreases row.len(),
{
    if row.len() == 0 {
        assert(nodes =~= Set::empty());
    } else {
        let shorter = row.drop_last();
        let last = row.last();
        let fewer = nodes.remove(last as usize);
        assert(row[row.len() - 1] == last);
        assert(nodes.contains(last as usize));
        assert forall|y: usize| fewer.contains(y) <==> y <= u32::MAX && shorter.contains(
            y as u32,
        ) by {
            assert(row =~= shorter.push(last));
            if y <= u32::MAX {
                worker::bfs::lemma_contains_push(shorter, last, y as u32);
                if y == last as usize && shorter.contains(last) {
                    let i = choose|i: int| 0 <= i < shorter.len() && shorter[i] == last;
                    assert(row[i] == row[row.len() - 1]);
                }
            }
        }
        assert(shorter.no_duplicates());
        lemma_same_size(shorter, fewer);
        assert(nodes =~= fewer.insert(last as usize));
    }
}

proof fn lemma_same_total(lists: Seq<Seq<u32>>, sets: Seq<Set<usize>>)
    requires
        lists.len() == sets.len(),
        forall|u: int| 0 <= u < lists.len() ==> (#[trigger] lists[u]).len() == sets[u].len(),
    ensures
        rows::total(lists) == generation::size_total(sets),
    decreases lists.len(),
{
    if lists.len() > 0 {
        let a = lists.drop_last();
        let b = sets.drop_last();
        assert forall|u: int| 0 <= u < a.len() implies (#[trigger] a[u]).len() == b[u].len() by {
            assert(lists[u].len() == sets[u].len());
        }
        lemma_same_total(a, b);
        assert(lists[lists.len() - 1].len() == sets[sets.len() - 1].len());
    }
}

/// The untouched ring has `N * K` entries.
pub proof fn lemma_ring_entries(config: ClusterConfig)
    requires
        proper(config),
        super::holds_ring(config),
    ensures
        rows::total(ring_rows(config)) == config.nodes * config.degree,
{
    let n = config.nodes as usize;
    let k = config.degree as usize;
    let graph = ring_rows(config);
    let sets = generation::ring_draft(n, k).rows;
    generation::lemma_ring_draft(n, k);
    assert forall|u: int| 0 <= u < graph.len() implies (#[trigger] graph[u]).len()
        == sets[u].len() by {
        let row = graph[u];
        assert(worker::is_ring_row(graph[u], config.nodes as int, half(config), u));
        assert forall|y: usize| sets[u].contains(y) <==> y <= u32::MAX && row.contains(
            y as u32,
        ) by {
            if y <= u32::MAX {
                assert(row.contains(y as u32) <==> circle::ring_link(
                    config.nodes as int,
                    half(config),
                    u,
                    y as int,
                ));
                if row.contains(y as u32) {
                    super::lemma_link_below(config.nodes as int, half(config), u, y as int);
                }
            }
        }
        lemma_same_size(row, sets[u]);
    }
    lemma_same_total(graph, sets);
}

/// However often the ring has been rewired, the workers' counts sum up to
/// `N * K`: the check on the number of entries never fails.
pub proof fn lemma_entry_invariant(
    shards: Seq<ShardView>,
    config: ClusterConfig,
    chance: rand::distributions::Bernoulli,
    seed: u64,
)
    requires
        proper(config),
        super::built(shards, config),
    ensures
        entries(shards, config.workers as int) == config.nodes * config.degree,
        entries(
            super::passes::after_passes(shards, chance, seed, config.workers as int),
            config.workers as int,
        ) == config.nodes * config.degree,
{
    let ring = ring_rows(config);
    let end = super::passes::after_passes(shards, chance, seed, config.workers as int);
    super::lemma_built(shards, config);
    lemma_ring_entries(config);
    lemma_entries(shards, config, ring, config.workers as int);
    super::passes::lemma_cluster_rewired(
        shards,
        config,
        chance,
        seed,
        config.workers as int,
    );
    super::lemma_bounds(config, 0);
    let graph = super::rewiring::rewired(
        ring,
        config,
        chance,
        seed,
        0,
        first_of(config, config.workers as int) * half(config),
    );
    lemma_entries(end, config, graph, config.workers as int);
}

} // verus!
