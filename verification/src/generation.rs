//! Generation of a whole graph: a ring, then edges redirected at random.
//!
//! Every edge has a proposal that depends on nothing but the edge itself. The
//! proposals of a batch are made in parallel and committed in the order of the
//! edges, so that the graph does not depend on the threads.

use crate::circle;
use crate::ends;
use crate::graph::{Graph, GraphError, RewireStats};
use crate::graph;
use crate::parallel::{indices, map_parallel};
use crate::probability::Probability;
use crate::random::{draw_index, flip, seed_rng, splitmix64};
use crate::random;
use crate::rows;
use crate::sorting::sorted_row;
use crate::sorting;
use rand::distributions::Bernoulli;
use rand_chacha::ChaCha8Rng;
use std::collections::HashSet;
use vstd::prelude::*;

verus! {

/// How many proposals are held at a time.
pub const PROPOSAL_BATCH: usize = 65_536;

/// How many times a target is drawn at random before the nodes are searched in order.
pub const TARGET_DRAWS: u32 = 64;

/// Sets the draws for a second choice apart from those for the first.
pub const FALLBACK_SEED: u64 = 0xa5a5_a5a5;

/// An edge of the ring.
#[derive(Debug, Clone, Copy, PartialEq, Eq, Structural)]
pub struct EdgeTask {
    pub index: usize,
    pub u: usize,
    pub v: usize,
}

/// What is proposed for an edge.
#[derive(Debug, Clone, Copy, PartialEq, Eq, Structural)]
pub struct Proposal {
    pub task: EdgeTask,
    pub should_rewire: bool,
    pub target: Option<usize>,
}

/// The first acceptable node among `draws` random ones, and the generator after it was drawn.
pub open spec fn drawn(
    rng: ChaCha8Rng,
    n: usize,
    fits: spec_fn(usize) -> bool,
    draws: nat,
) -> (Option<usize>, ChaCha8Rng)
    decreases draws,
{
    if draws == 0 {
        (None, rng)
    } else {
        let (candidate, next) = random::index_below(rng, n, usize::BITS);
        if fits(candidate) {
            (Some(candidate), next)
        } else {
            drawn(next, n, fits, (draws - 1) as nat)
        }
    }
}

/// The smallest acceptable node from `from` on.
pub open spec fn smallest(n: usize, fits: spec_fn(usize) -> bool, from: int) -> Option<usize>
    decreases n - from,
{
    if from >= n {
        None
    } else if fits(from as usize) {
        Some(from as usize)
    } else {
        smallest(n, fits, from + 1)
    }
}

/// An acceptable node drawn at random, or the smallest one where too many draws
/// failed; and the generator after the choice.
pub open spec fn picked(rng: ChaCha8Rng, n: usize, fits: spec_fn(usize) -> bool) -> (
    Option<usize>,
    ChaCha8Rng,
) {
    let (first, after) = drawn(rng, n, fits, TARGET_DRAWS as nat);
    match first {
        Some(w) => (Some(w), after),
        None => (smallest(n, fits, 0), after),
    }
}

/// No ring edge joins the node and `u`.
pub open spec fn off_ring(n: usize, k: usize, u: usize) -> spec_fn(usize) -> bool {
    |candidate: usize|
        candidate < n && circle::cyclic(n as int, u as int, candidate as int) > k / 2
}

/// The node is neither `u` nor `v` nor a neighbor of `u`.
pub open spec fn open_to(row: Set<usize>, u: usize, v: usize, n: usize) -> spec_fn(usize) -> bool {
    |candidate: usize|
        candidate < n && candidate != u && candidate != v && !row.contains(candidate)
}

/// The new neighbor of `u` in place of `v`, and the generator after the choice:
/// none where every other node is a neighbor already.
pub open spec fn target_choice(
    rng: ChaCha8Rng,
    u: usize,
    v: usize,
    row: Set<usize>,
    n: usize,
) -> (Option<usize>, ChaCha8Rng) {
    if row.len() + 1 >= n {
        (None, rng)
    } else {
        picked(rng, n, open_to(row, u, v, n))
    }
}

/// What is proposed for edge `index`: whether it gets a new end, and a first
/// choice for it that is none of the ring neighbors.
pub open spec fn proposed(n: usize, k: usize, chance: Bernoulli, seed: u64, index: int) -> (
    bool,
    Option<usize>,
) {
    let u = circle::edge_from((k / 2) as int, index) as usize;
    let (heads, rng) = random::coin(
        random::seeded(random::mixed(seed ^ (index as u64))),
        chance,
    );
    (
        heads,
        if heads && k + 1 < n {
            picked(rng, n, off_ring(n, k, u)).0
        } else {
            None
        },
    )
}

/// The proposal is the one for edge `index`.
pub open spec fn proposes(
    proposal: Proposal,
    n: usize,
    k: usize,
    chance: Bernoulli,
    seed: u64,
    index: int,
) -> bool {
    &&& proposal.task.index == index
    &&& proposal.task.u == circle::edge_from((k / 2) as int, index)
    &&& proposal.task.v == circle::edge_to(n as int, (k / 2) as int, index)
    &&& (proposal.should_rewire, proposal.target) == proposed(n, k, chance, seed, index)
}

/// The logical partition that a node falls into.
pub open spec fn partition_of(node: int, n: int, partitions: int) -> int {
    (if node * partitions <= usize::MAX {
        node * partitions
    } else {
        usize::MAX as int
    }) / n
}

/// A graph in the making: the neighbors of every node, how many edges were
/// redirected, and how many ends of theirs lie in another partition than their start.
pub struct Draft {
    pub rows: Seq<Set<usize>>,
    pub rewired: nat,
    pub crossed: nat,
}

/// The rows once the edge between `u` and `v` leads from `u` to `w` instead.
pub open spec fn redirected(rows: Seq<Set<usize>>, u: usize, v: usize, w: usize) -> Seq<
    Set<usize>,
> {
    let changed = rows.update(u as int, rows[u as int].remove(v).insert(w));
    let released = changed.update(v as int, changed[v as int].remove(u));
    released.update(w as int, released[w as int].insert(u))
}

/// Whether an end lies in another partition than the start.
pub open spec fn crossing(u: usize, end: usize, n: usize, partitions: usize) -> nat {
    if partition_of(end as int, n as int, partitions as int) != partition_of(
        u as int,
        n as int,
        partitions as int,
    ) {
        1
    } else {
        0
    }
}

/// The new end of edge `index`, if it gets one: the proposal where it is still
/// open, else a second choice.
pub open spec fn settled_target(
    rows: Seq<Set<usize>>,
    n: usize,
    k: usize,
    chance: Bernoulli,
    seed: u64,
    index: int,
) -> Option<usize> {
    let u = circle::edge_from((k / 2) as int, index) as usize;
    let v = circle::edge_to(n as int, (k / 2) as int, index) as usize;
    let (heads, target) = proposed(n, k, chance, seed, index);
    if !heads {
        None
    } else if target is Some && open_to(rows[u as int], u, v, n)(target->Some_0) {
        target
    } else {
        target_choice(
            random::seeded(random::mixed((seed ^ (index as u64)) ^ FALLBACK_SEED)),
            u,
            v,
            rows[u as int],
            n,
        ).0
    }
}

/// The draft once edge `index` has been committed.
pub open spec fn committed(
    draft: Draft,
    n: usize,
    k: usize,
    chance: Bernoulli,
    partitions: usize,
    seed: u64,
    index: int,
) -> Draft {
    let u = circle::edge_from((k / 2) as int, index) as usize;
    let v = circle::edge_to(n as int, (k / 2) as int, index) as usize;
    match settled_target(draft.rows, n, k, chance, seed, index) {
        None => draft,
        Some(w) => Draft {
            rows: redirected(draft.rows, u, v, w),
            rewired: draft.rewired + 1,
            crossed: draft.crossed + crossing(u, v, n, partitions) + crossing(
                u,
                w,
                n,
                partitions,
            ),
        },
    }
}

/// The neighbors that the first `count` ring edges give every node.
pub open spec fn ring_sets(n: int, half: int, count: int) -> Seq<Set<usize>> {
    Seq::new(
        n as nat,
        |x: int|
            Set::new(|y: usize| y < n && circle::joined(n, half, count, x, y as int)),
    )
}

/// The untouched ring.
pub open spec fn ring_draft(n: usize, k: usize) -> Draft {
    Draft {
        rows: Seq::new(
            n as nat,
            |x: int|
                Set::new(
                    |y: usize| y < n && circle::ring_link(n as int, (k / 2) as int, x, y as int),
                ),
        ),
        rewired: 0,
        crossed: 0,
    }
}

/// The draft once the first `count` edges have been committed, one after the other.
pub open spec fn draft_after(
    n: usize,
    k: usize,
    chance: Bernoulli,
    partitions: usize,
    seed: u64,
    count: int,
) -> Draft
    decreases count,
{
    if count <= 0 {
        ring_draft(n, k)
    } else {
        committed(
            draft_after(n, k, chance, partitions, seed, count - 1),
            n,
            k,
            chance,
            partitions,
            seed,
            count - 1,
        )
    }
}

/// The finished draft. With probability zero the ring stays as it is.
pub open spec fn finished(
    n: usize,
    k: usize,
    p: Probability,
    partitions: usize,
    seed: u64,
) -> Draft {
    if p.zero() {
        ring_draft(n, k)
    } else {
        draft_after(n, k, p.chance->Some_0, partitions, seed, (n * k) / 2)
    }
}

/// The number of entries in all sets.
pub open spec fn size_total(rows: Seq<Set<usize>>) -> nat
    decreases rows.len(),
{
    if rows.len() == 0 {
        0
    } else {
        size_total(rows.drop_last()) + rows.last().len()
    }
}

/// The neighbors of `n` nodes in a simple undirected graph.
pub open spec fn simple_sets(rows: Seq<Set<usize>>, n: nat) -> bool {
    &&& rows.len() == n
    &&& forall|x: int| 0 <= x < n ==> (#[trigger] rows[x]).finite()
    &&& forall|x: int, y: usize|
        0 <= x < n && #[trigger] rows[x].contains(y) ==> y < n && y != x
            && rows[y as int].contains(x as usize)
}

/// The ring edges from `from` on are all there.
pub open spec fn keeps_edges(rows: Seq<Set<usize>>, n: int, half: int, from: int) -> bool {
    forall|i: int|
        from <= i < n * half ==> rows[#[trigger] circle::edge_from(half, i)].contains(
            circle::edge_to(n, half, i) as usize,
        )
}

/// Replacing a set exchanges its entries for those of the new one.
pub proof fn lemma_size_update(rows: Seq<Set<usize>>, i: int, row: Set<usize>)
    requires
        0 <= i < rows.len(),
    ensures
        size_total(rows.update(i, row)) == size_total(rows) - rows[i].len() + row.len(),
    decreases rows.len(),
{
    let changed = rows.update(i, row);
    if i == rows.len() - 1 {
        assert(changed.drop_last() =~= rows.drop_last());
    } else {
        assert(changed.drop_last() =~= rows.drop_last().update(i, row));
        lemma_size_update(rows.drop_last(), i, row);
    }
}

proof fn lemma_size_empty(rows: Seq<Set<usize>>)
    requires
        forall|x: int| 0 <= x < rows.len() ==> (#[trigger] rows[x]).len() == 0,
    ensures
        size_total(rows) == 0,
    decreases rows.len(),
{
    if rows.len() > 0 {
        let shorter = rows.drop_last();
        assert forall|x: int| 0 <= x < shorter.len() implies (#[trigger] shorter[x]).len()
            == 0 by {
            assert(shorter[x] == rows[x]);
        }
        lemma_size_empty(shorter);
        assert(rows[rows.len() - 1].len() == 0);
    }
}

/// One more edge of the ring.
proof fn lemma_ring_sets_step(n: int, half: int, count: int)
    requires
        0 < half,
        2 * half < n <= usize::MAX,
        0 <= count < n * half,
    ensures
        ({
            let u = circle::edge_from(half, count);
            let v = circle::edge_to(n, half, count);
            let rows = ring_sets(n, half, count);
            let changed = rows.update(u, rows[u].insert(v as usize));
            &&& 0 <= u < n
            &&& 0 <= v < n
            &&& u != v
            &&& !rows[u].contains(v as usize)
            &&& !rows[v].contains(u as usize)
            &&& ring_sets(n, half, count + 1) == changed.update(v, changed[v].insert(u as usize))
        }),
{
    let u = circle::edge_from(half, count);
    let v = circle::edge_to(n, half, count);
    circle::lemma_edge(n, half, count);
    let rows = ring_sets(n, half, count);
    let changed = rows.update(u, rows[u].insert(v as usize));
    let all = changed.update(v, changed[v].insert(u as usize));
    let next = ring_sets(n, half, count + 1);
    assert forall|x: int, y: int| circle::joined(n, half, count + 1, x, y) <==> circle::joined(
        n,
        half,
        count,
        x,
        y,
    ) || circle::joins(n, half, count, x, y) by {
        if circle::joined(n, half, count + 1, x, y) {
            let i = choose|i: int|
                0 <= i < count + 1 && #[trigger] circle::joins(n, half, i, x, y);
            if i < count {
                assert(circle::joined(n, half, count, x, y));
            }
        }
        if circle::joined(n, half, count, x, y) {
            let i = choose|i: int| 0 <= i < count && #[trigger] circle::joins(n, half, i, x, y);
            assert(0 <= i < count + 1);
        }
    }
    assert(!circle::joined(n, half, count, u, v) && !circle::joined(n, half, count, v, u)) by {
        if circle::joined(n, half, count, u, v) {
            let i = choose|i: int| 0 <= i < count && #[trigger] circle::joins(n, half, i, u, v);
            circle::lemma_edges_distinct(n, half, i, count);
        }
        if circle::joined(n, half, count, v, u) {
            let i = choose|i: int| 0 <= i < count && #[trigger] circle::joins(n, half, i, v, u);
            circle::lemma_edges_distinct(n, half, i, count);
        }
    }
    assert forall|x: int| 0 <= x < n implies #[trigger] next[x] == all[x] by {
        assert(next[x] =~= all[x]);
    }
    assert(next =~= all);
}

/// Every edge of the ring adds two entries.
proof fn lemma_ring_sets_total(n: int, half: int, count: int)
    requires
        0 < half,
        2 * half < n <= usize::MAX,
        0 <= count <= n * half,
    ensures
        size_total(ring_sets(n, half, count)) == 2 * count,
        forall|x: int| 0 <= x < n ==> (#[trigger] ring_sets(n, half, count)[x]).finite(),
    decreases count,
{
    let rows = ring_sets(n, half, count);
    if count == 0 {
        assert forall|x: int| 0 <= x < n implies (#[trigger] rows[x]).len() == 0
            && rows[x].finite() by {
            assert(rows[x] =~= Set::empty());
        }
        lemma_size_empty(rows);
    } else {
        let before = ring_sets(n, half, count - 1);
        lemma_ring_sets_total(n, half, count - 1);
        lemma_ring_sets_step(n, half, count - 1);
        let u = circle::edge_from(half, count - 1);
        let v = circle::edge_to(n, half, count - 1);
        let changed = before.update(u, before[u].insert(v as usize));
        assert(before[u].finite() && before[v].finite());
        lemma_size_update(before, u, before[u].insert(v as usize));
        lemma_size_update(changed, v, changed[v].insert(u as usize));
        assert forall|x: int| 0 <= x < n implies (#[trigger] rows[x]).finite() by {
            assert(before[x].finite());
        }
    }
}

/// The ring is a simple undirected graph with `n * k / 2` edges, all of them there.
pub proof fn lemma_ring_draft(n: usize, k: usize)
    requires
        2 <= k < n,
        k % 2 == 0,
    ensures
        ring_draft(n, k).rows == ring_sets(n as int, (k / 2) as int, n * (k / 2)),
        simple_sets(ring_draft(n, k).rows, n as nat),
        size_total(ring_draft(n, k).rows) == n * k,
        keeps_edges(ring_draft(n, k).rows, n as int, (k / 2) as int, 0),
{
    let half: int = (k / 2) as int;
    let nodes: int = n as int;
    let rows = ring_draft(n, k).rows;
    let sets = ring_sets(nodes, half, nodes * half);
    assert(0 <= nodes * half) by (nonlinear_arith)
        requires
            nodes >= 0,
            half >= 0,
    ;
    assert forall|x: int| 0 <= x < n implies #[trigger] rows[x] == sets[x] by {
        assert forall|y: usize| rows[x].contains(y) == sets[x].contains(y) by {
            if y < n {
                circle::lemma_joined_all(nodes, half, x, y as int);
            }
        }
        assert(rows[x] =~= sets[x]);
    }
    assert(rows =~= sets);
    lemma_ring_sets_total(nodes, half, nodes * half);
    assert(2 * (nodes * half) == n * k) by (nonlinear_arith)
        requires
            nodes == n,
            2 * half == k,
    ;
    assert forall|x: int, y: usize| 0 <= x < n && #[trigger] rows[x].contains(y) implies y < n && y
        != x && rows[y as int].contains(x as usize) by {
        circle::lemma_ring_link(nodes, half, x, y as int);
        circle::lemma_ring_link(nodes, half, y as int, x);
    }
    assert forall|i: int| 0 <= i < nodes * half implies rows[#[trigger] circle::edge_from(
        half,
        i,
    )].contains(circle::edge_to(nodes, half, i) as usize) by {
        circle::lemma_edge(nodes, half, i);
        let u = circle::edge_from(half, i);
        let v = circle::edge_to(nodes, half, i);
        assert(circle::joins(nodes, half, i, u, v));
        assert(circle::joined(nodes, half, nodes * half, u, v));
        assert(sets[u].contains(v as usize));
    }
}

/// Redirecting an edge to a node that is open to it leaves a simple undirected
/// graph with as many entries, and every other edge of the ring where it is.
pub proof fn lemma_redirected(
    rows: Seq<Set<usize>>,
    n: usize,
    half: int,
    index: int,
    w: usize,
)
    requires
        0 < half,
        2 * half < n,
        0 <= index < n * half,
        simple_sets(rows, n as nat),
        keeps_edges(rows, n as int, half, index),
        open_to(
            rows[circle::edge_from(half, index)],
            circle::edge_from(half, index) as usize,
            circle::edge_to(n as int, half, index) as usize,
            n,
        )(w),
    ensures
        ({
            let after = redirected(
                rows,
                circle::edge_from(half, index) as usize,
                circle::edge_to(n as int, half, index) as usize,
                w,
            );
            &&& simple_sets(after, n as nat)
            &&& keeps_edges(after, n as int, half, index + 1)
            &&& size_total(after) == size_total(rows)
        }),
{
    let nodes: int = n as int;
    circle::lemma_edge(nodes, half, index);
    let u = circle::edge_from(half, index) as usize;
    let v = circle::edge_to(nodes, half, index) as usize;
    assert(rows[circle::edge_from(half, index)].contains(v));
    assert(rows[v as int].contains(u));
    let changed = rows.update(u as int, rows[u as int].remove(v).insert(w));
    let released = changed.update(v as int, changed[v as int].remove(u));
    let after = released.update(w as int, released[w as int].insert(u));
    assert(rows[u as int].finite() && rows[v as int].finite() && rows[w as int].finite());
    assert(!rows[w as int].contains(u)) by {
        if rows[w as int].contains(u) {
            assert(rows[u as int].contains(w));
        }
    }
    lemma_size_update(rows, u as int, rows[u as int].remove(v).insert(w));
    lemma_size_update(changed, v as int, changed[v as int].remove(u));
    lemma_size_update(released, w as int, released[w as int].insert(u));
    assert forall|x: int| 0 <= x < n implies (#[trigger] after[x]).finite() by {
        assert(rows[x].finite());
    }
    assert forall|x: int, y: usize| 0 <= x < n && #[trigger] after[x].contains(y) implies y < n
        && y != x && after[y as int].contains(x as usize) by {
        if !(x == u && y == w) && !(x == w && y == u) {
            assert(rows[x].contains(y));
            assert(rows[y as int].contains(x as usize));
        }
    }
    assert forall|i: int| index + 1 <= i < nodes * half implies after[#[trigger] circle::edge_from(
        half,
        i,
    )].contains(circle::edge_to(nodes, half, i) as usize) by {
        circle::lemma_edge(nodes, half, i);
        circle::lemma_edges_distinct(nodes, half, index, i);
        let a = circle::edge_from(half, i);
        let b = circle::edge_to(nodes, half, i);
        assert(rows[a].contains(b as usize));
        assert(!circle::joins(nodes, half, index, a, b));
    }
}

/// A node that was picked is acceptable.
pub proof fn lemma_picked(
    rng: ChaCha8Rng,
    n: usize,
    fits: spec_fn(usize) -> bool,
    draws: nat,
    from: int,
)
    requires
        0 <= from,
    ensures
        drawn(rng, n, fits, draws).0 is Some ==> fits(drawn(rng, n, fits, draws).0->Some_0),
        smallest(n, fits, from) is Some ==> fits(smallest(n, fits, from)->Some_0),
        smallest(n, fits, from) is None ==> forall|w: usize|
            from <= w < n ==> !#[trigger] fits(w),
    decreases draws, n - from,
{
    if draws > 0 {
        let (candidate, next) = random::index_below(rng, n, usize::BITS);
        lemma_picked(next, n, fits, (draws - 1) as nat, from);
    } else if from < n {
        lemma_picked(rng, n, fits, draws, from + 1);
        if smallest(n, fits, from) is None {
            assert forall|w: usize| from <= w < n implies !#[trigger] fits(w) by {
                if w == from {
                    assert(!fits(from as usize));
                }
            }
        }
    }
}

/// A set that holds every node below `m` holds at least `m` nodes.
pub proof fn lemma_covers(nodes: Set<usize>, m: nat)
    requires
        nodes.finite(),
        m <= usize::MAX,
        forall|w: usize| w < m ==> nodes.contains(w),
    ensures
        nodes.len() >= m,
    decreases m,
{
    if m > 0 {
        lemma_covers(nodes.remove((m - 1) as usize), (m - 1) as nat);
    }
}

/// A neighbor can be replaced as long as one node is left that is neither the
/// node itself nor a neighbor of it.
pub proof fn lemma_target_exists(
    rng: ChaCha8Rng,
    u: usize,
    v: usize,
    row: Set<usize>,
    n: usize,
)
    requires
        row.finite(),
        row.contains(v),
        row.len() + 1 < n,
    ensures
        target_choice(rng, u, v, row, n).0 is Some,
        open_to(row, u, v, n)(target_choice(rng, u, v, row, n).0->Some_0),
{
    let fits = open_to(row, u, v, n);
    lemma_picked(rng, n, fits, TARGET_DRAWS as nat, 0);
    if smallest(n, fits, 0) is None {
        assert forall|w: usize| w < n implies row.insert(u).contains(w) by {
            assert(!fits(w));
        }
        lemma_covers(row.insert(u), n as nat);
    }
}

/// Whatever edges have been committed, in whatever batches and by whatever
/// threads they were proposed, the graph is simple and undirected and has
/// `n * k / 2` edges; those not yet considered are where they were.
pub proof fn lemma_draft_sound(
    n: usize,
    k: usize,
    chance: Bernoulli,
    partitions: usize,
    seed: u64,
    count: int,
)
    requires
        2 <= k < n,
        k % 2 == 0,
        0 <= count <= n * (k / 2),
    ensures
        ({
            let draft = draft_after(n, k, chance, partitions, seed, count);
            &&& simple_sets(draft.rows, n as nat)
            &&& size_total(draft.rows) == n * k
            &&& keeps_edges(draft.rows, n as int, (k / 2) as int, count)
            &&& draft.rewired <= count
            &&& draft.crossed <= 2 * draft.rewired
        }),
    decreases count,
{
    if count == 0 {
        lemma_ring_draft(n, k);
    } else {
        lemma_draft_sound(n, k, chance, partitions, seed, count - 1);
        let draft = draft_after(n, k, chance, partitions, seed, count - 1);
        lemma_settled_open(draft.rows, n, k, chance, seed, count - 1);
        circle::lemma_edge(n as int, (k / 2) as int, count - 1);
        match settled_target(draft.rows, n, k, chance, seed, count - 1) {
            None => {},
            Some(w) => {
                lemma_redirected(draft.rows, n, (k / 2) as int, count - 1, w);
            },
        }
    }
}

/// The links of a draft.
spec fn draft_link(rows: Seq<Set<usize>>) -> spec_fn(int, int) -> bool {
    |x: int, y: int| 0 <= x < rows.len() && 0 <= y <= usize::MAX && rows[x].contains(y as usize)
}

proof fn lemma_draft_ends(
    n: usize,
    k: usize,
    chance: Bernoulli,
    partitions: usize,
    seed: u64,
    count: int,
) -> (own: Seq<Set<int>>)
    requires
        2 <= k < n,
        k % 2 == 0,
        0 <= count <= n * (k / 2),
    ensures
        ends::keeps_ends(
            draft_link(draft_after(n, k, chance, partitions, seed, count).rows),
            own,
            n as int,
            (k / 2) as int,
            count,
        ),
    decreases count,
{
    let nodes = n as int;
    let half: int = (k / 2) as int;
    let after = draft_after(n, k, chance, partitions, seed, count);
    let next = draft_link(after.rows);
    if count == 0 {
        assert forall|x: int, y: int|
            0 <= x < nodes && 0 <= y < nodes && #[trigger] circle::ring_link(
                nodes,
                half,
                x,
                y,
            ) implies next(x, y) by {
            assert(after.rows[x].contains(y as usize));
        }
        ends::lemma_first_ends(next, nodes, half)
    } else {
        let before = draft_after(n, k, chance, partitions, seed, count - 1);
        let link = draft_link(before.rows);
        let own = lemma_draft_ends(n, k, chance, partitions, seed, count - 1);
        lemma_draft_sound(n, k, chance, partitions, seed, count - 1);
        lemma_settled_open(before.rows, n, k, chance, seed, count - 1);
        circle::lemma_edge(nodes, half, count - 1);
        match settled_target(before.rows, n, k, chance, seed, count - 1) {
            None => {
                ends::lemma_ends_carry(link, next, own, nodes, half, count - 1, count);
                own
            },
            Some(w) => {
                let u = circle::edge_from(half, count - 1) as usize;
                let v = circle::edge_to(nodes, half, count - 1) as usize;
                assert(!before.rows[w as int].contains(u)) by {
                    if before.rows[w as int].contains(u) {
                        assert(before.rows[u as int].contains(w));
                    }
                }
                assert(after.rows == redirected(before.rows, u, v, w));
                assert(next(u as int, w as int));
                assert forall|x: int, y: int|
                    0 <= x < nodes && 0 <= y < nodes && link(x, y) && !circle::joins(
                        nodes,
                        half,
                        count - 1,
                        x,
                        y,
                    ) implies #[trigger] next(x, y) by {}
                ends::lemma_next_ends(link, next, own, nodes, half, count - 1, w as int)
            },
        }
    }
}

/// Every node keeps at least `k / 2` neighbors, whatever edges have been
/// committed: only one end of an edge is ever exchanged.
pub proof fn lemma_least_degree(
    n: usize,
    k: usize,
    chance: Bernoulli,
    partitions: usize,
    seed: u64,
    count: int,
    u: int,
)
    requires
        2 <= k < n,
        k % 2 == 0,
        0 <= count <= n * (k / 2),
        0 <= u < n,
    ensures
        draft_after(n, k, chance, partitions, seed, count).rows[u].len() >= k / 2,
{
    let own = lemma_draft_ends(n, k, chance, partitions, seed, count);
    lemma_draft_sound(n, k, chance, partitions, seed, count);
    let draft = draft_after(n, k, chance, partitions, seed, count);
    assert(own[u].finite() && own[u].len() == k / 2);
    assert(draft.rows[u].finite());
    ends::lemma_found_in_set(own[u], draft.rows[u]);
}

/// With a single partition no end lies in another one than its start.
pub proof fn lemma_one_partition(n: usize, k: usize, p: Probability, seed: u64)
    requires
        2 <= k < n,
        k % 2 == 0,
    ensures
        finished(n, k, p, 1, seed).crossed == 0,
{
    if !p.zero() {
        let half: int = (k / 2) as int;
        assert((n * k) / 2 == n * half) by {
            assert(n * k == 2 * (n * half)) by (nonlinear_arith)
                requires
                    k == 2 * half,
            ;
        }
        assert(0 <= n * half) by (nonlinear_arith)
            requires
                n >= 0,
                half >= 0,
        ;
        lemma_no_crossing(n, k, p.chance->Some_0, seed, n * half);
    }
}

proof fn lemma_no_crossing(n: usize, k: usize, chance: Bernoulli, seed: u64, count: int)
    requires
        2 <= k < n,
        k % 2 == 0,
        0 <= count <= n * (k / 2),
    ensures
        draft_after(n, k, chance, 1, seed, count).crossed == 0,
    decreases count,
{
    if count > 0 {
        lemma_no_crossing(n, k, chance, seed, count - 1);
        let draft = draft_after(n, k, chance, 1, seed, count - 1);
        lemma_settled_open(draft.rows, n, k, chance, seed, count - 1);
        circle::lemma_edge(n as int, (k / 2) as int, count - 1);
        assert forall|node: int| 0 <= node < n implies #[trigger] partition_of(node, n as int, 1)
            == 0 by {
            vstd::arithmetic::div_mod::lemma_basic_div(node, n as int);
        }
    }
}

/// A new end is open to the edge.
pub proof fn lemma_settled_open(
    rows: Seq<Set<usize>>,
    n: usize,
    k: usize,
    chance: Bernoulli,
    seed: u64,
    index: int,
)
    ensures
        ({
            let u = circle::edge_from((k / 2) as int, index) as usize;
            let v = circle::edge_to(n as int, (k / 2) as int, index) as usize;
            let w = settled_target(rows, n, k, chance, seed, index);
            w is Some ==> open_to(rows[u as int], u, v, n)(w->Some_0)
        }),
{
    let u = circle::edge_from((k / 2) as int, index) as usize;
    let v = circle::edge_to(n as int, (k / 2) as int, index) as usize;
    let rng = random::seeded(random::mixed((seed ^ (index as u64)) ^ FALLBACK_SEED));
    lemma_picked(rng, n, open_to(rows[u as int], u, v, n), TARGET_DRAWS as nat, 0);
}

/// The rows of sets as a sequence of sets.
pub open spec fn set_rows(adjacency: Seq<HashSet<usize>>) -> Seq<Set<usize>> {
    Seq::new(adjacency.len(), |i: int| adjacency[i]@)
}

/// The logical partition that a node falls into.
pub fn owner(node: usize, n: usize, partitions: usize) -> (partition: usize)
    requires
        n > 0,
    ensures
        partition == partition_of(node as int, n as int, partitions as int),
        node * partitions <= usize::MAX ==> partition == (node * partitions) / (n as int),
        node * partitions > usize::MAX ==> partition == usize::MAX / n,
{
    let product: usize = match node.checked_mul(partitions) {
        Some(product) => product,
        None => usize::MAX,
    };
    product / n
}

/// Picks the new neighbor of `u` in place of `old_v`.
pub fn choose_target(
    rng: &mut ChaCha8Rng,
    u: usize,
    old_v: usize,
    adjacency: &[HashSet<usize>],
) -> (target: Option<usize>)
    requires
        u < adjacency@.len(),
    ensures
        (target, *final(rng)) == target_choice(
            *old(rng),
            u,
            old_v,
            adjacency@[u as int]@,
            adjacency@.len() as usize,
        ),
{
    broadcast use vstd::std_specs::hash::group_hash_axioms;
    let n: usize = adjacency.len();
    let size: usize = adjacency[u].len();
    if size >= n || size + 1 >= n {
        return None;
    }
    let ghost start = *rng;
    let ghost row = adjacency@[u as int]@;
    let ghost fits = open_to(row, u, old_v, n);
    let mut draws: u32 = 0;
    while draws < TARGET_DRAWS
        invariant
            draws <= TARGET_DRAWS,
            0 < n == adjacency@.len(),
            u < n,
            row == adjacency@[u as int]@,
            fits == open_to(row, u, old_v, n),
            start == *old(rng),
            row.len() + 1 < n,
            drawn(start, n, fits, TARGET_DRAWS as nat) == drawn(
                *rng,
                n,
                fits,
                (TARGET_DRAWS - draws) as nat,
            ),
        decreases TARGET_DRAWS - draws,
    {
        let candidate: usize = draw_index(rng, n);
        if candidate != u && candidate != old_v && !adjacency[u].contains(&candidate) {
            return Some(candidate);
        }
        draws = draws + 1;
    }
    let mut candidate: usize = 0;
    while candidate < n
        invariant
            candidate <= n,
            n == adjacency@.len(),
            u < n,
            row == adjacency@[u as int]@,
            fits == open_to(row, u, old_v, n),
            start == *old(rng),
            row.len() + 1 < n,
            drawn(start, n, fits, TARGET_DRAWS as nat) == (None::<usize>, *rng),
            smallest(n, fits, 0) == smallest(n, fits, candidate as int),
        decreases n - candidate,
    {
        if candidate != u && candidate != old_v && !adjacency[u].contains(&candidate) {
            return Some(candidate);
        }
        candidate = candidate + 1;
    }
    None
}

/// Whether a node is too far along the ring from `u` to be its ring neighbor.
fn is_off_ring(candidate: usize, u: usize, n: usize, k: usize) -> (off: bool)
    requires
        candidate < n,
        u < n,
    ensures
        off == off_ring(n, k, u)(candidate),
{
    let separation: usize = if candidate >= u {
        candidate - u
    } else {
        u - candidate
    };
    let around: usize = n - separation;
    let nearest: usize = if separation <= around {
        separation
    } else {
        around
    };
    nearest > k / 2
}

/// Proposes what becomes of an edge. Only the ring is looked at, whatever edges
/// have been committed already.
pub fn propose_rewire(
    task: EdgeTask,
    probability: Probability,
    seed: u64,
    n: usize,
    k: usize,
) -> (proposal: Proposal)
    requires
        probability.chance is Some,
        task.u < n,
        task.u == circle::edge_from((k / 2) as int, task.index as int),
    ensures
        proposal.task == task,
        (proposal.should_rewire, proposal.target) == proposed(
            n,
            k,
            probability.chance->Some_0,
            seed,
            task.index as int,
        ),
{
    let mut rng = seed_rng(splitmix64(seed ^ (task.index as u64)));
    let should_rewire = match probability.chance {
        Some(chance) => flip(&mut rng, &chance),
        None => false,
    };
    if !should_rewire || k >= n || k + 1 >= n {
        return Proposal { task, should_rewire, target: None };
    }
    let u: usize = task.u;
    let ghost fits = off_ring(n, k, u);
    let ghost start = rng;
    let mut draws: u32 = 0;
    while draws < TARGET_DRAWS
        invariant
            draws <= TARGET_DRAWS,
            u < n,
            u == task.u,
            fits == off_ring(n, k, u),
            should_rewire,
            proposed(n, k, probability.chance->Some_0, seed, task.index as int) == (
                should_rewire,
                picked(start, n, fits).0,
            ),
            drawn(start, n, fits, TARGET_DRAWS as nat) == drawn(
                rng,
                n,
                fits,
                (TARGET_DRAWS - draws) as nat,
            ),
        decreases TARGET_DRAWS - draws,
    {
        let candidate: usize = draw_index(&mut rng, n);
        if is_off_ring(candidate, u, n, k) {
            return Proposal { task, should_rewire, target: Some(candidate) };
        }
        draws = draws + 1;
    }
    let mut candidate: usize = 0;
    while candidate < n
        invariant
            candidate <= n,
            u < n,
            u == task.u,
            fits == off_ring(n, k, u),
            should_rewire,
            proposed(n, k, probability.chance->Some_0, seed, task.index as int) == (
                should_rewire,
                picked(start, n, fits).0,
            ),
            drawn(start, n, fits, TARGET_DRAWS as nat).0 is None,
            smallest(n, fits, 0) == smallest(n, fits, candidate as int),
        decreases n - candidate,
    {
        if is_off_ring(candidate, u, n, k) {
            return Proposal { task, should_rewire, target: Some(candidate) };
        }
        candidate = candidate + 1;
    }
    Proposal { task, should_rewire, target: None }
}

/// The neighbors of every node in ascending order, sorted in parallel.
pub fn sort_adjacency(adjacency: Vec<HashSet<usize>>) -> (sorted: Vec<Vec<usize>>)
    ensures
        sorted@.len() == adjacency@.len(),
        forall|u: int|
            0 <= u < sorted@.len() ==> sorting::lists(
                #[trigger] sorted@[u]@,
                adjacency@[u]@,
            ),
{
    let work = |neighbors: HashSet<usize>| -> (row: Vec<usize>)
        ensures
            sorting::lists(row@, neighbors@),
        { sorted_row(&neighbors) };
    map_parallel(adjacency, work)
}

/// The ring in which every node is linked to the `k / 2` nodes on either side.
fn ring_lattice(n: usize, k: usize) -> (adjacency: Vec<HashSet<usize>>)
    requires
        2 <= k < n,
        k % 2 == 0,
        n * k <= usize::MAX,
    ensures
        set_rows(adjacency@) == ring_draft(n, k).rows,
{
    broadcast use vstd::std_specs::hash::group_hash_axioms;
    let half: usize = k / 2;
    let ghost nodes: int = n as int;
    let ghost h: int = half as int;
    let mut adjacency: Vec<HashSet<usize>> = Vec::new();
    let mut x: usize = 0;
    while x < n
        invariant
            x <= n,
            adjacency@.len() == x,
            forall|i: int| 0 <= i < x ==> (#[trigger] adjacency@[i])@ == Set::<usize>::empty(),
        decreases n - x,
    {
        adjacency.push(HashSet::new());
        x = x + 1;
    }
    proof {
        assert forall|i: int| 0 <= i < n implies set_rows(adjacency@)[i] == ring_sets(
            nodes,
            h,
            0,
        )[i] by {
            assert(adjacency@[i]@ == Set::<usize>::empty());
            assert(ring_sets(nodes, h, 0)[i] =~= Set::empty());
        }
        assert(set_rows(adjacency@) =~= ring_sets(nodes, h, 0));
        assert(nodes * h <= n * k) by (nonlinear_arith)
            requires
                nodes == n,
                h <= k,
                nodes >= 0,
        ;
    }
    let edges: usize = n * half;
    let mut i: usize = 0;
    while i < edges
        invariant
            2 <= k < n,
            half == k / 2,
            h == half,
            nodes == n,
            k % 2 == 0,
            i <= edges,
            edges == nodes * h,
            set_rows(adjacency@) == ring_sets(nodes, h, i as int),
        decreases edges - i,
    {
        broadcast use vstd::std_specs::hash::group_hash_axioms;
        proof {
            circle::lemma_edge(nodes, h, i as int);
            lemma_ring_sets_step(nodes, h, i as int);
        }
        let u: usize = i / half;
        let v: usize = ring_end(u, i % half + 1, n);
        let ghost before = set_rows(adjacency@);
        assert(adjacency@.len() == n) by {
            assert(before.len() == adjacency@.len());
        }
        adjacency[u].insert(v);
        assert(set_rows(adjacency@) =~= before.update(u as int, before[u as int].insert(v)));
        let ghost changed = set_rows(adjacency@);
        adjacency[v].insert(u);
        assert(set_rows(adjacency@) =~= changed.update(v as int, changed[v as int].insert(u)));
        i = i + 1;
    }
    proof {
        lemma_ring_draft(n, k);
    }
    adjacency
}

/// The node `offset` steps along the ring from `u`.
fn ring_end(u: usize, offset: usize, n: usize) -> (v: usize)
    requires
        u < n,
        offset <= n,
    ensures
        v == circle::ring_step(n as int, u as int, offset as int),
{
    proof {
        circle::lemma_ring_step(n as int, u as int, offset as int);
    }
    let before: usize = n - offset;
    if u < before {
        u + offset
    } else {
        u - before
    }
}

/// Commits what was proposed for an edge: redirects it to the proposed node
/// where that is still open, else to a second choice. Says which node it was.
fn commit(
    adjacency: &mut Vec<HashSet<usize>>,
    proposal: Proposal,
    k: usize,
    seed: u64,
    chance: Ghost<Bernoulli>,
) -> (target: Option<usize>)
    requires
        2 <= k < old(adjacency)@.len(),
        k % 2 == 0,
        proposal.task.index < old(adjacency)@.len() * (k / 2),
        proposes(
            proposal,
            old(adjacency)@.len() as usize,
            k,
            chance@,
            seed,
            proposal.task.index as int,
        ),
        simple_sets(set_rows(old(adjacency)@), old(adjacency)@.len()),
    ensures
        target == settled_target(
            set_rows(old(adjacency)@),
            old(adjacency)@.len() as usize,
            k,
            chance@,
            seed,
            proposal.task.index as int,
        ),
        set_rows(final(adjacency)@) == match target {
            None => set_rows(old(adjacency)@),
            Some(w) => redirected(
                set_rows(old(adjacency)@),
                proposal.task.u,
                proposal.task.v,
                w,
            ),
        },
        target is Some ==> target->Some_0 < old(adjacency)@.len(),
{
    broadcast use vstd::std_specs::hash::group_hash_axioms;
    let ghost rows = set_rows(adjacency@);
    let n: usize = adjacency.len();
    let index: usize = proposal.task.index;
    let u: usize = proposal.task.u;
    let v: usize = proposal.task.v;
    proof {
        circle::lemma_edge(n as int, (k / 2) as int, index as int);
        lemma_settled_open(rows, n, k, chance@, seed, index as int);
        assert(rows[u as int] == adjacency@[u as int]@);
        let rng = random::seeded(random::mixed(seed ^ (index as u64)));
        lemma_picked(
            random::coin(rng, chance@).1,
            n,
            off_ring(n, k, u),
            TARGET_DRAWS as nat,
            0,
        );
    }
    if !proposal.should_rewire {
        return None;
    }
    let first: Option<usize> = match proposal.target {
        Some(w) => if w != u && w != v && !adjacency[u].contains(&w) {
            Some(w)
        } else {
            None
        },
        None => None,
    };
    let w: usize = match first {
        Some(w) => w,
        None => {
            let mut fallback = seed_rng(splitmix64((seed ^ (index as u64)) ^ FALLBACK_SEED));
            match choose_target(&mut fallback, u, v, adjacency.as_slice()) {
                Some(w) => w,
                None => return None,
            }
        },
    };
    adjacency[u].remove(&v);
    assert(set_rows(adjacency@) =~= rows.update(u as int, rows[u as int].remove(v)));
    adjacency[v].remove(&u);
    let ghost released = set_rows(adjacency@);
    assert(released =~= rows.update(u as int, rows[u as int].remove(v)).update(
        v as int,
        rows[v as int].remove(u),
    ));
    adjacency[u].insert(w);
    let ghost moved = set_rows(adjacency@);
    assert(moved =~= released.update(u as int, released[u as int].insert(w)));
    adjacency[w].insert(u);
    assert(set_rows(adjacency@) =~= moved.update(w as int, moved[w as int].insert(u)));
    assert(set_rows(adjacency@) =~= redirected(rows, u, v, w));
    Some(w)
}

/// Why the arguments give no graph, if they do not.
pub open spec fn refusal(n: usize, k: usize, p: Probability, partitions: usize) -> Option<
    GraphError,
> {
    if n < 3 {
        Some(GraphError::InvalidNodeCount)
    } else if k < 2 || k >= n || k % 2 != 0 {
        Some(GraphError::InvalidDegree)
    } else if !p.valid() {
        Some(GraphError::InvalidProbability)
    } else if partitions == 0 {
        Some(GraphError::InvalidPartitionCount)
    } else {
        None
    }
}

/// A graph is refused for the first of its settings that is wrong: fewer than three nodes; a
/// degree that is odd, less than two or not less than the nodes; a number that is no
/// probability; no partition. Else it is not.
pub proof fn lemma_refusal(n: usize, k: usize, p: Probability, partitions: usize)
    ensures
        ({
            let told = refusal(n, k, p, partitions);
            let degree = 2 <= k < n && k % 2 == 0;
            let probability = (p.bits <= 0x3ff0_0000_0000_0000 || p.bits == 0x8000_0000_0000_0000)
                && p.chance is Some;
            &&& n < 3 ==> told == Some(GraphError::InvalidNodeCount)
            &&& n >= 3 && !degree ==> told == Some(GraphError::InvalidDegree)
            &&& n >= 3 && degree && !probability ==> told == Some(GraphError::InvalidProbability)
            &&& n >= 3 && degree && probability && partitions == 0 ==> told == Some(
                GraphError::InvalidPartitionCount,
            )
            &&& n >= 3 && degree && probability && partitions > 0 ==> told is None
        }),
{
}

/// The rows list the neighbors of the draft.
pub open spec fn lists_draft(graph: Graph, draft: Draft) -> bool {
    &&& graph.rows().len() == draft.rows.len()
    &&& forall|u: int|
        0 <= u < graph.rows().len() ==> sorting::lists(#[trigger] graph.rows()[u], draft.rows[u])
}

/// The graph and the statistics are those of the finished draft.
pub open spec fn made(
    n: usize,
    k: usize,
    p: Probability,
    partitions: usize,
    seed: u64,
    graph: Graph,
    stats: RewireStats,
) -> bool {
    let draft = finished(n, k, p, partitions, seed);
    &&& graph.rows().len() == n
    &&& lists_draft(graph, draft)
    &&& graph.edge_count == (n * k) / 2
    &&& stats.considered_edges == (n * k) / 2
    &&& stats.rewired_edges == draft.rewired
    &&& stats.cross_partition_updates == draft.crossed
    &&& stats.partitions == partitions
}

/// Rows that list the sets of a simple graph are those of a simple graph.
proof fn lemma_lists_simple(lists: Seq<Seq<usize>>, sets: Seq<Set<usize>>)
    requires
        simple_sets(sets, sets.len()),
        lists.len() == sets.len(),
        forall|u: int| 0 <= u < lists.len() ==> sorting::lists(#[trigger] lists[u], sets[u]),
    ensures
        graph::simple(lists),
        rows::total(lists) == size_total(sets),
{
    assert forall|u: int| 0 <= u < lists.len() implies #[trigger] graph::sound_row(lists, u) by {
        let row = lists[u];
        assert(sorting::lists(lists[u], sets[u]));
        assert forall|j: int| 0 <= j < row.len() implies {
            let v = #[trigger] row[j];
            v < lists.len() && v != u && lists[v as int].contains(u as usize)
        } by {
            let v = row[j];
            assert(row.to_set().contains(v)) by {
                assert(row.contains(v));
            }
            assert(sets[u].contains(v));
            assert(sorting::lists(lists[v as int], sets[v as int]));
            assert(lists[v as int].to_set().contains(u as usize));
        }
    }
    lemma_lists_total(lists, sets);
}

proof fn lemma_lists_total(lists: Seq<Seq<usize>>, sets: Seq<Set<usize>>)
    requires
        lists.len() == sets.len(),
        forall|u: int| 0 <= u < lists.len() ==> sorting::lists(#[trigger] lists[u], sets[u]),
    ensures
        rows::total(lists) == size_total(sets),
    decreases lists.len(),
{
    if lists.len() > 0 {
        let a = lists.drop_last();
        let b = sets.drop_last();
        assert forall|u: int| 0 <= u < a.len() implies sorting::lists(#[trigger] a[u], b[u]) by {
            assert(sorting::lists(lists[u], sets[u]));
        }
        lemma_lists_total(a, b);
        assert(sorting::lists(lists[lists.len() - 1], sets[sets.len() - 1]));
    }
}

/// Generates a small-world graph of `n` nodes: a ring of degree `k`, of which
/// every edge gets a new end with probability `p`. The statistics tell how many
/// ends lie in another of the logical partitions than the node they start in.
#[verifier::rlimit(30)]
pub fn generate_ws_partitioned(
    n: usize,
    k: usize,
    p: Probability,
    partitions: usize,
    seed: u64,
) -> (generated: Result<(Graph, RewireStats), GraphError>)
    requires
        refusal(n, k, p, partitions) is None ==> n * k <= usize::MAX,
    ensures
        match generated {
            Err(error) => refusal(n, k, p, partitions) == Some(error),
            Ok((graph, stats)) => {
                let draft = finished(n, k, p, partitions, seed);
                &&& refusal(n, k, p, partitions) is None
                &&& made(n, k, p, partitions, seed, graph, stats)
                &&& graph.rows().len() == n
                &&& lists_draft(graph, draft)
                &&& graph.edge_count == (n * k) / 2
                &&& graph.sound()
                &&& forall|u: int|
                    0 <= u < n ==> (#[trigger] graph.rows()[u]).len() >= k / 2
                &&& draft.rewired <= (n * k) / 2
                &&& draft.crossed <= n * k
                &&& stats == (RewireStats {
                    considered_edges: ((n * k) / 2) as usize,
                    rewired_edges: draft.rewired as usize,
                    cross_partition_updates: draft.crossed as usize,
                    partitions,
                })
            },
        },
        generated is Ok <==> {
            &&& n >= 3
            &&& 2 <= k < n
            &&& k % 2 == 0
            &&& p.bits <= 0x3ff0_0000_0000_0000 || p.bits == 0x8000_0000_0000_0000
            &&& p.chance is Some
            &&& partitions >= 1
        },
{
    broadcast use vstd::std_specs::hash::group_hash_axioms;
    if n < 3 {
        return Err(GraphError::InvalidNodeCount);
    }
    if k < 2 || k >= n || k % 2 != 0 {
        return Err(GraphError::InvalidDegree);
    }
    if !p.is_valid() {
        return Err(GraphError::InvalidProbability);
    }
    if partitions == 0 {
        return Err(GraphError::InvalidPartitionCount);
    }
    let ghost half: int = (k / 2) as int;
    let ghost chance = p.chance->Some_0;
    proof {
        assert(n * k == 2 * (n * half)) by (nonlinear_arith)
            requires
                k == 2 * half,
        ;
        assert(n * half >= 0) by (nonlinear_arith)
            requires
                n >= 0,
                half >= 0,
        ;
    }
    let expected_edges: usize = n * k / 2;
    let mut adjacency = ring_lattice(n, k);
    let mut rewired_edges: usize = 0;
    let mut cross_partition_updates: usize = 0;
    let last: usize = if p.is_zero() {
        0
    } else {
        expected_edges
    };
    let mut start: usize = 0;
    proof {
        lemma_draft_sound(n, k, chance, partitions, seed, 0);
    }
    while start < last
        invariant
            3 <= n,
            2 <= k < n,
            k % 2 == 0,
            half == k / 2,
            n * k <= usize::MAX,
            n * k == 2 * (n * half),
            expected_edges == n * half,
            p.chance == Some(chance),
            partitions > 0,
            last <= expected_edges,
            start <= last,
            set_rows(adjacency@) == draft_after(n, k, chance, partitions, seed, start as int).rows,
            rewired_edges == draft_after(n, k, chance, partitions, seed, start as int).rewired,
            cross_partition_updates == draft_after(
                n,
                k,
                chance,
                partitions,
                seed,
                start as int,
            ).crossed,
        decreases last - start,
    {
        let end: usize = if last - start > PROPOSAL_BATCH {
            start + PROPOSAL_BATCH
        } else {
            last
        };
        let work = |index: usize| -> (proposal: Proposal)
            requires
                2 <= k < n,
                k % 2 == 0,
                p.chance == Some(chance),
                index < n * (k / 2),
            ensures
                proposes(proposal, n, k, chance, seed, index as int),
            {
                proof {
                    circle::lemma_edge(n as int, (k / 2) as int, index as int);
                }
                let u: usize = index / (k / 2);
                let v: usize = ring_end(u, index % (k / 2) + 1, n);
                propose_rewire(EdgeTask { index, u, v }, p, seed, n, k)
            };
        let proposals: Vec<Proposal> = map_parallel(indices(start, end), work);
        let mut i: usize = 0;
        let count: usize = proposals.len();
        while i < count
            invariant
                3 <= n,
                2 <= k < n,
                k % 2 == 0,
                half == k / 2,
                n * k <= usize::MAX,
                n * k == 2 * (n * half),
                expected_edges == n * half,
                partitions > 0,
                last <= expected_edges,
                count == proposals@.len(),
                count == end - start,
                start < end <= last,
                i <= count,
                forall|j: int|
                    0 <= j < count ==> proposes(
                        #[trigger] proposals@[j],
                        n,
                        k,
                        chance,
                        seed,
                        start + j,
                    ),
                set_rows(adjacency@) == draft_after(
                    n,
                    k,
                    chance,
                    partitions,
                    seed,
                    start + i,
                ).rows,
                rewired_edges == draft_after(n, k, chance, partitions, seed, start + i).rewired,
                cross_partition_updates == draft_after(
                    n,
                    k,
                    chance,
                    partitions,
                    seed,
                    start + i,
                ).crossed,
            decreases count - i,
        {
            let proposal: Proposal = proposals[i];
            proof {
                assert(proposes(proposals@[i as int], n, k, chance, seed, start + i));
                lemma_draft_sound(n, k, chance, partitions, seed, start + i);
                lemma_draft_sound(n, k, chance, partitions, seed, start + i + 1);
                assert(set_rows(adjacency@).len() == adjacency@.len());
                circle::lemma_edge(n as int, half, start + i);
            }
            let target: Option<usize> = commit(&mut adjacency, proposal, k, seed, Ghost(chance));
            match target {
                None => {},
                Some(w) => {
                    rewired_edges = rewired_edges + 1;
                    let source_owner: usize = owner(proposal.task.u, n, partitions);
                    if owner(proposal.task.v, n, partitions) != source_owner {
                        cross_partition_updates = cross_partition_updates + 1;
                    }
                    if owner(w, n, partitions) != source_owner {
                        cross_partition_updates = cross_partition_updates + 1;
                    }
                },
            }
            i = i + 1;
        }
        start = end;
    }
    proof {
        lemma_draft_sound(n, k, chance, partitions, seed, last as int);
    }
    let ghost sets = set_rows(adjacency@);
    let sorted = sort_adjacency(adjacency);
    let graph = Graph { adjacency: sorted, edge_count: expected_edges };
    proof {
        assert forall|u: int| 0 <= u < graph.rows().len() implies sorting::lists(
            #[trigger] graph.rows()[u],
            sets[u],
        ) by {
            assert(sorting::lists(sorted@[u]@, adjacency@[u]@));
        }
        lemma_lists_simple(graph.rows(), sets);
        assert forall|u: int| 0 <= u < n implies (#[trigger] graph.rows()[u]).len() >= k / 2 by {
            lemma_least_degree(n, k, chance, partitions, seed, last as int, u);
            assert(sorting::lists(graph.rows()[u], sets[u]));
        }
    }
    let stats = RewireStats {
        considered_edges: expected_edges,
        rewired_edges,
        cross_partition_updates,
        partitions,
    };
    Ok((graph, stats))
}

/// There is one graph for a draft: however its rows were filled and sorted, they
/// are the same.
pub proof fn lemma_one_graph(a: Graph, b: Graph, draft: Draft)
    requires
        lists_draft(a, draft),
        lists_draft(b, draft),
    ensures
        a.rows() == b.rows(),
{
    assert forall|u: int| 0 <= u < a.rows().len() implies a.rows()[u] == b.rows()[u] by {
        let x = a.rows()[u];
        let y = b.rows()[u];
        assert(sorting::lists(a.rows()[u], draft.rows[u]));
        assert(sorting::lists(b.rows()[u], draft.rows[u]));
        assert forall|v: usize| x.contains(v) == y.contains(v) by {
            assert(x.to_set().contains(v) == y.to_set().contains(v));
        }
        graph::lemma_ascending_unique(x, y);
    }
    assert(a.rows() =~= b.rows());
}

/// The logical partitions have no bearing on the graph, only on the statistics.
pub proof fn lemma_partitions_apart(
    n: usize,
    k: usize,
    p: Probability,
    a: usize,
    b: usize,
    seed: u64,
)
    ensures
        finished(n, k, p, a, seed).rows == finished(n, k, p, b, seed).rows,
        finished(n, k, p, a, seed).rewired == finished(n, k, p, b, seed).rewired,
{
    if !p.zero() {
        lemma_partitions_step(n, k, p.chance->Some_0, a, b, seed, (n * k) / 2);
    }
}

proof fn lemma_partitions_step(
    n: usize,
    k: usize,
    chance: Bernoulli,
    a: usize,
    b: usize,
    seed: u64,
    count: int,
)
    ensures
        draft_after(n, k, chance, a, seed, count).rows == draft_after(
            n,
            k,
            chance,
            b,
            seed,
            count,
        ).rows,
        draft_after(n, k, chance, a, seed, count).rewired == draft_after(
            n,
            k,
            chance,
            b,
            seed,
            count,
        ).rewired,
    decreases count,
{
    if count > 0 {
        lemma_partitions_step(n, k, chance, a, b, seed, count - 1);
    }
}

} // verus!
