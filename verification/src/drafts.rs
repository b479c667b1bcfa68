//! What becomes of every single edge when a whole graph is generated.

use crate::circle;
use crate::counting;
use crate::generation::{
    crossing, draft_after, drawn, finished, made, off_ring, open_to,
    picked, proposed, redirected, ring_draft, settled_target, smallest,
    target_choice, TARGET_DRAWS,
};
use crate::generation;
use crate::graph::{Graph, RewireStats};
use crate::probability::Probability;
use crate::random;
use crate::sorting;
use rand::distributions::Bernoulli;
use rand_chacha::ChaCha8Rng;
use vstd::prelude::*;

verus! {

/// The number drawn in round `i`, the first being round zero, and the generator after it.
pub open spec fn round(rng: ChaCha8Rng, n: usize, i: nat) -> (usize, ChaCha8Rng)
    decreases i,
{
    if i == 0 {
        random::index_below(rng, n, usize::BITS)
    } else {
        random::index_below(round(rng, n, (i - 1) as nat).1, n, usize::BITS)
    }
}

/// The numbers drawn in 64 rounds, each with the generator after it.
pub open spec fn rounds(rng: ChaCha8Rng, n: usize) -> Seq<(usize, ChaCha8Rng)> {
    Seq::new(64, |i: int| round(rng, n, i as nat))
}

proof fn lemma_later_round(rng: ChaCha8Rng, n: usize, i: nat)
    ensures
        round(random::index_below(rng, n, usize::BITS).1, n, i) == round(rng, n, i + 1),
    decreases i,
{
    assert(round(rng, n, 0) == random::index_below(rng, n, usize::BITS));
    if i > 0 {
        lemma_later_round(rng, n, (i - 1) as nat);
        assert((i + 1 - 1) as nat == i);
    } else {
        assert(round(rng, n, 1) == random::index_below(round(rng, n, 0).1, n, usize::BITS));
    }
}

proof fn lemma_rounds(rng: ChaCha8Rng, n: usize, fits: spec_fn(usize) -> bool, count: nat)
    ensures
        ({
            let (first, after) = drawn(rng, n, fits, count);
            &&& forall|i: nat|
                i < count && fits((#[trigger] round(rng, n, i)).0) && (forall|j: nat|
                    j < i ==> !fits((#[trigger] round(rng, n, j)).0)) ==> first == Some(
                    round(rng, n, i).0,
                ) && after == round(rng, n, i).1
            &&& (forall|i: nat| i < count ==> !fits((#[trigger] round(rng, n, i)).0)) ==> first
                is None && (count > 0 ==> after == round(rng, n, (count - 1) as nat).1)
        }),
    decreases count,
{
    if count > 0 {
        let (candidate, next) = random::index_below(rng, n, usize::BITS);
        assert(round(rng, n, 0) == (candidate, next));
        let fewer = (count - 1) as nat;
        lemma_rounds(next, n, fits, fewer);
        assert forall|i: nat| #[trigger] round(next, n, i) == round(rng, n, i + 1) by {
            lemma_later_round(rng, n, i);
        }
        let (first, after) = drawn(rng, n, fits, count);
        assert forall|i: nat|
            i < count && fits((#[trigger] round(rng, n, i)).0) && (forall|j: nat|
                j < i ==> !fits((#[trigger] round(rng, n, j)).0)) implies first == Some(
            round(rng, n, i).0,
        ) && after == round(rng, n, i).1 by {
            if i > 0 {
                assert(!fits(round(rng, n, 0).0));
                let k = (i - 1) as nat;
                assert(round(next, n, k) == round(rng, n, i));
                assert forall|j: nat| j < k implies !fits((#[trigger] round(next, n, j)).0) by {
                    assert(round(next, n, j) == round(rng, n, j + 1));
                    assert(!fits(round(rng, n, j + 1).0));
                }
            }
        }
        if forall|i: nat| i < count ==> !fits((#[trigger] round(rng, n, i)).0) {
            assert(!fits(round(rng, n, 0).0));
            assert forall|i: nat| i < fewer implies !fits((#[trigger] round(next, n, i)).0) by {
                assert(round(next, n, i) == round(rng, n, i + 1));
                assert(!fits(round(rng, n, i + 1).0));
            }
            if fewer > 0 {
                assert(round(next, n, (fewer - 1) as nat) == round(rng, n, fewer));
            }
        }
    }
}

proof fn lemma_smallest(n: usize, fits: spec_fn(usize) -> bool, from: int)
    requires
        0 <= from,
    ensures
        match smallest(n, fits, from) {
            Some(w) => from <= w < n && fits(w) && forall|x: usize|
                from <= x < w ==> !#[trigger] fits(x),
            None => forall|x: usize| from <= x < n ==> !#[trigger] fits(x),
        },
    decreases n - from,
{
    if from < n && !fits(from as usize) {
        lemma_smallest(n, fits, from + 1);
        assert forall|x: usize| x == from implies !#[trigger] fits(x) by {
            assert(x == from as usize);
        }
    }
}

/// What is picked, in terms of the numbers drawn: the first acceptable of 64
/// numbers drawn one after the other; the smallest acceptable number where none of
/// the 64 is; nothing where no number is.
pub proof fn lemma_picked_rule(rng: ChaCha8Rng, n: usize, fits: spec_fn(usize) -> bool)
    requires
        forall|x: usize| #[trigger] fits(x) ==> x < n,
    ensures
        ({
            let target = picked(rng, n, fits).0;
            let draws = rounds(rng, n);
            &&& draws.len() == 64
            &&& draws[0] == random::index_below(rng, n, usize::BITS)
            &&& forall|i: int|
                1 <= i < 64 ==> #[trigger] draws[i] == random::index_below(
                    draws[i - 1].1,
                    n,
                    usize::BITS,
                )
            &&& forall|i: int|
                0 <= i < 64 && fits((#[trigger] draws[i]).0) && (forall|j: int|
                    0 <= j < i ==> !fits((#[trigger] draws[j]).0)) ==> target == Some(draws[i].0)
            &&& (forall|i: int| 0 <= i < 64 ==> !fits((#[trigger] draws[i]).0)) ==> {
                &&& target is Some ==> fits(target->Some_0) && forall|x: usize|
                    x < target->Some_0 ==> !#[trigger] fits(x)
            }
            &&& target is Some ==> fits(target->Some_0)
            &&& target is None ==> forall|x: usize| !#[trigger] fits(x)
        }),
{
    let target = picked(rng, n, fits).0;
    let draws = rounds(rng, n);
    lemma_rounds(rng, n, fits, TARGET_DRAWS as nat);
    lemma_smallest(n, fits, 0);
    generation::lemma_picked(rng, n, fits, TARGET_DRAWS as nat, 0);
    assert forall|i: int| 1 <= i < 64 implies #[trigger] draws[i] == random::index_below(
        draws[i - 1].1,
        n,
        usize::BITS,
    ) by {
        assert(draws[i - 1] == round(rng, n, (i - 1) as nat));
    }
    assert forall|i: int|
        0 <= i < 64 && fits((#[trigger] draws[i]).0) && (forall|j: int|
            0 <= j < i ==> !fits((#[trigger] draws[j]).0)) implies target == Some(draws[i].0) by {
        let k = i as nat;
        assert(draws[i] == round(rng, n, k));
        assert forall|j: nat| j < k implies !fits((#[trigger] round(rng, n, j)).0) by {
            assert(!fits(draws[j as int].0));
        }
    }
    if forall|i: int| 0 <= i < 64 ==> !fits((#[trigger] draws[i]).0) {
        assert forall|i: nat| i < 64 implies !fits((#[trigger] round(rng, n, i)).0) by {
            assert(!fits(draws[i as int].0));
        }
    }
    if target is None {
        assert forall|x: usize| !#[trigger] fits(x) by {
            if fits(x) {
                assert(x < n);
            }
        }
    }
}

/// A node that has all others as neighbors is open to none, and any other node is
/// open to some.
proof fn lemma_room(u: usize, row: Set<usize>, n: usize)
    requires
        row.finite(),
        forall|x: usize| #[trigger] row.contains(x) ==> x < n && x != u,
        u < n,
    ensures
        row.len() + 1 < n <==> exists|x: usize| x < n && x != u && !#[trigger] row.contains(x),
{
    let taken = row.insert(u);
    let all = Set::new(|x: usize| x < n);
    lemma_below(n);
    assert(taken.subset_of(all)) by {
        assert forall|x: usize| taken.contains(x) implies all.contains(x) by {
            if x != u {
                assert(row.contains(x));
            }
        }
    }
    vstd::set_lib::lemma_len_subset(taken, all);
    if taken.len() == n {
        vstd::set_lib::lemma_subset_equality(taken, all);
        assert forall|x: usize| x < n && x != u implies #[trigger] row.contains(x) by {
            assert(all.contains(x));
            assert(taken.contains(x));
        }
    } else if forall|x: usize| x < n && x != u ==> #[trigger] row.contains(x) {
        assert(all =~= taken) by {
            assert forall|x: usize| all.contains(x) implies taken.contains(x) by {
                if x != u {
                    assert(row.contains(x));
                }
            }
        }
    }
}

proof fn lemma_below(n: usize)
    ensures
        Set::new(|x: usize| x < n).finite(),
        Set::new(|x: usize| x < n).len() == n,
    decreases n,
{
    let all = Set::new(|x: usize| x < n);
    if n == 0 {
        assert(all =~= Set::empty());
    } else {
        let fewer = (n - 1) as usize;
        lemma_below(fewer);
        assert(all =~= Set::new(|x: usize| x < fewer).insert(fewer));
    }
}

/// The numbers are drawn one after the other from the generator.
#[verifier::opaque]
pub open spec fn follow(draws: Seq<(usize, ChaCha8Rng)>, rng: ChaCha8Rng, n: usize) -> bool {
    &&& draws.len() == 64
    &&& draws[0] == random::index_below(rng, n, usize::BITS)
    &&& forall|i: int|
        1 <= i < 64 ==> #[trigger] draws[i] == random::index_below(draws[i - 1].1, n, usize::BITS)
}

/// `w` is acceptable, and it is the first acceptable of the 64 numbers drawn or,
/// where none of them is acceptable, the smallest acceptable node.
#[verifier::opaque]
pub open spec fn given_by(
    draws: Seq<(usize, ChaCha8Rng)>,
    fits: spec_fn(usize) -> bool,
    w: usize,
) -> bool {
    &&& fits(w)
    &&& forall|i: int|
        0 <= i < 64 && fits((#[trigger] draws[i]).0) && (forall|j: int|
            0 <= j < i ==> !fits((#[trigger] draws[j]).0)) ==> w == draws[i].0
    &&& (forall|i: int| 0 <= i < 64 ==> !fits((#[trigger] draws[i]).0)) ==> forall|x: usize|
        x < w ==> !#[trigger] fits(x)
}

/// More than `half` ring steps lead from `u` to the node, either way around.
pub open spec fn far_from(n: usize, half: int, u: usize) -> spec_fn(usize) -> bool {
    |x: usize|
        x < n && (if x >= u {
            x - u
        } else {
            u - x
        }) > half && n - (if x >= u {
            x - u
        } else {
            u - x
        }) > half
}

/// The node is neither `u` nor one of its neighbors.
pub open spec fn no_neighbor(n: usize, u: usize, row: Set<usize>) -> spec_fn(usize) -> bool {
    |x: usize| x < n && x != u && !row.contains(x)
}

/// The edge between `u` and `v`, and no other, leads from `u` to `w` instead.
#[verifier::opaque]
pub open spec fn moved(
    n: usize,
    before: Seq<Set<usize>>,
    after: Seq<Set<usize>>,
    u: usize,
    v: usize,
    w: usize,
) -> bool {
    forall|x: int, y: usize|
        0 <= x < n ==> (#[trigger] after[x].contains(y) <==> (before[x].contains(y) && !(x == u && y
            == v) && !(x == v && y == u)) || (x == u && y == w) || (x == w && y == u))
}

/// What becomes of edge `e`, by the flip of its generator and the numbers drawn.
///
/// It gets a new end just when the first flip shows heads and some node is
/// neither its start nor a neighbor of it. The first choice is given by the numbers
/// drawn after the flip, among the nodes that no ring edge joins with the start.
/// It is the new end where it is no neighbor yet; else the new end is given by the
/// numbers drawn from a second generator, among the nodes that are none.
#[verifier::opaque]
pub open spec fn edge_rule(
    n: usize,
    k: usize,
    chance: Bernoulli,
    seed: u64,
    e: int,
    before: Seq<Set<usize>>,
    after: Seq<Set<usize>>,
    proposal: Option<usize>,
    end: Option<usize>,
) -> bool {
    let half = (k / 2) as int;
    let u = (e / half) as usize;
    let v = ((e / half + e % half + 1) % (n as int)) as usize;
    let (heads, rng) = random::coin(random::seeded(random::mixed(seed ^ (e as u64))), chance);
    let far = far_from(n, half, u);
    let open = no_neighbor(n, u, before[u as int]);
    &&& u < n
    &&& v < n
    &&& before[u as int].contains(v)
    &&& before[v as int].contains(u)
    &&& proposal is Some <==> heads && k + 1 < n
    &&& proposal is Some ==> exists|first: Seq<(usize, ChaCha8Rng)>|
        follow(first, rng, n) && #[trigger] given_by(first, far, proposal->Some_0)
    &&& end is Some <==> heads && exists|x: usize| #[trigger] open(x)
    &&& end is Some ==> open(end->Some_0) && moved(n, before, after, u, v, end->Some_0)
    &&& end is Some && proposal is Some && open(proposal->Some_0) ==> end == proposal
    &&& end is Some && !(proposal is Some && open(proposal->Some_0)) ==> exists|
        second: Seq<(usize, ChaCha8Rng)>,
    |
        follow(
            second,
            random::seeded(random::mixed((seed ^ (e as u64)) ^ 0xa5a5_a5a5)),
            n,
        ) && #[trigger] given_by(second, open, end->Some_0)
    &&& end is None ==> after == before
}

/// What is picked is given by the numbers drawn.
#[verifier::rlimit(60)]
proof fn lemma_given(
    rng: ChaCha8Rng,
    n: usize,
    fits: spec_fn(usize) -> bool,
    kind: spec_fn(usize) -> bool,
)
    requires
        forall|x: usize| #[trigger] fits(x) == kind(x),
        forall|x: usize| #[trigger] fits(x) ==> x < n,
    ensures
        follow(rounds(rng, n), rng, n),
        picked(rng, n, fits).0 is Some ==> given_by(
            rounds(rng, n),
            kind,
            picked(rng, n, fits).0->Some_0,
        ) && kind(picked(rng, n, fits).0->Some_0),
        picked(rng, n, fits).0 is Some <==> exists|x: usize| #[trigger] kind(x),
{
    reveal(follow);
    reveal(given_by);
    lemma_picked_rule(rng, n, fits);
    let draws = rounds(rng, n);
    let target = picked(rng, n, fits).0;
    if target is Some {
        let w = target->Some_0;
        assert(fits(w) == kind(w));
        assert forall|i: int|
            0 <= i < 64 && kind((#[trigger] draws[i]).0) && (forall|j: int|
                0 <= j < i ==> !kind((#[trigger] draws[j]).0)) implies w == draws[i].0 by {
            assert(fits(draws[i].0));
            assert forall|j: int| 0 <= j < i implies !fits((#[trigger] draws[j]).0) by {
                assert(!kind(draws[j].0));
            }
        }
        if forall|i: int| 0 <= i < 64 ==> !kind((#[trigger] draws[i]).0) {
            assert forall|i: int| 0 <= i < 64 implies !fits((#[trigger] draws[i]).0) by {
                assert(!kind(draws[i].0));
            }
            assert forall|x: usize| x < w implies !#[trigger] kind(x) by {
                assert(!fits(x));
            }
        }
    } else if exists|x: usize| #[trigger] kind(x) {
        let x = choose|x: usize| #[trigger] kind(x);
        assert(fits(x));
    }
}

/// Some node is far from every node, where there is room.
proof fn lemma_far_exists(n: usize, half: int, u: usize)
    requires
        0 < half,
        2 * half + 1 < n,
        u < n,
    ensures
        exists|x: usize| #[trigger] far_from(n, half, u)(x),
{
    let away = half + 1;
    let x = (if u + away < n {
        u + away
    } else {
        u + away - n
    }) as usize;
    assert(far_from(n, half, u)(x));
}

/// Redirecting an edge moves its end.
proof fn lemma_moved(n: usize, before: Seq<Set<usize>>, u: usize, v: usize, w: usize)
    requires
        before.len() == n,
        u < n,
        v < n,
        w < n,
        u != v,
        u != w,
        v != w,
    ensures
        moved(n, before, redirected(before, u, v, w), u, v, w),
{
    reveal(moved);
}

/// One edge of the generation.
#[verifier::rlimit(60)]
proof fn lemma_one_edge(
    n: usize,
    k: usize,
    chance: Bernoulli,
    partitions: usize,
    seed: u64,
    e: int,
)
    requires
        2 <= k < n,
        k % 2 == 0,
        0 <= e < n * (k / 2),
    ensures
        edge_rule(
            n,
            k,
            chance,
            seed,
            e,
            draft_after(n, k, chance, partitions, seed, e).rows,
            draft_after(n, k, chance, partitions, seed, e + 1).rows,
            proposed(n, k, chance, seed, e).1,
            settled_target(
                draft_after(n, k, chance, partitions, seed, e).rows,
                n,
                k,
                chance,
                seed,
                e,
            ),
        ),
{
    reveal(edge_rule);
    let half = (k / 2) as int;
    let nodes = n as int;
    let before = draft_after(n, k, chance, partitions, seed, e).rows;
    let after = draft_after(n, k, chance, partitions, seed, e + 1).rows;
    let end = settled_target(before, n, k, chance, seed, e);
    let proposal = proposed(n, k, chance, seed, e).1;
    generation::lemma_draft_sound(n, k, chance, partitions, seed, e);
    circle::lemma_edge(nodes, half, e);
    let u = circle::edge_from(half, e) as usize;
    let v = circle::edge_to(nodes, half, e) as usize;
    assert(e / half + e % half + 1 == e / half + (e % half + 1));
    assert(v == ((e / half + e % half + 1) % nodes) as usize);
    assert(before[circle::edge_from(half, e)].contains(v));
    assert(before[v as int].contains(u));
    let row = before[u as int];
    assert(row.finite());
    let (heads, rng) = random::coin(random::seeded(random::mixed(seed ^ (e as u64))), chance);
    let far = far_from(n, half, u);
    let open = no_neighbor(n, u, row);
    let again = random::seeded(random::mixed((seed ^ (e as u64)) ^ 0xa5a5_a5a5));
    lemma_given(rng, n, off_ring(n, k, u), far);
    lemma_given(again, n, open_to(row, u, v, n), open);
    if heads && k + 1 < n {
        lemma_far_exists(n, half, u);
        assert(given_by(rounds(rng, n), far, proposal->Some_0));
    }
    lemma_room(u, row, n);
    assert((exists|x: usize| #[trigger] open(x)) <==> row.len() + 1 < n) by {
        if exists|x: usize| #[trigger] open(x) {
            let x = choose|x: usize| #[trigger] open(x);
            assert(x < n && x != u && !row.contains(x));
        }
        if row.len() + 1 < n {
            let x = choose|x: usize| x < n && x != u && !#[trigger] row.contains(x);
            assert(open(x));
        }
    }
    if proposal is Some {
        assert(open(proposal->Some_0) == open_to(row, u, v, n)(proposal->Some_0));
    }
    if heads && !(proposal is Some && open(proposal->Some_0)) {
        assert(end == target_choice(again, u, v, row, n).0);
        if end is Some {
            assert(given_by(rounds(again, n), open, end->Some_0));
        }
    }
    if end is Some {
        lemma_moved(n, before, u, v, end->Some_0);
    }
}

/// The generation of a graph, edge by edge: the neighbors before every edge and
/// after the last, the first choices, and the new ends.
///
/// - It starts from the ring in which every node has the `k / 2` nodes on either
///   side as neighbors, and the graph lists what it ends with in ascending order.
/// - Edge `e` starts in `e / (k / 2)` and led to the node `e % (k / 2) + 1` steps
///   along the ring. What becomes of it follows from the flip of its own generator
///   and from the numbers drawn.
/// - The statistics count the edges, those with a new end, and the old and the new
///   ends that lie in another of the partitions than the start.
#[verifier::rlimit(60)]
pub proof fn lemma_every_edge(
    n: usize,
    k: usize,
    p: Probability,
    partitions: usize,
    seed: u64,
    graph: Graph,
    stats: RewireStats,
) -> (story: (Seq<Seq<Set<usize>>>, Seq<Option<usize>>, Seq<Option<usize>>))
    requires
        2 <= k < n,
        k % 2 == 0,
        p.bits != 0,
        p.bits != 0x8000_0000_0000_0000,
        made(n, k, p, partitions, seed, graph, stats),
    ensures
        ({
            let (drafts, proposals, ends) = story;
            let half = (k / 2) as int;
            let edges = n * half;
            let part = |x: int|
                (if x * partitions <= usize::MAX {
                    x * partitions
                } else {
                    usize::MAX as int
                }) / (n as int);
            &&& drafts.len() == edges + 1
            &&& proposals.len() == edges
            &&& ends.len() == edges
            &&& forall|u: usize, v: usize|
                u < n ==> (#[trigger] drafts[0][u as int].contains(v) <==> v < n && v != u && ((if u
                    <= v {
                    v - u
                } else {
                    u - v
                }) <= half || n - (if u <= v {
                    v - u
                } else {
                    u - v
                }) <= half))
            &&& graph.adjacency@.len() == n
            &&& forall|u: int, v: usize|
                0 <= u < n ==> (#[trigger] graph.adjacency@[u]@.contains(v)
                    <==> drafts[edges][u].contains(v))
            &&& forall|u: int, i: int, j: int|
                0 <= u < n && 0 <= i < j < graph.adjacency@[u]@.len()
                    ==> #[trigger] graph.adjacency@[u]@[i] < #[trigger] graph.adjacency@[u]@[j]
            &&& forall|e: int|
                0 <= e < edges ==> edge_rule(
                    n,
                    k,
                    p.chance->Some_0,
                    seed,
                    e,
                    drafts[e],
                    drafts[e + 1],
                    proposals[e],
                    #[trigger] ends[e],
                )
            &&& graph.edge_count == n * k / 2
            &&& stats.considered_edges == n * k / 2
            &&& stats.partitions == partitions
            &&& stats.rewired_edges == Set::new(|e: int| 0 <= e < edges && ends[e] is Some).len()
            &&& stats.cross_partition_updates == Set::new(
                |e: int|
                    0 <= e < edges && ends[e] is Some && part(
                        (e / half + e % half + 1) % (n as int),
                    ) != part(e / half),
            ).len() + Set::new(
                |e: int|
                    0 <= e < edges && ends[e] is Some && part(ends[e]->Some_0 as int) != part(
                        e / half,
                    ),
            ).len()
        }),
{
    let half = (k / 2) as int;
    let nodes = n as int;
    let edges = nodes * half;
    let chance = p.chance->Some_0;
    assert(edges >= 0) by (nonlinear_arith)
        requires
            edges == nodes * half,
            nodes >= 0,
            half >= 0,
    ;
    assert((n * k) / 2 == edges) by {
        assert(n * k == 2 * edges) by (nonlinear_arith)
            requires
                edges == nodes * half,
                nodes == n,
                k == 2 * half,
        ;
    }
    let drafts = Seq::new(
        (edges + 1) as nat,
        |e: int| draft_after(n, k, chance, partitions, seed, e).rows,
    );
    let proposals = Seq::new(edges as nat, |e: int| proposed(n, k, chance, seed, e).1);
    let ends = Seq::new(edges as nat, |e: int| settled_target(drafts[e], n, k, chance, seed, e));
    generation::lemma_ring_draft(n, k);
    assert forall|u: usize, v: usize| u < n implies (#[trigger] drafts[0][u as int].contains(v)
        <==> v < n && v != u && ((if u <= v {
        v - u
    } else {
        u - v
    }) <= half || n - (if u <= v {
        v - u
    } else {
        u - v
    }) <= half)) by {
        if v < n {
            circle::lemma_ring_link(nodes, half, u as int, v as int);
        }
    }
    assert(finished(n, k, p, partitions, seed) == draft_after(
        n,
        k,
        chance,
        partitions,
        seed,
        edges,
    ));
    assert forall|u: int, v: usize| 0 <= u < n implies (#[trigger] graph.adjacency@[u]@.contains(v)
        <==> drafts[edges][u].contains(v)) by {
        assert(sorting::lists(graph.rows()[u], drafts[edges][u]));
        assert(graph.rows()[u].to_set().contains(v) <==> graph.adjacency@[u]@.contains(v));
    }
    assert forall|u: int, i: int, j: int|
        0 <= u < n && 0 <= i < j < graph.adjacency@[u]@.len() implies
        #[trigger] graph.adjacency@[u]@[i] < #[trigger] graph.adjacency@[u]@[j] by {
        assert(sorting::lists(graph.rows()[u], drafts[edges][u]));
    }
    assert forall|e: int| 0 <= e < edges implies edge_rule(
        n,
        k,
        chance,
        seed,
        e,
        drafts[e],
        drafts[e + 1],
        proposals[e],
        #[trigger] ends[e],
    ) by {
        lemma_one_edge(n, k, chance, partitions, seed, e);
    }
    let part = |x: int|
        (if x * partitions <= usize::MAX {
            x * partitions
        } else {
            usize::MAX as int
        }) / (n as int);
    assert forall|u: usize, end: usize| #[trigger]
        crossing(u, end, n, partitions) == if part(end as int) != part(u as int) {
            1nat
        } else {
            0
        } by {
        lemma_crossing(u, end, n, partitions);
    }
    lemma_counts(n, k, chance, partitions, seed, ends, part);
    (drafts, proposals, ends)
}

/// The counters of a draft, as sums over its edges.
proof fn lemma_counters(
    n: usize,
    k: usize,
    chance: Bernoulli,
    partitions: usize,
    seed: u64,
    count: int,
)
    requires
        2 <= k < n,
        k % 2 == 0,
        0 <= count <= n * (k / 2),
    ensures
        draft_after(n, k, chance, partitions, seed, count).rewired == counting::sum(
            |e: int| moves(n, k, chance, partitions, seed, e),
            count as nat,
        ),
        draft_after(n, k, chance, partitions, seed, count).crossed == counting::sum(
            |e: int| leaves(n, k, chance, partitions, seed, e),
            count as nat,
        ) + counting::sum(|e: int| goes(n, k, chance, partitions, seed, e), count as nat),
    decreases count,
{
    if count > 0 {
        lemma_counters(n, k, chance, partitions, seed, count - 1);
    }
}

/// One for an edge that gets a new end.
spec fn moves(
    n: usize,
    k: usize,
    chance: Bernoulli,
    partitions: usize,
    seed: u64,
    e: int,
) -> nat {
    let rows = draft_after(n, k, chance, partitions, seed, e).rows;
    if settled_target(rows, n, k, chance, seed, e) is Some {
        1
    } else {
        0
    }
}

/// One for an edge whose old end lies in another partition than its start.
spec fn leaves(
    n: usize,
    k: usize,
    chance: Bernoulli,
    partitions: usize,
    seed: u64,
    e: int,
) -> nat {
    let rows = draft_after(n, k, chance, partitions, seed, e).rows;
    let half = (k / 2) as int;
    match settled_target(rows, n, k, chance, seed, e) {
        None => 0,
        Some(_) => crossing(
            circle::edge_from(half, e) as usize,
            circle::edge_to(n as int, half, e) as usize,
            n,
            partitions,
        ),
    }
}

/// One for an edge whose new end lies in another partition than its start.
spec fn goes(
    n: usize,
    k: usize,
    chance: Bernoulli,
    partitions: usize,
    seed: u64,
    e: int,
) -> nat {
    let rows = draft_after(n, k, chance, partitions, seed, e).rows;
    let half = (k / 2) as int;
    match settled_target(rows, n, k, chance, seed, e) {
        None => 0,
        Some(w) => crossing(circle::edge_from(half, e) as usize, w, n, partitions),
    }
}

/// A crossing, by the quotients.
proof fn lemma_crossing(u: usize, end: usize, n: usize, partitions: usize)
    requires
        n > 0,
    ensures
        ({
            let part = |x: int|
                (if x * partitions <= usize::MAX {
                    x * partitions
                } else {
                    usize::MAX as int
                }) / (n as int);
            crossing(u, end, n, partitions) == if part(end as int) != part(u as int) {
                1nat
            } else {
                0
            }
        }),
{
}

/// The counters of a draft, as numbers of edges.
#[verifier::rlimit(60)]
proof fn lemma_counts(
    n: usize,
    k: usize,
    chance: Bernoulli,
    partitions: usize,
    seed: u64,
    ends: Seq<Option<usize>>,
    part: spec_fn(int) -> int,
)
    requires
        2 <= k < n,
        k % 2 == 0,
        ends.len() == n * (k / 2),
        forall|e: int|
            0 <= e < ends.len() ==> #[trigger] ends[e] == settled_target(
                draft_after(n, k, chance, partitions, seed, e).rows,
                n,
                k,
                chance,
                seed,
                e,
            ),
        forall|u: usize, end: usize| #[trigger]
            crossing(u, end, n, partitions) == if part(end as int) != part(u as int) {
                1nat
            } else {
                0
            },
    ensures
        ({
            let half = (k / 2) as int;
            let edges = n * half;
            let draft = draft_after(n, k, chance, partitions, seed, edges);
            &&& draft.rewired == Set::new(|e: int| 0 <= e < edges && ends[e] is Some).len()
            &&& draft.crossed == Set::new(
                |e: int|
                    0 <= e < edges && ends[e] is Some && part(
                        (e / half + e % half + 1) % (n as int),
                    ) != part(e / half),
            ).len() + Set::new(
                |e: int|
                    0 <= e < edges && ends[e] is Some && part(ends[e]->Some_0 as int) != part(
                        e / half,
                    ),
            ).len()
        }),
{
    let half = (k / 2) as int;
    let edges = n * half;
    lemma_counters(n, k, chance, partitions, seed, edges);
    let some = |e: int| ends[e] is Some;
    let left = |e: int|
        ends[e] is Some && part((e / half + e % half + 1) % (n as int)) != part(e / half);
    let gone = |e: int| ends[e] is Some && part(ends[e]->Some_0 as int) != part(e / half);
    counting::lemma_count(some, edges as nat);
    counting::lemma_count(left, edges as nat);
    counting::lemma_count(gone, edges as nat);
    assert forall|e: int| 0 <= e < edges implies moves(n, k, chance, partitions, seed, e) == (
    if some(e) {
        1nat
    } else {
        0
    }) && leaves(n, k, chance, partitions, seed, e) == (if left(e) {
        1nat
    } else {
        0
    }) && goes(n, k, chance, partitions, seed, e) == (if gone(e) {
        1nat
    } else {
        0
    }) by {
        circle::lemma_edge(n as int, half, e);
        assert(e / half + e % half + 1 == e / half + (e % half + 1));
        let u = circle::edge_from(half, e) as usize;
        let v = circle::edge_to(n as int, half, e) as usize;
        assert(ends[e] == settled_target(
            draft_after(n, k, chance, partitions, seed, e).rows,
            n,
            k,
            chance,
            seed,
            e,
        ));
        assert(crossing(u, v, n, partitions) == if part(v as int) != part(u as int) {
            1nat
        } else {
            0
        });
        if ends[e] is Some {
            let w = ends[e]->Some_0;
            assert(crossing(u, w, n, partitions) == if part(w as int) != part(u as int) {
                1nat
            } else {
                0
            });
        }
    }
    counting::lemma_same_sum(
        |e: int| moves(n, k, chance, partitions, seed, e),
        |e: int|
            if some(e) {
                1nat
            } else {
                0
            },
        edges as nat,
    );
    counting::lemma_same_sum(
        |e: int| leaves(n, k, chance, partitions, seed, e),
        |e: int|
            if left(e) {
                1nat
            } else {
                0
            },
        edges as nat,
    );
    counting::lemma_same_sum(
        |e: int| goes(n, k, chance, partitions, seed, e),
        |e: int|
            if gone(e) {
                1nat
            } else {
                0
            },
        edges as nat,
    );
    assert(Set::new(|e: int| 0 <= e < edges && ends[e] is Some) =~= Set::new(
        |e: int| 0 <= e < edges as nat && some(e),
    ));
    assert(Set::new(
        |e: int|
            0 <= e < edges && ends[e] is Some && part((e / half + e % half + 1) % (n as int))
                != part(e / half),
    ) =~= Set::new(|e: int| 0 <= e < edges as nat && left(e)));
    assert(Set::new(
        |e: int|
            0 <= e < edges && ends[e] is Some && part(ends[e]->Some_0 as int) != part(e / half),
    ) =~= Set::new(|e: int| 0 <= e < edges as nat && gone(e)));
}

/// With probability zero the graph is the ring, and the statistics tell so.
pub proof fn lemma_untouched(
    n: usize,
    k: usize,
    p: Probability,
    partitions: usize,
    seed: u64,
    graph: Graph,
    stats: RewireStats,
)
    requires
        2 <= k < n,
        k % 2 == 0,
        p.bits == 0 || p.bits == 0x8000_0000_0000_0000,
        made(n, k, p, partitions, seed, graph, stats),
    ensures
        graph.adjacency@.len() == n,
        forall|u: usize, v: usize|
            u < n ==> (#[trigger] graph.adjacency@[u as int]@.contains(v) <==> v < n && v != u && ((
            if u <= v {
                v - u
            } else {
                u - v
            }) <= k / 2 || n - (if u <= v {
                v - u
            } else {
                u - v
            }) <= k / 2)),
        graph.edge_count == n * k / 2,
        stats.considered_edges == n * k / 2,
        stats.rewired_edges == 0,
        stats.cross_partition_updates == 0,
        stats.partitions == partitions,
{
    let half = (k / 2) as int;
    assert forall|u: usize, v: usize| u < n implies (
    #[trigger] graph.adjacency@[u as int]@.contains(v) <==> v < n && v != u && ((if u <= v {
        v - u
    } else {
        u - v
    }) <= k / 2 || n - (if u <= v {
        v - u
    } else {
        u - v
    }) <= k / 2)) by {
        assert(sorting::lists(graph.rows()[u as int], ring_draft(n, k).rows[u as int]));
        let row = graph.adjacency@[u as int]@;
        assert(graph.rows()[u as int].to_set().contains(v) <==> row.contains(v));
        if v < n {
            circle::lemma_ring_link(n as int, half, u as int, v as int);
        }
    }
}

/// The new neighbor that is chosen in place of `v` for a node with these neighbors:
/// none where the node has all others as neighbors or no other node is left, and
/// else the first of 64 numbers drawn with `index_below` that is neither the node
/// itself nor `v` nor a neighbor, or the smallest such node where none of the 64 is.
#[verifier::rlimit(60)]
pub proof fn lemma_target_rule(
    rng: ChaCha8Rng,
    u: usize,
    v: usize,
    row: Set<usize>,
    n: usize,
    target: Option<usize>,
    after: ChaCha8Rng,
) -> (draws: Seq<(usize, ChaCha8Rng)>)
    requires
        (target, after) == crate::generation::target_choice(rng, u, v, row, n),
    ensures
        ({
            let free = |x: usize| x < n && x != u && x != v && !row.contains(x);
            &&& draws.len() == 64
            &&& draws[0] == random::index_below(rng, n, usize::BITS)
            &&& forall|i: int|
                1 <= i < 64 ==> #[trigger] draws[i] == random::index_below(
                    draws[i - 1].1,
                    n,
                    usize::BITS,
                )
            &&& target is Some <==> row.len() + 1 < n && exists|x: usize| #[trigger] free(x)
            &&& target is Some ==> {
                let w = target->Some_0;
                &&& free(w)
                &&& forall|i: int|
                    0 <= i < 64 && free((#[trigger] draws[i]).0) && (forall|j: int|
                        0 <= j < i ==> !free((#[trigger] draws[j]).0)) ==> w == draws[i].0
                &&& (forall|i: int| 0 <= i < 64 ==> !free((#[trigger] draws[i]).0)) ==> forall|
                    x: usize,
                |
                    x < w ==> !#[trigger] free(x)
            }
        }),
{
    let free = |x: usize| x < n && x != u && x != v && !row.contains(x);
    reveal(follow);
    reveal(given_by);
    lemma_given(rng, n, crate::generation::open_to(row, u, v, n), free);
    rounds(rng, n)
}

/// What is proposed for edge `e` of the ring: that it gets a new end where the first
/// flip of its own generator shows heads; and, where the ring leaves nodes out, the
/// first of the 64 numbers drawn after the flip that is more than `K / 2` ring steps
/// away from its start, or the smallest such node where none of the 64 is.
#[verifier::rlimit(60)]
pub proof fn lemma_proposal_rule(
    n: usize,
    k: usize,
    chance: Bernoulli,
    seed: u64,
    e: int,
    should_rewire: bool,
    target: Option<usize>,
) -> (draws: Seq<(usize, ChaCha8Rng)>)
    requires
        (should_rewire, target) == crate::generation::proposed(n, k, chance, seed, e),
        2 <= k,
        0 <= e / ((k / 2) as int) < n,
    ensures
        ({
            let u = (e / ((k / 2) as int)) as usize;
            let (heads, rng) = random::coin(
                random::seeded(random::mixed(seed ^ (e as u64))),
                chance,
            );
            let far = |x: usize|
                x < n && (if x >= u {
                    x - u
                } else {
                    u - x
                }) > k / 2 && n - (if x >= u {
                    x - u
                } else {
                    u - x
                }) > k / 2;
            &&& should_rewire == heads
            &&& draws.len() == 64
            &&& draws[0] == random::index_below(rng, n, usize::BITS)
            &&& forall|i: int|
                1 <= i < 64 ==> #[trigger] draws[i] == random::index_below(
                    draws[i - 1].1,
                    n,
                    usize::BITS,
                )
            &&& target is Some <==> heads && k + 1 < n
            &&& target is Some ==> {
                let w = target->Some_0;
                &&& far(w)
                &&& forall|i: int|
                    0 <= i < 64 && far((#[trigger] draws[i]).0) && (forall|j: int|
                        0 <= j < i ==> !far((#[trigger] draws[j]).0)) ==> w == draws[i].0
                &&& (forall|i: int| 0 <= i < 64 ==> !far((#[trigger] draws[i]).0)) ==> forall|
                    x: usize,
                |
                    x < w ==> !#[trigger] far(x)
            }
        }),
{
    let u = (e / ((k / 2) as int)) as usize;
    let (heads, rng) = random::coin(random::seeded(random::mixed(seed ^ (e as u64))), chance);
    let far = |x: usize|
        x < n && (if x >= u {
            x - u
        } else {
            u - x
        }) > k / 2 && n - (if x >= u {
            x - u
        } else {
            u - x
        }) > k / 2;
    reveal(follow);
    reveal(given_by);
    lemma_given(rng, n, crate::generation::off_ring(n, k, u), far);
    if k + 1 < n {
        lemma_far_exists(n, (k / 2) as int, u);
        let x = choose|x: usize| #[trigger] far_from(n, (k / 2) as int, u)(x);
        assert(far(x));
    }
    rounds(rng, n)
}

} // verus!
