//! A rewiring pass of any worker, whatever rows it holds, edge by edge.

use super::draws::free;
use super::rewire::{attach, release, PassState};
use super::ShardView;
use crate::probability::Probability;
use crate::protocol::{Mutation, WorkerResponse};
use crate::random;
use crate::sorted;
use crate::text;
use rand::distributions::Bernoulli;
use rand_chacha::ChaCha8Rng;
use vstd::prelude::*;

verus! {

/// The numbers are drawn one after the other, and the target is the first of them that is
/// acceptable, or the smallest acceptable node where none of the 64 is; none where the
/// node has all others as neighbors.
#[verifier::opaque]
pub open spec fn gives(
    draws: Seq<(u32, ChaCha8Rng)>,
    target: Option<u32>,
    rng: ChaCha8Rng,
    u: u32,
    v: u32,
    row: Seq<u32>,
    nodes: u32,
) -> bool {
    let fits = free(u, v, row, nodes);
    &&& draws.len() == 64
    &&& draws[0] == random::below(rng, nodes)
    &&& forall|i: int|
        1 <= i < 64 ==> #[trigger] draws[i] == random::below(draws[i - 1].1, nodes)
    &&& row.len() + 1 >= nodes ==> target is None
    &&& row.len() + 1 < nodes ==> {
        &&& forall|i: int|
            0 <= i < 64 && fits((#[trigger] draws[i]).0) && (forall|j: int|
                0 <= j < i ==> !fits((#[trigger] draws[j]).0)) ==> target == Some(draws[i].0)
        &&& (forall|i: int| 0 <= i < 64 ==> !fits((#[trigger] draws[i]).0)) ==> match target {
            Some(w) => fits(w) && forall|x: u32| x < w ==> !#[trigger] fits(x),
            None => forall|x: u32| !#[trigger] fits(x),
        }
    }
}

/// The neighbor `v` of `u` is replaced by `w`.
///
/// Where `u` has no such neighbor the pass fails, and so it does where a far row of
/// the worker's own does not hold `u` as it should. Else `u` and `v` lose one
/// another, `u` and `w` gain one another, in the worker's own rows at once and in the
/// others by mutations for their owners, and one more edge is counted.
#[verifier::opaque]
pub open spec fn leads_to(
    shard: ShardView,
    u: u32,
    v: u32,
    w: u32,
    a: PassState,
    b: PassState,
) -> bool {
    let start = shard.start;
    let own = |x: u32| shard.start <= x < shard.end;
    if !a.rows[u - start].contains(v) {
        b == (PassState {
            failure: Some(
                "rewiring invariant failed for ("@ + text::decimal(u as nat) + ", "@
                    + text::decimal(v as nat) + ") -> ("@ + text::decimal(u as nat) + ", "@
                    + text::decimal(w as nat) + ")"@,
            ),
            ..a
        })
    } else {
        &&& b.failure is None <==> (own(v) ==> a.rows[v - start].contains(u)) && (own(w)
            ==> !a.rows[w - start].contains(u))
        &&& b.failure is Some ==> b.rewired == a.rewired
        &&& b.failure is None ==> {
            &&& b.rewired == a.rewired + 1
            &&& !b.intact
            &&& b.rows.len() == a.rows.len()
            &&& forall|x: u32, y: u32|
                own(x) ==> (#[trigger] b.rows[x - start].contains(y) <==> (
                a.rows[x - start].contains(y) && !(x == u && y == v) && !(x == v && y == u)) || (x
                    == u && y == w) || (x == w && y == u))
            &&& b.outbox == a.outbox + (if own(v) {
                Seq::<Mutation>::empty()
            } else {
                seq![Mutation { node: v, other: u, add: false }]
            }) + (if own(w) {
                Seq::<Mutation>::empty()
            } else {
                seq![Mutation { node: w, other: u, add: true }]
            })
        }
    }
}

/// What becomes of edge `k` of a pass: nothing where the pass has failed before, or where
/// the first and only flip of the edge's own generator does not show heads.
#[verifier::opaque]
pub open spec fn edge_step(
    shard: ShardView,
    chance: Bernoulli,
    seed: u64,
    k: int,
    a: PassState,
    b: PassState,
) -> bool {
    let nodes = shard.config->Some_0.nodes;
    let half = (shard.config->Some_0.degree / 2) as int;
    let u = (shard.start + k / half) as u32;
    let v = ((u + k % half + 1) % (nodes as int)) as u32;
    let (heads, rng) = random::coin(
        random::seeded(random::mixed(seed ^ ((shard.start * half + k) as u64))),
        chance,
    );
    let row = a.rows[u - shard.start];
    if a.failure is Some || !heads {
        b == a
    } else {
        exists|draws: Seq<(u32, ChaCha8Rng)>, target: Option<u32>|
            {
                &&& #[trigger] gives(draws, target, rng, u, v, row, nodes)
                &&& match target {
                    None => b == a,
                    Some(w) => leads_to(shard, u, v, w, a, b),
                }
            }
    }
}

/// The rows of a pass are as many as before, and ascend.
spec fn in_order(shard: ShardView, state: PassState) -> bool {
    &&& state.rows.len() == shard.end - shard.start
    &&& forall|i: int| 0 <= i < state.rows.len() ==> sorted::ascending(#[trigger] state.rows[i])
}

#[verifier::rlimit(60)]
proof fn lemma_gives(
    rng: ChaCha8Rng,
    u: u32,
    v: u32,
    row: Seq<u32>,
    nodes: u32,
) -> (draws: Seq<(u32, ChaCha8Rng)>)
    ensures
        gives(
            draws,
            super::rewire::target_choice(rng, u, v, row, nodes).0,
            rng,
            u,
            v,
            row,
            nodes,
        ),
{
    reveal(gives);
    let (target, after) = super::rewire::target_choice(rng, u, v, row, nodes);
    super::draws::lemma_target_rule(rng, u, v, row, nodes, target, after)
}

#[verifier::rlimit(60)]
proof fn lemma_leads(shard: ShardView, u: u32, v: u32, w: u32, a: PassState)
    requires
        shard.wf(),
        in_order(shard, a),
        a.failure is None,
        shard.owns(u as int),
        u != v,
        w != u,
        w != v,
        !a.rows[u - shard.start].contains(w),
    ensures
        leads_to(shard, u, v, w, a, shard.redirect(a, u, v, w)),
        in_order(shard, shard.redirect(a, u, v, w)),
{
    reveal(leads_to);
    let at = u - shard.start;
    let row = a.rows[at];
    assert(sorted::ascending(row));
    if row.contains(v) {
        let less = sorted::without_node(row, v);
        sorted::lemma_without_node(row, v);
        sorted::lemma_with_node(less, w);
        let moved = PassState {
            rows: a.rows.update(at, sorted::with_node(less, w)),
            intact: false,
            ..a
        };
        assert(in_order(shard, moved));
        lemma_deliver(shard, moved, release(u, v));
        let first = shard.deliver(moved, release(u, v));
        if first.failure is None {
            lemma_deliver(shard, first, attach(u, w));
        }
        let told = shard.deliver(first, attach(u, w));
        let b = shard.redirect(a, u, v, w);
        assert(b.rows == told.rows);
        if told.failure is None {
            assert(b.outbox =~= a.outbox + (if shard.owns(v as int) {
                Seq::<Mutation>::empty()
            } else {
                seq![Mutation { node: v, other: u, add: false }]
            }) + (if shard.owns(w as int) {
                Seq::<Mutation>::empty()
            } else {
                seq![Mutation { node: w, other: u, add: true }]
            }));
        }
    }
}

#[verifier::rlimit(60)]
proof fn lemma_deliver(shard: ShardView, state: PassState, mutation: Mutation)
    requires
        shard.wf(),
        in_order(shard, state),
        state.failure is None,
    ensures
        ({
            let b = shard.deliver(state, mutation);
            let own = shard.owns(mutation.node as int);
            let held = state.rows[mutation.node - shard.start].contains(mutation.other);
            &&& in_order(shard, b)
            &&& b.rewired == state.rewired
            &&& b.failure is None <==> (own ==> mutation.add != held)
            &&& b.failure is None ==> {
                &&& state.intact == false ==> b.intact == false
                &&& b.outbox == if own {
                    state.outbox
                } else {
                    state.outbox.push(mutation)
                }
                &&& forall|x: u32, y: u32|
                    shard.owns(x as int) ==> (#[trigger] b.rows[x - shard.start].contains(y) <==> {
                        if x == mutation.node && y == mutation.other {
                            mutation.add
                        } else {
                            state.rows[x - shard.start].contains(y)
                        }
                    })
            }
        }),
{
    if shard.owns(mutation.node as int) {
        let row = state.rows[mutation.node - shard.start];
        assert(sorted::ascending(row));
        if mutation.add {
            if !row.contains(mutation.other) {
                sorted::lemma_with_node(row, mutation.other);
            }
        } else {
            if row.contains(mutation.other) {
                sorted::lemma_without_node(row, mutation.other);
            }
        }
    }
}

#[verifier::rlimit(60)]
proof fn lemma_edge_step(
    shard: ShardView,
    chance: Bernoulli,
    seed: u64,
    k: int,
    a: PassState,
)
    requires
        shard.wf(),
        shard.config is Some,
        shard.config->Some_0.degree / 2 < shard.config->Some_0.nodes,
        0 <= k < shard.edge_total(),
        in_order(shard, a),
    ensures
        edge_step(shard, chance, seed, k, a, shard.consider(a, chance, seed, k)),
        in_order(shard, shard.consider(a, chance, seed, k)),
{
    reveal(edge_step);
    super::rewire::lemma_edge(shard, k);
    let nodes = shard.config->Some_0.nodes;
    let half = shard.half();
    let u = shard.edge_from(k);
    let v = shard.edge_to(k);
    let b = shard.consider(a, chance, seed, k);
    let (heads, rng) = random::coin(
        random::seeded(random::mixed(seed ^ shard.edge_number(k))),
        chance,
    );
    let row = a.rows[u - shard.start];
    crate::circle::lemma_ring_step(nodes as int, u as int, k % half + 1);
    assert(u != v);
    assert(u == (shard.start + k / half) as u32);
    assert(u + (k % half + 1) == u + k % half + 1);
    assert(v == ((u + k % half + 1) % (nodes as int)) as u32);
    assert(shard.edge_number(k) == (shard.start * half + k) as u64);
    if a.failure is None && heads {
        let draws = lemma_gives(rng, u, v, row, nodes);
        let target = super::rewire::target_choice(rng, u, v, row, nodes).0;
        super::rewire::lemma_target_choice(rng, u, v, row, nodes);
        assert(gives(draws, target, rng, u, v, row, nodes));
        if target is Some {
            lemma_leads(shard, u, v, target->Some_0, a);
        }
    }
}

#[verifier::rlimit(60)]
proof fn lemma_steps(
    shard: ShardView,
    chance: Bernoulli,
    seed: u64,
    states: Seq<PassState>,
    n: int,
)
    requires
        shard.wf(),
        shard.config is Some,
        shard.config->Some_0.degree / 2 < shard.config->Some_0.nodes,
        0 <= n <= shard.edge_total(),
        states == Seq::new(
            (shard.edge_total() + 1) as nat,
            |k: int| shard.run(shard.pass_start(), chance, seed, 0, k),
        ),
    ensures
        in_order(shard, states[n]),
        forall|k: int| 0 <= k < n ==> edge_step(
            shard,
            chance,
            seed,
            k,
            #[trigger] states[k],
            states[k + 1],
        ),
    decreases n,
{
    if n > 0 {
        lemma_steps(shard, chance, seed, states, n - 1);
        lemma_edge_step(shard, chance, seed, n - 1, states[n - 1]);
        assert(states[n - 1 + 1] == shard.consider(states[n - 1], chance, seed, n - 1));
    }
}

/// A rewiring pass with a probability above zero, of any worker and whatever rows it
/// holds: it begins with these rows, takes its edges one after the other, each as
/// its own generator decides, and ends with the rows after the last. It is answered
/// with the number of edges that got a new end, or with what went wrong first.
#[verifier::rlimit(60)]
pub proof fn lemma_pass_story(
    shard: ShardView,
    probability: Probability,
    seed: u64,
    output: Seq<WorkerResponse>,
    answer: Result<WorkerResponse, String>,
    after: ShardView,
    written: Seq<WorkerResponse>,
) -> (states: Seq<PassState>)
    requires
        shard.wf(),
        shard.config is Some,
        shard.config->Some_0.degree / 2 < shard.config->Some_0.nodes,
        probability.bits != 0,
        probability.bits != 0x8000_0000_0000_0000,
        shard.rewire_outcome(probability, seed, output, answer, after, written),
    ensures
        ({
            let edges = (shard.end - shard.start) * (shard.config->Some_0.degree / 2);
            let chance = probability.chance->Some_0;
            let last = states[edges];
            &&& states.len() == edges + 1
            &&& states[0].rows == shard.rows
            &&& states[0].intact == shard.ring_intact
            &&& states[0].outbox.len() == 0
            &&& states[0].rewired == 0
            &&& states[0].failure is None
            &&& forall|k: int|
                0 <= k < edges ==> edge_step(
                    shard,
                    chance,
                    seed,
                    k,
                    #[trigger] states[k],
                    states[k + 1],
                )
            &&& after.rows == last.rows
            &&& after.ring_intact == last.intact
            &&& match answer {
                Ok(response) => last.failure is None && response == (WorkerResponse::Rewired {
                    considered: edges as u64,
                    rewired: last.rewired as u64,
                }),
                Err(message) => last.failure == Some(message@),
            }
        }),
{
    let chance = probability.chance->Some_0;
    let states = Seq::new(
        (shard.edge_total() + 1) as nat,
        |k: int| shard.run(shard.pass_start(), chance, seed, 0, k),
    );
    super::rewire::lemma_edge_total(shard);
    lemma_steps(shard, chance, seed, states, shard.edge_total());
    states
}

} // verus!
