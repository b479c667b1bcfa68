//! Which node a rewired edge leads to, draw by draw.

use super::rewire::{drawn_target, eligible, smallest_target, target_choice, TARGET_DRAWS};
use crate::random;
use crate::sorted;
use rand_chacha::ChaCha8Rng;
use vstd::prelude::*;

verus! {

/// The number drawn in round `i`, the first being round zero, and the generator after it.
pub open spec fn round(rng: ChaCha8Rng, nodes: u32, i: nat) -> (u32, ChaCha8Rng)
    decreases i,
{
    if i == 0 {
        random::below(rng, nodes)
    } else {
        random::below(round(rng, nodes, (i - 1) as nat).1, nodes)
    }
}

/// The numbers drawn in 64 rounds, each with the generator after it.
pub open spec fn rounds(rng: ChaCha8Rng, nodes: u32) -> Seq<(u32, ChaCha8Rng)> {
    Seq::new(64, |i: int| round(rng, nodes, i as nat))
}

proof fn lemma_later_round(rng: ChaCha8Rng, nodes: u32, i: nat)
    ensures
        round(random::below(rng, nodes).1, nodes, i) == round(rng, nodes, i + 1),
    decreases i,
{
    assert(round(rng, nodes, 0) == random::below(rng, nodes));
    if i > 0 {
        lemma_later_round(rng, nodes, (i - 1) as nat);
        assert((i + 1 - 1) as nat == i);
    } else {
        assert(round(rng, nodes, 1) == random::below(round(rng, nodes, 0).1, nodes));
    }
}

/// What comes of drawing `count` times.
proof fn lemma_rounds(
    rng: ChaCha8Rng,
    u: u32,
    old_v: u32,
    row: Seq<u32>,
    nodes: u32,
    count: nat,
)
    ensures
        ({
            let (drawn, after) = drawn_target(rng, u, old_v, row, nodes, count);
            &&& forall|i: nat|
                i < count && #[trigger] eligible(round(rng, nodes, i).0, u, old_v, row, nodes) && (
                forall|j: nat|
                    j < i ==> !#[trigger] eligible(round(rng, nodes, j).0, u, old_v, row, nodes))
                    ==> drawn == Some(round(rng, nodes, i).0) && after == round(rng, nodes, i).1
            &&& (forall|i: nat|
                i < count ==> !#[trigger] eligible(round(rng, nodes, i).0, u, old_v, row, nodes))
                ==> drawn is None && (count > 0 ==> after == round(
                rng,
                nodes,
                (count - 1) as nat,
            ).1)
            &&& drawn is None ==> forall|i: nat|
                i < count ==> !#[trigger] eligible(round(rng, nodes, i).0, u, old_v, row, nodes)
        }),
    decreases count,
{
    if count > 0 {
        let (candidate, next) = random::below(rng, nodes);
        assert(round(rng, nodes, 0) == (candidate, next));
        let fewer = (count - 1) as nat;
        lemma_rounds(next, u, old_v, row, nodes, fewer);
        assert forall|i: nat| #[trigger] round(next, nodes, i) == round(rng, nodes, i + 1) by {
            lemma_later_round(rng, nodes, i);
        }
        let (drawn, after) = drawn_target(rng, u, old_v, row, nodes, count);
        assert forall|i: nat|
            i < count && #[trigger] eligible(round(rng, nodes, i).0, u, old_v, row, nodes) && (
            forall|j: nat|
                j < i ==> !#[trigger] eligible(
                    round(rng, nodes, j).0,
                    u,
                    old_v,
                    row,
                    nodes,
                )) implies drawn == Some(round(rng, nodes, i).0) && after == round(
            rng,
            nodes,
            i,
        ).1 by {
            if i > 0 {
                assert(!eligible(round(rng, nodes, 0).0, u, old_v, row, nodes));
                let k = (i - 1) as nat;
                assert(round(next, nodes, k) == round(rng, nodes, i));
                assert forall|j: nat| j < k implies !#[trigger] eligible(
                    round(next, nodes, j).0,
                    u,
                    old_v,
                    row,
                    nodes,
                ) by {
                    assert(round(next, nodes, j) == round(rng, nodes, j + 1));
                    assert(!eligible(round(rng, nodes, j + 1).0, u, old_v, row, nodes));
                }
                assert(eligible(round(next, nodes, k).0, u, old_v, row, nodes));
            }
        }
        if forall|i: nat|
            i < count ==> !#[trigger] eligible(round(rng, nodes, i).0, u, old_v, row, nodes) {
            assert(!eligible(round(rng, nodes, 0).0, u, old_v, row, nodes));
            assert forall|i: nat| i < fewer implies !#[trigger] eligible(
                round(next, nodes, i).0,
                u,
                old_v,
                row,
                nodes,
            ) by {
                assert(round(next, nodes, i) == round(rng, nodes, i + 1));
                assert(!eligible(round(rng, nodes, i + 1).0, u, old_v, row, nodes));
            }
            if fewer > 0 {
                assert(round(next, nodes, (fewer - 1) as nat) == round(rng, nodes, fewer));
            }
        }
        if drawn is None {
            assert forall|i: nat| i < count implies !#[trigger] eligible(
                round(rng, nodes, i).0,
                u,
                old_v,
                row,
                nodes,
            ) by {
                if i > 0 {
                    let k = (i - 1) as nat;
                    assert(round(next, nodes, k) == round(rng, nodes, i));
                    assert(!eligible(round(next, nodes, k).0, u, old_v, row, nodes));
                }
            }
        }
    }
}

/// The node is neither `u` nor `v` nor in the row.
pub open spec fn free(u: u32, v: u32, row: Seq<u32>, nodes: u32) -> spec_fn(u32) -> bool {
    |x: u32| x < nodes && x != u && x != v && !row.contains(x)
}

/// Where a node ends that gives up its neighbor `old_v`, in terms of the numbers
/// drawn. Where every other node is a neighbor already there is no new end and
/// nothing is drawn. Else it is the first of 64 numbers drawn one after the other
/// that is a node, not `u`, not `old_v` and no neighbor; the smallest such node
/// where none of the 64 is one; and none where there is no such node. The
/// generator ends after the draw that decided, or after the last.
pub proof fn lemma_target_rule(
    rng: ChaCha8Rng,
    u: u32,
    old_v: u32,
    row: Seq<u32>,
    nodes: u32,
    target: Option<u32>,
    after: ChaCha8Rng,
) -> (draws: Seq<(u32, ChaCha8Rng)>)
    requires
        (target, after) == target_choice(rng, u, old_v, row, nodes),
    ensures
        draws == rounds(rng, nodes),
        draws.len() == 64,
        draws[0] == random::below(rng, nodes),
        forall|i: int| 1 <= i < 64 ==> #[trigger] draws[i] == random::below(draws[i - 1].1, nodes),
        row.len() + 1 >= nodes ==> target is None && after == rng,
        row.len() + 1 < nodes ==> ({
            let fits = free(u, old_v, row, nodes);
            &&& forall|i: int|
                0 <= i < 64 && fits((#[trigger] draws[i]).0) && (forall|j: int|
                    0 <= j < i ==> !fits((#[trigger] draws[j]).0)) ==> target == Some(draws[i].0)
                    && after == draws[i].1
            &&& (forall|i: int| 0 <= i < 64 ==> !fits((#[trigger] draws[i]).0)) ==> {
                &&& after == draws[63].1
                &&& target is Some ==> fits(target->Some_0) && forall|x: u32|
                    x < target->Some_0 ==> !#[trigger] fits(x)
                &&& target is None ==> forall|x: u32| !#[trigger] fits(x)
            }
        }),
{
    let draws = rounds(rng, nodes);
    lemma_rounds(rng, u, old_v, row, nodes, TARGET_DRAWS as nat);
    assert forall|i: int| 1 <= i < 64 implies #[trigger] draws[i] == random::below(
        draws[i - 1].1,
        nodes,
    ) by {
        assert(draws[i - 1] == round(rng, nodes, (i - 1) as nat));
    }
    if row.len() + 1 < nodes {
        let fits = free(u, old_v, row, nodes);
        assert forall|x: u32| #[trigger] fits(x) == eligible(x, u, old_v, row, nodes) by {}
        assert forall|i: int|
            0 <= i < 64 && fits((#[trigger] draws[i]).0) && (forall|j: int|
                0 <= j < i ==> !fits((#[trigger] draws[j]).0)) implies target == Some(draws[i].0)
            && after == draws[i].1 by {
            let k = i as nat;
            assert forall|j: nat| j < k implies !#[trigger] eligible(
                round(rng, nodes, j).0,
                u,
                old_v,
                row,
                nodes,
            ) by {
                assert(!fits(draws[j as int].0));
            }
            assert(eligible(round(rng, nodes, k).0, u, old_v, row, nodes));
        }
        if forall|i: int| 0 <= i < 64 ==> !fits((#[trigger] draws[i]).0) {
            assert forall|i: nat| i < 64 implies !#[trigger] eligible(
                round(rng, nodes, i).0,
                u,
                old_v,
                row,
                nodes,
            ) by {
                assert(!fits(draws[i as int].0));
            }
            lemma_smallest(u, old_v, row, nodes, 0);
            if target is None {
                assert forall|x: u32| !#[trigger] fits(x) by {
                    if x < nodes {
                        assert(!eligible(x, u, old_v, row, nodes));
                    }
                }
            } else {
                assert forall|x: u32| x < target->Some_0 implies !#[trigger] fits(x) by {
                    assert(!eligible(x, u, old_v, row, nodes));
                }
            }
        }
    }
    draws
}

proof fn lemma_smallest(u: u32, old_v: u32, row: Seq<u32>, nodes: u32, from: int)
    requires
        0 <= from,
    ensures
        match smallest_target(u, old_v, row, nodes, from) {
            Some(w) => from <= w && eligible(w, u, old_v, row, nodes) && forall|x: u32|
                from <= x < w ==> !#[trigger] eligible(x, u, old_v, row, nodes),
            None => forall|x: u32|
                from <= x < nodes ==> !#[trigger] eligible(x, u, old_v, row, nodes),
        },
    decreases nodes - from,
{
    if from < nodes && !eligible(from as u32, u, old_v, row, nodes) {
        lemma_smallest(u, old_v, row, nodes, from + 1);
        assert forall|x: u32| x == from implies !#[trigger] eligible(
            x,
            u,
            old_v,
            row,
            nodes,
        ) by {
            assert(x == from as u32);
        }
    }
}

/// A node that has all others as neighbors is open to none, and any other node is
/// open to some.
pub proof fn lemma_room(u: u32, row: Seq<u32>, nodes: u32)
    requires
        sorted::ascending(row),
        forall|x: u32| #[trigger] row.contains(x) ==> x < nodes && x != u,
        u < nodes,
    ensures
        row.len() + 1 < nodes <==> exists|x: u32| x < nodes && x != u && !#[trigger] row.contains(
            x,
        ),
        row.len() + 1 <= nodes,
{
    row.unique_seq_to_set();
    vstd::seq_lib::seq_to_set_is_finite(row);
    let taken = row.to_set().insert(u);
    let all = Set::new(|x: u32| x < nodes);
    lemma_below(nodes);
    assert(taken.subset_of(all)) by {
        assert forall|x: u32| taken.contains(x) implies all.contains(x) by {
            if x != u {
                assert(row.contains(x));
            }
        }
    }
    vstd::set_lib::lemma_len_subset(taken, all);
    if taken.len() == nodes {
        vstd::set_lib::lemma_subset_equality(taken, all);
        assert forall|x: u32| x < nodes && x != u implies #[trigger] row.contains(x) by {
            assert(all.contains(x));
            assert(taken.contains(x));
        }
    } else if forall|x: u32| x < nodes && x != u ==> #[trigger] row.contains(x) {
        assert(all =~= taken) by {
            assert forall|x: u32| all.contains(x) implies taken.contains(x) by {
                if x != u {
                    assert(row.contains(x));
                }
            }
        }
    }
}

/// There are `nodes` numbers below `nodes`.
proof fn lemma_below(nodes: u32)
    ensures
        Set::new(|x: u32| x < nodes).finite(),
        Set::new(|x: u32| x < nodes).len() == nodes,
    decreases nodes,
{
    let all = Set::new(|x: u32| x < nodes);
    if nodes == 0 {
        assert(all =~= Set::empty());
    } else {
        let fewer = (nodes - 1) as u32;
        lemma_below(fewer);
        assert(all =~= Set::new(|x: u32| x < fewer).insert(fewer));
    }
}

} // verus!
