//! The ends that a node keeps while the edges of a ring are redirected.
//!
//! Every node has `half` ring edges forward. Redirecting one of them changes its
//! far end and no more, so the node always has as many far ends of its own, and
//! no two nodes have one another as such.

use crate::circle;
use vstd::prelude::*;

verus! {

/// `own` gives every node `half` far ends of its own among its links, none of
/// which has the node as an end of its own; the ring edges from `from` on are
/// still among them.
pub open spec fn keeps_ends(
    link: spec_fn(int, int) -> bool,
    own: Seq<Set<int>>,
    n: int,
    half: int,
    from: int,
) -> bool {
    &&& own.len() == n
    &&& forall|x: int| 0 <= x < n ==> (#[trigger] own[x]).finite() && own[x].len() == half
    &&& forall|x: int, y: int|
        0 <= x < n && #[trigger] own[x].contains(y) ==> 0 <= y < n && link(x, y)
            && !own[y].contains(x)
    &&& forall|i: int|
        from <= i < n * half ==> own[#[trigger] circle::edge_from(half, i)].contains(
            circle::edge_to(n, half, i),
        )
}

/// The nodes at most `reach` ring steps forward.
spec fn forward(n: int, u: int, reach: nat) -> Set<int>
    decreases reach,
{
    if reach == 0 {
        Set::empty()
    } else {
        forward(n, u, (reach - 1) as nat).insert(circle::ring_step(n, u, reach as int))
    }
}

proof fn lemma_forward(n: int, u: int, reach: nat)
    requires
        0 <= u < n,
        reach < n,
    ensures
        forward(n, u, reach).finite(),
        forward(n, u, reach).len() == reach,
        forall|y: int| #[trigger]
            forward(n, u, reach).contains(y) <==> 0 <= y < n && 1 <= (if y >= u {
                y - u
            } else {
                y - u + n
            }) <= reach,
    decreases reach,
{
    if reach > 0 {
        lemma_forward(n, u, (reach - 1) as nat);
        circle::lemma_ring_step(n, u, reach as int);
    }
}

/// On the ring the ends of a node are its neighbors forward.
pub proof fn lemma_first_ends(link: spec_fn(int, int) -> bool, n: int, half: int) -> (own: Seq<
    Set<int>,
>)
    requires
        0 < half,
        2 * half < n,
        forall|x: int, y: int|
            0 <= x < n && 0 <= y < n && #[trigger] circle::ring_link(n, half, x, y) ==> link(x, y),
    ensures
        keeps_ends(link, own, n, half, 0),
{
    let own = Seq::new(n as nat, |u: int| forward(n, u, half as nat));
    assert forall|x: int| 0 <= x < n implies (#[trigger] own[x]).finite() && own[x].len()
        == half by {
        lemma_forward(n, x, half as nat);
    }
    assert forall|x: int, y: int| 0 <= x < n && #[trigger] own[x].contains(y) implies 0 <= y < n
        && link(x, y) && !own[y].contains(x) by {
        lemma_forward(n, x, half as nat);
        lemma_forward(n, y, half as nat);
        circle::lemma_ring_link(n, half, x, y);
        assert(circle::ring_link(n, half, x, y));
    }
    assert forall|i: int| 0 <= i < n * half implies own[#[trigger] circle::edge_from(
        half,
        i,
    )].contains(circle::edge_to(n, half, i)) by {
        circle::lemma_edge(n, half, i);
        lemma_forward(n, circle::edge_from(half, i), half as nat);
    }
    own
}

/// Redirecting an edge exchanges one end of its start.
pub proof fn lemma_next_ends(
    link: spec_fn(int, int) -> bool,
    next: spec_fn(int, int) -> bool,
    own: Seq<Set<int>>,
    n: int,
    half: int,
    index: int,
    w: int,
) -> (later: Seq<Set<int>>)
    requires
        0 < half,
        2 * half < n,
        0 <= index < n * half,
        keeps_ends(link, own, n, half, index),
        0 <= w < n,
        w != circle::edge_from(half, index),
        !link(circle::edge_from(half, index), w),
        !link(w, circle::edge_from(half, index)),
        next(circle::edge_from(half, index), w),
        forall|x: int, y: int|
            0 <= x < n && 0 <= y < n && link(x, y) && !circle::joins(n, half, index, x, y)
                ==> #[trigger] next(x, y),
    ensures
        keeps_ends(next, later, n, half, index + 1),
{
    circle::lemma_edge(n, half, index);
    let u = circle::edge_from(half, index);
    let v = circle::edge_to(n, half, index);
    assert(own[u].contains(v));
    let later = own.update(u, own[u].remove(v).insert(w));
    assert(own[u].finite());
    assert(!own[u].contains(w));
    assert forall|x: int| 0 <= x < n implies (#[trigger] later[x]).finite() && later[x].len()
        == half by {
        assert(own[x].finite() && own[x].len() == half);
    }
    assert forall|x: int, y: int| 0 <= x < n && #[trigger] later[x].contains(y) implies 0 <= y < n
        && next(x, y) && !later[y].contains(x) by {
        assert(!own[w].contains(u));
        if !(x == u && y == w) {
            assert(own[x].contains(y));
            assert(!own[y].contains(x));
            assert(!own[v].contains(u));
            assert(next(x, y));
        }
    }
    assert forall|i: int| index + 1 <= i < n * half implies later[#[trigger] circle::edge_from(
        half,
        i,
    )].contains(circle::edge_to(n, half, i)) by {
        circle::lemma_edge(n, half, i);
        circle::lemma_edges_distinct(n, half, index, i);
        assert(own[circle::edge_from(half, i)].contains(circle::edge_to(n, half, i)));
    }
    later
}

/// Other links that hold the ends.
pub proof fn lemma_ends_carry(
    link: spec_fn(int, int) -> bool,
    next: spec_fn(int, int) -> bool,
    own: Seq<Set<int>>,
    n: int,
    half: int,
    from: int,
    later: int,
)
    requires
        from <= later,
        keeps_ends(link, own, n, half, from),
        forall|x: int, y: int| 0 <= x < n && 0 <= y < n && link(x, y) ==> #[trigger] next(x, y),
    ensures
        keeps_ends(next, own, n, half, later),
{
    assert forall|x: int, y: int| 0 <= x < n && #[trigger] own[x].contains(y) implies 0 <= y < n
        && next(x, y) && !own[y].contains(x) by {
        assert(link(x, y));
    }
}

/// A set of nodes holds at least as many as are found in it.
pub proof fn lemma_found_in_set(found: Set<int>, row: Set<usize>)
    requires
        found.finite(),
        row.finite(),
        forall|y: int| #[trigger] found.contains(y) ==> 0 <= y <= usize::MAX && row.contains(
            y as usize,
        ),
    ensures
        found.len() <= row.len(),
    decreases found.len(),
{
    if found.len() > 0 {
        let y = found.choose();
        assert(found.contains(y));
        let fewer = found.remove(y);
        let rest = row.remove(y as usize);
        assert forall|z: int| #[trigger] fewer.contains(z) implies 0 <= z <= usize::MAX
            && rest.contains(z as usize) by {
            assert(found.contains(z));
        }
        lemma_found_in_set(fewer, rest);
    }
}

/// A row of nodes holds at least as many as are found in it.
pub proof fn lemma_found_in_row(found: Set<int>, row: Seq<u32>)
    requires
        found.finite(),
        forall|y: int| #[trigger] found.contains(y) ==> 0 <= y <= u32::MAX && row.contains(
            y as u32,
        ),
    ensures
        found.len() <= row.len(),
    decreases row.len(),
{
    if row.len() == 0 {
        if found.len() > 0 {
            assert(found.contains(found.choose()));
        }
    } else {
        let last = row.last();
        let shorter = row.drop_last();
        let fewer = found.remove(last as int);
        assert forall|z: int| #[trigger] fewer.contains(z) implies 0 <= z <= u32::MAX
            && shorter.contains(z as u32) by {
            assert(found.contains(z));
            let i = choose|i: int| 0 <= i < row.len() && row[i] == z as u32;
            assert(shorter[i] == z as u32);
        }
        lemma_found_in_row(fewer, shorter);
    }
}

} // verus!
