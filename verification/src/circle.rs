//! Nodes on a ring, and the edges between those that are close.

use vstd::prelude::*;

verus! {

/// The node `offset` steps along the ring from `u`.
pub open spec fn ring_step(nodes: int, u: int, offset: int) -> int {
    (u + offset) % nodes
}

/// `v` stands `offset` steps from `u` along the ring, on one side or the other.
pub open spec fn ring_apart(nodes: int, u: int, v: int, offset: int) -> bool {
    v == ring_step(nodes, u, offset) || v == ring_step(nodes, u, nodes - offset)
}

/// `v` is one of the nodes at most `half` steps along the ring from `u`, to either side.
pub open spec fn ring_link(nodes: int, half: int, u: int, v: int) -> bool {
    exists|offset: int| 1 <= offset <= half && #[trigger] ring_apart(nodes, u, v, offset)
}

/// The shorter way around the ring between two nodes, in ring steps.
pub open spec fn cyclic(nodes: int, u: int, v: int) -> int {
    let apart = if u <= v {
        v - u
    } else {
        u - v
    };
    if apart <= nodes - apart {
        apart
    } else {
        nodes - apart
    }
}

/// Where edge `i` of the ring starts, each node having `half` edges forward.
pub open spec fn edge_from(half: int, i: int) -> int {
    i / half
}

/// Where edge `i` of the ring ends.
pub open spec fn edge_to(nodes: int, half: int, i: int) -> int {
    ring_step(nodes, i / half, i % half + 1)
}

/// Edge `i` joins the two nodes, in one direction or the other.
pub open spec fn joins(nodes: int, half: int, i: int, x: int, y: int) -> bool {
    ||| x == edge_from(half, i) && y == edge_to(nodes, half, i)
    ||| y == edge_from(half, i) && x == edge_to(nodes, half, i)
}

/// One of the first `count` edges joins the two nodes.
pub open spec fn joined(nodes: int, half: int, count: int, x: int, y: int) -> bool {
    exists|i: int| 0 <= i < count && #[trigger] joins(nodes, half, i, x, y)
}

/// A step along the ring, from a node of it.
pub proof fn lemma_ring_step(nodes: int, u: int, offset: int)
    requires
        0 <= u < nodes,
        0 <= offset <= nodes,
    ensures
        ring_step(nodes, u, offset) == if u + offset < nodes {
            u + offset
        } else {
            u + offset - nodes
        },
{
    let end = u + offset;
    if end < nodes {
        vstd::arithmetic::div_mod::lemma_small_mod(end as nat, nodes as nat);
    } else {
        vstd::arithmetic::div_mod::lemma_fundamental_div_mod_converse(
            end,
            nodes,
            1,
            end - nodes,
        );
    }
}

/// Linked nodes are the ones at most `half` steps apart, the shorter way around.
pub proof fn lemma_ring_link(nodes: int, half: int, u: int, v: int)
    requires
        0 <= u < nodes,
        0 <= v < nodes,
        0 <= half < nodes,
    ensures
        ring_link(nodes, half, u, v) <==> 1 <= cyclic(nodes, u, v) <= half,
{
    if ring_link(nodes, half, u, v) {
        let offset = choose|offset: int|
            1 <= offset <= half && #[trigger] ring_apart(nodes, u, v, offset);
        lemma_ring_step(nodes, u, offset);
        lemma_ring_step(nodes, u, nodes - offset);
    }
    let c = cyclic(nodes, u, v);
    if 1 <= c <= half {
        lemma_ring_step(nodes, u, c);
        lemma_ring_step(nodes, u, nodes - c);
        assert(ring_apart(nodes, u, v, c));
    }
}

/// Edge `i` starts in a node of the ring and ends in another.
pub proof fn lemma_edge(nodes: int, half: int, i: int)
    requires
        0 < half,
        2 * half < nodes,
        0 <= i < nodes * half,
    ensures
        0 <= edge_from(half, i) < nodes,
        0 <= edge_to(nodes, half, i) < nodes,
        edge_from(half, i) != edge_to(nodes, half, i),
        edge_to(nodes, half, i) == if i / half + i % half + 1 < nodes {
            i / half + i % half + 1
        } else {
            i / half + i % half + 1 - nodes
        },
        0 <= i % half < half,
        i == half * (i / half) + i % half,
{
    vstd::arithmetic::div_mod::lemma_fundamental_div_mod(i, half);
    vstd::arithmetic::div_mod::lemma_div_pos_is_pos(i, half);
    let q = i / half;
    assert(q < nodes) by (nonlinear_arith)
        requires
            half * q <= i,
            i < nodes * half,
            half > 0,
    ;
    lemma_ring_step(nodes, q, i % half + 1);
}

/// No two edges join the same two nodes.
pub proof fn lemma_edges_distinct(nodes: int, half: int, i: int, j: int)
    requires
        0 < half,
        2 * half < nodes,
        0 <= i < nodes * half,
        0 <= j < nodes * half,
        i != j,
    ensures
        !joins(nodes, half, i, edge_from(half, j), edge_to(nodes, half, j)),
        !joins(nodes, half, i, edge_to(nodes, half, j), edge_from(half, j)),
{
    lemma_edge(nodes, half, i);
    lemma_edge(nodes, half, j);
}

/// The nodes that some edge joins are the linked ones.
pub proof fn lemma_joined_all(nodes: int, half: int, x: int, y: int)
    requires
        0 < half,
        2 * half < nodes,
        0 <= x < nodes,
        0 <= y < nodes,
    ensures
        joined(nodes, half, nodes * half, x, y) <==> ring_link(nodes, half, x, y),
{
    lemma_ring_link(nodes, half, x, y);
    if joined(nodes, half, nodes * half, x, y) {
        let i = choose|i: int|
            0 <= i < nodes * half && #[trigger] joins(nodes, half, i, x, y);
        lemma_edge(nodes, half, i);
    }
    let c = cyclic(nodes, x, y);
    if 1 <= c <= half {
        lemma_ring_step(nodes, x, c);
        let from = if y == ring_step(nodes, x, c) {
            x
        } else {
            y
        };
        lemma_ring_step(nodes, y, c);
        let i = half * from + (c - 1);
        assert(0 <= i < nodes * half) by (nonlinear_arith)
            requires
                i == half * from + (c - 1),
                0 <= from <= nodes - 1,
                1 <= c <= half,
        ;
        vstd::arithmetic::div_mod::lemma_fundamental_div_mod_converse(i, half, from, c - 1);
        assert(joins(nodes, half, i, x, y));
    }
}

} // verus!
