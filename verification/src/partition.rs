//! Which worker owns which node.

use vstd::prelude::*;

verus! {

/// The first node of shard `index` when `nodes` nodes are split over `workers`
/// workers: `floor(nodes * index / workers)`.
pub open spec fn shard_start(nodes: nat, workers: nat, index: nat) -> nat {
    (nodes * index) / workers
}

/// The worker whose range holds `node`.
pub open spec fn owner_of(node: int, nodes: nat, workers: nat) -> int {
    ((node + 1) * workers - 1) / (nodes as int)
}

/// Shard `index` starts at or before `node` just when `nodes * index < (node + 1) * workers`.
proof fn lemma_start_at_most(nodes: nat, workers: nat, index: nat, node: int)
    requires
        workers > 0,
        node >= 0,
    ensures
        shard_start(nodes, workers, index) <= node <==> nodes * index < (node + 1) * workers,
{
    let product: int = (nodes * index) as int;
    let w: int = workers as int;
    vstd::arithmetic::div_mod::lemma_fundamental_div_mod(product, w);
    let q: int = product / w;
    let r: int = product % w;
    assert(0 <= r < w);
    assert(product == w * q + r);
    if q <= node {
        assert(w * q <= w * node) by (nonlinear_arith)
            requires
                q <= node,
                w > 0,
        ;
        assert((node + 1) * w == w * node + w) by (nonlinear_arith);
    } else {
        assert(w * q >= w * (node + 1)) by (nonlinear_arith)
            requires
                q >= node + 1,
                w > 0,
        ;
        assert((node + 1) * w == w * (node + 1)) by (nonlinear_arith);
    }
}

/// A node belongs to the range of its owner and to no other range.
pub proof fn lemma_owner_range(node: int, nodes: nat, workers: nat, index: nat)
    requires
        0 <= node < nodes,
        workers > 0,
    ensures
        0 <= owner_of(node, nodes, workers) < workers,
        owner_of(node, nodes, workers) == index <==> shard_start(nodes, workers, index) <= node
            < shard_start(nodes, workers, index + 1),
{
    let n: int = nodes as int;
    let w: int = workers as int;
    let value: int = (node + 1) * w - 1;
    let owner: int = owner_of(node, nodes, workers);
    assert(value >= 0) by (nonlinear_arith)
        requires
            node >= 0,
            w >= 1,
            value == (node + 1) * w - 1,
    ;
    assert(value < n * w) by (nonlinear_arith)
        requires
            node + 1 <= n,
            w >= 1,
            value == (node + 1) * w - 1,
    ;
    vstd::arithmetic::div_mod::lemma_fundamental_div_mod(value, n);
    assert(n * owner <= value < n * (owner + 1)) by {
        assert(n * (owner + 1) == n * owner + n) by (nonlinear_arith);
    }
    assert(owner >= 0) by {
        vstd::arithmetic::div_mod::lemma_div_pos_is_pos(value, n);
    }
    assert(owner < w) by (nonlinear_arith)
        requires
            n * owner <= value,
            value < n * w,
            n > 0,
    ;
    lemma_start_at_most(nodes, workers, index, node);
    lemma_start_at_most(nodes, workers, index + 1, node);
    let i: int = index as int;
    if owner == i {
        assert(nodes * index == n * owner);
        assert(nodes * (index + 1) == n * (owner + 1));
    } else if owner < i {
        assert(n * (owner + 1) <= n * i) by (nonlinear_arith)
            requires
                owner + 1 <= i,
                n > 0,
        ;
    } else {
        assert(n * (i + 1) <= n * owner) by (nonlinear_arith)
            requires
                i + 1 <= owner,
                n > 0,
        ;
        assert(nodes * (index + 1) == n * (i + 1));
    }
}

/// The ranges follow one another from the first node to the last.
pub proof fn lemma_shard_bounds(nodes: nat, workers: nat, index: nat)
    requires
        workers > 0,
        index < workers,
    ensures
        shard_start(nodes, workers, 0) == 0,
        shard_start(nodes, workers, workers) == nodes,
        shard_start(nodes, workers, index) <= shard_start(nodes, workers, index + 1) <= nodes,
{
    assert(nodes * 0 == 0);
    assert((nodes * workers) / workers == nodes) by {
        vstd::arithmetic::div_mod::lemma_div_multiples_vanish(nodes as int, workers as int);
        assert(nodes * workers == workers * nodes) by (nonlinear_arith);
    }
    assert(nodes * index <= nodes * (index + 1)) by (nonlinear_arith);
    assert(nodes * (index + 1) <= nodes * workers) by (nonlinear_arith)
        requires
            index + 1 <= workers,
    ;
    vstd::arithmetic::div_mod::lemma_div_is_ordered(
        (nodes * index) as int,
        (nodes * (index + 1)) as int,
        workers as int,
    );
    vstd::arithmetic::div_mod::lemma_div_is_ordered(
        (nodes * (index + 1)) as int,
        (nodes * workers) as int,
        workers as int,
    );
}

/// The index of the worker that owns `node`.
pub fn owner(node: u32, nodes: u32, workers: u32) -> (index: usize)
    requires
        node < nodes,
        workers > 0,
    ensures
        index == owner_of(node as int, nodes as nat, workers as nat),
        index < workers,
        shard_start(nodes as nat, workers as nat, index as nat) <= node,
        node < shard_start(nodes as nat, workers as nat, index as nat + 1),
        (nodes * index) / (workers as int) <= node < (nodes * (index + 1)) / (workers as int),
{
    let bound: u64 = node as u64 + 1;
    assert(1 <= bound * workers <= u32::MAX * u32::MAX) by (nonlinear_arith)
        requires
            1 <= bound <= u32::MAX,
            1 <= workers <= u32::MAX,
    ;
    let index: u64 = (bound * workers as u64 - 1) / nodes as u64;
    proof {
        lemma_owner_range(node as int, nodes as nat, workers as nat, index as nat);
    }
    index as usize
}

} // verus!
