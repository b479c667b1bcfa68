//! Distances in a graph that is given by its links.
//!
//! `link(u, v)` says that a step leads from `u` to `v`. Nothing here depends on
//! how a graph is stored.

use vstd::prelude::*;

verus! {

/// At most `d` steps lead from `s` to `v`.
pub open spec fn within(link: spec_fn(int, int) -> bool, s: int, v: int, d: nat) -> bool
    decreases d,
{
    if d == 0 {
        v == s
    } else {
        within(link, s, v, (d - 1) as nat) || exists|u: int|
            within(link, s, u, (d - 1) as nat) && #[trigger] link(u, v)
    }
}

/// Some number of steps leads from `s` to `v`.
pub open spec fn reachable(link: spec_fn(int, int) -> bool, s: int, v: int) -> bool {
    exists|d: nat| #[trigger] within(link, s, v, d)
}

/// Just `d` steps lead from `s` to `v`, and no fewer.
pub open spec fn at_distance(link: spec_fn(int, int) -> bool, s: int, v: int, d: nat) -> bool {
    within(link, s, v, d) && (d == 0 || !within(link, s, v, (d - 1) as nat))
}

/// The least number of steps that lead from `s` to `v`.
pub open spec fn distance(link: spec_fn(int, int) -> bool, s: int, v: int) -> nat {
    choose|d: nat| #[trigger] at_distance(link, s, v, d)
}

/// The distances from `s` to the reachable nodes below `n`, summed.
pub open spec fn distance_sum(link: spec_fn(int, int) -> bool, s: int, n: nat) -> nat
    decreases n,
{
    if n == 0 {
        0
    } else {
        distance_sum(link, s, (n - 1) as nat) + if reachable(link, s, n - 1) {
            distance(link, s, n - 1)
        } else {
            0
        }
    }
}

/// How many nodes below `n`, other than `s`, can be reached from `s`.
pub open spec fn reach_count(link: spec_fn(int, int) -> bool, s: int, n: nat) -> nat
    decreases n,
{
    if n == 0 {
        0
    } else {
        reach_count(link, s, (n - 1) as nat) + if n - 1 != s && reachable(link, s, n - 1) {
            1nat
        } else {
            0
        }
    }
}

/// More steps reach no less.
pub proof fn lemma_within_more(
    link: spec_fn(int, int) -> bool,
    s: int,
    v: int,
    d: nat,
    more: nat,
)
    requires
        within(link, s, v, d),
        d <= more,
    ensures
        within(link, s, v, more),
    decreases more - d,
{
    if d < more {
        lemma_within_more(link, s, v, d, (more - 1) as nat);
    }
}

/// One step further.
pub proof fn lemma_within_step(link: spec_fn(int, int) -> bool, s: int, u: int, v: int, d: nat)
    requires
        within(link, s, u, d),
        link(u, v),
    ensures
        within(link, s, v, d + 1),
{
    assert(within(link, s, u, (d + 1 - 1) as nat));
}

/// A node within `d + 1` steps is within `d` steps, or one step from such a node.
pub proof fn lemma_within_split(link: spec_fn(int, int) -> bool, s: int, v: int, d: nat) -> (u: int)
    requires
        within(link, s, v, d + 1),
        !within(link, s, v, d),
    ensures
        within(link, s, u, d),
        link(u, v),
{
    assert((d + 1 - 1) as nat == d);
    choose|u: int| within(link, s, u, d) && #[trigger] link(u, v)
}

/// A node reached within `d` steps has a distance of at most `d`.
pub proof fn lemma_distance_exists(link: spec_fn(int, int) -> bool, s: int, v: int, d: nat)
    requires
        within(link, s, v, d),
    ensures
        at_distance(link, s, v, distance(link, s, v)),
        distance(link, s, v) <= d,
    decreases d,
{
    if d > 0 && within(link, s, v, (d - 1) as nat) {
        lemma_distance_exists(link, s, v, (d - 1) as nat);
    } else {
        assert(at_distance(link, s, v, d));
        lemma_distance_unique(link, s, v, d);
    }
}

/// A node has one distance.
pub proof fn lemma_distance_unique(link: spec_fn(int, int) -> bool, s: int, v: int, d: nat)
    requires
        at_distance(link, s, v, d),
    ensures
        distance(link, s, v) == d,
        reachable(link, s, v),
{
    let e = distance(link, s, v);
    assert(at_distance(link, s, v, e));
    if e < d {
        lemma_within_more(link, s, v, e, (d - 1) as nat);
    } else if d < e {
        lemma_within_more(link, s, v, d, (e - 1) as nat);
    }
}

/// Some node lies at every distance on the way.
pub proof fn lemma_nearer(link: spec_fn(int, int) -> bool, s: int, v: int, d: nat) -> (u: int)
    requires
        at_distance(link, s, v, d + 1),
    ensures
        at_distance(link, s, u, d),
        link(u, v),
{
    let u = lemma_within_split(link, s, v, d);
    if d > 0 && within(link, s, u, (d - 1) as nat) {
        lemma_within_step(link, s, u, v, (d - 1) as nat);
    }
    u
}

/// Two graphs with the same links have the same distances.
pub proof fn lemma_same_links(
    a: spec_fn(int, int) -> bool,
    b: spec_fn(int, int) -> bool,
    s: int,
    v: int,
    d: nat,
)
    requires
        forall|x: int, y: int| #[trigger] a(x, y) == b(x, y),
    ensures
        within(a, s, v, d) == within(b, s, v, d),
    decreases d,
{
    if d > 0 {
        let e = (d - 1) as nat;
        lemma_same_links(a, b, s, v, e);
        if exists|u: int| within(a, s, u, e) && #[trigger] a(u, v) {
            let u = choose|u: int| within(a, s, u, e) && #[trigger] a(u, v);
            lemma_same_links(a, b, s, u, e);
            assert(a(u, v) == b(u, v));
            assert(within(b, s, u, e) && b(u, v));
        }
        if exists|u: int| within(b, s, u, e) && #[trigger] b(u, v) {
            let u = choose|u: int| within(b, s, u, e) && #[trigger] b(u, v);
            lemma_same_links(a, b, s, u, e);
            assert(a(u, v) == b(u, v));
            assert(within(a, s, u, e) && a(u, v));
        }
    }
}

/// The links stay below `n`.
pub open spec fn stays_below(link: spec_fn(int, int) -> bool, n: nat) -> bool {
    forall|u: int, v: int| #[trigger] link(u, v) ==> 0 <= v < n
}

/// What can be reached stays below `n` too.
pub proof fn lemma_within_below(
    link: spec_fn(int, int) -> bool,
    n: nat,
    s: int,
    v: int,
    d: nat,
)
    requires
        stays_below(link, n),
        0 <= s < n,
        within(link, s, v, d),
    ensures
        0 <= v < n,
    decreases d,
{
    if d > 0 && !within(link, s, v, (d - 1) as nat) {
        let u = lemma_within_split(link, s, v, (d - 1) as nat);
    } else if d > 0 {
        lemma_within_below(link, n, s, v, (d - 1) as nat);
    }
}

/// Nodes at distances up to that of `v`, one for each.
spec fn path_nodes(link: spec_fn(int, int) -> bool, s: int, nodes: Set<int>, d: nat) -> bool {
    &&& nodes.finite()
    &&& nodes.len() == d + 1
    &&& forall|x: int| #[trigger] nodes.contains(x) ==> within(link, s, x, d)
}

proof fn lemma_path_nodes(link: spec_fn(int, int) -> bool, s: int, v: int, d: nat) -> (nodes: Set<
    int,
>)
    requires
        at_distance(link, s, v, d),
    ensures
        path_nodes(link, s, nodes, d),
    decreases d,
{
    if d == 0 {
        let nodes = Set::empty().insert(v);
        assert(nodes.len() == 1);
        nodes
    } else {
        let u = lemma_nearer(link, s, v, (d - 1) as nat);
        let before = lemma_path_nodes(link, s, u, (d - 1) as nat);
        assert(!before.contains(v));
        let nodes = before.insert(v);
        assert forall|x: int| #[trigger] nodes.contains(x) implies within(link, s, x, d) by {
            if x != v {
                lemma_within_more(link, s, x, (d - 1) as nat, d);
            }
        }
        nodes
    }
}

/// In a graph of `n` nodes no distance reaches `n`.
pub proof fn lemma_distance_below(
    link: spec_fn(int, int) -> bool,
    n: nat,
    s: int,
    v: int,
    d: nat,
)
    requires
        stays_below(link, n),
        0 <= s < n,
        at_distance(link, s, v, d),
    ensures
        d < n,
{
    let nodes = lemma_path_nodes(link, s, v, d);
    let all = vstd::set_lib::set_int_range(0, n as int);
    vstd::set_lib::lemma_int_range(0, n as int);
    assert forall|x: int| #[trigger] nodes.contains(x) implies all.contains(x) by {
        lemma_within_below(link, n, s, x, d);
    }
    vstd::set_lib::lemma_len_subset(nodes, all);
}

/// In a graph of `n` nodes the distances from one node sum up to no more than
/// `n` times the largest, over no more than `n` nodes.
pub proof fn lemma_sum_bound(link: spec_fn(int, int) -> bool, n: nat, s: int, upto: nat)
    requires
        stays_below(link, n),
        0 <= s < n,
    ensures
        distance_sum(link, s, upto) <= upto * n,
        reach_count(link, s, upto) <= upto,
    decreases upto,
{
    if upto > 0 {
        lemma_sum_bound(link, n, s, (upto - 1) as nat);
        assert((upto - 1) * n + n == upto * n) by (nonlinear_arith);
        if reachable(link, s, upto - 1) {
            let d = choose|d: nat| #[trigger] within(link, s, upto - 1, d);
            lemma_distance_exists(link, s, upto - 1, d);
            lemma_distance_below(link, n, s, upto - 1, distance(link, s, upto - 1));
        }
    } else {
        assert(upto * n == 0) by (nonlinear_arith)
            requires
                upto == 0,
        ;
    }
}

/// How many nodes below `n` lie just `d` steps from `s`.
pub open spec fn level_count(link: spec_fn(int, int) -> bool, s: int, d: nat, n: nat) -> nat
    decreases n,
{
    if n == 0 {
        0
    } else {
        level_count(link, s, d, (n - 1) as nat) + if at_distance(link, s, n - 1, d) {
            1nat
        } else {
            0
        }
    }
}

/// The levels one to `last`, each counted as often as it is far.
pub open spec fn level_sum(link: spec_fn(int, int) -> bool, s: int, last: nat, n: nat) -> nat
    decreases last,
{
    if last == 0 {
        0
    } else {
        level_sum(link, s, (last - 1) as nat, n) + last * level_count(link, s, last, n)
    }
}

/// The levels one to `last` together.
pub open spec fn level_total(link: spec_fn(int, int) -> bool, s: int, last: nat, n: nat) -> nat
    decreases last,
{
    if last == 0 {
        0
    } else {
        level_total(link, s, (last - 1) as nat, n) + level_count(link, s, last, n)
    }
}

/// One more node lies on one level or none.
proof fn lemma_level_step(link: spec_fn(int, int) -> bool, s: int, last: nat, n: nat)
    requires
        n > 0,
    ensures
        level_sum(link, s, last, n) == level_sum(link, s, last, (n - 1) as nat) + if reachable(
            link,
            s,
            n - 1,
        ) && distance(link, s, n - 1) <= last {
            distance(link, s, n - 1)
        } else {
            0
        },
        level_total(link, s, last, n) == level_total(link, s, last, (n - 1) as nat)
            + if reachable(link, s, n - 1) && 1 <= distance(link, s, n - 1) <= last {
            1nat
        } else {
            0
        },
    decreases last,
{
    if reachable(link, s, n - 1) {
        let d = choose|d: nat| #[trigger] within(link, s, n - 1, d);
        lemma_distance_exists(link, s, n - 1, d);
    }
    if last > 0 {
        lemma_level_step(link, s, (last - 1) as nat, n);
        let here = at_distance(link, s, n - 1, last);
        if here {
            lemma_distance_unique(link, s, n - 1, last);
        }
        let before = level_count(link, s, last, (n - 1) as nat);
        assert(last * (before + 1) == last * before + last) by (nonlinear_arith);
    }
}

/// No node lies beyond an empty level.
proof fn lemma_beyond(link: spec_fn(int, int) -> bool, s: int, n: nat, last: nat, v: int, d: nat)
    requires
        stays_below(link, n),
        0 <= s < n,
        level_count(link, s, last, n) == 0,
        at_distance(link, s, v, d),
    ensures
        d < last,
    decreases d,
{
    if d >= last {
        if d == last {
            lemma_within_below(link, n, s, v, d);
            lemma_level_member(link, s, d, n, v);
        } else {
            let u = lemma_nearer(link, s, v, (d - 1) as nat);
            lemma_beyond(link, s, n, last, u, (d - 1) as nat);
        }
    }
}

proof fn lemma_level_member(link: spec_fn(int, int) -> bool, s: int, d: nat, n: nat, v: int)
    requires
        0 <= v < n,
        at_distance(link, s, v, d),
    ensures
        level_count(link, s, d, n) > 0,
    decreases n,
{
    if v < n - 1 {
        lemma_level_member(link, s, d, (n - 1) as nat, v);
    }
}

/// A search that goes level by level until it finds an empty one has found every
/// reachable node, each at its distance.
pub proof fn lemma_levels(link: spec_fn(int, int) -> bool, s: int, n: nat, last: nat)
    requires
        stays_below(link, n),
        0 <= s < n,
        last > 0,
        level_count(link, s, last, n) == 0,
    ensures
        level_sum(link, s, last, n) == distance_sum(link, s, n),
        level_total(link, s, last, n) == reach_count(link, s, n),
        forall|v: int|
            reachable(link, s, v) <==> #[trigger] within(link, s, v, (last - 1) as nat),
{
    lemma_levels_upto(link, s, n, last, n);
    assert forall|v: int|
        reachable(link, s, v) <==> #[trigger] within(link, s, v, (last - 1) as nat) by {
        if reachable(link, s, v) {
            let d = choose|d: nat| #[trigger] within(link, s, v, d);
            lemma_distance_exists(link, s, v, d);
            let e = distance(link, s, v);
            lemma_beyond(link, s, n, last, v, e);
            lemma_within_more(link, s, v, e, (last - 1) as nat);
        }
    }
}

proof fn lemma_levels_upto(
    link: spec_fn(int, int) -> bool,
    s: int,
    n: nat,
    last: nat,
    upto: nat,
)
    requires
        stays_below(link, n),
        0 <= s < n,
        last > 0,
        level_count(link, s, last, n) == 0,
    ensures
        level_sum(link, s, last, upto) == distance_sum(link, s, upto),
        level_total(link, s, last, upto) == reach_count(link, s, upto),
    decreases upto,
{
    if upto == 0 {
        lemma_no_nodes(link, s, last);
    } else {
        lemma_levels_upto(link, s, n, last, (upto - 1) as nat);
        lemma_level_step(link, s, last, upto);
        let v = upto - 1;
        if reachable(link, s, v) {
            let d = choose|d: nat| #[trigger] within(link, s, v, d);
            lemma_distance_exists(link, s, v, d);
            lemma_beyond(link, s, n, last, v, distance(link, s, v));
            assert(distance(link, s, v) == 0 <==> v == s) by {
                if v == s {
                    assert(at_distance(link, s, v, 0));
                    lemma_distance_unique(link, s, v, 0);
                }
            }
        }
    }
}

proof fn lemma_no_nodes(link: spec_fn(int, int) -> bool, s: int, last: nat)
    ensures
        level_sum(link, s, last, 0) == 0,
        level_total(link, s, last, 0) == 0,
    decreases last,
{
    if last > 0 {
        lemma_no_nodes(link, s, (last - 1) as nat);
        assert(last * 0 == 0) by (nonlinear_arith);
    }
}

/// A node with a neighbor other than itself reaches some node.
pub proof fn lemma_reaches(link: spec_fn(int, int) -> bool, s: int, v: int, n: nat)
    requires
        link(s, v),
        v != s,
        0 <= v < n,
    ensures
        reach_count(link, s, n) > 0,
    decreases n,
{
    if v == n - 1 {
        assert(within(link, s, s, 0));
        lemma_within_step(link, s, s, v, 0);
        assert(within(link, s, v, 1));
    } else {
        lemma_reaches(link, s, v, (n - 1) as nat);
    }
}

} // verus!
