//! Distances along an untouched ring, summed without a search.

use super::Worker;
use crate::protocol::WorkerResponse;
use crate::circle;
use vstd::prelude::*;

verus! {

/// What is said where ring distances are asked for and do not apply.
pub open spec fn no_ring_text() -> Seq<char> {
    "ring distances require an intact ring and a valid source"@
}

/// `a / b` rounded up.
pub open spec fn ceil_div(a: int, b: int) -> int {
    (a + b - 1) / b
}

/// The distance between two nodes of the ring: the shorter way around, at most
/// `half` steps at a time.
pub open spec fn ring_distance(nodes: int, half: int, u: int, v: int) -> int {
    ceil_div(circle::cyclic(nodes, u, v), half)
}

/// The distances from `source` to the nodes `from..to`, summed.
pub open spec fn ring_distance_sum(nodes: int, half: int, source: int, from: int, to: int) -> int
    decreases to - from,
{
    if from >= to {
        0
    } else {
        ring_distance_sum(nodes, half, source, from, to - 1) + ring_distance(
            nodes,
            half,
            source,
            to - 1,
        )
    }
}

/// The distances of the nodes `from..to` from node zero, summed.
spec fn offset_sum(nodes: int, half: int, from: int, to: int) -> int {
    ring_distance_sum(nodes, half, 0, from, to)
}

/// `ceil(1 / half) + ... + ceil(distance / half)`.
spec fn ascending_sum(half: int, distance: int) -> int
    decreases distance,
{
    if distance <= 0 {
        0
    } else {
        ascending_sum(half, distance - 1) + ceil_div(distance, half)
    }
}

/// The closed form that the sum is computed by.
spec fn ascending_formula(half: int, distance: int) -> int {
    let q = distance / half;
    let r = distance % half;
    half * q * (q + 1) / 2 + r * (q + 1)
}

proof fn lemma_ceil_of(half: int, q: int, r: int)
    requires
        half > 0,
        1 <= r <= half,
    ensures
        ceil_div(half * q + r, half) == q + 1,
{
    assert(half * q + r + half - 1 == (q + 1) * half + (r - 1)) by (nonlinear_arith);
    vstd::arithmetic::div_mod::lemma_fundamental_div_mod_converse(
        half * q + r + half - 1,
        half,
        q + 1,
        r - 1,
    );
}

proof fn lemma_product_even(half: int, q: int)
    ensures
        (half * q * (q + 1)) % 2 == 0,
        half * (q + 1) * (q + 2) == half * q * (q + 1) + 2 * (half * (q + 1)),
{
    let p = q * (q + 1);
    let k = if q % 2 == 0 {
        (q / 2) * (q + 1)
    } else {
        q * ((q + 1) / 2)
    };
    if q % 2 == 0 {
        let e = q / 2;
        assert(p == 2 * (e * (q + 1))) by (nonlinear_arith)
            requires
                q == 2 * e,
                p == q * (q + 1),
        ;
    } else {
        let e = (q + 1) / 2;
        assert(p == 2 * (q * e)) by (nonlinear_arith)
            requires
                q + 1 == 2 * e,
                p == q * (q + 1),
        ;
    }
    assert(half * q * (q + 1) == half * p) by (nonlinear_arith)
        requires
            p == q * (q + 1),
    ;
    assert(half * p == 2 * (half * k)) by (nonlinear_arith)
        requires
            p == 2 * k,
    ;
    assert(half * (q + 1) * (q + 2) == half * q * (q + 1) + 2 * (half * (q + 1)))
        by (nonlinear_arith);
}

/// The closed form gives the sum.
proof fn lemma_ascending_formula(half: int, distance: int)
    requires
        half > 0,
        distance >= 0,
    ensures
        ascending_formula(half, distance) == ascending_sum(half, distance),
    decreases distance,
{
    let q = distance / half;
    let r = distance % half;
    vstd::arithmetic::div_mod::lemma_fundamental_div_mod(distance, half);
    if distance == 0 {
        assert(q == 0 && r == 0) by {
            vstd::arithmetic::div_mod::lemma_fundamental_div_mod_converse(0, half, 0, 0);
        }
        assert(half * 0 * 1 == 0) by (nonlinear_arith);
    } else {
        lemma_ascending_formula(half, distance - 1);
        if r > 0 {
            assert(distance - 1 == half * q + (r - 1));
            vstd::arithmetic::div_mod::lemma_fundamental_div_mod_converse(
                distance - 1,
                half,
                q,
                r - 1,
            );
            lemma_ceil_of(half, q, r);
            assert(r * (q + 1) == (r - 1) * (q + 1) + (q + 1)) by (nonlinear_arith);
        } else {
            let p = q - 1;
            assert(distance - 1 == half * p + (half - 1)) by (nonlinear_arith)
                requires
                    distance == half * q,
                    p == q - 1,
            ;
            vstd::arithmetic::div_mod::lemma_fundamental_div_mod_converse(
                distance - 1,
                half,
                p,
                half - 1,
            );
            assert(half * q == half * p + half) by (nonlinear_arith)
                requires
                    p == q - 1,
            ;
            lemma_ceil_of(half, p, half);
            lemma_product_even(half, p);
            assert(half * q * (q + 1) == half * (p + 1) * (p + 2)) by (nonlinear_arith)
                requires
                    p == q - 1,
            ;
            assert((half - 1) * (p + 1) + (p + 1) == half * (p + 1)) by (nonlinear_arith);
            assert(r * (q + 1) == 0) by (nonlinear_arith)
                requires
                    r == 0,
            ;
        }
    }
}

/// A sum of `distance` terms, none above `distance`.
proof fn lemma_ascending_bound(half: int, distance: int)
    requires
        half > 0,
        distance >= 0,
    ensures
        0 <= ascending_sum(half, distance) <= distance * distance,
    decreases distance,
{
    if distance > 0 {
        lemma_ascending_bound(half, distance - 1);
        assert(0 <= ceil_div(distance, half) <= distance) by {
            vstd::arithmetic::div_mod::lemma_fundamental_div_mod(distance + half - 1, half);
            let c = ceil_div(distance, half);
            vstd::arithmetic::div_mod::lemma_div_pos_is_pos(distance + half - 1, half);
            assert(c <= distance) by (nonlinear_arith)
                requires
                    half * c <= distance + half - 1,
                    distance >= 1,
                    half >= 1,
            ;
        }
        assert((distance - 1) * (distance - 1) + distance <= distance * distance)
            by (nonlinear_arith)
            requires
                distance >= 1,
        ;
    } else {
        assert(distance * distance == 0) by (nonlinear_arith)
            requires
                distance == 0,
        ;
    }
}

/// A sum in two parts.
pub proof fn lemma_sum_split(nodes: int, half: int, source: int, from: int, middle: int, to: int)
    requires
        from <= middle <= to,
    ensures
        ring_distance_sum(nodes, half, source, from, to) == ring_distance_sum(
            nodes,
            half,
            source,
            from,
            middle,
        ) + ring_distance_sum(nodes, half, source, middle, to),
    decreases to - middle,
{
    if middle < to {
        lemma_sum_split(nodes, half, source, from, middle, to - 1);
    }
}

/// On the near half of the ring, the offsets are the distances.
proof fn lemma_near_half(nodes: int, half: int, end: int)
    requires
        nodes > 0,
        half > 0,
        1 <= end <= nodes / 2 + 1,
    ensures
        offset_sum(nodes, half, 0, end) == ascending_sum(half, end - 1),
    decreases end,
{
    if end == 1 {
        assert(offset_sum(nodes, half, 0, 1) == offset_sum(nodes, half, 0, 0) + ring_distance(
            nodes,
            half,
            0,
            0,
        ));
        assert(ceil_div(0, half) == 0) by {
            vstd::arithmetic::div_mod::lemma_fundamental_div_mod_converse(
                half - 1,
                half,
                0,
                half - 1,
            );
        }
    } else {
        lemma_near_half(nodes, half, end - 1);
        assert(circle::cyclic(nodes, 0, end - 1) == end - 1);
    }
}

/// On the far half, the distances fall towards the end.
proof fn lemma_far_half(nodes: int, half: int, end: int)
    requires
        nodes > 0,
        half > 0,
        nodes / 2 + 1 <= end <= nodes,
    ensures
        offset_sum(nodes, half, end, nodes) == ascending_sum(half, nodes - end),
    decreases nodes - end,
{
    if end < nodes {
        lemma_far_half(nodes, half, end + 1);
        lemma_sum_split(nodes, half, 0, end, end + 1, nodes);
        assert(circle::cyclic(nodes, 0, end) == nodes - end);
        assert(offset_sum(nodes, half, end, end + 1) == offset_sum(nodes, half, end, end)
            + ring_distance(nodes, half, 0, end));
    }
}

/// All the distances from one node of the ring.
proof fn lemma_total(nodes: int, half: int)
    requires
        nodes > 0,
        half > 0,
    ensures
        offset_sum(nodes, half, 0, nodes) == 2 * ascending_sum(half, (nodes - 1) / 2) + if nodes % 2
            == 0 {
            ceil_div(nodes / 2, half)
        } else {
            0
        },
{
    let turn = nodes / 2 + 1;
    lemma_near_half(nodes, half, turn);
    if turn <= nodes {
        lemma_far_half(nodes, half, turn);
        lemma_sum_split(nodes, half, 0, 0, turn, nodes);
    }
    if nodes % 2 == 0 {
        assert(nodes - turn == (nodes - 1) / 2);
        assert(nodes / 2 - 1 == (nodes - 1) / 2);
    } else {
        assert(nodes / 2 == (nodes - 1) / 2);
    }
}

/// The distance depends on the way from the source to the node alone.
proof fn lemma_rotation(nodes: int, half: int, source: int, v: int)
    requires
        0 <= source < nodes,
        0 <= v < nodes,
    ensures
        ring_distance(nodes, half, source, v) == ring_distance(
            nodes,
            half,
            0,
            if v >= source {
                v - source
            } else {
                v - source + nodes
            },
        ),
{
}

/// Distances from the source to a range that does not reach around its own offset zero.
proof fn lemma_rotated_sum(nodes: int, half: int, source: int, from: int, to: int, shift: int)
    requires
        0 <= source < nodes,
        0 <= from <= to <= nodes,
        from >= source ==> shift == -source,
        from < source ==> to <= source && shift == nodes - source,
    ensures
        ring_distance_sum(nodes, half, source, from, to) == offset_sum(
            nodes,
            half,
            from + shift,
            to + shift,
        ),
    decreases to - from,
{
    if from < to {
        lemma_rotated_sum(nodes, half, source, from, to - 1, shift);
        lemma_rotation(nodes, half, source, to - 1);
    }
}

/// `ceil(1 / half) + ... + ceil(distance / half)`, in constant time.
fn sum_ascending(distance: u64, half: u64) -> (sum: u64)
    requires
        half > 0,
        distance <= u32::MAX,
    ensures
        sum == ascending_sum(half as int, distance as int),
{
    let q: u64 = distance / half;
    let r: u64 = distance % half;
    proof {
        lemma_ascending_formula(half as int, distance as int);
        lemma_ascending_bound(half as int, distance as int);
        assert(distance * distance <= u32::MAX * u32::MAX) by (nonlinear_arith)
            requires
                0 <= distance <= u32::MAX,
        ;
        vstd::arithmetic::div_mod::lemma_fundamental_div_mod(distance as int, half as int);
        assert(half * q <= distance);
        assert(q <= distance) by (nonlinear_arith)
            requires
                half * q <= distance,
                half >= 1,
        ;
        assert(half * q * (q + 1) <= distance * (distance + 1)) by (nonlinear_arith)
            requires
                0 <= half * q <= distance,
                0 <= q <= distance,
        ;
        assert(distance * (distance + 1) <= u32::MAX * (u32::MAX + 1)) by (nonlinear_arith)
            requires
                0 <= distance <= u32::MAX,
        ;
        assert(0 <= r * (q + 1)) by (nonlinear_arith)
            requires
                r >= 0,
                q >= 0,
        ;
        assert(half * q * (q + 1) >= 0) by (nonlinear_arith)
            requires
                half >= 0,
                q >= 0,
        ;
        assert(r * (q + 1) <= ascending_sum(half as int, distance as int));
    }
    half * q * (q + 1) / 2 + r * (q + 1)
}

/// The distances from a node to the `end` nodes that follow it, itself first.
fn sum_prefix(end: u64, nodes: u64, half: u64, total: u64) -> (sum: u64)
    requires
        0 < nodes <= u32::MAX,
        half > 0,
        end <= nodes,
        total == offset_sum(nodes as int, half as int, 0, nodes as int),
    ensures
        sum == offset_sum(nodes as int, half as int, 0, end as int),
        sum <= total,
{
    proof {
        lemma_sum_split(nodes as int, half as int, 0, 0, end as int, nodes as int);
        lemma_sum_positive(nodes as int, half as int, 0, end as int, nodes as int);
    }
    if end == 0 {
        0
    } else if end <= nodes / 2 + 1 {
        proof {
            lemma_near_half(nodes as int, half as int, end as int);
        }
        sum_ascending(end - 1, half)
    } else {
        proof {
            lemma_far_half(nodes as int, half as int, end as int);
            lemma_sum_positive(nodes as int, half as int, 0, 0, end as int);
        }
        total - sum_ascending(nodes - end, half)
    }
}

proof fn lemma_sum_positive(nodes: int, half: int, source: int, from: int, to: int)
    requires
        half > 0,
        0 <= source < nodes,
        0 <= from,
        to <= nodes,
    ensures
        ring_distance_sum(nodes, half, source, from, to) >= 0,
    decreases to - from,
{
    if from < to {
        lemma_sum_positive(nodes, half, source, from, to - 1);
        vstd::arithmetic::div_mod::lemma_div_pos_is_pos(
            circle::cyclic(nodes, source, to - 1) + half - 1,
            half,
        );
    }
}

impl Worker {
    /// The distances from `source` to the worker's nodes in the untouched ring,
    /// summed; how many of its nodes can be reached, and how many it has.
    /// Refused once the ring has been touched, for a source outside the graph,
    /// and where the ring has no links.
    pub fn ring_distances(&self, source: u32) -> (answer: Result<WorkerResponse, String>)
        requires
            self@.wf(),
        ensures
            self@.ring_outcome(source, answer),
    {
        let config = match self.config() {
            Ok(config) => config,
            Err(message) => return Err(message),
        };
        if !self.ring_intact || source >= config.nodes || config.degree < 2 {
            return Err("ring distances require an intact ring and a valid source".to_owned());
        }
        let half: u64 = (config.degree / 2) as u64;
        let nodes: u64 = config.nodes as u64;
        let one_side: u64 = sum_ascending((nodes - 1) / 2, half);
        let opposite: u64 = if nodes % 2 == 0 {
            (nodes / 2 + half - 1) / half
        } else {
            0
        };
        proof {
            lemma_total(nodes as int, half as int);
            lemma_ascending_bound(half as int, ((nodes - 1) / 2) as int);
            let side: int = ((nodes - 1) / 2) as int;
            assert(side * side <= 0x8000_0000 * 0x8000_0000) by (nonlinear_arith)
                requires
                    0 <= side <= 0x8000_0000,
            ;
            assert(opposite <= u32::MAX) by {
                if nodes % 2 == 0 {
                    vstd::arithmetic::div_mod::lemma_fundamental_div_mod(
                        (nodes / 2 + half - 1) as int,
                        half as int,
                    );
                    assert(opposite <= nodes / 2) by (nonlinear_arith)
                        requires
                            half * opposite <= nodes / 2 + half - 1,
                            nodes / 2 >= 1,
                            half >= 1,
                    ;
                }
            }
        }
        let total: u64 = 2 * one_side + opposite;
        let local: u64 = (self.end - self.start) as u64;
        let start: u64 = (self.start as u64 + nodes - source as u64) % nodes;
        let end: u64 = start + local;
        let ghost n: int = nodes as int;
        let ghost h: int = half as int;
        let ghost s: int = source as int;
        let ghost a: int = self.start as int;
        let ghost b: int = self.end as int;
        proof {
            // The offset of the range's first node, by the side of the source it is on.
            if a >= s {
                if a < n {
                    vstd::arithmetic::div_mod::lemma_fundamental_div_mod_converse(
                        a + n - s,
                        n,
                        1,
                        a - s,
                    );
                    assert(start == a - s);
                }
            } else {
                vstd::arithmetic::div_mod::lemma_small_mod((a + n - s) as nat, n as nat);
                assert(start == a + n - s);
            }
            lemma_sum_positive(n, h, s, a, b);
            lemma_sum_split(n, h, 0, 0, start as int, n);
            lemma_sum_positive(n, h, 0, start as int, n);
            if a >= s {
                if a < n {
                    lemma_rotated_sum(n, h, s, a, b, -s);
                    lemma_sum_split(n, h, 0, 0, start as int, end as int);
                    lemma_sum_split(n, h, 0, 0, end as int, n);
                    lemma_sum_positive(n, h, 0, end as int, n);
                    lemma_sum_positive(n, h, 0, start as int, end as int);
                }
            } else if b <= s {
                lemma_rotated_sum(n, h, s, a, b, n - s);
                lemma_sum_split(n, h, 0, 0, start as int, end as int);
                lemma_sum_split(n, h, 0, 0, end as int, n);
                lemma_sum_positive(n, h, 0, end as int, n);
                lemma_sum_positive(n, h, 0, start as int, end as int);
            } else {
                lemma_sum_split(n, h, s, a, s, b);
                lemma_rotated_sum(n, h, s, a, s, n - s);
                lemma_rotated_sum(n, h, s, s, b, -s);
                lemma_sum_split(n, h, 0, 0, end - n, n);
                lemma_sum_split(n, h, 0, end - n, start as int, n);
                lemma_sum_positive(n, h, 0, 0, end - n);
                lemma_sum_positive(n, h, 0, end - n, start as int);
            }
        }
        let distance_sum: u64 = if end <= nodes {
            sum_prefix(end, nodes, half, total) - sum_prefix(start, nodes, half, total)
        } else {
            total - sum_prefix(start, nodes, half, total) + sum_prefix(
                end - nodes,
                nodes,
                half,
                total,
            )
        };
        let own: u64 = if source >= self.start && source < self.end {
            1
        } else {
            0
        };
        Ok(WorkerResponse::RingDistances { distance_sum, reachable: local - own, visited: local })
    }
}

} // verus!
