//! Sorting.

use crate::graph;
use std::collections::HashSet;
use vstd::prelude::*;
use vstd::std_specs::iter::IteratorSpec;

verus! {

/// The numbers do not descend.
pub open spec fn ordered(numbers: Seq<usize>) -> bool {
    forall|i: int, j: int| 0 <= i < j < numbers.len() ==> numbers[i] <= numbers[j]
}

/// Sorts numbers in place: std's `sort_unstable` on a slice of `usize`. Claimed is
/// that the numbers stay the same ones, each as often as before, and that none
/// stands before a smaller one.
#[verifier::external_body]
pub(crate) fn sort_numbers(numbers: &mut Vec<usize>)
    ensures
        final(numbers)@.to_multiset() == old(numbers)@.to_multiset(),
        ordered(final(numbers)@),
{
    numbers.sort_unstable();
}

/// A node stands as often among the nodes as among the same nodes in wider numbers.
proof fn lemma_widened_count(nodes: Seq<u32>, numbers: Seq<usize>, node: u32)
    requires
        nodes.len() == numbers.len(),
        forall|i: int| 0 <= i < nodes.len() ==> #[trigger] numbers[i] == nodes[i],
    ensures
        numbers.to_multiset().count(node as usize) == nodes.to_multiset().count(node),
    decreases nodes.len(),
{
    nodes.to_multiset_ensures();
    numbers.to_multiset_ensures();
    if nodes.len() == 0 {
        assert(!nodes.contains(node));
        assert(!numbers.contains(node as usize));
        assert(nodes.to_multiset().count(node) == 0);
        assert(numbers.to_multiset().count(node as usize) == 0);
    } else {
        let fewer = nodes.drop_last();
        let less = numbers.drop_last();
        fewer.to_multiset_ensures();
        less.to_multiset_ensures();
        assert forall|i: int| 0 <= i < fewer.len() implies #[trigger] less[i] == fewer[i] by {
            assert(numbers[i] == nodes[i]);
        }
        lemma_widened_count(fewer, less, node);
        assert(nodes =~= fewer.push(nodes.last()));
        assert(numbers =~= less.push(numbers.last()));
        assert(numbers[numbers.len() - 1] == nodes[nodes.len() - 1]);
    }
}

/// Sorts nodes; the same node may stand more than once, and does so as often afterwards.
pub fn sort_nodes(nodes: &Vec<u32>) -> (sorted: Vec<u32>)
    ensures
        forall|i: int, j: int| 0 <= i < j < sorted@.len() ==> sorted@[i] <= sorted@[j],
        sorted@.to_multiset() == nodes@.to_multiset(),
{
    let mut numbers: Vec<usize> = Vec::new();
    let mut i: usize = 0;
    while i < nodes.len()
        invariant
            i <= nodes@.len(),
            numbers@.len() == i,
            forall|j: int| 0 <= j < i ==> #[trigger] numbers@[j] == nodes@[j],
        decreases nodes.len() - i,
    {
        numbers.push(nodes[i] as usize);
        i = i + 1;
    }
    let ghost before = numbers@;
    sort_numbers(&mut numbers);
    proof {
        before.to_multiset_ensures();
        numbers@.to_multiset_ensures();
        assert forall|x: usize| #[trigger] numbers@.contains(x) <==> before.contains(x) by {
            assert(numbers@.contains(x) <==> numbers@.to_multiset().count(x) > 0);
            assert(before.contains(x) <==> before.to_multiset().count(x) > 0);
        }
        assert forall|j: int| 0 <= j < numbers@.len() implies #[trigger] numbers@[j]
            <= u32::MAX by {
            assert(numbers@.contains(numbers@[j]));
            let k = choose|k: int| 0 <= k < before.len() && before[k] == numbers@[j];
            assert(before[k] == nodes@[k]);
        }
    }
    let mut sorted: Vec<u32> = Vec::new();
    let mut i: usize = 0;
    while i < numbers.len()
        invariant
            i <= numbers@.len(),
            sorted@.len() == i,
            forall|j: int| 0 <= j < numbers@.len() ==> #[trigger] numbers@[j] <= u32::MAX,
            forall|j: int| 0 <= j < i ==> #[trigger] sorted@[j] == numbers@[j],
        decreases numbers.len() - i,
    {
        sorted.push(numbers[i] as u32);
        i = i + 1;
    }
    proof {
        assert forall|a: int, b: int| 0 <= a < b < sorted@.len() implies sorted@[a]
            <= sorted@[b] by {
            assert(sorted@[a] == numbers@[a] && sorted@[b] == numbers@[b]);
        }
        assert(sorted@.to_multiset() =~= nodes@.to_multiset()) by {
            assert forall|node: u32| sorted@.to_multiset().count(node)
                == nodes@.to_multiset().count(node) by {
                assert forall|j: int| 0 <= j < sorted@.len() implies #[trigger] numbers@[j]
                    == sorted@[j] by {
                    assert(sorted@[j] == numbers@[j]);
                }
                lemma_widened_count(sorted@, numbers@, node);
                lemma_widened_count(nodes@, before, node);
            }
        }
    }
    sorted
}

/// The row is ascending and holds just the nodes of the set.
pub open spec fn lists(row: Seq<usize>, nodes: Set<usize>) -> bool {
    &&& graph::ascending(row)
    &&& row.to_set() == nodes
    &&& row.len() == nodes.len()
}

/// The nodes of a set in ascending order.
pub fn sorted_row(nodes: &HashSet<usize>) -> (row: Vec<usize>)
    ensures
        lists(row@, nodes@),
{
    broadcast use vstd::std_specs::hash::group_hash_axioms;
    let mut row: Vec<usize> = Vec::new();
    let ghost all = nodes.iter().remaining().unref();
    for node in it: nodes.iter()
        invariant
            it.seq().unref() == all,
            row@ == all.take(it.index()),
    {
        assert(all.take(it.index() + 1) =~= row@.push(*node));
        row.push(*node);
    }
    let ghost unsorted = row@;
    assert(unsorted =~= all);
    sort_numbers(&mut row);
    proof {
        assert(unsorted.no_duplicates());
        unsorted.lemma_multiset_has_no_duplicates();
        row@.lemma_multiset_has_no_duplicates_conv();
        unsorted.to_multiset_ensures();
        row@.to_multiset_ensures();
        assert(row@.to_set() =~= nodes@) by {
            assert forall|x: usize| row@.to_set().contains(x) == nodes@.contains(x) by {
                assert(row@.contains(x) <==> row@.to_multiset().count(x) > 0);
                assert(unsorted.contains(x) <==> unsorted.to_multiset().count(x) > 0);
                assert(unsorted.to_set().contains(x) == nodes@.contains(x));
            }
        }
        assert forall|i: int, j: int| 0 <= i < j < row@.len() implies row@[i] < row@[j] by {
            assert(row@[i] <= row@[j]);
            assert(row@[i] != row@[j]);
        }
    }
    row
}

} // verus!
