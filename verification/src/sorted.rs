//! Strictly ascending rows of node numbers.

use vstd::prelude::*;

verus! {

/// Every entry is smaller than the entries after it.
pub open spec fn ascending(row: Seq<u32>) -> bool {
    forall|i: int, j: int| 0 <= i < j < row.len() ==> row[i] < row[j]
}

/// `position` splits the row into entries below `node` and entries of at least `node`.
pub open spec fn splits(row: Seq<u32>, node: u32, position: int) -> bool {
    &&& 0 <= position <= row.len()
    &&& forall|i: int| 0 <= i < position ==> row[i] < node
    &&& forall|i: int| position <= i < row.len() ==> row[i] >= node
}

/// Where `node` stands, or would stand, in an ascending row.
pub open spec fn place(row: Seq<u32>, node: u32) -> int {
    choose|position: int| splits(row, node, position)
}

/// The row with `node` put in its place.
pub open spec fn with_node(row: Seq<u32>, node: u32) -> Seq<u32> {
    row.insert(place(row, node), node)
}

/// The row without the entry in the place of `node`.
pub open spec fn without_node(row: Seq<u32>, node: u32) -> Seq<u32> {
    row.remove(place(row, node))
}

/// In an ascending row a splitting position is the place of the node.
pub proof fn lemma_place_unique(row: Seq<u32>, node: u32, position: int)
    requires
        splits(row, node, position),
    ensures
        place(row, node) == position,
{
    let other = place(row, node);
    assert(splits(row, node, other));
    if other < position {
        assert(row[other] < node);
    } else if position < other {
        assert(row[position] < node);
    }
}

/// An ascending row has a place for every node, and holds it there or nowhere.
pub proof fn lemma_place(row: Seq<u32>, node: u32)
    requires
        ascending(row),
    ensures
        splits(row, node, place(row, node)),
        row.contains(node) <==> place(row, node) < row.len() && row[place(row, node)] == node,
    decreases row.len(),
{
    if row.len() == 0 {
        assert(splits(row, node, 0));
    } else if row.last() < node {
        assert(splits(row, node, row.len() as int));
    } else {
        let shorter = row.drop_last();
        lemma_place(shorter, node);
        let p = place(shorter, node);
        assert(splits(row, node, p)) by {
            assert forall|i: int| 0 <= i < p implies row[i] < node by {
                assert(shorter[i] < node);
            }
            assert forall|i: int| p <= i < row.len() implies row[i] >= node by {
                if i < shorter.len() {
                    assert(shorter[i] >= node);
                }
            }
        }
    }
    let p = place(row, node);
    assert(splits(row, node, p));
    if row.contains(node) {
        let i = choose|i: int| 0 <= i < row.len() && row[i] == node;
        assert(i >= p);
        if p < i {
            assert(row[p] < row[i]);
        }
    }
}

/// Adding an absent node keeps a row ascending and adds just that node.
pub proof fn lemma_with_node(row: Seq<u32>, node: u32)
    requires
        ascending(row),
        !row.contains(node),
    ensures
        ascending(with_node(row, node)),
        with_node(row, node).len() == row.len() + 1,
        forall|x: u32| #[trigger]
            with_node(row, node).contains(x) <==> x == node || row.contains(x),
{
    lemma_place(row, node);
    let p = place(row, node);
    let added = with_node(row, node);
    row.insert_ensures(p, node);
    assert forall|i: int| p <= i < row.len() implies row[i] > node by {
        assert(row[i] >= node);
        if row[i] == node {
            assert(row.contains(node));
        }
    }
    assert forall|i: int, j: int| 0 <= i < j < added.len() implies added[i] < added[j] by {
        let a = if i < p {
            row[i]
        } else if i == p {
            node
        } else {
            row[i - 1]
        };
        let b = if j < p {
            row[j]
        } else if j == p {
            node
        } else {
            row[j - 1]
        };
        assert(added[i] == a);
        assert(added[j] == b);
    }
    assert forall|x: u32| #[trigger] added.contains(x) <==> x == node || row.contains(x) by {
        if added.contains(x) {
            let i = choose|i: int| 0 <= i < added.len() && added[i] == x;
            if i < p {
                assert(row[i] == x);
            } else if i > p {
                assert(row[i - 1] == x);
            }
        }
        if row.contains(x) {
            let i = choose|i: int| 0 <= i < row.len() && row[i] == x;
            if i < p {
                assert(added[i] == x);
            } else {
                assert(added[i + 1] == x);
            }
        }
        if x == node {
            assert(added[p] == node);
        }
    }
}

/// Removing a present node keeps a row ascending and removes just that node.
pub proof fn lemma_without_node(row: Seq<u32>, node: u32)
    requires
        ascending(row),
        row.contains(node),
    ensures
        ascending(without_node(row, node)),
        without_node(row, node).len() == row.len() - 1,
        forall|x: u32| #[trigger]
            without_node(row, node).contains(x) <==> x != node && row.contains(x),
{
    lemma_place(row, node);
    let p = place(row, node);
    let kept = without_node(row, node);
    row.remove_ensures(p);
    assert forall|i: int, j: int| 0 <= i < j < kept.len() implies kept[i] < kept[j] by {
        let a = if i < p {
            row[i]
        } else {
            row[i + 1]
        };
        let b = if j < p {
            row[j]
        } else {
            row[j + 1]
        };
        assert(kept[i] == a);
        assert(kept[j] == b);
    }
    assert forall|x: u32| #[trigger] kept.contains(x) <==> x != node && row.contains(x) by {
        if kept.contains(x) {
            let i = choose|i: int| 0 <= i < kept.len() && kept[i] == x;
            if i < p {
                assert(row[i] == x);
            } else {
                assert(row[i + 1] == x);
                assert(row[p] < row[i + 1]);
            }
        }
        if row.contains(x) && x != node {
            let i = choose|i: int| 0 <= i < row.len() && row[i] == x;
            if i < p {
                assert(kept[i] == x);
            } else {
                assert(i > p);
                assert(kept[i - 1] == x);
            }
        }
    }
}

/// Two ascending rows with the same entries are the same row.
pub proof fn lemma_ascending_unique(a: Seq<u32>, b: Seq<u32>)
    requires
        ascending(a),
        ascending(b),
        forall|x: u32| a.contains(x) <==> b.contains(x),
    ensures
        a == b,
    decreases a.len(),
{
    if a.len() == 0 {
        if b.len() > 0 {
            assert(b.contains(b[0]));
            assert(a.contains(b[0]));
        }
        assert(a =~= b);
    } else {
        assert(a.contains(a.last()));
        assert(b.contains(a.last()));
        assert(b.contains(b.last()));
        assert(a.contains(b.last()));
        let i = choose|i: int| 0 <= i < b.len() && b[i] == a.last();
        let j = choose|j: int| 0 <= j < a.len() && a[j] == b.last();
        assert(a.last() == b.last());
        let c = a.drop_last();
        let d = b.drop_last();
        assert forall|x: u32| c.contains(x) <==> d.contains(x) by {
            if c.contains(x) {
                let k = choose|k: int| 0 <= k < c.len() && c[k] == x;
                assert(a[k] == x);
                assert(a.contains(x));
                let m = choose|m: int| 0 <= m < b.len() && b[m] == x;
                assert(m < b.len() - 1);
                assert(d[m] == x);
            }
            if d.contains(x) {
                let k = choose|k: int| 0 <= k < d.len() && d[k] == x;
                assert(b[k] == x);
                assert(b.contains(x));
                let m = choose|m: int| 0 <= m < a.len() && a[m] == x;
                assert(m < a.len() - 1);
                assert(c[m] == x);
            }
        }
        lemma_ascending_unique(c, d);
        assert(a =~= c.push(a.last()));
        assert(b =~= d.push(b.last()));
    }
}

/// An ascending row below a bound is no longer than the bound.
pub proof fn lemma_ascending_len(row: Seq<u32>, bound: nat)
    requires
        ascending(row),
        forall|i: int| 0 <= i < row.len() ==> row[i] < bound,
    ensures
        row.len() <= bound,
    decreases row.len(),
{
    if row.len() > 0 {
        let shorter = row.drop_last();
        assert forall|i: int| 0 <= i < shorter.len() implies shorter[i] < row.last() as nat by {
            assert(row[i] < row[row.len() - 1]);
        }
        lemma_ascending_len(shorter, row.last() as nat);
    }
}

/// Looks `node` up by halving: `Ok` with its index, or `Err` with the index at
/// which it would stand. On a row that is not ascending the answer is some
/// index within the row's bounds.
pub fn search(row: &Vec<u32>, node: u32) -> (found: Result<usize, usize>)
    ensures
        match found {
            Ok(index) => index < row@.len() && row@[index as int] == node,
            Err(index) => index <= row@.len(),
        },
        ascending(row@) ==> match found {
            Ok(index) => index == place(row@, node) && row@.contains(node),
            Err(index) => index == place(row@, node) && !row@.contains(node),
        },
{
    let mut low: usize = 0;
    let mut high: usize = row.len();
    while low < high
        invariant
            0 <= low <= high <= row@.len(),
            ascending(row@) ==> forall|i: int| 0 <= i < low ==> row@[i] < node,
            ascending(row@) ==> forall|i: int| high <= i < row@.len() ==> row@[i] > node,
        decreases high - low,
    {
        let middle: usize = low + (high - low) / 2;
        let value: u32 = row[middle];
        if value == node {
            proof {
                if ascending(row@) {
                    assert(splits(row@, node, middle as int));
                    lemma_place_unique(row@, node, middle as int);
                }
            }
            return Ok(middle);
        }
        if value < node {
            low = middle + 1;
        } else {
            high = middle;
        }
    }
    proof {
        if ascending(row@) {
            assert(splits(row@, node, low as int));
            lemma_place_unique(row@, node, low as int);
        }
    }
    Err(low)
}

/// Puts `node` into an ascending row, unless it is there already.
pub fn insert_node(row: &mut Vec<u32>, node: u32) -> (changed: bool)
    requires
        ascending(old(row)@),
    ensures
        changed == !old(row)@.contains(node),
        final(row)@ == if changed {
            with_node(old(row)@, node)
        } else {
            old(row)@
        },
        ascending(final(row)@),
{
    match search(row, node) {
        Ok(_) => false,
        Err(position) => {
            proof {
                lemma_with_node(row@, node);
            }
            row.insert(position, node);
            true
        },
    }
}

/// Takes `node` out of an ascending row, if it is there.
pub fn remove_node(row: &mut Vec<u32>, node: u32) -> (changed: bool)
    requires
        ascending(old(row)@),
    ensures
        changed == old(row)@.contains(node),
        final(row)@ == if changed {
            without_node(old(row)@, node)
        } else {
            old(row)@
        },
        ascending(final(row)@),
{
    match search(row, node) {
        Ok(position) => {
            proof {
                lemma_without_node(row@, node);
            }
            row.remove(position);
            true
        },
        Err(_) => false,
    }
}

} // verus!
