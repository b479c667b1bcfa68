//! Sums, and how many things there are of a kind.

use vstd::prelude::*;

verus! {

/// `f(0) + f(1) + ... + f(n - 1)`.
pub open spec fn sum(f: spec_fn(int) -> nat, n: nat) -> nat
    decreases n,
{
    if n == 0 {
        0
    } else {
        sum(f, (n - 1) as nat) + f(n - 1)
    }
}

/// Sums of the same terms are the same.
pub proof fn lemma_same_sum(f: spec_fn(int) -> nat, g: spec_fn(int) -> nat, n: nat)
    requires
        forall|i: int| 0 <= i < n ==> #[trigger] f(i) == g(i),
    ensures
        sum(f, n) == sum(g, n),
    decreases n,
{
    if n > 0 {
        lemma_same_sum(f, g, (n - 1) as nat);
        assert(f(n - 1) == g(n - 1));
    }
}

/// A sum of zeros.
pub proof fn lemma_zero_sum(f: spec_fn(int) -> nat, n: nat)
    requires
        forall|i: int| 0 <= i < n ==> #[trigger] f(i) == 0,
    ensures
        sum(f, n) == 0,
    decreases n,
{
    if n > 0 {
        lemma_zero_sum(f, (n - 1) as nat);
        assert(f(n - 1) == 0);
    }
}

/// Summing terms together is summing them apart.
pub proof fn lemma_sum_of_sums(
    f: spec_fn(int) -> nat,
    g: spec_fn(int) -> nat,
    h: spec_fn(int) -> nat,
    n: nat,
)
    requires
        forall|i: int| 0 <= i < n ==> #[trigger] h(i) == f(i) + g(i),
    ensures
        sum(h, n) == sum(f, n) + sum(g, n),
    decreases n,
{
    if n > 0 {
        lemma_sum_of_sums(f, g, h, (n - 1) as nat);
        assert(h(n - 1) == f(n - 1) + g(n - 1));
    }
}

/// The numbers below `n` of a kind are as many as their ones sum up to.
pub proof fn lemma_count(kind: spec_fn(int) -> bool, n: nat)
    ensures
        Set::new(|i: int| 0 <= i < n && kind(i)).finite(),
        Set::new(|i: int| 0 <= i < n && kind(i)).len() == sum(
            |i: int|
                if kind(i) {
                    1nat
                } else {
                    0
                },
            n,
        ),
    decreases n,
{
    let all = Set::new(|i: int| 0 <= i < n && kind(i));
    if n == 0 {
        assert(all =~= Set::empty());
    } else {
        let fewer = Set::new(|i: int| 0 <= i < n - 1 && kind(i));
        lemma_count(kind, (n - 1) as nat);
        assert(fewer =~= Set::new(|i: int| 0 <= i < (n - 1) as nat && kind(i)));
        if kind(n - 1) {
            assert(all =~= fewer.insert(n - 1));
        } else {
            assert(all =~= fewer);
        }
    }
}

/// Pairs of numbers of a kind are as many as their ones sum up to, row by row.
pub proof fn lemma_count_pairs(kind: spec_fn(int, int) -> bool, n: nat, m: nat)
    ensures
        Set::new(|p: (int, int)| 0 <= p.0 < n && 0 <= p.1 < m && kind(p.0, p.1)).finite(),
        Set::new(|p: (int, int)| 0 <= p.0 < n && 0 <= p.1 < m && kind(p.0, p.1)).len() == sum(
            |i: int|
                sum(
                    |j: int|
                        if kind(i, j) {
                            1nat
                        } else {
                            0
                        },
                    m,
                ),
            n,
        ),
    decreases n,
{
    let all = Set::new(|p: (int, int)| 0 <= p.0 < n && 0 <= p.1 < m && kind(p.0, p.1));
    if n == 0 {
        assert(all =~= Set::empty());
    } else {
        let k = (n - 1) as nat;
        let fewer = Set::new(|p: (int, int)| 0 <= p.0 < k && 0 <= p.1 < m && kind(p.0, p.1));
        lemma_count_pairs(kind, k, m);
        let last = |j: int| kind(n - 1, j);
        let row = Set::new(|j: int| 0 <= j < m && last(j));
        lemma_count(last, m);
        lemma_same_sum(
            |j: int|
                if last(j) {
                    1nat
                } else {
                    0
                },
            |j: int|
                if kind(n - 1, j) {
                    1nat
                } else {
                    0
                },
            m,
        );
        let pairs = row.map(|j: int| (n - 1, j));
        lemma_row_size(row, n - 1);
        assert(all =~= fewer + pairs) by {
            assert forall|p: (int, int)| all.contains(p) <==> (fewer + pairs).contains(p) by {
                if all.contains(p) && p.0 == n - 1 {
                    assert(row.contains(p.1));
                    assert(pairs.contains((n - 1, p.1)));
                }
            }
        }
        assert(fewer.disjoint(pairs));
        vstd::set_lib::lemma_set_disjoint_lens(fewer, pairs);
    }
}

proof fn lemma_row_size(row: Set<int>, i: int)
    requires
        row.finite(),
    ensures
        row.map(|j: int| (i, j)).finite(),
        row.map(|j: int| (i, j)).len() == row.len(),
    decreases row.len(),
{
    let pairs = row.map(|j: int| (i, j));
    if row.len() == 0 {
        assert(row =~= Set::empty());
        assert(pairs =~= Set::empty());
    } else {
        let j = row.choose();
        assert(row.contains(j));
        let fewer = row.remove(j);
        lemma_row_size(fewer, i);
        let less = fewer.map(|j: int| (i, j));
        assert(pairs =~= less.insert((i, j))) by {
            assert forall|p: (int, int)| pairs.contains(p) <==> less.insert((i, j)).contains(p) by {
                if pairs.contains(p) {
                    let x = choose|x: int| row.contains(x) && (i, x) == p;
                    if x != j {
                        assert(fewer.contains(x));
                        assert(less.contains((i, x)));
                    }
                }
                if less.contains(p) {
                    let x = choose|x: int| fewer.contains(x) && (i, x) == p;
                    assert(row.contains(x));
                    assert(pairs.contains((i, x)));
                }
                assert(pairs.contains((i, j)));
            }
        }
        assert(!less.contains((i, j)));
    }
}

} // verus!
