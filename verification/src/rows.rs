//! Rows of items: the shape that adjacency lists and groups share.

use crate::counting;
use vstd::prelude::*;

verus! {

/// Rows of vectors as sequences of sequences.
pub open spec fn seqs<T>(rows: Seq<Vec<T>>) -> Seq<Seq<T>> {
    Seq::new(rows.len(), |i: int| rows[i]@)
}

/// The number of items in all rows together.
pub open spec fn total<T>(rows: Seq<Seq<T>>) -> nat
    decreases rows.len(),
{
    if rows.len() == 0 {
        0
    } else {
        total(rows.drop_last()) + rows.last().len()
    }
}

/// The items of all rows are the lengths of the rows, summed.
pub proof fn lemma_lengths<T>(rows: Seq<Seq<T>>)
    ensures
        total(rows) == counting::sum(|i: int| rows[i].len(), rows.len()),
    decreases rows.len(),
{
    if rows.len() > 0 {
        let short = rows.drop_last();
        lemma_lengths(short);
        counting::lemma_same_sum(|i: int| short[i].len(), |i: int| rows[i].len(), short.len());
    }
}

/// Appending a row adds its items.
pub proof fn lemma_total_push<T>(rows: Seq<Seq<T>>, row: Seq<T>)
    ensures
        total(rows.push(row)) == total(rows) + row.len(),
{
    assert(rows.push(row).drop_last() =~= rows);
}

/// Replacing a row exchanges its items for those of the new one.
pub proof fn lemma_total_update<T>(rows: Seq<Seq<T>>, i: int, row: Seq<T>)
    requires
        0 <= i < rows.len(),
    ensures
        total(rows.update(i, row)) == total(rows) - rows[i].len() + row.len(),
    decreases rows.len(),
{
    let changed = rows.update(i, row);
    if i == rows.len() - 1 {
        assert(changed.drop_last() =~= rows.drop_last());
    } else {
        assert(changed.drop_last() =~= rows.drop_last().update(i, row));
        lemma_total_update(rows.drop_last(), i, row);
    }
}

/// Rows in two parts.
pub proof fn lemma_total_sum<T>(a: Seq<Seq<T>>, b: Seq<Seq<T>>)
    ensures
        total(a + b) == total(a) + total(b),
    decreases b.len(),
{
    if b.len() == 0 {
        assert(a + b =~= a);
    } else {
        assert((a + b).drop_last() =~= a + b.drop_last());
        lemma_total_sum(a, b.drop_last());
    }
}

/// Empty rows hold nothing.
pub proof fn lemma_total_empty<T>(rows: Seq<Seq<T>>)
    requires
        forall|i: int| 0 <= i < rows.len() ==> (#[trigger] rows[i]).len() == 0,
    ensures
        total(rows) == 0,
    decreases rows.len(),
{
    if rows.len() > 0 {
        let shorter = rows.drop_last();
        assert forall|i: int| 0 <= i < shorter.len() implies (#[trigger] shorter[i]).len()
            == 0 by {
            assert(shorter[i] == rows[i]);
        }
        lemma_total_empty(shorter);
        assert(rows[rows.len() - 1].len() == 0);
    }
}

} // verus!
