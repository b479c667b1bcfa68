//! Items grouped by the worker that they are meant for, and sent on in bounded batches.

use crate::protocol::BATCH_ITEM_LIMIT;
use crate::counting;
use crate::rows;
use vstd::prelude::*;

verus! {

/// Groups of items, one for each worker, and how many items wait in all of them.
pub struct Batches<T> {
    pub groups: Vec<Vec<T>>,
    pub queued: usize,
}

/// What waits to be sent.
pub struct Waiting<T> {
    pub groups: Seq<Seq<T>>,
    pub queued: nat,
}

/// Batches with their targets, as sequences.
pub open spec fn sent_seqs<T>(sent: Seq<(u32, Vec<T>)>) -> Seq<(u32, Seq<T>)> {
    Seq::new(sent.len(), |i: int| (sent[i].0, sent[i].1@))
}

/// One batch for every group that is not empty, by ascending target.
pub open spec fn flushed<T>(groups: Seq<Seq<T>>) -> Seq<(u32, Seq<T>)>
    decreases groups.len(),
{
    if groups.len() == 0 {
        Seq::empty()
    } else if groups.last().len() == 0 {
        flushed(groups.drop_last())
    } else {
        flushed(groups.drop_last()).push(((groups.len() - 1) as u32, groups.last()))
    }
}

/// All that was sent to `target`, in order.
pub open spec fn delivered<T>(sent: Seq<(u32, Seq<T>)>, target: int) -> Seq<T>
    decreases sent.len(),
{
    if sent.len() == 0 {
        Seq::empty()
    } else if sent.last().0 == target {
        delivered(sent.drop_last(), target) + sent.last().1
    } else {
        delivered(sent.drop_last(), target)
    }
}

/// Every batch holds at least one item and no more than the limit.
pub open spec fn bounded<T>(sent: Seq<(u32, Seq<T>)>) -> bool {
    forall|i: int| 0 <= i < sent.len() ==> 1 <= #[trigger] sent[i].1.len() <= BATCH_ITEM_LIMIT
}

impl<T> Waiting<T> {
    /// Nothing waits, for any of `count` workers.
    pub open spec fn none(count: nat) -> Waiting<T> {
        Waiting { groups: Seq::new(count, |t: int| Seq::empty()), queued: 0 }
    }

    /// The count is that of the items, and below the limit.
    pub open spec fn wf(self) -> bool {
        &&& self.queued == rows::total(self.groups)
        &&& self.queued < BATCH_ITEM_LIMIT
        &&& self.groups.len() <= u32::MAX
    }

    /// The groups with one more item.
    pub open spec fn grown(self, target: int, item: T) -> Seq<Seq<T>> {
        self.groups.update(target, self.groups[target].push(item))
    }

    /// What waits once the item has been queued for `target`.
    pub open spec fn queue(self, target: int, item: T) -> Waiting<T> {
        if self.queued + 1 == BATCH_ITEM_LIMIT {
            Waiting::none(self.groups.len())
        } else {
            Waiting { groups: self.grown(target, item), queued: self.queued + 1 }
        }
    }

    /// What is sent as the item is queued: everything, once the limit is reached.
    pub open spec fn sends(self, target: int, item: T) -> Seq<(u32, Seq<T>)> {
        if self.queued + 1 == BATCH_ITEM_LIMIT {
            flushed(self.grown(target, item))
        } else {
            Seq::empty()
        }
    }

    /// What waits once the items have been queued, each for its own target.
    pub open spec fn queue_all(self, items: Seq<T>, target: spec_fn(T) -> int) -> Waiting<T>
        decreases items.len(),
    {
        if items.len() == 0 {
            self
        } else {
            self.queue_all(items.drop_last(), target).queue(target(items.last()), items.last())
        }
    }

    /// What is sent as the items are queued.
    pub open spec fn sends_all(self, items: Seq<T>, target: spec_fn(T) -> int) -> Seq<
        (u32, Seq<T>),
    >
        decreases items.len(),
    {
        if items.len() == 0 {
            Seq::empty()
        } else {
            self.sends_all(items.drop_last(), target) + self.queue_all(
                items.drop_last(),
                target,
            ).sends(target(items.last()), items.last())
        }
    }
}

/// The items whose target is `t`, in order.
pub open spec fn meant_for<T>(items: Seq<T>, target: spec_fn(T) -> int, t: int) -> Seq<T>
    decreases items.len(),
{
    if items.len() == 0 {
        Seq::empty()
    } else if target(items.last()) == t {
        meant_for(items.drop_last(), target, t).push(items.last())
    } else {
        meant_for(items.drop_last(), target, t)
    }
}

impl<T> View for Batches<T> {
    type V = Waiting<T>;

    open spec fn view(&self) -> Waiting<T> {
        Waiting { groups: rows::seqs(self.groups@), queued: self.queued as nat }
    }
}

/// Empty groups hold no item, and nothing is sent of them.
pub proof fn lemma_none<T>(count: nat)
    ensures
        rows::total(Waiting::<T>::none(count).groups) == 0,
        flushed(Waiting::<T>::none(count).groups) == Seq::<(u32, Seq<T>)>::empty(),
    decreases count,
{
    if count > 0 {
        lemma_none::<T>((count - 1) as nat);
        assert(Waiting::<T>::none(count).groups.drop_last() =~= Waiting::<T>::none(
            (count - 1) as nat,
        ).groups);
    }
}

/// A flush sends every group whole, in batches no larger than all of them together.
pub proof fn lemma_flushed<T>(groups: Seq<Seq<T>>)
    requires
        groups.len() <= u32::MAX,
    ensures
        forall|t: int|
            0 <= t < groups.len() ==> #[trigger] delivered(flushed(groups), t) == groups[t],
        forall|i: int|
            0 <= i < flushed(groups).len() ==> {
                let batch = #[trigger] flushed(groups)[i];
                &&& batch.0 < groups.len()
                &&& batch.1 == groups[batch.0 as int]
                &&& 1 <= batch.1.len() <= rows::total(groups)
            },
        forall|t: int|
            t < 0 || t >= groups.len() ==> #[trigger] delivered(flushed(groups), t).len() == 0,
    decreases groups.len(),
{
    if groups.len() > 0 {
        let shorter = groups.drop_last();
        lemma_flushed(shorter);
        let sent = flushed(groups);
        if groups.last().len() > 0 {
            assert(sent.drop_last() =~= flushed(shorter));
        }
        assert forall|t: int| 0 <= t < groups.len() implies #[trigger] delivered(sent, t)
            == groups[t] by {
            if t < groups.len() - 1 {
                assert(delivered(flushed(shorter), t) == shorter[t]);
            } else {
                assert(delivered(flushed(shorter), t).len() == 0);
                assert(delivered(sent, t) =~= groups[t]);
            }
        }
        assert forall|t: int| t < 0 || t >= groups.len() implies #[trigger] delivered(
            sent,
            t,
        ).len() == 0 by {
            assert(delivered(flushed(shorter), t).len() == 0);
        }
        assert forall|i: int| 0 <= i < sent.len() implies {
            let batch = #[trigger] sent[i];
            &&& batch.0 < groups.len()
            &&& batch.1 == groups[batch.0 as int]
            &&& 1 <= batch.1.len() <= rows::total(groups)
        } by {
            if i < flushed(shorter).len() {
                assert(sent[i] == flushed(shorter)[i]);
            }
        }
    } else {
        assert forall|t: int| #[trigger] delivered(flushed(groups), t).len() == 0 by {}
    }
}

/// What was sent in two parts was delivered in two parts.
pub proof fn lemma_delivered_sum<T>(a: Seq<(u32, Seq<T>)>, b: Seq<(u32, Seq<T>)>, target: int)
    ensures
        delivered(a + b, target) == delivered(a, target) + delivered(b, target),
    decreases b.len(),
{
    if b.len() == 0 {
        assert(a + b =~= a);
        assert(delivered(a, target) + delivered(b, target) =~= delivered(a, target));
    } else {
        assert((a + b).drop_last() =~= a + b.drop_last());
        lemma_delivered_sum(a, b.drop_last(), target);
        assert(delivered(a + b, target) =~= delivered(a, target) + delivered(b, target));
    }
}

/// Nothing is lost, repeated or reordered on the way to a worker: what was sent
/// to it and what waits for it grow by just the items queued for it. Batches
/// stay within the limit.
pub proof fn lemma_queue<T>(waiting: Waiting<T>, target: int, item: T)
    requires
        waiting.wf(),
        0 <= target < waiting.groups.len(),
    ensures
        waiting.queue(target, item).wf(),
        waiting.queue(target, item).groups.len() == waiting.groups.len(),
        bounded(waiting.sends(target, item)),
        forall|t: int|
            0 <= t < waiting.groups.len() ==> #[trigger] delivered(waiting.sends(target, item), t)
                + waiting.queue(target, item).groups[t] == waiting.grown(target, item)[t],
        forall|i: int|
            0 <= i < waiting.sends(target, item).len() ==> (#[trigger] waiting.sends(
                target,
                item,
            )[i]).0 < waiting.groups.len(),
{
    let grown = waiting.grown(target, item);
    let sent = waiting.sends(target, item);
    let later = waiting.queue(target, item);
    rows::lemma_total_update(waiting.groups, target, waiting.groups[target].push(item));
    lemma_none::<T>(waiting.groups.len());
    lemma_flushed(grown);
    assert forall|t: int| 0 <= t < waiting.groups.len() implies #[trigger] delivered(sent, t)
        + later.groups[t] == grown[t] by {
        if waiting.queued + 1 == BATCH_ITEM_LIMIT {
            assert(sent == flushed(grown));
            assert(delivered(flushed(grown), t) == grown[t]);
            assert(later.groups[t] == Seq::<T>::empty());
        } else {
            assert(delivered(sent, t) == Seq::<T>::empty());
            assert(later.groups[t] == grown[t]);
        }
        assert(delivered(sent, t) + later.groups[t] =~= grown[t]);
    }
    assert forall|i: int| 0 <= i < sent.len() implies 1 <= #[trigger] sent[i].1.len()
        <= BATCH_ITEM_LIMIT by {
        assert(sent[i] == flushed(grown)[i]);
    }
}

/// What was sent and what waits for a worker are together the items meant for
/// it, in order, and no batch exceeds the limit.
pub proof fn lemma_queue_all<T>(waiting: Waiting<T>, items: Seq<T>, target: spec_fn(T) -> int)
    requires
        waiting.wf(),
        forall|i: int|
            0 <= i < items.len() ==> 0 <= #[trigger] target(items[i]) < waiting.groups.len(),
    ensures
        waiting.queue_all(items, target).wf(),
        waiting.queue_all(items, target).groups.len() == waiting.groups.len(),
        bounded(waiting.sends_all(items, target)),
        forall|i: int|
            0 <= i < waiting.sends_all(items, target).len() ==> (#[trigger] waiting.sends_all(
                items,
                target,
            )[i]).0 < waiting.groups.len(),
        forall|t: int|
            0 <= t < waiting.groups.len() ==> #[trigger] delivered(
                waiting.sends_all(items, target),
                t,
            ) + waiting.queue_all(items, target).groups[t] == waiting.groups[t] + meant_for(
                items,
                target,
                t,
            ),
    decreases items.len(),
{
    let sent = waiting.sends_all(items, target);
    let after = waiting.queue_all(items, target);
    if items.len() == 0 {
        assert forall|t: int| 0 <= t < waiting.groups.len() implies #[trigger] delivered(sent, t)
            + after.groups[t] == waiting.groups[t] + meant_for(items, target, t) by {
            assert(delivered(sent, t) + after.groups[t] =~= waiting.groups[t] + meant_for(
                items,
                target,
                t,
            ));
        }
    } else {
        let shorter = items.drop_last();
        let item = items.last();
        assert forall|i: int| 0 <= i < shorter.len() implies 0 <= #[trigger] target(shorter[i])
            < waiting.groups.len() by {
            assert(shorter[i] == items[i]);
        }
        lemma_queue_all(waiting, shorter, target);
        let middle = waiting.queue_all(shorter, target);
        let earlier = waiting.sends_all(shorter, target);
        assert(items[items.len() - 1] == item);
        lemma_queue(middle, target(item), item);
        let more = middle.sends(target(item), item);
        assert forall|i: int| 0 <= i < sent.len() implies 1 <= #[trigger] sent[i].1.len()
            <= BATCH_ITEM_LIMIT && sent[i].0 < waiting.groups.len() by {
            if i < earlier.len() {
                assert(sent[i] == earlier[i]);
            } else {
                assert(sent[i] == more[i - earlier.len()]);
            }
        }
        assert forall|t: int| 0 <= t < waiting.groups.len() implies #[trigger] delivered(sent, t)
            + after.groups[t] == waiting.groups[t] + meant_for(items, target, t) by {
            lemma_delivered_sum(earlier, more, t);
            assert(delivered(more, t) + after.groups[t] == middle.grown(target(item), item)[t]);
            assert(delivered(earlier, t) + middle.groups[t] == waiting.groups[t] + meant_for(
                shorter,
                target,
                t,
            ));
            assert(delivered(sent, t) + after.groups[t] =~= delivered(earlier, t) + (delivered(
                more,
                t,
            ) + after.groups[t]));
            if t == target(item) {
                assert(delivered(earlier, t) + middle.groups[t].push(item) =~= (delivered(
                    earlier,
                    t,
                ) + middle.groups[t]).push(item));
                assert((waiting.groups[t] + meant_for(shorter, target, t)).push(item)
                    =~= waiting.groups[t] + meant_for(shorter, target, t).push(item));
            }
        }
    }
}

/// Queuing in two parts is queuing in one go.
pub proof fn lemma_queue_sum<T>(
    waiting: Waiting<T>,
    a: Seq<T>,
    b: Seq<T>,
    target: spec_fn(T) -> int,
)
    ensures
        waiting.queue_all(a + b, target) == waiting.queue_all(a, target).queue_all(b, target),
        waiting.sends_all(a + b, target) == waiting.sends_all(a, target) + waiting.queue_all(
            a,
            target,
        ).sends_all(b, target),
    decreases b.len(),
{
    if b.len() == 0 {
        assert(a + b =~= a);
        assert(waiting.sends_all(a + b, target) =~= waiting.sends_all(a, target)
            + waiting.queue_all(a, target).sends_all(b, target));
    } else {
        assert((a + b).drop_last() =~= a + b.drop_last());
        lemma_queue_sum(waiting, a, b.drop_last(), target);
        assert(waiting.sends_all(a + b, target) =~= waiting.sends_all(a, target)
            + waiting.queue_all(a, target).sends_all(b, target));
    }
}

/// As many empty groups as there are workers.
pub fn empty_groups<T>(count: usize) -> (groups: Vec<Vec<T>>)
    ensures
        groups@.len() == count,
        forall|t: int| 0 <= t < count ==> #[trigger] groups@[t]@ == Seq::<T>::empty(),
{
    let mut groups: Vec<Vec<T>> = Vec::new();
    let mut t: usize = 0;
    while t < count
        invariant
            t <= count,
            groups@.len() == t,
            forall|i: int| 0 <= i < t ==> #[trigger] groups@[i]@ == Seq::<T>::empty(),
        decreases count - t,
    {
        groups.push(Vec::new());
        t = t + 1;
    }
    groups
}

impl<T> Batches<T> {
    /// Nothing waits, for any of `count` workers.
    pub fn new(count: usize) -> (batches: Batches<T>)
        requires
            count <= u32::MAX,
        ensures
            batches@ == Waiting::<T>::none(count as nat),
            batches@.wf(),
    {
        let batches = Batches { groups: empty_groups(count), queued: 0 };
        proof {
            assert(batches@.groups =~= Waiting::<T>::none(count as nat).groups);
            lemma_none::<T>(count as nat);
        }
        batches
    }

    /// Queues an item for `target`, and sends all that waits once the limit is reached.
    pub fn add_item(&mut self, target: usize, item: T, sent: &mut Vec<(u32, Vec<T>)>)
        requires
            old(self)@.wf(),
            target < old(self)@.groups.len(),
        ensures
            final(self)@ == old(self)@.queue(target as int, item),
            final(self)@.wf(),
            sent_seqs(final(sent)@) == sent_seqs(old(sent)@) + old(self)@.sends(
                target as int,
                item,
            ),
    {
        let ghost before = self@;
        let ghost sent_before = sent_seqs(sent@);
        proof {
            lemma_queue(before, target as int, item);
        }
        self.groups[target].push(item);
        self.queued = self.queued + 1;
        assert(rows::seqs(self.groups@) =~= before.grown(target as int, item));
        if self.queued == BATCH_ITEM_LIMIT {
            self.flush(sent);
        }
        assert(sent_seqs(sent@) =~= sent_before + before.sends(target as int, item));
    }

    /// Sends all that waits.
    pub fn flush(&mut self, sent: &mut Vec<(u32, Vec<T>)>)
        requires
            old(self).groups@.len() <= u32::MAX,
        ensures
            final(self)@ == Waiting::<T>::none(old(self).groups@.len()),
            sent_seqs(final(sent)@) == sent_seqs(old(sent)@) + flushed(
                rows::seqs(old(self).groups@),
            ),
    {
        let ghost groups = rows::seqs(self.groups@);
        let ghost sent_before = sent_seqs(sent@);
        let count: usize = self.groups.len();
        let mut t: usize = 0;
        assert(sent_before + flushed(groups.take(0)) =~= sent_before);
        while t < count
            invariant
                t <= count,
                count == self.groups@.len(),
                count == groups.len(),
                count <= u32::MAX,
                forall|i: int| 0 <= i < t ==> #[trigger] self.groups@[i]@ == Seq::<T>::empty(),
                forall|i: int| t <= i < count ==> #[trigger] self.groups@[i]@ == groups[i],
                sent_seqs(sent@) == sent_before + flushed(groups.take(t as int)),
            decreases count - t,
        {
            assert(groups.take(t + 1).drop_last() =~= groups.take(t as int));
            if self.groups[t].len() > 0 {
                let ghost earlier = sent@;
                let mut group: Vec<T> = Vec::new();
                std::mem::swap(&mut group, &mut self.groups[t]);
                sent.push((t as u32, group));
                assert(sent_seqs(sent@) =~= sent_seqs(earlier).push((t as u32, groups[t as int])));
                assert(sent_seqs(sent@) =~= sent_before + flushed(groups.take(t + 1)));
            }
            t = t + 1;
        }
        self.queued = 0;
        assert(groups.take(t as int) =~= groups);
        assert(rows::seqs(self.groups@) =~= Waiting::<T>::none(count as nat).groups);
    }
}

/// Every item stands in a batch for its own target.
pub open spec fn addressed<T>(sent: Seq<(u32, Seq<T>)>, target: spec_fn(T) -> int) -> bool {
    forall|i: int, j: int|
        0 <= i < sent.len() && 0 <= j < sent[i].1.len() ==> target(#[trigger] sent[i].1[j])
            == sent[i].0
}

/// All that is sent of the items, once what still waits has been sent too.
pub open spec fn sent_in_all<T>(
    waiting: Waiting<T>,
    items: Seq<T>,
    target: spec_fn(T) -> int,
) -> Seq<(u32, Seq<T>)> {
    waiting.sends_all(items, target) + flushed(waiting.queue_all(items, target).groups)
}

/// The items of a batch are delivered to its target.
proof fn lemma_delivered_member<T>(sent: Seq<(u32, Seq<T>)>, i: int, j: int)
    requires
        0 <= i < sent.len(),
        0 <= j < sent[i].1.len(),
    ensures
        delivered(sent, sent[i].0 as int).contains(sent[i].1[j]),
    decreases sent.len(),
{
    let t = sent[i].0 as int;
    let all = delivered(sent, t);
    let shorter = sent.drop_last();
    let before = delivered(shorter, t);
    if i == sent.len() - 1 {
        assert(all[before.len() + j] == sent[i].1[j]);
    } else {
        lemma_delivered_member(shorter, i, j);
        let k = choose|k: int| 0 <= k < before.len() && before[k] == sent[i].1[j];
        assert(all[k] == sent[i].1[j]);
    }
}

/// The items meant for a worker have it as their target.
proof fn lemma_meant_member<T>(items: Seq<T>, target: spec_fn(T) -> int, t: int, item: T)
    requires
        meant_for(items, target, t).contains(item),
    ensures
        target(item) == t,
    decreases items.len(),
{
    let all = meant_for(items, target, t);
    let k = choose|k: int| 0 <= k < all.len() && all[k] == item;
    if items.len() > 0 {
        let before = meant_for(items.drop_last(), target, t);
        if k < before.len() {
            assert(before[k] == item);
            assert(before.contains(item));
            lemma_meant_member(items.drop_last(), target, t, item);
        }
    }
}

/// Where nothing waited before, the batches carry every item to its target, in
/// order and once, and nothing else; none is empty or over the limit.
pub proof fn lemma_all_sent<T>(none: Waiting<T>, items: Seq<T>, target: spec_fn(T) -> int)
    requires
        none == Waiting::<T>::none(none.groups.len()),
        none.groups.len() <= u32::MAX,
        forall|i: int|
            0 <= i < items.len() ==> 0 <= #[trigger] target(items[i]) < none.groups.len(),
    ensures
        none.queue_all(items, target).wf(),
        bounded(sent_in_all(none, items, target)),
        addressed(sent_in_all(none, items, target), target),
        forall|i: int|
            0 <= i < sent_in_all(none, items, target).len() ==> (#[trigger] sent_in_all(
                none,
                items,
                target,
            )[i]).0 < none.groups.len(),
        forall|t: int|
            0 <= t < none.groups.len() ==> #[trigger] delivered(
                sent_in_all(none, items, target),
                t,
            ) == meant_for(items, target, t),
{
    lemma_none::<T>(none.groups.len());
    lemma_queue_all(none, items, target);
    let early = none.sends_all(items, target);
    let groups = none.queue_all(items, target).groups;
    let rest = flushed(groups);
    let all = sent_in_all(none, items, target);
    lemma_flushed(groups);
    assert forall|t: int| 0 <= t < none.groups.len() implies #[trigger] delivered(all, t)
        == meant_for(items, target, t) by {
        lemma_delivered_sum(early, rest, t);
        assert(delivered(rest, t) == groups[t]);
        assert(delivered(early, t) + groups[t] == none.groups[t] + meant_for(items, target, t));
        assert(none.groups[t] + meant_for(items, target, t) =~= meant_for(items, target, t));
    }
    assert forall|i: int| 0 <= i < all.len() implies 1 <= #[trigger] all[i].1.len()
        <= BATCH_ITEM_LIMIT && all[i].0 < none.groups.len() by {
        if i < early.len() {
            assert(all[i] == early[i]);
        } else {
            assert(all[i] == rest[i - early.len()]);
        }
    }
    assert forall|i: int, j: int| 0 <= i < all.len() && 0 <= j < all[i].1.len() implies target(
        #[trigger] all[i].1[j],
    ) == all[i].0 by {
        let t = all[i].0 as int;
        assert(1 <= all[i].1.len());
        lemma_delivered_member(all, i, j);
        assert(delivered(all, t) == meant_for(items, target, t));
        lemma_meant_member(items, target, t, all[i].1[j]);
    }
}

/// What a batch holds is one of the items.
pub proof fn lemma_batch_member<T>(
    none: Waiting<T>,
    items: Seq<T>,
    target: spec_fn(T) -> int,
    i: int,
    j: int,
)
    requires
        none == Waiting::<T>::none(none.groups.len()),
        none.groups.len() <= u32::MAX,
        forall|x: int|
            0 <= x < items.len() ==> 0 <= #[trigger] target(items[x]) < none.groups.len(),
        0 <= i < sent_in_all(none, items, target).len(),
        0 <= j < sent_in_all(none, items, target)[i].1.len(),
    ensures
        items.contains(sent_in_all(none, items, target)[i].1[j]),
{
    let all = sent_in_all(none, items, target);
    lemma_all_sent(none, items, target);
    lemma_delivered_member(all, i, j);
    assert(all[i].0 < none.groups.len());
    assert(delivered(all, all[i].0 as int) == meant_for(items, target, all[i].0 as int));
    lemma_meant_items(items, target, all[i].0 as int, all[i].1[j]);
}

/// The items meant for a worker are among the items.
proof fn lemma_meant_items<T>(items: Seq<T>, target: spec_fn(T) -> int, t: int, item: T)
    requires
        meant_for(items, target, t).contains(item),
    ensures
        items.contains(item),
    decreases items.len(),
{
    let all = meant_for(items, target, t);
    let k = choose|k: int| 0 <= k < all.len() && all[k] == item;
    if items.len() > 0 {
        let shorter = items.drop_last();
        let before = meant_for(shorter, target, t);
        if k < before.len() {
            assert(before[k] == item);
            assert(before.contains(item));
            lemma_meant_items(shorter, target, t, item);
            let x = choose|x: int| 0 <= x < shorter.len() && shorter[x] == item;
            assert(items[x] == item);
        } else {
            assert(items[items.len() - 1] == item);
        }
    }
}

/// A flush sends one batch for every group that is not empty: the whole group, and the
/// batches by ascending target.
pub proof fn lemma_flush_rule<T>(groups: Seq<Seq<T>>)
    requires
        groups.len() <= u32::MAX,
    ensures
        ({
            let sent = flushed(groups);
            &&& forall|i: int, j: int|
                0 <= i < j < sent.len() ==> (#[trigger] sent[i]).0 < (#[trigger] sent[j]).0
            &&& forall|i: int|
                0 <= i < sent.len() ==> {
                    &&& (#[trigger] sent[i]).0 < groups.len()
                    &&& sent[i].1 == groups[sent[i].0 as int]
                    &&& sent[i].1.len() > 0
                }
            &&& forall|t: int|
                0 <= t < groups.len() && (#[trigger] groups[t]).len() > 0 ==> exists|i: int|
                    0 <= i < sent.len() && (#[trigger] sent[i]).0 == t
        }),
    decreases groups.len(),
{
    if groups.len() > 0 {
        let shorter = groups.drop_last();
        let before = flushed(shorter);
        let sent = flushed(groups);
        lemma_flush_rule(shorter);
        let last = groups.len() - 1;
        assert forall|i: int| 0 <= i < before.len() implies sent[i] == #[trigger] before[i] by {}
        assert forall|i: int, j: int| 0 <= i < j < sent.len() implies (#[trigger] sent[i]).0 < (
        #[trigger] sent[j]).0 by {
            assert(sent[i] == before[i]);
            if j < before.len() {
                assert(sent[j] == before[j]);
            }
        }
        assert forall|i: int| 0 <= i < sent.len() implies {
            &&& (#[trigger] sent[i]).0 < groups.len()
            &&& sent[i].1 == groups[sent[i].0 as int]
            &&& sent[i].1.len() > 0
        } by {
            if i < before.len() {
                assert(sent[i] == before[i]);
            }
        }
        assert forall|t: int| 0 <= t < groups.len() && (#[trigger] groups[t]).len() > 0 implies
            exists|i: int| 0 <= i < sent.len() && (#[trigger] sent[i]).0 == t by {
            if t < last {
                assert(shorter[t].len() > 0);
                let i = choose|i: int| 0 <= i < before.len() && (#[trigger] before[i]).0 == t;
                assert(sent[i].0 == t);
            } else {
                assert(sent[before.len() as int].0 == t);
            }
        }
    }
}

/// An item that is queued joins the end of its target's group. Where that makes 65,536
/// items, all groups are flushed and nothing waits any more; else nothing is sent.
pub proof fn lemma_add_rule<T>(waiting: Waiting<T>, target: int, item: T)
    requires
        waiting.wf(),
        0 <= target < waiting.groups.len(),
    ensures
        ({
            let grown = waiting.groups.update(target, waiting.groups[target].push(item));
            let after = waiting.queue(target, item);
            if counting::sum(|t: int| waiting.groups[t].len(), waiting.groups.len()) == 65_535 {
                &&& waiting.sends(target, item) == flushed(grown)
                &&& after.groups.len() == grown.len()
                &&& forall|t: int|
                    0 <= t < grown.len() ==> (#[trigger] after.groups[t]).len() == 0
            } else {
                &&& waiting.sends(target, item).len() == 0
                &&& after.groups == grown
            }
        }),
        counting::sum(|t: int| waiting.groups[t].len(), waiting.groups.len()) <= 65_535,
{
    rows::lemma_lengths(waiting.groups);
}

} // verus!
