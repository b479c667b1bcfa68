//! One worker's part in a breadth-first search, level by level.

use super::{ShardView, Worker};
use crate::batches::empty_groups;
use crate::partition;
use crate::protocol::{ClusterConfig, WorkerResponse};
use vstd::prelude::*;

verus! {

/// The nodes that are new in `nodes`: not seen before, each at its first occurrence.
pub open spec fn fresh(seen: Set<u32>, nodes: Seq<u32>) -> Seq<u32>
    decreases nodes.len(),
{
    if nodes.len() == 0 {
        Seq::empty()
    } else {
        let before = fresh(seen, nodes.drop_last());
        if seen.contains(nodes.last()) || before.contains(nodes.last()) {
            before
        } else {
            before.push(nodes.last())
        }
    }
}

/// The nodes of the sequence that worker `target` owns, in order.
pub open spec fn owned_part(
    nodes: Seq<u32>,
    config: ClusterConfig,
    target: int,
) -> Seq<u32>
    decreases nodes.len(),
{
    if nodes.len() == 0 {
        Seq::empty()
    } else {
        let before = owned_part(nodes.drop_last(), config, target);
        if partition::owner_of(
            nodes.last() as int,
            config.nodes as nat,
            config.workers as nat,
        ) == target {
            before.push(nodes.last())
        } else {
            before
        }
    }
}

/// `v` is one of the nodes.
pub open spec fn among(nodes: Seq<u32>, v: int) -> bool {
    0 <= v <= u32::MAX && nodes.contains(v as u32)
}

/// The rows of the frontier's nodes, one after the other.
pub open spec fn reached(rows: Seq<Seq<u32>>, start: int, frontier: Seq<u32>) -> Seq<u32>
    decreases frontier.len(),
{
    if frontier.len() == 0 {
        Seq::empty()
    } else {
        reached(rows, start, frontier.drop_last()) + rows[frontier.last() - start]
    }
}

impl ShardView {
    /// The worker's own nodes that the search has found.
    pub open spec fn visited_set(self) -> Set<u32> {
        Set::new(|v: u32| self.owns(v as int) && self.visited[v - self.start])
    }

    /// The nodes of other workers that have been reported to them.
    pub open spec fn reported_set(self) -> Set<u32> {
        Set::new(|v: u32| v < self.remote.len() && self.remote[v as int])
    }

    /// The neighbors of the frontier, with repetitions.
    pub open spec fn reach(self) -> Seq<u32> {
        reached(self.rows, self.start, self.frontier)
    }

    /// The worker once the nodes of its own among `nodes` are marked as found and
    /// those of them that are new have joined the next frontier.
    pub open spec fn marked(self, nodes: Seq<u32>) -> ShardView {
        ShardView {
            visited: Seq::new(
                self.visited.len(),
                |i: int| self.visited[i] || among(nodes, self.start + i),
            ),
            next_frontier: self.next_frontier + fresh(self.visited_set(), nodes),
            ..self
        }
    }

    /// The worker once `found` has been added to the running count.
    pub open spec fn recounted(self, found: nat) -> ShardView {
        ShardView { visited_count: self.visited_count + found, ..self }
    }

    /// The worker's own nodes among the neighbors of the frontier.
    pub open spec fn local_reach(self) -> Seq<u32> {
        owned_part(self.reach(), self.config->Some_0, self.id as int)
    }

    /// The worker once its frontier has been expanded: its own neighbors of the
    /// frontier are marked, the others reported.
    pub open spec fn expanded(self) -> ShardView {
        let found = fresh(self.visited_set(), self.local_reach());
        ShardView {
            remote: Seq::new(
                self.remote.len(),
                |v: int| self.remote[v] || among(self.reach(), v) && !self.owns(v),
            ),
            ..self.marked(self.local_reach()).recounted(found.len())
        }
    }

    /// What the expansion reports to worker `target`.
    pub open spec fn discoveries_for(self, target: int) -> Seq<u32> {
        if target == self.id {
            Seq::empty()
        } else {
            fresh(self.reported_set(), owned_part(self.reach(), self.config->Some_0, target))
        }
    }

    /// Every neighbor of the frontier is a node of the graph, and has a bit
    /// where another worker owns it.
    pub open spec fn expandable(self) -> bool {
        self.config is Some ==> forall|i: int, j: int|
            0 <= i < self.frontier.len() && 0 <= j < self.row(self.frontier[i] as int).len() ==> {
                let v = #[trigger] self.row(self.frontier[i] as int)[j];
                v < self.config->Some_0.nodes && (self.owns(v as int) || v < self.remote.len())
            }
    }

    /// The first of the nodes that the worker does not own, by its position.
    pub open spec fn first_foreign(self, nodes: Seq<u32>, k: int) -> bool {
        &&& 0 <= k < nodes.len()
        &&& !self.owns(nodes[k] as int)
        &&& forall|i: int| 0 <= i < k ==> self.owns(#[trigger] nodes[i] as int)
    }

    /// The worker owns all of the nodes.
    pub open spec fn owns_all(self, nodes: Seq<u32>) -> bool {
        forall|i: int| 0 <= i < nodes.len() ==> self.owns(#[trigger] nodes[i] as int)
    }

    /// The worker at the start of a search from `source`.
    pub open spec fn started(self, source: int) -> ShardView {
        let config = self.config->Some_0;
        let words: int = if config.workers > 1 {
            (config.nodes + 63) / 64
        } else {
            0
        };
        ShardView {
            visited: Seq::new(self.visited.len(), |i: int| self.start + i == source),
            visited_count: if self.owns(source) {
                1
            } else {
                0
            },
            remote: Seq::new((words * 64) as nat, |v: int| false),
            frontier: if self.owns(source) {
                seq![source as u32]
            } else {
                Seq::empty()
            },
            next_frontier: Seq::empty(),
            ..self
        }
    }

    /// The worker at the next level of the search.
    pub open spec fn advanced(self) -> ShardView {
        ShardView { frontier: self.next_frontier, next_frontier: Seq::empty(), ..self }
    }
}

/// The new nodes are the ones not seen before, each once.
pub proof fn lemma_fresh(seen: Set<u32>, nodes: Seq<u32>)
    ensures
        fresh(seen, nodes).no_duplicates(),
        forall|v: u32| #[trigger]
            fresh(seen, nodes).contains(v) <==> nodes.contains(v) && !seen.contains(v),
    decreases nodes.len(),
{
    if nodes.len() > 0 {
        let shorter = nodes.drop_last();
        let before = fresh(seen, shorter);
        let all = fresh(seen, nodes);
        let last = nodes.last();
        lemma_fresh(seen, shorter);
        assert(nodes =~= shorter.push(last));
        assert forall|v: u32| #[trigger] all.contains(v) <==> nodes.contains(v) && !seen.contains(
            v,
        ) by {
            lemma_contains_push(shorter, last, v);
            lemma_contains_push(before, last, v);
        }
    }
}

/// What appending a node changes about membership.
pub proof fn lemma_contains_push(nodes: Seq<u32>, last: u32, v: u32)
    ensures
        nodes.push(last).contains(v) <==> nodes.contains(v) || v == last,
{
    let longer = nodes.push(last);
    if nodes.contains(v) {
        let i = choose|i: int| 0 <= i < nodes.len() && nodes[i] == v;
        assert(longer[i] == v);
    }
    if v == last {
        assert(longer[nodes.len() as int] == v);
    }
    if longer.contains(v) {
        let i = choose|i: int| 0 <= i < longer.len() && longer[i] == v;
        if i < nodes.len() {
            assert(nodes[i] == v);
        }
    }
}

/// The owned part holds the nodes of that owner and no others.
pub proof fn lemma_owned_part(nodes: Seq<u32>, config: ClusterConfig, target: int)
    ensures
        forall|v: u32| #[trigger]
            owned_part(nodes, config, target).contains(v) <==> nodes.contains(v)
                && partition::owner_of(v as int, config.nodes as nat, config.workers as nat)
                == target,
    decreases nodes.len(),
{
    if nodes.len() > 0 {
        let shorter = nodes.drop_last();
        lemma_owned_part(shorter, config, target);
        assert(nodes =~= shorter.push(nodes.last()));
        assert forall|v: u32| #[trigger]
            owned_part(nodes, config, target).contains(v) <==> nodes.contains(v)
                && partition::owner_of(v as int, config.nodes as nat, config.workers as nat)
                == target by {
            lemma_contains_push(shorter, nodes.last(), v);
            lemma_contains_push(owned_part(shorter, config, target), nodes.last(), v);
        }
    }
}

/// A node is among the neighbors of the frontier just where a frontier node has it as a neighbor.
pub proof fn lemma_reached(rows: Seq<Seq<u32>>, start: int, frontier: Seq<u32>, v: u32)
    ensures
        reached(rows, start, frontier).contains(v) <==> exists|u: u32| #[trigger]
            frontier.contains(u) && rows[u - start].contains(v),
    decreases frontier.len(),
{
    let all = reached(rows, start, frontier);
    if frontier.len() > 0 {
        let shorter = frontier.drop_last();
        let last = frontier.last();
        let before = reached(rows, start, shorter);
        let row = rows[last - start];
        lemma_reached(rows, start, shorter, v);
        assert(frontier =~= shorter.push(last));
        if all.contains(v) {
            let i = choose|i: int| 0 <= i < all.len() && all[i] == v;
            if i < before.len() {
                assert(before[i] == v);
                assert(before.contains(v));
                let u = choose|u: u32| #[trigger]
                    shorter.contains(u) && rows[u - start].contains(v);
                lemma_contains_push(shorter, last, u);
                assert(frontier.contains(u) && rows[u - start].contains(v));
            } else {
                assert(row[i - before.len()] == v);
                lemma_contains_push(shorter, last, last);
                assert(frontier.contains(last) && rows[last - start].contains(v));
            }
        }
        if exists|u: u32| #[trigger] frontier.contains(u) && rows[u - start].contains(v) {
            let u = choose|u: u32| #[trigger] frontier.contains(u) && rows[u - start].contains(v);
            lemma_contains_push(shorter, last, u);
            if shorter.contains(u) {
                assert(before.contains(v));
                let i = choose|i: int| 0 <= i < before.len() && before[i] == v;
                assert(all[i] == v);
            } else {
                let i = choose|i: int| 0 <= i < row.len() && row[i] == v;
                assert(all[before.len() + i] == v);
            }
        }
    }
}

/// Setting the bit of one node sets that bit alone.
proof fn lemma_set_bit(words: Seq<u64>, v: int)
    requires
        0 <= v < words.len() * 64,
    ensures
        super::remote_bits(
            words.update(v / 64, words[v / 64] | (1u64 << ((v % 64) as u64))),
        ) == super::remote_bits(words).update(v, true),
{
    let word = words[v / 64];
    let a: u64 = (v % 64) as u64;
    let changed = words.update(v / 64, word | (1u64 << a));
    assert forall|x: int| 0 <= x < words.len() * 64 implies #[trigger] super::bit_set(changed, x)
        == (x == v || super::bit_set(words, x)) by {
        let b: u64 = (x % 64) as u64;
        if x / 64 == v / 64 {
            assert(((word | (1u64 << a)) & (1u64 << b) != 0) == (a == b || word & (1u64 << b)
                != 0)) by (bit_vector)
                requires
                    a < 64,
                    b < 64,
            ;
            assert(a == b <==> x == v);
        }
    }
    assert(super::remote_bits(changed) =~= super::remote_bits(words).update(v, true));
}

/// Words of zero have no bit set.
proof fn lemma_zero_words(words: Seq<u64>)
    requires
        forall|i: int| 0 <= i < words.len() ==> words[i] == 0,
    ensures
        super::remote_bits(words) == Seq::new(words.len() * 64, |v: int| false),
{
    assert forall|v: int| 0 <= v < words.len() * 64 implies !(#[trigger] super::bit_set(
        words,
        v,
    )) by {
        let b: u64 = (v % 64) as u64;
        assert(0u64 & (1u64 << b) == 0) by (bit_vector);
    }
    assert(super::remote_bits(words) =~= Seq::new(words.len() * 64, |v: int| false));
}

/// A worker knows its own nodes by their owner.
pub proof fn lemma_own(shard: ShardView, v: int)
    requires
        shard.wf(),
        shard.config is Some,
        0 <= v < shard.config->Some_0.nodes,
    ensures
        shard.owns(v) <==> partition::owner_of(
            v,
            shard.config->Some_0.nodes as nat,
            shard.config->Some_0.workers as nat,
        ) == shard.id,
        0 <= partition::owner_of(
            v,
            shard.config->Some_0.nodes as nat,
            shard.config->Some_0.workers as nat,
        ) < shard.config->Some_0.workers,
{
    let config = shard.config->Some_0;
    partition::lemma_owner_range(v, config.nodes as nat, config.workers as nat, shard.id);
}

/// Marking one more node of the worker's own.
proof fn lemma_mark_step(shard: ShardView, nodes: Seq<u32>, v: u32)
    requires
        shard.wf(),
        shard.owns(v as int),
    ensures
        shard.marked(nodes).visited[v - shard.start] ==> shard.marked(nodes.push(v))
            == shard.marked(nodes) && fresh(shard.visited_set(), nodes.push(v)) == fresh(
            shard.visited_set(),
            nodes,
        ),
        !shard.marked(nodes).visited[v - shard.start] ==> {
            &&& shard.marked(nodes.push(v)).visited == shard.marked(nodes).visited.update(
                v - shard.start,
                true,
            )
            &&& fresh(shard.visited_set(), nodes.push(v)) == fresh(
                shard.visited_set(),
                nodes,
            ).push(v)
            &&& shard.marked(nodes.push(v)).next_frontier == shard.marked(
                nodes,
            ).next_frontier.push(v)
        },
{
    let seen = shard.visited_set();
    let now = shard.marked(nodes);
    let later = shard.marked(nodes.push(v));
    let at = v - shard.start;
    assert(nodes.push(v).drop_last() =~= nodes);
    lemma_fresh(seen, nodes);
    lemma_contains_push(nodes, v, v);
    assert(seen.contains(v) == shard.visited[at]);
    assert(now.visited[at] == (shard.visited[at] || nodes.contains(v)));
    assert forall|i: int| 0 <= i < shard.visited.len() implies later.visited[i] == (i == at
        || now.visited[i]) by {
        if shard.start + i <= u32::MAX {
            lemma_contains_push(nodes, v, (shard.start + i) as u32);
        }
    }
    if now.visited[at] {
        assert(later.visited =~= now.visited);
    } else {
        assert(later.visited =~= now.visited.update(at, true));
        assert(later.next_frontier =~= now.next_frontier.push(v));
    }
}

/// Expanding one more frontier node appends its row.
proof fn lemma_reached_step(rows: Seq<Seq<u32>>, start: int, frontier: Seq<u32>, i: int)
    requires
        0 <= i < frontier.len(),
    ensures
        reached(rows, start, frontier.take(i + 1)) == reached(rows, start, frontier.take(i))
            + rows[frontier[i] - start],
{
    assert(frontier.take(i + 1).drop_last() =~= frontier.take(i));
}

impl Worker {
    /// Starts a search from `source`.
    pub fn start_bfs(&mut self, source: u32) -> (answer: Result<WorkerResponse, String>)
        requires
            old(self)@.wf(),
            old(self).config is Some ==> old(self).config->Some_0.nodes > 0,
        ensures
            old(self)@.start_outcome(source, answer, final(self)@),
            final(self)@.wf(),
    {
        let config = match self.config() {
            Ok(config) => config,
            Err(message) => return Err(message),
        };
        let ghost before = self@;
        let local: usize = self.visited.len();
        self.visited.clear();
        self.visited.resize(local, false);
        let words: usize = if config.workers > 1 {
            ((config.nodes as u64 + 63) / 64) as usize
        } else {
            0
        };
        self.remote_seen.clear();
        self.remote_seen.resize(words, 0);
        self.visited_count = 0;
        self.frontier.clear();
        self.next_frontier.clear();
        proof {
            lemma_zero_words(self.remote_seen@);
            super::lemma_set_count_clear(self.visited@);
            if source < config.nodes {
                lemma_own(before, source as int);
            }
        }
        if source < config.nodes && partition::owner(source, config.nodes, config.workers)
            == self.id {
            let index: usize = (source - self.start) as usize;
            proof {
                super::lemma_set_count_update(self.visited@, index as int);
            }
            self.visited.set(index, true);
            self.visited_count = 1;
            self.frontier.push(source);
        }
        proof {
            let after = before.started(source as int);
            assert(self@.visited =~= after.visited);
            assert(self@.frontier =~= after.frontier);
            assert(self@.next_frontier =~= after.next_frontier);
            assert(self@.rows == before.rows);
            assert(self@ == after);
        }
        Ok(WorkerResponse::BfsStarted)
    }

    /// Marks a node of the worker's own as found; says whether that is new.
    fn discover(&mut self, node: u32) -> (new: bool)
        requires
            old(self)@.wf(),
            old(self)@.owns(node as int),
        ensures
            new == !old(self)@.visited[node - old(self)@.start],
            final(self)@ == (if new {
                ShardView {
                    visited: old(self)@.visited.update(node - old(self)@.start, true),
                    next_frontier: old(self)@.next_frontier.push(node),
                    ..old(self)@
                }
            } else {
                old(self)@
            }),
            final(self)@.wf(),
            super::set_count(final(self)@.visited) == super::set_count(old(self)@.visited)
                + if new {
                1nat
            } else {
                0
            },
            final(self).adjacency == old(self).adjacency,
            final(self).remote_seen == old(self).remote_seen,
    {
        let index: usize = (node - self.start) as usize;
        if self.visited[index] {
            return false;
        }
        proof {
            super::lemma_set_count_update(self.visited@, index as int);
        }
        self.visited.set(index, true);
        self.next_frontier.push(node);
        true
    }

    /// Marks the nodes that other workers discovered here. Stops at the first
    /// one that the worker does not own; the running count then stays behind.
    pub fn apply_discoveries(&mut self, discoveries: Vec<u32>) -> (answer: Result<
        WorkerResponse,
        String,
    >)
        requires
            old(self)@.wf(),
        ensures
            old(self)@.discovery_outcome(discoveries@, answer, final(self)@),
            final(self)@.wf(),
    {
        let ghost before = self@;
        let mut accepted: u64 = 0;
        let mut i: usize = 0;
        proof {
            assert(discoveries@.take(0) =~= Seq::empty());
            assert(before.marked(Seq::empty()).visited =~= before.visited);
            assert(before.marked(Seq::empty()).next_frontier =~= before.next_frontier);
        }
        while i < discoveries.len()
            invariant
                i <= discoveries@.len(),
                before == old(self)@,
                before.wf(),
                self@.wf(),
                self@ == before.marked(discoveries@.take(i as int)),
                accepted == fresh(before.visited_set(), discoveries@.take(i as int)).len(),
                super::set_count(self@.visited) == super::set_count(before.visited) + accepted,
                accepted <= u32::MAX,
                forall|j: int| 0 <= j < i ==> before.owns(#[trigger] discoveries@[j] as int),
            decreases discoveries.len() - i,
        {
            let node: u32 = discoveries[i];
            match self.local_index(node) {
                Ok(_) => {},
                Err(message) => {
                    assert(!before.owns_all(discoveries@));
                    assert(before.foreign_outcome(discoveries@, i as int, message@));
                    assert(before.stopped_marking(discoveries@, message@, self@));
                    return Err(message);
                },
            }
            proof {
                assert(discoveries@.take(i + 1) =~= discoveries@.take(i as int).push(node));
                lemma_mark_step(before, discoveries@.take(i as int), node);
                super::lemma_set_count_bound(self@.visited);
            }
            let new = self.discover(node);
            proof {
                super::lemma_set_count_bound(self@.visited);
            }
            if new {
                accepted = accepted + 1;
            }
            assert(self@ == before.marked(discoveries@.take(i + 1)));
            i = i + 1;
        }
        assert(discoveries@.take(i as int) =~= discoveries@);
        proof {
            super::lemma_set_count_bound(self@.visited);
        }
        self.visited_count = self.visited_count + accepted;
        Ok(WorkerResponse::DiscoveriesApplied { accepted })
    }

    /// Takes the search to its next level.
    pub fn advance_bfs(&mut self) -> (response: WorkerResponse)
        requires
            old(self)@.wf(),
        ensures
            old(self)@.advance_outcome(response, final(self)@),
            final(self)@.wf(),
    {
        self.frontier.clear();
        let mut next: Vec<u32> = Vec::new();
        std::mem::swap(&mut next, &mut self.next_frontier);
        self.frontier = next;
        assert(self@.next_frontier =~= Seq::empty());
        WorkerResponse::BfsAdvanced {
            frontier: self.frontier.len() as u64,
            visited: self.visited_count,
        }
    }

    /// Marks what other workers discovered here and goes on to the next level.
    pub fn finish_bfs_level(&mut self, discoveries: Vec<u32>) -> (answer: Result<
        WorkerResponse,
        String,
    >)
        requires
            old(self)@.wf(),
        ensures
            old(self)@.level_outcome(discoveries@, answer, final(self)@),
            final(self)@.wf(),
    {
        let accepted: u64 = match self.apply_discoveries(discoveries) {
            Ok(WorkerResponse::DiscoveriesApplied { accepted }) => accepted,
            Ok(response) => return Ok(response),
            Err(message) => return Err(message),
        };
        match self.advance_bfs() {
            WorkerResponse::BfsAdvanced { frontier, visited } => Ok(
                WorkerResponse::BfsLevelFinished { accepted, frontier, visited },
            ),
            response => Ok(response),
        }
    }

    /// Looks at every neighbor of the frontier once: marks the worker's own and
    /// collects the others by owner, leaving out those reported before.
    pub fn expand_bfs(&mut self) -> (answer: Result<WorkerResponse, String>)
        requires
            old(self)@.wf(),
            old(self)@.expandable(),
        ensures
            old(self)@.expand_outcome(answer, final(self)@),
            final(self)@.wf(),
    {
        let config = match self.config() {
            Ok(config) => config,
            Err(message) => return Err(message),
        };
        let mut discoveries_by_owner: Vec<Vec<u32>> = empty_groups(config.workers as usize);
        let mut local_discovered: u64 = 0;
        let ghost before = self@;
        let ghost mut done: Seq<u32> = Seq::empty();
        proof {
            assert(before.frontier.take(0) =~= Seq::empty());
            before.lemma_progress_start();
        }
        let mut i: usize = 0;
        while i < self.frontier.len()
            invariant
                i <= before.frontier.len(),
                before.wf(),
                before.expandable(),
                before.config == Some(config),
                self@.wf(),
                done == reached(before.rows, before.start, before.frontier.take(i as int)),
                before.progress(self@, done, discoveries_by_owner@, local_discovered as nat),
            decreases before.frontier.len() - i,
        {
            let u: u32 = self.frontier[i];
            let u_index: usize = (u - self.start) as usize;
            let ghost row = before.rows[u_index as int];
            let ghost earlier = done;
            assert(before.owns(before.frontier[i as int] as int));
            let mut j: usize = 0;
            assert(row.take(0) =~= Seq::empty());
            assert(earlier + row.take(0) =~= earlier);
            while j < self.adjacency[u_index].len()
                invariant
                    i < before.frontier.len(),
                    j <= row.len(),
                    u == before.frontier[i as int],
                    before.owns(u as int),
                    u_index == u - before.start,
                    row == before.rows[u_index as int],
                    before.wf(),
                    before.expandable(),
                    before.config == Some(config),
                    self@.wf(),
                    done == earlier + row.take(j as int),
                    before.progress(self@, done, discoveries_by_owner@, local_discovered as nat),
                decreases row.len() - j,
            {
                assert(self@.rows[u_index as int] == row);
                let v: u32 = self.adjacency[u_index][j];
                assert(v == before.row(before.frontier[i as int] as int)[j as int]);
                assert(row.take(j + 1) =~= row.take(j as int).push(v));
                assert(earlier + row.take(j + 1) =~= (earlier + row.take(j as int)).push(v));
                let target: usize = partition::owner(v, config.nodes, config.workers);
                let ghost shard = self@;
                let ghost groups = discoveries_by_owner@;
                proof {
                    lemma_own(before, v as int);
                    super::lemma_set_count_bound(self@.visited);
                }
                if target == self.id {
                    proof {
                        before.lemma_progress_own(
                            self@,
                            done,
                            discoveries_by_owner@,
                            local_discovered as nat,
                            v,
                        );
                    }
                    let new = self.discover(v);
                    proof {
                        super::lemma_set_count_bound(self@.visited);
                    }
                    if new {
                        local_discovered = local_discovered + 1;
                    }
                } else {
                    let word: u64 = self.remote_seen[v as usize / 64];
                    let shift: u64 = v as u64 % 64;
                    let mask: u64 = 1u64 << shift;
                    assert(self@.remote[v as int] == super::bit_set(self.remote_seen@, v as int));
                    if word & mask == 0 {
                        proof {
                            lemma_set_bit(self.remote_seen@, v as int);
                        }
                        self.remote_seen.set(v as usize / 64, word | mask);
                        discoveries_by_owner[target].push(v);
                        assert(self@ == (ShardView {
                            remote: shard.remote.update(v as int, true),
                            ..shard
                        }));
                        assert(discoveries_by_owner@[target as int]@ == groups[target as int]@.push(
                            v,
                        ));
                    }
                    proof {
                        before.lemma_progress_other(
                            shard,
                            done,
                            groups,
                            local_discovered as nat,
                            v,
                            self@,
                            discoveries_by_owner@,
                        );
                    }
                }
                proof {
                    done = done.push(v);
                }
                j = j + 1;
            }
            proof {
                assert(row.take(j as int) =~= row);
                lemma_reached_step(before.rows, before.start, before.frontier, i as int);
            }
            i = i + 1;
        }
        proof {
            assert(before.frontier.take(i as int) =~= before.frontier);
            super::lemma_set_count_bound(self@.visited);
            before.lemma_progress_end(self@, done, discoveries_by_owner@, local_discovered as nat);
        }
        self.visited_count = self.visited_count + local_discovered;
        assert(self@ == before.expanded());
        Ok(WorkerResponse::BfsExpanded { local_discovered, discoveries_by_owner })
    }
}

impl ShardView {
    /// How far an expansion has come once the neighbors in `done` have been looked at.
    spec fn progress(
        self,
        now: ShardView,
        done: Seq<u32>,
        groups: Seq<Vec<u32>>,
        found: nat,
    ) -> bool {
        let config = self.config->Some_0;
        let local = owned_part(done, config, self.id as int);
        &&& forall|i: int| 0 <= i < done.len() ==> #[trigger] done[i] < config.nodes
        &&& now == (ShardView { remote: now.remote, ..self.marked(local) })
        &&& now.remote.len() == self.remote.len()
        &&& forall|v: int|
            0 <= v < self.remote.len() ==> #[trigger] now.remote[v] == (self.remote[v] || among(
                done,
                v,
            ) && !self.owns(v))
        &&& found == fresh(self.visited_set(), local).len()
        &&& super::set_count(now.visited) == super::set_count(self.visited) + found
        &&& groups.len() == config.workers
        &&& forall|t: int|
            0 <= t < config.workers ==> #[trigger] groups[t]@ == if t == self.id {
                Seq::empty()
            } else {
                fresh(self.reported_set(), owned_part(done, config, t))
            }
    }

    proof fn lemma_progress_start(self)
        ensures
            self.marked(Seq::empty()) == self,
    {
        assert(self.marked(Seq::empty()).visited =~= self.visited);
        assert(self.marked(Seq::empty()).next_frontier =~= self.next_frontier);
    }

    /// Looking at a node of the worker's own.
    proof fn lemma_progress_own(
        self,
        now: ShardView,
        done: Seq<u32>,
        groups: Seq<Vec<u32>>,
        found: nat,
        v: u32,
    )
        requires
            self.wf(),
            self.config is Some,
            v < self.config->Some_0.nodes,
            self.owns(v as int),
            self.progress(now, done, groups, found),
        ensures
            now.visited[v - self.start] ==> self.progress(now, done.push(v), groups, found),
            !now.visited[v - self.start] ==> self.progress(
                ShardView {
                    visited: now.visited.update(v - self.start, true),
                    next_frontier: now.next_frontier.push(v),
                    ..now
                },
                done.push(v),
                groups,
                found + 1,
            ),
    {
        let config = self.config->Some_0;
        let local = owned_part(done, config, self.id as int);
        assert(done.push(v).drop_last() =~= done);
        lemma_own(self, v as int);
        lemma_mark_step(self, local, v);
        if !now.visited[v - self.start] {
            super::lemma_set_count_update(now.visited, v - self.start);
        }
        assert forall|x: int| 0 <= x < self.remote.len() && !self.owns(x) implies among(
            done.push(v),
            x,
        ) == among(done, x) by {
            if x <= u32::MAX {
                lemma_contains_push(done, v, x as u32);
            }
        }
    }

    /// Looking at a node of another worker.
    proof fn lemma_progress_other(
        self,
        now: ShardView,
        done: Seq<u32>,
        groups: Seq<Vec<u32>>,
        found: nat,
        v: u32,
        later: ShardView,
        later_groups: Seq<Vec<u32>>,
    )
        requires
            self.wf(),
            self.config is Some,
            v < self.config->Some_0.nodes,
            !self.owns(v as int),
            v < self.remote.len(),
            self.progress(now, done, groups, found),
            now.remote[v as int] ==> later == now && later_groups == groups,
            !now.remote[v as int] ==> {
                let target = partition::owner_of(
                    v as int,
                    self.config->Some_0.nodes as nat,
                    self.config->Some_0.workers as nat,
                );
                &&& later == (ShardView { remote: now.remote.update(v as int, true), ..now })
                &&& later_groups.len() == groups.len()
                &&& later_groups[target]@ == groups[target]@.push(v)
                &&& forall|t: int|
                    0 <= t < groups.len() && t != target ==> #[trigger] later_groups[t]
                        == groups[t]
            },
        ensures
            self.progress(later, done.push(v), later_groups, found),
    {
        let config = self.config->Some_0;
        let target = partition::owner_of(v as int, config.nodes as nat, config.workers as nat);
        let longer = done.push(v);
        assert(longer.drop_last() =~= done);
        lemma_own(self, v as int);
        lemma_contains_push(done, v, v);
        assert forall|x: int| 0 <= x < self.remote.len() implies #[trigger] later.remote[x] == (
        self.remote[x] || among(longer, x) && !self.owns(x)) by {
            if x <= u32::MAX {
                lemma_contains_push(done, v, x as u32);
            }
            assert(now.remote[x] == (self.remote[x] || among(done, x) && !self.owns(x)));
        }
        assert forall|t: int| 0 <= t < config.workers implies #[trigger] later_groups[t]@
            == if t == self.id {
            Seq::empty()
        } else {
            fresh(self.reported_set(), owned_part(longer, config, t))
        } by {
            assert(groups[t]@ == if t == self.id {
                Seq::empty()
            } else {
                fresh(self.reported_set(), owned_part(done, config, t))
            });
            if t == target {
                let part = owned_part(done, config, t);
                assert(part.push(v).drop_last() =~= part);
                lemma_fresh(self.reported_set(), part);
                lemma_owned_part(done, config, t);
                assert(now.remote[v as int] == (self.remote[v as int] || done.contains(v)));
                assert(self.reported_set().contains(v) == self.remote[v as int]);
            }
        }
    }

    proof fn lemma_progress_end(
        self,
        now: ShardView,
        done: Seq<u32>,
        groups: Seq<Vec<u32>>,
        found: nat,
    )
        requires
            self.config is Some,
            done == self.reach(),
            self.progress(now, done, groups, found),
        ensures
            now.recounted(found) == self.expanded(),
            forall|t: int|
                0 <= t < self.config->Some_0.workers ==> #[trigger] groups[t]@
                    == self.discoveries_for(t),
    {
        assert(now.remote =~= self.expanded().remote);
    }
}

} // verus!
