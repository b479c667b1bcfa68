//! A worker: the owner of one contiguous range of nodes and of their rows.

pub mod bfs;
pub mod clustering;
pub mod deeds;
pub mod draws;
pub mod edges;
pub mod handle;
pub mod history;
pub mod jobs;
pub mod lattice;
pub mod outcome;
pub mod rewire;
pub mod searches;
pub mod ring;

use crate::partition;
use crate::protocol::{ClusterConfig, WorkerResponse};
use crate::rows;
use crate::sorted;
use crate::text;
use crate::circle;
use vstd::prelude::*;
use vstd::string::*;

verus! {

/// One worker's share of the graph and of a running search.
///
/// The rows hold the neighbors of the nodes `start..end`, each row ascending.
/// `remote_seen` keeps one bit per node of the whole graph: set once the node,
/// owned elsewhere, has been reported to its owner during the current search.
pub struct Worker {
    pub id: usize,
    pub config: Option<ClusterConfig>,
    pub start: u32,
    pub end: u32,
    pub adjacency: Vec<Vec<u32>>,
    pub visited: Vec<bool>,
    pub visited_count: u64,
    pub remote_seen: Vec<u64>,
    pub ring_intact: bool,
    pub frontier: Vec<u32>,
    pub next_frontier: Vec<u32>,
}

/// What a worker holds, as mathematical values.
pub struct ShardView {
    pub id: nat,
    pub config: Option<ClusterConfig>,
    pub start: int,
    pub end: int,
    pub rows: Seq<Seq<u32>>,
    pub visited: Seq<bool>,
    pub visited_count: nat,
    pub remote: Seq<bool>,
    pub ring_intact: bool,
    pub frontier: Seq<u32>,
    pub next_frontier: Seq<u32>,
}

/// The bit of node `v` in words of 64 bits, lowest bit first.
pub open spec fn bit_set(words: Seq<u64>, v: int) -> bool {
    words[v / 64] & (1u64 << ((v % 64) as u64)) != 0
}

/// All the bits of a sequence of words.
pub open spec fn remote_bits(words: Seq<u64>) -> Seq<bool> {
    Seq::new(words.len() * 64, |v: int| bit_set(words, v))
}

/// How many flags are set.
pub open spec fn set_count(flags: Seq<bool>) -> nat
    decreases flags.len(),
{
    if flags.len() == 0 {
        0
    } else {
        set_count(flags.drop_last()) + if flags.last() {
            1nat
        } else {
            0
        }
    }
}

/// The row is ascending and holds just the ring neighbors of `u`.
pub open spec fn is_ring_row(row: Seq<u32>, nodes: int, half: int, u: int) -> bool {
    &&& sorted::ascending(row)
    &&& forall|v: u32| #[trigger] row.contains(v) <==> circle::ring_link(nodes, half, u, v as int)
}

/// What is said where a worker is asked before it has built its shard.
pub open spec fn not_built_text() -> Seq<char> {
    "worker has not built a shard"@
}

/// What is said of a node that belongs to another worker.
pub open spec fn not_owned_text(id: nat, node: nat, start: nat, end: nat) -> Seq<char> {
    "worker "@ + text::decimal(id) + " does not own node "@ + text::decimal(node) + " (owns "@
        + text::decimal(start) + ".."@ + text::decimal(end) + ")"@
}

impl View for Worker {
    type V = ShardView;

    open spec fn view(&self) -> ShardView {
        ShardView {
            id: self.id as nat,
            config: self.config,
            start: self.start as int,
            end: self.end as int,
            rows: rows::seqs(self.adjacency@),
            visited: self.visited@,
            visited_count: self.visited_count as nat,
            remote: remote_bits(self.remote_seen@),
            ring_intact: self.ring_intact,
            frontier: self.frontier@,
            next_frontier: self.next_frontier@,
        }
    }
}

impl ShardView {
    /// The worker owns `node`.
    pub open spec fn owns(self, node: int) -> bool {
        self.start <= node < self.end
    }

    /// The row of a node that the worker owns.
    pub open spec fn row(self, node: int) -> Seq<u32> {
        self.rows[node - self.start]
    }

    /// The parts of a worker fit one another: its range is the one that its
    /// configuration gives it, there is one ascending row and one flag per node
    /// of the range, the running count does not run ahead of the flags set, both
    /// frontiers stay within the range, and a ring said to be intact is.
    pub open spec fn wf(self) -> bool {
        &&& 0 <= self.start <= self.end <= u32::MAX
        &&& self.rows.len() == self.end - self.start
        &&& self.visited.len() == self.end - self.start
        &&& self.visited_count <= set_count(self.visited)
        &&& forall|i: int|
            0 <= i < self.rows.len() ==> sorted::ascending(#[trigger] self.rows[i])
        &&& forall|i: int|
            0 <= i < self.frontier.len() ==> self.owns(#[trigger] self.frontier[i] as int)
        &&& forall|i: int|
            0 <= i < self.next_frontier.len() ==> self.owns(
                #[trigger] self.next_frontier[i] as int,
            )
        &&& self.ring_intact ==> self.holds_ring()
        &&& match self.config {
            None => self.start == 0 && self.end == 0,
            Some(config) => {
                &&& config.workers > 0
                &&& self.id < config.workers
                &&& self.start == partition::shard_start(
                    config.nodes as nat,
                    config.workers as nat,
                    self.id,
                )
                &&& self.end == partition::shard_start(
                    config.nodes as nat,
                    config.workers as nat,
                    self.id + 1,
                )
                &&& self.end <= config.nodes
            },
        }
    }

    /// The running count is the number of flags set.
    pub open spec fn counted(self) -> bool {
        self.visited_count == set_count(self.visited)
    }

    /// The rows are those of the untouched ring.
    pub open spec fn holds_ring(self) -> bool {
        self.config is Some && forall|i: int|
            0 <= i < self.rows.len() ==> is_ring_row(
                #[trigger] self.rows[i],
                self.config->Some_0.nodes as int,
                (self.config->Some_0.degree / 2) as int,
                self.start + i,
            )
    }
}

/// Ascending rows of 32-bit nodes hold at most `2^32` entries each.
pub proof fn lemma_total_bound(rows: Seq<Seq<u32>>)
    requires
        forall|i: int| 0 <= i < rows.len() ==> sorted::ascending(#[trigger] rows[i]),
    ensures
        rows::total(rows) <= rows.len() * 0x1_0000_0000,
    decreases rows.len(),
{
    if rows.len() > 0 {
        let shorter = rows.drop_last();
        assert forall|i: int| 0 <= i < shorter.len() implies sorted::ascending(
            #[trigger] shorter[i],
        ) by {
            assert(shorter[i] == rows[i]);
        }
        lemma_total_bound(shorter);
        assert(sorted::ascending(rows[rows.len() - 1]));
        sorted::lemma_ascending_len(rows.last(), 0x1_0000_0000);
    }
}

/// There are no more set flags than flags.
pub proof fn lemma_set_count_bound(flags: Seq<bool>)
    ensures
        set_count(flags) <= flags.len(),
    decreases flags.len(),
{
    if flags.len() > 0 {
        lemma_set_count_bound(flags.drop_last());
    }
}

/// Setting a flag that was clear raises the count by one.
pub proof fn lemma_set_count_update(flags: Seq<bool>, i: int)
    requires
        0 <= i < flags.len(),
        !flags[i],
    ensures
        set_count(flags.update(i, true)) == set_count(flags) + 1,
    decreases flags.len(),
{
    let changed = flags.update(i, true);
    if i == flags.len() - 1 {
        assert(changed.drop_last() =~= flags.drop_last());
    } else {
        assert(changed.drop_last() =~= flags.drop_last().update(i, true));
        lemma_set_count_update(flags.drop_last(), i);
    }
}

/// Clear flags count to zero.
pub proof fn lemma_set_count_clear(flags: Seq<bool>)
    requires
        forall|i: int| 0 <= i < flags.len() ==> !flags[i],
    ensures
        set_count(flags) == 0,
    decreases flags.len(),
{
    if flags.len() > 0 {
        lemma_set_count_clear(flags.drop_last());
    }
}

/// Counts the entries of all rows.
pub fn count_entries(adjacency: &Vec<Vec<u32>>) -> (entries: u64)
    requires
        adjacency@.len() <= u32::MAX,
        forall|i: int| 0 <= i < adjacency@.len() ==> sorted::ascending(#[trigger] adjacency@[i]@),
    ensures
        entries == rows::total(rows::seqs(adjacency@)),
{
    let ghost rows = rows::seqs(adjacency@);
    let mut entries: u64 = 0;
    let mut i: usize = 0;
    while i < adjacency.len()
        invariant
            i <= adjacency@.len() <= u32::MAX,
            rows == rows::seqs(adjacency@),
            forall|i: int| 0 <= i < rows.len() ==> sorted::ascending(#[trigger] rows[i]),
            entries == rows::total(rows.take(i as int)),
        decreases adjacency.len() - i,
    {
        proof {
            let longer = rows.take(i + 1);
            assert(longer =~= rows.take(i as int).push(rows[i as int]));
            rows::lemma_total_push(rows.take(i as int), rows[i as int]);
            lemma_total_bound(longer);
        }
        entries = entries + adjacency[i].len() as u64;
        i = i + 1;
    }
    assert(rows.take(i as int) =~= rows);
    entries
}

impl Worker {
    /// A worker that has not built a shard.
    pub fn new(id: usize) -> (worker: Worker)
        ensures
            worker@.wf(),
            worker@ == (ShardView {
                id: id as nat,
                config: None,
                start: 0,
                end: 0,
                rows: Seq::empty(),
                visited: Seq::empty(),
                visited_count: 0,
                remote: Seq::empty(),
                ring_intact: false,
                frontier: Seq::empty(),
                next_frontier: Seq::empty(),
            }),
    {
        let worker = Worker {
            id,
            config: None,
            start: 0,
            end: 0,
            adjacency: Vec::new(),
            visited: Vec::new(),
            visited_count: 0,
            remote_seen: Vec::new(),
            ring_intact: false,
            frontier: Vec::new(),
            next_frontier: Vec::new(),
        };
        assert(rows::seqs(worker.adjacency@) =~= Seq::empty());
        assert(remote_bits(worker.remote_seen@) =~= Seq::empty());
        worker
    }

    /// The configuration of the shard, if one has been built.
    pub fn config(&self) -> (config: Result<ClusterConfig, String>)
        ensures
            match config {
                Ok(config) => self.config == Some(config),
                Err(message) => self.config is None && message@ == not_built_text(),
            },
    {
        match self.config {
            Some(config) => Ok(config),
            None => Err("worker has not built a shard".to_owned()),
        }
    }

    /// Where the row of `node` stands among the worker's rows.
    pub fn local_index(&self, node: u32) -> (index: Result<usize, String>)
        ensures
            self@.owns(node as int) <==> index is Ok,
            match index {
                Ok(index) => index == node - self.start,
                Err(message) => message@ == not_owned_text(
                    self.id as nat,
                    node as nat,
                    self.start as nat,
                    self.end as nat,
                ),
            },
    {
        if node < self.start || node >= self.end {
            let mut message = text::numbered("worker ", self.id as u64, " does not own node ");
            text::push_decimal(&mut message, node as u64);
            message.append(" (owns ");
            text::push_decimal(&mut message, self.start as u64);
            message.append("..");
            text::push_decimal(&mut message, self.end as u64);
            message.append(")");
            return Err(message);
        }
        Ok((node - self.start) as usize)
    }

    /// Whether `b` is a neighbor of `a`, which the worker must own.
    pub fn contains_edge(&self, a: u32, b: u32) -> (linked: Result<bool, String>)
        requires
            self@.wf(),
        ensures
            self@.owns(a as int) <==> linked is Ok,
            match linked {
                Ok(linked) => linked == self@.row(a as int).contains(b),
                Err(message) => message@ == not_owned_text(
                    self.id as nat,
                    a as nat,
                    self.start as nat,
                    self.end as nat,
                ),
            },
    {
        let index: usize = match self.local_index(a) {
            Ok(index) => index,
            Err(message) => return Err(message),
        };
        assert(sorted::ascending(self@.rows[index as int]));
        Ok(sorted::search(&self.adjacency[index], b).is_ok())
    }

    /// Adds a neighbor to an ascending row; says whether it was absent.
    pub fn insert_neighbor(neighbors: &mut Vec<u32>, node: u32) -> (changed: bool)
        requires
            sorted::ascending(old(neighbors)@),
        ensures
            changed == !old(neighbors)@.contains(node),
            final(neighbors)@ == if changed {
                sorted::with_node(old(neighbors)@, node)
            } else {
                old(neighbors)@
            },
            forall|x: u32| #[trigger]
                final(neighbors)@.contains(x) <==> x == node || old(neighbors)@.contains(x),
            sorted::ascending(final(neighbors)@),
    {
        proof {
            if !neighbors@.contains(node) {
                sorted::lemma_with_node(neighbors@, node);
            }
        }
        sorted::insert_node(neighbors, node)
    }

    /// Removes a neighbor from an ascending row; says whether it was present.
    pub fn remove_neighbor(neighbors: &mut Vec<u32>, node: u32) -> (changed: bool)
        requires
            sorted::ascending(old(neighbors)@),
        ensures
            changed == old(neighbors)@.contains(node),
            final(neighbors)@ == if changed {
                sorted::without_node(old(neighbors)@, node)
            } else {
                old(neighbors)@
            },
            forall|x: u32| #[trigger]
                final(neighbors)@.contains(x) <==> x != node && old(neighbors)@.contains(x),
            sorted::ascending(final(neighbors)@),
    {
        proof {
            if neighbors@.contains(node) {
                sorted::lemma_without_node(neighbors@, node);
            }
        }
        sorted::remove_node(neighbors, node)
    }

    /// The number of nodes and of row entries that the worker holds.
    pub fn graph_stats(&self) -> (stats: WorkerResponse)
        requires
            self@.wf(),
        ensures
            self@.stats_outcome(stats),
    {
        proof {
            assert forall|i: int| 0 <= i < self.adjacency@.len() implies sorted::ascending(
                #[trigger] self.adjacency@[i]@,
            ) by {
                assert(sorted::ascending(self@.rows[i]));
            }
            lemma_total_bound(self@.rows);
        }
        WorkerResponse::GraphStats {
            local_nodes: self.end - self.start,
            adjacency_entries: count_entries(&self.adjacency),
        }
    }
}

} // verus!
