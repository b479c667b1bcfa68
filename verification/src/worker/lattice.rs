//! Building a worker's share of the ring.

use super::Worker;
use crate::partition;
use crate::protocol::{ClusterConfig, WorkerResponse};
use crate::sorted;
use crate::circle;
use vstd::prelude::*;

verus! {

/// What is said of a worker count or worker number that fits no shard.
pub open spec fn bad_worker_text() -> Seq<char> {
    "invalid worker count or worker id"@
}

/// The worker's number is one of the configuration's.
pub open spec fn fits(id: nat, config: ClusterConfig) -> bool {
    config.workers > 0 && id < config.workers
}

/// The row so far holds the ring neighbors within `reach` steps.
spec fn partial_row(row: Seq<u32>, nodes: int, reach: int, u: int) -> bool {
    &&& sorted::ascending(row)
    &&& forall|v: u32| #[trigger] row.contains(v) <==> circle::ring_link(nodes, reach, u, v as int)
}

proof fn lemma_ring_link_step(nodes: int, reach: int, u: int, v: int)
    requires
        reach >= 0,
    ensures
        circle::ring_link(nodes, reach + 1, u, v) <==> circle::ring_link(nodes, reach, u, v)
            || circle::ring_apart(nodes, u, v, reach + 1),
{
    if circle::ring_link(nodes, reach + 1, u, v) {
        let offset = choose|offset: int|
            1 <= offset <= reach + 1 && #[trigger] circle::ring_apart(nodes, u, v, offset);
        if offset <= reach {
            assert(circle::ring_link(nodes, reach, u, v));
        }
    }
    if circle::ring_link(nodes, reach, u, v) {
        let offset = choose|offset: int|
            1 <= offset <= reach && #[trigger] circle::ring_apart(nodes, u, v, offset);
        assert(1 <= offset <= reach + 1);
    }
}

/// The ring neighbors of `u`, ascending.
fn ring_row(u: u32, nodes: u32, half: u32) -> (row: Vec<u32>)
    requires
        u < nodes,
        half <= u + nodes,
    ensures
        super::is_ring_row(row@, nodes as int, half as int, u as int),
{
    let mut row: Vec<u32> = Vec::with_capacity(half as usize);
    let n: u64 = nodes as u64;
    let mut reach: u32 = 0;
    proof {
        assert forall|v: u32| #[trigger] row@.contains(v) <==> circle::ring_link(
            nodes as int,
            0,
            u as int,
            v as int,
        ) by {}
    }
    while reach < half
        invariant
            reach <= half,
            u < nodes,
            half <= u + nodes,
            n == nodes,
            partial_row(row@, nodes as int, reach as int, u as int),
        decreases half - reach,
    {
        let ghost before = row@;
        let offset: u64 = reach as u64 + 1;
        let ahead: u32 = ((u as u64 + offset) % n) as u32;
        let behind: u32 = ((u as u64 + n - offset) % n) as u32;
        proof {
            assert(ahead == circle::ring_step(nodes as int, u as int, reach + 1));
            assert(behind == circle::ring_step(nodes as int, u as int, nodes - (reach + 1)));
            if !before.contains(ahead) {
                sorted::lemma_with_node(before, ahead);
            }
        }
        Worker::insert_neighbor(&mut row, ahead);
        let ghost between = row@;
        proof {
            assert(sorted::ascending(between));
            if !between.contains(behind) {
                sorted::lemma_with_node(between, behind);
            }
        }
        Worker::insert_neighbor(&mut row, behind);
        proof {
            assert forall|v: u32| #[trigger] row@.contains(v) <==> circle::ring_link(
                nodes as int,
                reach + 1,
                u as int,
                v as int,
            ) by {
                lemma_ring_link_step(nodes as int, reach as int, u as int, v as int);
                assert(before.contains(v) <==> circle::ring_link(
                    nodes as int,
                    reach as int,
                    u as int,
                    v as int,
                ));
                assert(between.contains(v) <==> before.contains(v) || v == ahead);
            }
        }
        reach = reach + 1;
    }
    row
}

impl Worker {
    /// Builds the worker's share of the ring in which every node is linked to
    /// the `degree / 2` nodes on either side. Whatever the worker held before is
    /// replaced, but for the record of remote nodes reported, which the next
    /// search clears.
    pub fn build(&mut self, config: ClusterConfig) -> (built: Result<WorkerResponse, String>)
        requires
            old(self)@.wf(),
            old(self)@.buildable(config),
        ensures
            old(self)@.build_outcome(config, built, final(self)@),
            final(self)@.wf(),
    {
        if config.workers == 0 || self.id >= config.workers as usize {
            return Err("invalid worker count or worker id".to_owned());
        }
        let id: u64 = self.id as u64;
        proof {
            partition::lemma_shard_bounds(config.nodes as nat, config.workers as nat, id as nat);
            assert(config.nodes * id <= u32::MAX * u32::MAX) by (nonlinear_arith)
                requires
                    config.nodes <= u32::MAX,
                    id <= u32::MAX,
            ;
            assert(config.nodes * (id + 1) <= u32::MAX * u32::MAX) by (nonlinear_arith)
                requires
                    config.nodes <= u32::MAX,
                    id + 1 <= u32::MAX,
            ;
        }
        let start: u32 = ((config.nodes as u64 * id) / config.workers as u64) as u32;
        let end: u32 = ((config.nodes as u64 * (id + 1)) / config.workers as u64) as u32;
        let half: u32 = config.degree / 2;
        let count: usize = (end - start) as usize;
        let mut adjacency: Vec<Vec<u32>> = Vec::with_capacity(count);
        let mut visited: Vec<bool> = Vec::with_capacity(count);
        let mut u: u32 = start;
        while u < end
            invariant
                start <= u <= end <= config.nodes,
                start < end ==> half <= start + config.nodes,
                adjacency@.len() == u - start,
                visited@.len() == u - start,
                forall|i: int|
                    0 <= i < adjacency@.len() ==> super::is_ring_row(
                        #[trigger] adjacency@[i]@,
                        config.nodes as int,
                        half as int,
                        start + i,
                    ),
                forall|i: int| 0 <= i < visited@.len() ==> !visited@[i],
            decreases end - u,
        {
            adjacency.push(ring_row(u, config.nodes, half));
            visited.push(false);
            u = u + 1;
        }
        let entries: u64 = super::count_entries(&adjacency);
        self.config = Some(config);
        self.start = start;
        self.end = end;
        self.visited = visited;
        self.visited_count = 0;
        self.ring_intact = true;
        self.adjacency = adjacency;
        self.frontier.clear();
        self.next_frontier.clear();
        proof {
            super::lemma_set_count_clear(self@.visited);
            assert forall|i: int| 0 <= i < self@.rows.len() implies super::is_ring_row(
                #[trigger] self@.rows[i],
                config.nodes as int,
                half as int,
                start + i,
            ) by {
                assert(self@.rows[i] == self.adjacency@[i]@);
            }
        }
        Ok(WorkerResponse::Built { local_nodes: end - start, adjacency_entries: entries })
    }
}

} // verus!
