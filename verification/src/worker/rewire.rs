//! One worker's rewiring pass over the ring edges that start in its range.

use super::{ShardView, Worker};
use crate::batches::{Batches, Waiting};
use crate::batches;
use crate::partition;
use crate::probability::Probability;
use crate::protocol::{ClusterConfig, Mutation, WorkerResponse};
use crate::random::{draw_below, flip, seed_rng, splitmix64};
use crate::random;
use crate::sorted;
use crate::text;
use rand::distributions::Bernoulli;
use rand_chacha::ChaCha8Rng;
use crate::circle;
use vstd::prelude::*;
use vstd::string::*;

verus! {

/// How many times a target is drawn at random before the nodes are searched in order.
pub const TARGET_DRAWS: u32 = 64;

/// `candidate` may become the new neighbor of `u` in place of `old_v`.
pub open spec fn eligible(
    candidate: u32,
    u: u32,
    old_v: u32,
    row: Seq<u32>,
    nodes: u32,
) -> bool {
    candidate < nodes && candidate != u && candidate != old_v && !row.contains(candidate)
}

/// The first eligible node among `draws` random ones, and the generator after it was drawn.
pub open spec fn drawn_target(
    rng: ChaCha8Rng,
    u: u32,
    old_v: u32,
    row: Seq<u32>,
    nodes: u32,
    draws: nat,
) -> (Option<u32>, ChaCha8Rng)
    decreases draws,
{
    if draws == 0 {
        (None, rng)
    } else {
        let (candidate, next) = random::below(rng, nodes);
        if eligible(candidate, u, old_v, row, nodes) {
            (Some(candidate), next)
        } else {
            drawn_target(next, u, old_v, row, nodes, (draws - 1) as nat)
        }
    }
}

/// The smallest eligible node from `from` on.
pub open spec fn smallest_target(
    u: u32,
    old_v: u32,
    row: Seq<u32>,
    nodes: u32,
    from: int,
) -> Option<u32>
    decreases nodes - from,
{
    if from >= nodes {
        None
    } else if eligible(from as u32, u, old_v, row, nodes) {
        Some(from as u32)
    } else {
        smallest_target(u, old_v, row, nodes, from + 1)
    }
}

/// The new neighbor of `u` in place of `old_v`, and the generator after the choice:
/// none where every other node is a neighbor already, else an eligible node
/// drawn at random, or the smallest one where too many draws failed.
pub open spec fn target_choice(
    rng: ChaCha8Rng,
    u: u32,
    old_v: u32,
    row: Seq<u32>,
    nodes: u32,
) -> (Option<u32>, ChaCha8Rng) {
    if row.len() + 1 >= nodes {
        (None, rng)
    } else {
        let (drawn, after) = drawn_target(rng, u, old_v, row, nodes, TARGET_DRAWS as nat);
        match drawn {
            Some(w) => (Some(w), after),
            None => (smallest_target(u, old_v, row, nodes, 0), after),
        }
    }
}

/// A node that was chosen is eligible.
pub proof fn lemma_target_choice(
    rng: ChaCha8Rng,
    u: u32,
    old_v: u32,
    row: Seq<u32>,
    nodes: u32,
)
    ensures
        target_choice(rng, u, old_v, row, nodes).0 is Some ==> eligible(
            target_choice(rng, u, old_v, row, nodes).0->Some_0,
            u,
            old_v,
            row,
            nodes,
        ),
{
    lemma_drawn_target(rng, u, old_v, row, nodes, TARGET_DRAWS as nat);
    lemma_smallest_target(u, old_v, row, nodes, 0);
}

proof fn lemma_drawn_target(
    rng: ChaCha8Rng,
    u: u32,
    old_v: u32,
    row: Seq<u32>,
    nodes: u32,
    draws: nat,
)
    ensures
        drawn_target(rng, u, old_v, row, nodes, draws).0 is Some ==> eligible(
            drawn_target(rng, u, old_v, row, nodes, draws).0->Some_0,
            u,
            old_v,
            row,
            nodes,
        ),
    decreases draws,
{
    if draws > 0 {
        let (candidate, next) = random::below(rng, nodes);
        lemma_drawn_target(next, u, old_v, row, nodes, (draws - 1) as nat);
    }
}

proof fn lemma_smallest_target(u: u32, old_v: u32, row: Seq<u32>, nodes: u32, from: int)
    requires
        0 <= from,
    ensures
        match smallest_target(u, old_v, row, nodes, from) {
            Some(w) => eligible(w, u, old_v, row, nodes),
            None => forall|w: u32|
                from <= w < nodes ==> !#[trigger] eligible(w, u, old_v, row, nodes),
        },
    decreases nodes - from,
{
    if from < nodes {
        lemma_smallest_target(u, old_v, row, nodes, from + 1);
        if smallest_target(u, old_v, row, nodes, from) is None {
            assert forall|w: u32| from <= w < nodes implies !#[trigger] eligible(
                w,
                u,
                old_v,
                row,
                nodes,
            ) by {
                if w == from {
                    assert(!eligible(from as u32, u, old_v, row, nodes));
                }
            }
        }
    }
}

/// A set that holds every node below `m` holds at least `m` nodes.
proof fn lemma_covers(nodes: Set<u32>, m: nat)
    requires
        nodes.finite(),
        m <= u32::MAX,
        forall|w: u32| w < m ==> nodes.contains(w),
    ensures
        nodes.len() >= m,
    decreases m,
{
    if m > 0 {
        lemma_covers(nodes.remove((m - 1) as u32), (m - 1) as nat);
    }
}

/// A neighbor can be replaced as long as one node is left that is neither the
/// node itself nor a neighbor of it.
pub proof fn lemma_target_exists(
    rng: ChaCha8Rng,
    u: u32,
    old_v: u32,
    row: Seq<u32>,
    nodes: u32,
)
    requires
        sorted::ascending(row),
        row.contains(old_v),
        row.len() + 1 < nodes,
    ensures
        target_choice(rng, u, old_v, row, nodes).0 is Some,
{
    lemma_smallest_target(u, old_v, row, nodes, 0);
    if smallest_target(u, old_v, row, nodes, 0) is None {
        row.unique_seq_to_set();
        vstd::seq_lib::seq_to_set_is_finite(row);
        let taken = row.to_set().insert(u);
        assert forall|w: u32| w < nodes implies taken.contains(w) by {
            assert(!eligible(w, u, old_v, row, nodes));
        }
        lemma_covers(taken, nodes as nat);
    }
}

/// What is said where a mutation finds nothing to change.
pub open spec fn not_applicable_text(mutation: Mutation) -> Seq<char> {
    "mutation was not applicable: node="@ + text::decimal(mutation.node as nat) + ", other="@
        + text::decimal(mutation.other as nat) + ", add="@ + if mutation.add {
        "true"@
    } else {
        "false"@
    }
}

/// What is said where an edge to be rewired is not there.
pub open spec fn broken_edge_text(u: u32, v: u32, w: u32) -> Seq<char> {
    "rewiring invariant failed for ("@ + text::decimal(u as nat) + ", "@ + text::decimal(v as nat)
        + ") -> ("@ + text::decimal(u as nat) + ", "@ + text::decimal(w as nat) + ")"@
}

/// The row can take the mutation: it holds a neighbor to be removed, or lacks one to be added.
pub open spec fn applicable(row: Seq<u32>, mutation: Mutation) -> bool {
    mutation.add == !row.contains(mutation.other)
}

/// The row after a mutation that it can take.
pub open spec fn mutated(row: Seq<u32>, mutation: Mutation) -> Seq<u32> {
    if mutation.add {
        sorted::with_node(row, mutation.other)
    } else {
        sorted::without_node(row, mutation.other)
    }
}

/// The change of the far row when `u` lets go of its neighbor `v`.
pub open spec fn release(u: u32, v: u32) -> Mutation {
    Mutation { node: v, other: u, add: false }
}

/// The change of the far row when `u` takes `w` as a neighbor.
pub open spec fn attach(u: u32, w: u32) -> Mutation {
    Mutation { node: w, other: u, add: true }
}

/// How far a rewiring pass has come.
///
/// `outbox` lists every mutation meant for another worker, in order; part of
/// them has been `sent`, the rest is `waiting`.
pub struct PassState {
    pub rows: Seq<Seq<u32>>,
    pub intact: bool,
    pub outbox: Seq<Mutation>,
    pub waiting: Waiting<Mutation>,
    pub sent: Seq<(u32, Seq<Mutation>)>,
    pub rewired: nat,
    pub failure: Option<Seq<char>>,
}

impl ShardView {
    /// Half the ring degree: the edges that start in each node.
    pub open spec fn half(self) -> int {
        (self.config->Some_0.degree / 2) as int
    }

    /// The ring edges that start in the worker's range.
    pub open spec fn edge_total(self) -> int {
        (self.end - self.start) * self.half()
    }

    /// The node that edge `k` of the pass starts in.
    pub open spec fn edge_from(self, k: int) -> u32 {
        (self.start + k / self.half()) as u32
    }

    /// The node that edge `k` of the pass led to in the ring.
    pub open spec fn edge_to(self, k: int) -> u32 {
        circle::ring_step(
            self.config->Some_0.nodes as int,
            self.edge_from(k) as int,
            k % self.half() + 1,
        ) as u32
    }

    /// The number of edge `k` of the pass among the edges of the whole ring.
    pub open spec fn edge_number(self, k: int) -> u64 {
        (self.start * self.half() + k) as u64
    }

    /// The worker that owns `node`.
    pub open spec fn owner(self, node: u32) -> int {
        partition::owner_of(
            node as int,
            self.config->Some_0.nodes as nat,
            self.config->Some_0.workers as nat,
        )
    }

    /// Brings a mutation to its row: at once where the worker owns the row, else
    /// by queuing it for the owner.
    pub open spec fn deliver(self, state: PassState, mutation: Mutation) -> PassState {
        if state.failure is Some {
            state
        } else if self.owns(mutation.node as int) {
            let at = mutation.node - self.start;
            if applicable(state.rows[at], mutation) {
                PassState {
                    rows: state.rows.update(at, mutated(state.rows[at], mutation)),
                    intact: false,
                    ..state
                }
            } else {
                PassState { failure: Some(not_applicable_text(mutation)), ..state }
            }
        } else {
            let target = self.owner(mutation.node);
            PassState {
                outbox: state.outbox.push(mutation),
                waiting: state.waiting.queue(target, mutation),
                sent: state.sent + state.waiting.sends(target, mutation),
                ..state
            }
        }
    }

    /// Replaces the neighbor `v` of `u` by `w`.
    pub open spec fn redirect(self, state: PassState, u: u32, v: u32, w: u32) -> PassState {
        let at = u - self.start;
        let row = state.rows[at];
        if !row.contains(v) {
            PassState { failure: Some(broken_edge_text(u, v, w)), ..state }
        } else {
            let moved = PassState {
                rows: state.rows.update(
                    at,
                    sorted::with_node(sorted::without_node(row, v), w),
                ),
                intact: false,
                ..state
            };
            let told = self.deliver(self.deliver(moved, release(u, v)), attach(u, w));
            if told.failure is Some {
                told
            } else {
                PassState { rewired: told.rewired + 1, ..told }
            }
        }
    }

    /// The new end of edge `k`, if the draw says that it gets one.
    pub open spec fn edge_choice(
        self,
        rows: Seq<Seq<u32>>,
        chance: Bernoulli,
        seed: u64,
        k: int,
    ) -> Option<u32> {
        let u = self.edge_from(k);
        let (heads, rng) = random::coin(
            random::seeded(random::mixed(seed ^ self.edge_number(k))),
            chance,
        );
        if heads {
            target_choice(
                rng,
                u,
                self.edge_to(k),
                rows[u - self.start],
                self.config->Some_0.nodes,
            ).0
        } else {
            None
        }
    }

    /// Considers edge `k` of the pass. A failed pass stays as it is.
    pub open spec fn consider(
        self,
        state: PassState,
        chance: Bernoulli,
        seed: u64,
        k: int,
    ) -> PassState {
        if state.failure is Some {
            state
        } else {
            match self.edge_choice(state.rows, chance, seed, k) {
                None => state,
                Some(w) => self.redirect(state, self.edge_from(k), self.edge_to(k), w),
            }
        }
    }

    /// Considers the edges `from..to` of the pass, one after the other.
    pub open spec fn run(
        self,
        state: PassState,
        chance: Bernoulli,
        seed: u64,
        from: int,
        to: int,
    ) -> PassState
        decreases to - from,
    {
        if from >= to {
            state
        } else {
            self.consider(self.run(state, chance, seed, from, to - 1), chance, seed, to - 1)
        }
    }

    /// Before the first edge.
    pub open spec fn pass_start(self) -> PassState {
        PassState {
            rows: self.rows,
            intact: self.ring_intact,
            outbox: Seq::empty(),
            waiting: Waiting::none(self.config->Some_0.workers as nat),
            sent: Seq::empty(),
            rewired: 0,
            failure: None,
        }
    }

    /// After the last edge, or after the one that failed.
    pub open spec fn pass_end(self, chance: Bernoulli, seed: u64) -> PassState {
        self.run(self.pass_start(), chance, seed, 0, self.edge_total())
    }

    /// The worker with the rows of a pass.
    pub open spec fn with_rows(self, rows: Seq<Seq<u32>>, intact: bool) -> ShardView {
        ShardView { rows: rows, ring_intact: intact, ..self }
    }

    /// The pass fits the worker, and its edges can be drawn for.
    pub open spec fn fits_pass(self, pass: RewirePass) -> bool {
        &&& self.config is Some
        &&& pass.position <= self.edge_total()
        &&& pass.batches@.wf()
        &&& pass.batches@.groups.len() == self.config->Some_0.workers
        &&& pass.rewired <= pass.position
        &&& pass.probability.chance is Some || pass.probability.zero() || self.edge_total() == 0
    }

    /// Where a pass stands that goes on from here.
    pub open spec fn resumed(self, pass: RewirePass) -> PassState {
        PassState {
            rows: self.rows,
            intact: self.ring_intact,
            outbox: Seq::empty(),
            waiting: pass.batches@,
            sent: Seq::empty(),
            rewired: pass.rewired as nat,
            failure: None,
        }
    }
}

/// A rewiring pass that can be left between edges and taken up again.
///
/// `position` counts the edges considered, `rewired` those that got a new end.
pub struct RewirePass {
    pub probability: Probability,
    pub seed: u64,
    pub position: u64,
    pub rewired: u64,
    pub batches: Batches<Mutation>,
}

/// What one leg of a rewiring pass brought: batches for other workers, and the
/// summary once the pass has come to its end.
pub struct RewireLeg {
    pub sent: Vec<(u32, Vec<Mutation>)>,
    pub outcome: Result<Option<WorkerResponse>, String>,
}

/// The response carries the batch.
pub open spec fn carries_mutations(response: WorkerResponse, batch: (u32, Seq<Mutation>)) -> bool {
    match response {
        WorkerResponse::RewireMutations { target, mutations } => target == batch.0 && mutations@
            == batch.1,
        _ => false,
    }
}

/// The responses from `skip` on carry the batches, in order.
pub open spec fn carry_mutations(
    responses: Seq<WorkerResponse>,
    skip: int,
    sent: Seq<(u32, Seq<Mutation>)>,
) -> bool {
    &&& responses.len() == skip + sent.len()
    &&& forall|i: int|
        0 <= i < sent.len() ==> carries_mutations(responses[skip + i], #[trigger] sent[i])
}

/// Turns batches into the responses that carry them.
pub fn mutation_responses(
    sent: Vec<(u32, Vec<Mutation>)>,
    output: &mut Vec<WorkerResponse>,
)
    ensures
        final(output)@.take(old(output)@.len() as int) == old(output)@,
        carry_mutations(final(output)@, old(output)@.len() as int, batches::sent_seqs(sent@)),
{
    let ghost before = output@;
    let ghost batches = batches::sent_seqs(sent@);
    let mut rest = sent;
    let mut i: usize = 0;
    assert(output@.take(before.len() as int) =~= before);
    while i < rest.len()
        invariant
            i <= rest@.len(),
            rest@.len() == sent@.len(),
            forall|j: int| i <= j < rest@.len() ==> #[trigger] rest@[j] == sent@[j],
            batches == batches::sent_seqs(sent@),
            output@.len() == before.len() + i,
            output@.take(before.len() as int) == before,
            forall|j: int|
                0 <= j < i ==> carries_mutations(
                    output@[before.len() + j],
                    #[trigger] batches[j],
                ),
        decreases rest@.len() - i,
    {
        let ghost written = output@;
        assert(rest@[i as int] == sent@[i as int]);
        let target: u32 = rest[i].0;
        let mut mutations: Vec<Mutation> = Vec::new();
        std::mem::swap(&mut mutations, &mut rest[i].1);
        output.push(WorkerResponse::RewireMutations { target, mutations });
        assert(output@.take(before.len() as int) =~= written.take(before.len() as int));
        i = i + 1;
    }
}

/// An edge of the pass starts in a node of the worker's own.
pub proof fn lemma_edge(shard: ShardView, k: int)
    requires
        shard.wf(),
        shard.config is Some,
        0 <= k < shard.edge_total(),
    ensures
        shard.half() > 0,
        0 <= k / shard.half() < shard.end - shard.start,
        0 <= k % shard.half() < shard.half(),
        shard.owns(shard.start + k / shard.half()),
        shard.edge_from(k) == shard.start + k / shard.half(),
        shard.edge_to(k) < shard.config->Some_0.nodes,
        shard.edge_number(k) == shard.edge_from(k) * shard.half() + k % shard.half(),
        shard.edge_number(k) == shard.start * shard.half() + k,
        shard.edge_total() <= 0x7fff_ffff * 0xffff_ffff,
{
    let half = shard.half();
    let size = shard.end - shard.start;
    assert(half > 0) by (nonlinear_arith)
        requires
            0 < size * half,
            half >= 0,
            size >= 0,
    ;
    vstd::arithmetic::div_mod::lemma_fundamental_div_mod(k, half);
    vstd::arithmetic::div_mod::lemma_div_pos_is_pos(k, half);
    let q = k / half;
    assert(q < size) by (nonlinear_arith)
        requires
            half * q <= k,
            k < size * half,
            half > 0,
    ;
    assert((shard.start + q) * half == shard.start * half + half * q) by (nonlinear_arith);
    assert(0 <= shard.start * half + k) by (nonlinear_arith)
        requires
            shard.start >= 0,
            half >= 0,
            k >= 0,
    ;
    assert(shard.start * half + k < shard.end * half) by (nonlinear_arith)
        requires
            k < (shard.end - shard.start) * half,
    ;
    assert(shard.end * half <= 0xffff_ffff * 0x7fff_ffff) by (nonlinear_arith)
        requires
            0 <= shard.end <= 0xffff_ffff,
            0 <= half <= 0x7fff_ffff,
    ;
    assert(size * half <= 0xffff_ffff * 0x7fff_ffff) by (nonlinear_arith)
        requires
            0 <= size <= 0xffff_ffff,
            0 <= half <= 0x7fff_ffff,
    ;
}

/// The edges of the pass can be counted.
pub proof fn lemma_edge_total(shard: ShardView)
    requires
        shard.wf(),
    ensures
        0 <= shard.edge_total() <= 0x7fff_ffff * 0xffff_ffff,
{
    let half = shard.half();
    let size = shard.end - shard.start;
    assert(0 <= size * half <= 0xffff_ffff * 0x7fff_ffff) by (nonlinear_arith)
        requires
            0 <= size <= 0xffff_ffff,
            0 <= half <= 0x7fff_ffff,
    ;
}

impl Worker {
    /// Picks the new neighbor of `u` in place of `old_v`.
    pub fn choose_target(
        &self,
        rng: &mut ChaCha8Rng,
        u: u32,
        old_v: u32,
        neighbors: &Vec<u32>,
        nodes: u32,
    ) -> (target: Option<u32>)
        requires
            sorted::ascending(neighbors@),
        ensures
            (target, *final(rng)) == target_choice(*old(rng), u, old_v, neighbors@, nodes),
            target is Some ==> eligible(target->Some_0, u, old_v, neighbors@, nodes),
    {
        if neighbors.len() >= nodes as usize || neighbors.len() + 1 >= nodes as usize {
            return None;
        }
        let ghost start = *rng;
        let mut draws: u32 = 0;
        while draws < TARGET_DRAWS
            invariant
                draws <= TARGET_DRAWS,
                nodes > 0,
                sorted::ascending(neighbors@),
                drawn_target(start, u, old_v, neighbors@, nodes, TARGET_DRAWS as nat)
                    == drawn_target(
                    *rng,
                    u,
                    old_v,
                    neighbors@,
                    nodes,
                    (TARGET_DRAWS - draws) as nat,
                ),
                start == *old(rng),
                neighbors@.len() + 1 < nodes,
            decreases TARGET_DRAWS - draws,
        {
            let candidate: u32 = draw_below(rng, nodes);
            if candidate != u && candidate != old_v && sorted::search(
                neighbors,
                candidate,
            ).is_err() {
                return Some(candidate);
            }
            draws = draws + 1;
        }
        let mut candidate: u32 = 0;
        while candidate < nodes
            invariant
                candidate <= nodes,
                sorted::ascending(neighbors@),
                smallest_target(u, old_v, neighbors@, nodes, 0) == smallest_target(
                    u,
                    old_v,
                    neighbors@,
                    nodes,
                    candidate as int,
                ),
                drawn_target(start, u, old_v, neighbors@, nodes, TARGET_DRAWS as nat) == (
                    None::<u32>,
                    *rng,
                ),
                start == *old(rng),
                neighbors@.len() + 1 < nodes,
            decreases nodes - candidate,
        {
            if candidate != u && candidate != old_v && sorted::search(
                neighbors,
                candidate,
            ).is_err() {
                return Some(candidate);
            }
            candidate = candidate + 1;
        }
        None
    }

    /// Changes one row as the mutation says.
    pub fn apply_one_mutation(&mut self, mutation: Mutation) -> (answer: Result<(), String>)
        requires
            old(self)@.wf(),
        ensures
            old(self)@.one_mutation_outcome(mutation, answer, final(self)@),
            final(self)@.wf(),
    {
        let ghost before = self@;
        let index: usize = match self.local_index(mutation.node) {
            Ok(index) => index,
            Err(message) => return Err(message),
        };
        assert(sorted::ascending(before.rows[index as int]));
        proof {
            if mutation.add && !before.rows[index as int].contains(mutation.other) {
                sorted::lemma_with_node(before.rows[index as int], mutation.other);
            }
            if !mutation.add && before.rows[index as int].contains(mutation.other) {
                sorted::lemma_without_node(before.rows[index as int], mutation.other);
            }
        }
        let changed = if mutation.add {
            Self::insert_neighbor(&mut self.adjacency[index], mutation.other)
        } else {
            Self::remove_neighbor(&mut self.adjacency[index], mutation.other)
        };
        if !changed {
            assert(self@.rows =~= before.rows);
            let mut message = text::numbered(
                "mutation was not applicable: node=",
                mutation.node as u64,
                ", other=",
            );
            text::push_decimal(&mut message, mutation.other as u64);
            message.append(", add=");
            if mutation.add {
                message.append("true");
            } else {
                message.append("false");
            }
            return Err(message);
        }
        self.ring_intact = false;
        assert(self@.rows =~= before.rows.update(
            index as int,
            mutated(before.rows[index as int], mutation),
        ));
        Ok(())
    }

    /// Delivers a mutation of a rewiring pass.
    fn deliver(
        &mut self,
        mutation: Mutation,
        config: ClusterConfig,
        waiting: &mut Batches<Mutation>,
        sent: &mut Vec<(u32, Vec<Mutation>)>,
        Ghost(base): Ghost<ShardView>,
        Ghost(state): Ghost<PassState>,
    ) -> (answer: Result<(), String>)
        requires
            base.wf(),
            base.config == Some(config),
            mutation.node < config.nodes,
            old(self)@ == base.with_rows(state.rows, state.intact),
            old(self)@.wf(),
            old(waiting)@ == state.waiting,
            old(waiting)@.wf(),
            old(waiting)@.groups.len() == config.workers,
            batches::sent_seqs(old(sent)@) == state.sent,
            state.failure is None,
        ensures
            ({
                let after = base.deliver(state, mutation);
                &&& final(self)@ == base.with_rows(after.rows, after.intact)
                &&& final(self)@.wf()
                &&& final(waiting)@ == after.waiting
                &&& final(waiting)@.wf()
                &&& final(waiting)@.groups.len() == config.workers
                &&& batches::sent_seqs(final(sent)@) == after.sent
                &&& match answer {
                    Ok(_) => after.failure is None,
                    Err(message) => after.failure == Some(message@),
                }
            }),
    {
        let target: usize = partition::owner(mutation.node, config.nodes, config.workers);
        proof {
            super::bfs::lemma_own(base, mutation.node as int);
        }
        if target == self.id {
            self.apply_one_mutation(mutation)
        } else {
            waiting.add_item(target, mutation, sent);
            Ok(())
        }
    }

    /// Considers the next edge of a pass.
    fn rewire_edge(
        &mut self,
        pass: &mut RewirePass,
        sent: &mut Vec<(u32, Vec<Mutation>)>,
        Ghost(base): Ghost<ShardView>,
        Ghost(state): Ghost<PassState>,
    ) -> (answer: Result<(), String>)
        requires
            base.wf(),
            base.config is Some,
            old(self)@ == base.with_rows(state.rows, state.intact),
            old(self)@.wf(),
            base.fits_pass(*old(pass)),
            old(pass).position < base.edge_total(),
            old(pass).probability.chance is Some,
            old(pass).batches@ == state.waiting,
            old(pass).rewired == state.rewired,
            batches::sent_seqs(old(sent)@) == state.sent,
            state.failure is None,
        ensures
            ({
                let after = base.consider(
                    state,
                    old(pass).probability.chance->Some_0,
                    old(pass).seed,
                    old(pass).position as int,
                );
                &&& final(self)@ == base.with_rows(after.rows, after.intact)
                &&& final(self)@.wf()
                &&& final(pass).probability == old(pass).probability
                &&& final(pass).seed == old(pass).seed
                &&& final(pass).position == old(pass).position + 1
                &&& final(pass).rewired == after.rewired
                &&& final(pass).batches@ == after.waiting
                &&& base.fits_pass(*final(pass))
                &&& batches::sent_seqs(final(sent)@) == after.sent
                &&& match answer {
                    Ok(_) => after.failure is None,
                    Err(message) => after.failure == Some(message@),
                }
            }),
    {
        let config = match self.config {
            Some(config) => config,
            None => return Ok(()),
        };
        let ghost k: int = pass.position as int;
        proof {
            lemma_edge(base, k);
        }
        let half: u64 = (config.degree / 2) as u64;
        let u: u32 = self.start + (pass.position / half) as u32;
        let offset: u64 = pass.position % half + 1;
        let v: u32 = ((u as u64 + offset) % config.nodes as u64) as u32;
        assert(0 <= u * half + (offset - 1) <= u64::MAX);
        assert(u * half >= 0) by (nonlinear_arith)
            requires
                u >= 0,
                half >= 0,
        ;
        let edge_index: u64 = u as u64 * half + (offset - 1);
        let mut rng = seed_rng(splitmix64(pass.seed ^ edge_index));
        pass.position = pass.position + 1;
        let heads = match pass.probability.chance {
            Some(chance) => flip(&mut rng, &chance),
            None => false,
        };
        if !heads {
            return Ok(());
        }
        let index: usize = (u - self.start) as usize;
        let ghost row = state.rows[index as int];
        assert(sorted::ascending(self@.rows[index as int]));
        let w: u32 = match self.choose_target(
            &mut rng,
            u,
            v,
            &self.adjacency[index],
            config.nodes,
        ) {
            Some(w) => w,
            None => return Ok(()),
        };
        proof {
            if row.contains(v) {
                sorted::lemma_without_node(row, v);
                sorted::lemma_with_node(sorted::without_node(row, v), w);
            }
        }
        let removed = Self::remove_neighbor(&mut self.adjacency[index], v);
        let inserted = removed && Self::insert_neighbor(&mut self.adjacency[index], w);
        if !inserted {
            assert(self@.rows =~= state.rows);
            let mut message = text::numbered("rewiring invariant failed for (", u as u64, ", ");
            text::push_decimal(&mut message, v as u64);
            message.append(") -> (");
            text::push_decimal(&mut message, u as u64);
            message.append(", ");
            text::push_decimal(&mut message, w as u64);
            message.append(")");
            return Err(message);
        }
        self.ring_intact = false;
        let ghost moved = PassState {
            rows: state.rows.update(
                index as int,
                sorted::with_node(sorted::without_node(row, v), w),
            ),
            intact: false,
            ..state
        };
        assert(self@.rows =~= moved.rows);
        match self.deliver(
            Mutation { node: v, other: u, add: false },
            config,
            &mut pass.batches,
            sent,
            Ghost(base),
            Ghost(moved),
        ) {
            Ok(_) => {},
            Err(message) => return Err(message),
        }
        match self.deliver(
            Mutation { node: w, other: u, add: true },
            config,
            &mut pass.batches,
            sent,
            Ghost(base),
            Ghost(base.deliver(moved, release(u, v))),
        ) {
            Ok(_) => {},
            Err(message) => return Err(message),
        }
        pass.rewired = pass.rewired + 1;
        Ok(())
    }

    /// Readies a rewiring pass with the given probability and seed.
    pub fn begin_rewire(&self, probability: Probability, seed: u64) -> (begun: Result<
        RewirePass,
        String,
    >)
        requires
            self@.wf(),
        ensures
            match begun {
                Err(message) => self.config is None && message@ == super::not_built_text(),
                Ok(pass) => {
                    &&& self.config is Some
                    &&& pass.probability == probability
                    &&& pass.seed == seed
                    &&& pass.position == 0
                    &&& pass.rewired == 0
                    &&& pass.batches@ == Waiting::<Mutation>::none(
                        self.config->Some_0.workers as nat,
                    )
                    &&& probability.chance is Some || probability.zero() || self@.edge_total()
                        == 0 ==> self@.fits_pass(pass)
                },
            },
    {
        let config = match self.config() {
            Ok(config) => config,
            Err(message) => return Err(message),
        };
        proof {
            lemma_edge_total(self@);
        }
        Ok(
            RewirePass {
                probability,
                seed,
                position: 0,
                rewired: 0,
                batches: Batches::new(config.workers as usize),
            },
        )
    }

    /// Takes a rewiring pass on until a batch is due for another worker, or to its end.
    pub fn continue_rewire(&mut self, pass: &mut RewirePass) -> (leg: RewireLeg)
        requires
            old(self)@.wf(),
            old(self)@.fits_pass(*old(pass)),
        ensures
            old(self)@.rewire_leg(*old(pass), leg, final(self)@, *final(pass)),
            final(self)@.wf(),
    {
        let ghost before = self@;
        let ghost begun = *pass;
        let mut sent: Vec<(u32, Vec<Mutation>)> = Vec::new();
        let config = match self.config() {
            Ok(config) => config,
            Err(message) => return RewireLeg { sent, outcome: Err(message) },
        };
        proof {
            lemma_edge_total(before);
        }
        let edges: u64 = (self.end - self.start) as u64 * (config.degree / 2) as u64;
        if pass.probability.is_zero() {
            return RewireLeg {
                sent,
                outcome: Ok(Some(WorkerResponse::Rewired { considered: edges, rewired: 0 })),
            };
        }
        let ghost chance = pass.probability.chance->Some_0;
        let ghost start = before.resumed(begun);
        let ghost mut state = start;
        assert(batches::sent_seqs(sent@) =~= Seq::empty());
        while pass.position < edges && sent.len() == 0
            invariant
                before == old(self)@,
                begun == *old(pass),
                before.wf(),
                before.config is Some,
                edges == before.edge_total(),
                begun.probability.chance is Some || edges == 0,
                !begun.probability.zero(),
                chance == begun.probability.chance->Some_0,
                start == before.resumed(begun),
                begun.position <= pass.position <= edges,
                state == before.run(
                    start,
                    chance,
                    begun.seed,
                    begun.position as int,
                    pass.position as int,
                ),
                state.failure is None,
                self@ == before.with_rows(state.rows, state.intact),
                self@.wf(),
                pass.probability == begun.probability,
                pass.seed == begun.seed,
                pass.rewired == state.rewired,
                pass.batches@ == state.waiting,
                before.fits_pass(*pass),
                batches::sent_seqs(sent@) == state.sent,
            decreases edges - pass.position,
        {
            let answer = self.rewire_edge(pass, &mut sent, Ghost(before), Ghost(state));
            proof {
                state = before.consider(state, chance, begun.seed, pass.position - 1);
            }
            match answer {
                Ok(_) => {},
                Err(message) => return RewireLeg { sent, outcome: Err(message) },
            }
        }
        if pass.position < edges {
            return RewireLeg { sent, outcome: Ok(None) };
        }
        pass.batches.flush(&mut sent);
        RewireLeg {
            sent,
            outcome: Ok(
                Some(
                    WorkerResponse::Rewired { considered: pass.position, rewired: pass.rewired },
                ),
            ),
        }
    }

    /// A whole rewiring pass: every ring edge that starts in the worker's range
    /// is considered once. Mutations of other workers' rows go to `output` in
    /// batches, and so do those that were sent before a failure.
    pub fn rewire(
        &mut self,
        probability: Probability,
        seed: u64,
        output: &mut Vec<WorkerResponse>,
    ) -> (answer: Result<WorkerResponse, String>)
        requires
            old(self)@.wf(),
            old(self)@.rewirable(probability),
        ensures
            old(self)@.rewire_outcome(
                probability,
                seed,
                old(output)@,
                answer,
                final(self)@,
                final(output)@,
            ),
            final(self)@.wf(),
    {
        let ghost before = self@;
        assert(output@.take(output@.len() as int) =~= output@);
        let mut pass = match self.begin_rewire(probability, seed) {
            Ok(pass) => pass,
            Err(message) => return Err(message),
        };
        let ghost chance = probability.chance->Some_0;
        let ghost mut state = before.pass_start();
        let mut sent: Vec<(u32, Vec<Mutation>)> = Vec::new();
        assert(batches::sent_seqs(sent@) =~= Seq::empty());
        let config = match self.config() {
            Ok(config) => config,
            Err(message) => return Err(message),
        };
        proof {
            lemma_edge_total(before);
        }
        let edges: u64 = (self.end - self.start) as u64 * (config.degree / 2) as u64;
        if probability.is_zero() {
            return Ok(WorkerResponse::Rewired { considered: edges, rewired: 0 });
        }
        while pass.position < edges
            invariant
                before == old(self)@,
                before.wf(),
                before.config is Some,
                edges == before.edge_total(),
                probability.chance is Some || edges == 0,
                !probability.zero(),
                chance == probability.chance->Some_0,
                pass.position <= edges,
                state == before.run(
                    before.pass_start(),
                    chance,
                    seed,
                    0,
                    pass.position as int,
                ),
                state.failure is None,
                self@ == before.with_rows(state.rows, state.intact),
                self@.wf(),
                pass.probability == probability,
                pass.seed == seed,
                pass.rewired == state.rewired,
                pass.batches@ == state.waiting,
                before.fits_pass(pass),
                batches::sent_seqs(sent@) == state.sent,
                output@ == old(output)@,
                output@.take(output@.len() as int) == output@,
            decreases edges - pass.position,
        {
            let answer = self.rewire_edge(&mut pass, &mut sent, Ghost(before), Ghost(state));
            proof {
                state = before.consider(state, chance, seed, pass.position - 1);
            }
            match answer {
                Ok(_) => {},
                Err(message) => {
                    proof {
                        before.lemma_failed_pass(
                            before.pass_start(),
                            chance,
                            seed,
                            0,
                            pass.position as int,
                            edges as int,
                        );
                    }
                    mutation_responses(sent, output);
                    return Err(message);
                },
            }
        }
        pass.batches.flush(&mut sent);
        mutation_responses(sent, output);
        Ok(WorkerResponse::Rewired { considered: pass.position, rewired: pass.rewired })
    }

    /// Changes rows as the mutations say, in order, up to the first that cannot be applied.
    pub fn apply_mutations(&mut self, mutations: Vec<Mutation>) -> (answer: Result<
        WorkerResponse,
        String,
    >)
        requires
            old(self)@.wf(),
        ensures
            old(self)@.mutation_outcome(mutations@, answer, final(self)@),
            final(self)@.wf(),
    {
        let ghost before = self@;
        let count: u64 = mutations.len() as u64;
        let mut i: usize = 0;
        assert(mutations@.take(0) =~= Seq::empty());
        while i < mutations.len()
            invariant
                i <= mutations@.len(),
                before == old(self)@,
                before.wf(),
                before.mutated_by(mutations@.take(i as int)).failure is None,
                self@ == before.with_rows(
                    before.mutated_by(mutations@.take(i as int)).rows,
                    before.mutated_by(mutations@.take(i as int)).intact,
                ),
                self@.wf(),
            decreases mutations.len() - i,
        {
            proof {
                assert(mutations@.take(i + 1).drop_last() =~= mutations@.take(i as int));
            }
            match self.apply_one_mutation(mutations[i]) {
                Ok(_) => {},
                Err(message) => {
                    proof {
                        before.lemma_failed_mutation(mutations@, i + 1);
                    }
                    return Err(message);
                },
            }
            i = i + 1;
        }
        assert(mutations@.take(i as int) =~= mutations@);
        Ok(WorkerResponse::MutationsApplied { count })
    }
}

/// The rows of a worker while mutations are applied to them.
pub struct RowState {
    pub rows: Seq<Seq<u32>>,
    pub intact: bool,
    pub failure: Option<Seq<char>>,
}

impl ShardView {
    /// The rows after one more mutation. Once one has failed nothing changes any more.
    pub open spec fn mutate(self, state: RowState, mutation: Mutation) -> RowState {
        let at = mutation.node - self.start;
        if state.failure is Some {
            state
        } else if !self.owns(mutation.node as int) {
            RowState {
                failure: Some(
                    super::not_owned_text(
                        self.id,
                        mutation.node as nat,
                        self.start as nat,
                        self.end as nat,
                    ),
                ),
                ..state
            }
        } else if !applicable(state.rows[at], mutation) {
            RowState { failure: Some(not_applicable_text(mutation)), ..state }
        } else {
            RowState {
                rows: state.rows.update(at, mutated(state.rows[at], mutation)),
                intact: false,
                ..state
            }
        }
    }

    /// The rows after a sequence of mutations.
    pub open spec fn mutated_by(self, mutations: Seq<Mutation>) -> RowState
        decreases mutations.len(),
    {
        if mutations.len() == 0 {
            RowState { rows: self.rows, intact: self.ring_intact, failure: None }
        } else {
            self.mutate(self.mutated_by(mutations.drop_last()), mutations.last())
        }
    }

    /// What has failed stays as it was.
    proof fn lemma_failed_mutation(self, mutations: Seq<Mutation>, i: int)
        requires
            0 <= i <= mutations.len(),
            self.mutated_by(mutations.take(i)).failure is Some,
        ensures
            self.mutated_by(mutations) == self.mutated_by(mutations.take(i)),
        decreases mutations.len() - i,
    {
        if i == mutations.len() {
            assert(mutations.take(i) =~= mutations);
        } else {
            assert(mutations.take(i + 1).drop_last() =~= mutations.take(i));
            self.lemma_failed_mutation(mutations, i + 1);
        }
    }

    /// A pass that has failed stays as it was.
    pub proof fn lemma_failed_pass(
        self,
        state: PassState,
        chance: Bernoulli,
        seed: u64,
        from: int,
        at: int,
        to: int,
    )
        requires
            from <= at <= to,
            self.run(state, chance, seed, from, at).failure is Some,
        ensures
            self.run(state, chance, seed, from, to) == self.run(state, chance, seed, from, at),
        decreases to - at,
    {
        if at < to {
            self.lemma_failed_pass(state, chance, seed, from, at, to - 1);
        }
    }
}

} // verus!
