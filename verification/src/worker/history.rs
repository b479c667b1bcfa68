//! What holds of a worker over a history of calls.

use super::rewire::{RewireLeg, RewirePass};
use super::ShardView;
use crate::protocol::{ClusterConfig, Mutation, WorkerCommand, WorkerResponse};
use crate::sorted;
use rand::distributions::Bernoulli;
use vstd::prelude::*;

verus! {

/// Something done to a worker, and what was answered.
pub enum Step {
    /// A request that was handled whole.
    Request {
        command: WorkerCommand,
        output: Seq<WorkerResponse>,
        answer: Result<WorkerResponse, String>,
        written: Seq<WorkerResponse>,
    },
    /// A single mutation.
    Change { mutation: Mutation, verdict: Result<(), String> },
    /// A leg of a rewiring pass.
    Leg { pass: RewirePass, leg: RewireLeg, next: RewirePass },
}

/// The step leads from one state of a worker to another.
pub open spec fn takes(before: ShardView, step: Step, after: ShardView) -> bool {
    &&& before.wf()
    &&& after.wf()
    &&& match step {
        Step::Request { command, output, answer, written } => before.accepts(command)
            && before.outcome(command, output, answer, after, written),
        Step::Change { mutation, verdict } => before.one_mutation_outcome(
            mutation,
            verdict,
            after,
        ),
        Step::Leg { pass, leg, next } => before.fits_pass(pass) && before.rewire_leg(
            pass,
            leg,
            after,
            next,
        ),
    }
}

/// Each step leads from its state to the next.
pub open spec fn history(states: Seq<ShardView>, steps: Seq<Step>) -> bool {
    &&& states.len() == steps.len() + 1
    &&& forall|i: int|
        0 <= i < steps.len() ==> takes(states[i], #[trigger] steps[i], states[i + 1])
}

/// The step built a shard.
pub open spec fn builds(step: Step) -> bool {
    match step {
        Step::Request { command: WorkerCommand::Build(_), answer, .. } => answer is Ok,
        _ => false,
    }
}

/// The configuration that a step asks to build.
pub open spec fn built_config(step: Step) -> ClusterConfig {
    step->command->Build_0
}

/// A row differs at some point of the pass between two of its edges.
pub open spec fn pass_changes(
    shard: ShardView,
    start: super::rewire::PassState,
    chance: Bernoulli,
    seed: u64,
    from: int,
    to: int,
) -> bool {
    exists|k: int|
        from <= k <= to && #[trigger] shard.run(start, chance, seed, from, k).rows != start.rows
}

/// A row differs after some of the mutations.
pub open spec fn mutations_change(shard: ShardView, mutations: Seq<Mutation>) -> bool {
    exists|k: int|
        0 <= k <= mutations.len() && shard.mutated_by(#[trigger] mutations.take(k)).rows
            != shard.rows
}

/// A row changed at some point of the step, even if it was changed back.
pub open spec fn changes(before: ShardView, step: Step) -> bool {
    match step {
        Step::Request { command: WorkerCommand::ApplyMutations(mutations), .. } =>
            mutations_change(before, mutations@),
        Step::Request { command: WorkerCommand::Rewire { probability, seed }, .. } => {
            &&& before.config is Some
            &&& !probability.zero()
            &&& pass_changes(
                before,
                before.pass_start(),
                probability.chance->Some_0,
                seed,
                0,
                before.edge_total(),
            )
        },
        Step::Request { .. } => false,
        Step::Change { verdict, .. } => verdict is Ok,
        Step::Leg { pass, next, .. } => {
            &&& !pass.probability.zero()
            &&& pass_changes(
                before,
                before.resumed(pass),
                pass.probability.chance->Some_0,
                pass.seed,
                pass.position as int,
                next.position as int,
            )
        },
    }
}

/// The place of the last of the first `n` steps that built a shard, or -1.
pub open spec fn last_build(steps: Seq<Step>, n: int) -> int
    decreases n,
{
    if n <= 0 {
        -1
    } else if builds(steps[n - 1]) {
        n - 1
    } else {
        last_build(steps, n - 1)
    }
}

/// One of the steps from `from` to `to` changed a row.
pub open spec fn changed_between(
    states: Seq<ShardView>,
    steps: Seq<Step>,
    from: int,
    to: int,
) -> bool {
    exists|i: int| from <= i < to && changes(states[i], #[trigger] steps[i])
}

/// A redirected edge leaves its mark in the row that it starts in.
proof fn lemma_redirected_row(
    shard: ShardView,
    state: super::rewire::PassState,
    u: u32,
    v: u32,
    w: u32,
)
    requires
        shard.wf(),
        shard.config is Some,
        state.rows == shard.rows,
        state.failure is None,
        shard.owns(u as int),
        state.rows[u - shard.start].contains(v),
        !state.rows[u - shard.start].contains(w),
        u != w,
    ensures
        shard.redirect(state, u, v, w).rows != state.rows,
        !shard.redirect(state, u, v, w).intact,
{
    let at = u - shard.start;
    let row = state.rows[at];
    assert(sorted::ascending(shard.rows[at]));
    sorted::lemma_without_node(row, v);
    let kept = sorted::without_node(row, v);
    sorted::lemma_with_node(kept, w);
    let moved_row = sorted::with_node(kept, w);
    assert(moved_row.contains(w));
    let moved = super::rewire::PassState {
        rows: state.rows.update(at, moved_row),
        intact: false,
        ..state
    };
    let released = shard.deliver(moved, super::rewire::release(u, v));
    assert(released.rows[at] == moved_row) by {
        if v == u {
            assert(!moved_row.contains(u));
        }
    }
    let told = shard.deliver(released, super::rewire::attach(u, w));
    assert(told.rows[at] == moved_row);
}

/// A pass leaves the ring intact just as long as no row has changed; as long as
/// it does not fail, it has rewired an edge just when a row has changed.
pub proof fn lemma_pass_changes(
    shard: ShardView,
    start: super::rewire::PassState,
    chance: Bernoulli,
    seed: u64,
    from: int,
    to: int,
)
    requires
        shard.wf(),
        shard.config is Some,
        start.rows == shard.rows,
        start.failure is None,
        0 <= from <= to <= shard.edge_total(),
    ensures
        ({
            let end = shard.run(start, chance, seed, from, to);
            let changed = pass_changes(shard, start, chance, seed, from, to);
            &&& end.intact == (start.intact && !changed)
            &&& end.rewired >= start.rewired
            &&& end.failure is None ==> (end.rewired > start.rewired <==> changed)
        }),
    decreases to - from,
{
    let end = shard.run(start, chance, seed, from, to);
    let changed = pass_changes(shard, start, chance, seed, from, to);
    if from == to {
        assert(end == start);
        if changed {
            let k = choose|k: int|
                from <= k <= to && #[trigger] shard.run(start, chance, seed, from, k).rows
                    != start.rows;
            assert(k == from);
        }
    } else {
        lemma_pass_changes(shard, start, chance, seed, from, to - 1);
        let before = shard.run(start, chance, seed, from, to - 1);
        let earlier = pass_changes(shard, start, chance, seed, from, to - 1);
        assert(changed <==> earlier || end.rows != start.rows) by {
            if earlier {
                let k = choose|k: int|
                    from <= k <= to - 1 && #[trigger] shard.run(start, chance, seed, from, k).rows
                        != start.rows;
                assert(from <= k <= to);
            }
            if changed {
                let k = choose|k: int|
                    from <= k <= to && #[trigger] shard.run(start, chance, seed, from, k).rows
                        != start.rows;
                if k < to {
                    assert(earlier);
                }
            }
        }
        if !earlier {
            assert(before.rows == start.rows);
        }
        if before.failure is None {
            super::rewire::lemma_edge(shard, to - 1);
            let u = shard.edge_from(to - 1);
            let v = shard.edge_to(to - 1);
            let (heads, rng) = crate::random::coin(
                crate::random::seeded(
                    crate::random::mixed(seed ^ shard.edge_number(to - 1)),
                ),
                chance,
            );
            super::rewire::lemma_target_choice(
                rng,
                u,
                v,
                before.rows[u - shard.start],
                shard.config->Some_0.nodes,
            );
            match shard.edge_choice(before.rows, chance, seed, to - 1) {
                None => {},
                Some(w) => {
                    if !earlier && before.rows[u - shard.start].contains(v) {
                        lemma_redirected_row(shard, before, u, v, w);
                    }
                },
            }
        }
    }
}

/// Mutations leave the ring intact just as long as none of them was applied; and
/// if one was, the first was.
pub proof fn lemma_mutations_change(shard: ShardView, mutations: Seq<Mutation>)
    requires
        shard.wf(),
    ensures
        shard.mutated_by(mutations).intact == (shard.ring_intact && !mutations_change(
            shard,
            mutations,
        )),
        mutations_change(shard, mutations) <==> mutations.len() > 0 && shard.mutated_by(
            mutations.take(1),
        ).failure is None,
{
    lemma_mutations_prefix(shard, mutations, mutations.len() as int);
    assert(mutations.take(mutations.len() as int) =~= mutations);
    if mutations.len() > 0 {
        lemma_mutations_prefix(shard, mutations, 1);
    }
}

proof fn lemma_mutations_prefix(shard: ShardView, mutations: Seq<Mutation>, n: int)
    requires
        shard.wf(),
        0 <= n <= mutations.len(),
    ensures
        ({
            let first = mutations.len() > 0 && shard.mutated_by(mutations.take(1)).failure is None;
            let end = shard.mutated_by(mutations.take(n));
            &&& n == 0 ==> end.rows == shard.rows && end.intact == shard.ring_intact
            &&& n > 0 && first ==> !end.intact && mutations_change(shard, mutations)
            &&& n > 0 && !first ==> end.rows == shard.rows && end.intact == shard.ring_intact
                && end.failure is Some
        }),
        mutations_change(shard, mutations) ==> mutations.len() > 0 && shard.mutated_by(
            mutations.take(1),
        ).failure is None,
    decreases mutations.len() + n,
{
    let end = shard.mutated_by(mutations.take(n));
    if n > 0 {
        assert(mutations.take(n).drop_last() =~= mutations.take(n - 1));
        if n == 1 {
            assert(mutations.take(0) =~= Seq::empty());
            let mutation = mutations[0];
            if end.failure is None {
                let at = mutation.node - shard.start;
                let row = shard.rows[at];
                assert(sorted::ascending(shard.rows[at]));
                if mutation.add {
                    sorted::lemma_with_node(row, mutation.other);
                } else {
                    sorted::lemma_without_node(row, mutation.other);
                }
                assert(end.rows[at].len() != row.len());
                assert(shard.mutated_by(mutations.take(1)).rows != shard.rows);
            }
        } else {
            lemma_mutations_prefix(shard, mutations, n - 1);
        }
    }
    if mutations_change(shard, mutations) {
        let k = choose|k: int|
            0 <= k <= mutations.len() && shard.mutated_by(#[trigger] mutations.take(k)).rows
                != shard.rows;
        assert(mutations.take(0) =~= Seq::empty());
        if k > 0 {
            lemma_unapplied(shard, mutations, k);
        }
    }
}

/// Where the first mutation cannot be applied, none is.
proof fn lemma_unapplied(shard: ShardView, mutations: Seq<Mutation>, k: int)
    requires
        0 < k <= mutations.len(),
    ensures
        shard.mutated_by(mutations.take(1)).failure is Some ==> shard.mutated_by(
            mutations.take(k),
        ) == shard.mutated_by(mutations.take(1)) && shard.mutated_by(mutations.take(k)).rows
            == shard.rows,
    decreases k,
{
    assert(mutations.take(k).drop_last() =~= mutations.take(k - 1));
    if k == 1 {
        assert(mutations.take(0) =~= Seq::empty());
    } else {
        lemma_unapplied(shard, mutations, k - 1);
    }
}

/// A step that builds no shard keeps the configuration, and keeps the ring intact
/// just when it changes no row.
proof fn lemma_step(before: ShardView, step: Step, after: ShardView)
    requires
        takes(before, step, after),
    ensures
        builds(step) ==> after.config == Some(built_config(step)) && after.ring_intact,
        !builds(step) ==> after.config == before.config && after.ring_intact == (
        before.ring_intact && !changes(before, step)),
{
    match step {
        Step::Request { command, output, answer, written } => {
            match command {
                WorkerCommand::ApplyMutations(mutations) => {
                    lemma_mutations_change(before, mutations@);
                },
                WorkerCommand::Rewire { probability, seed } => {
                    if before.config is Some && !probability.zero() {
                        super::rewire::lemma_edge_total(before);
                        lemma_pass_changes(
                            before,
                            before.pass_start(),
                            probability.chance->Some_0,
                            seed,
                            0,
                            before.edge_total(),
                        );
                    }
                },
                _ => {},
            }
        },
        Step::Change { .. } => {},
        Step::Leg { pass, leg, next } => {
            if !pass.probability.zero() {
                lemma_pass_changes(
                    before,
                    before.resumed(pass),
                    pass.probability.chance->Some_0,
                    pass.seed,
                    pass.position as int,
                    next.position as int,
                );
            }
        },
    }
}

/// Whether the ring is intact after a history: if a shard has been built, and no
/// row has changed since it was last built.
pub proof fn lemma_intact(states: Seq<ShardView>, steps: Seq<Step>, n: int)
    requires
        history(states, steps),
        states[0].config is None,
        !states[0].ring_intact,
        0 <= n <= steps.len(),
    ensures
        ({
            let b = last_build(steps, n);
            &&& -1 <= b < n
            &&& b < 0 ==> states[n].config is None && !states[n].ring_intact
            &&& b >= 0 ==> {
                &&& builds(steps[b])
                &&& states[n].config == Some(built_config(steps[b]))
                &&& states[n].ring_intact == !changed_between(states, steps, b + 1, n)
            }
        }),
    decreases n,
{
    if n > 0 {
        lemma_intact(states, steps, n - 1);
        assert(takes(states[n - 1], steps[n - 1], states[n]));
        lemma_step(states[n - 1], steps[n - 1], states[n]);
        let b = last_build(steps, n);
        if b >= 0 && b < n - 1 {
            if changed_between(states, steps, b + 1, n - 1) {
                let i = choose|i: int|
                    b + 1 <= i < n - 1 && changes(states[i], #[trigger] steps[i]);
                assert(b + 1 <= i < n && changes(states[i], steps[i]));
            }
            if changes(states[n - 1], steps[n - 1]) {
                assert(changed_between(states, steps, b + 1, n));
            }
        }
    }
}

/// Ring distances are refused just when the worker has never built a shard, when
/// a row has changed since it last did, even if it was changed back, for a source
/// outside the graph, and where the ring has no links.
pub proof fn lemma_ring_refused(
    states: Seq<ShardView>,
    steps: Seq<Step>,
    source: u32,
    answer: Result<WorkerResponse, String>,
)
    requires
        history(states, steps),
        states[0].config is None,
        !states[0].ring_intact,
        states.last().ring_outcome(source, answer),
    ensures
        ({
            let b = last_build(steps, steps.len() as int);
            answer is Err <==> {
                ||| b < 0
                ||| changed_between(states, steps, b + 1, steps.len() as int)
                ||| source >= built_config(steps[b]).nodes
                ||| built_config(steps[b]).degree < 2
            }
        }),
{
    lemma_intact(states, steps, steps.len() as int);
}

/// What counts as a change: a mutation that was applied; mutations of which the
/// first was; a rewiring that told of at least one edge.
pub proof fn lemma_changes(before: ShardView, step: Step, after: ShardView)
    requires
        takes(before, step, after),
    ensures
        match step {
            Step::Request { command, answer, .. } => match command {
                WorkerCommand::ApplyMutations(mutations) => {
                    &&& answer is Ok && mutations@.len() > 0 ==> changes(before, step)
                    &&& mutations@.len() == 0 ==> !changes(before, step)
                },
                WorkerCommand::Rewire { .. } => match answer {
                    Ok(WorkerResponse::Rewired { rewired, .. }) => changes(before, step)
                        <==> rewired > 0,
                    _ => true,
                },
                _ => !changes(before, step),
            },
            Step::Change { verdict, .. } => changes(before, step) <==> verdict is Ok,
            Step::Leg { pass, leg, .. } => match leg.outcome {
                Ok(Some(WorkerResponse::Rewired { rewired, .. })) => changes(before, step)
                    <==> rewired > pass.rewired,
                _ => true,
            },
        },
{
    match step {
        Step::Request { command, output, answer, written } => match command {
            WorkerCommand::ApplyMutations(mutations) => {
                lemma_mutations_change(before, mutations@);
                if answer is Ok && mutations@.len() > 0 {
                    lemma_unapplied(before, mutations@, mutations@.len() as int);
                    assert(mutations@.take(mutations@.len() as int) =~= mutations@);
                }
            },
            WorkerCommand::Rewire { probability, seed } => {
                if before.config is Some && !probability.zero() {
                    super::rewire::lemma_edge_total(before);
                    lemma_pass_changes(
                        before,
                        before.pass_start(),
                        probability.chance->Some_0,
                        seed,
                        0,
                        before.edge_total(),
                    );
                }
            },
            _ => {},
        },
        Step::Change { .. } => {},
        Step::Leg { pass, leg, next } => {
            if !pass.probability.zero() {
                lemma_pass_changes(
                    before,
                    before.resumed(pass),
                    pass.probability.chance->Some_0,
                    pass.seed,
                    pass.position as int,
                    next.position as int,
                );
            }
        },
    }
}

} // verus!
