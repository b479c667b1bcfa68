//! What holds of a worker from the start of a search on.

use super::bfs::{among, fresh, lemma_fresh, lemma_own, lemma_owned_part, owned_part};
use super::history::{history, takes, Step};
use super::ShardView;
use crate::protocol::{WorkerCommand, WorkerResponse};
use crate::rows;
use vstd::prelude::*;

verus! {

/// The step starts a search from `source`.
pub open spec fn starts(step: Step, source: u32) -> bool {
    match step {
        Step::Request { command: WorkerCommand::StartBfs { source: told }, .. } => told == source,
        _ => false,
    }
}

/// The step expands the frontier.
pub open spec fn expands(step: Step) -> bool {
    match step {
        Step::Request { command: WorkerCommand::ExpandBfs, .. } => true,
        _ => false,
    }
}

/// The step marks discoveries.
pub open spec fn applies(step: Step) -> bool {
    match step {
        Step::Request { command: WorkerCommand::ApplyDiscoveries(_), .. } => true,
        _ => false,
    }
}

/// The step goes on to the next level.
pub open spec fn advances(step: Step) -> bool {
    match step {
        Step::Request { command: WorkerCommand::AdvanceBfs, .. } => true,
        _ => false,
    }
}

/// The step marks discoveries and goes on to the next level.
pub open spec fn finishes(step: Step) -> bool {
    match step {
        Step::Request { command: WorkerCommand::FinishBfsLevel(_), .. } => true,
        _ => false,
    }
}

/// The step was answered without an error.
pub open spec fn succeeds(step: Step) -> bool {
    step is Request && step->answer is Ok
}

/// A search from `source` is started on a worker with a shard and goes on.
pub open spec fn search_history(states: Seq<ShardView>, steps: Seq<Step>, source: u32) -> bool {
    &&& history(states, steps)
    &&& steps.len() > 0
    &&& states[0].config is Some
    &&& starts(steps[0], source)
    &&& forall|i: int|
        1 <= i < steps.len() ==> {
            let step = #[trigger] steps[i];
            expands(step) || applies(step) || advances(step) || finishes(step)
        }
}

/// The same is asked.
pub open spec fn same_request(a: Step, b: Step) -> bool {
    match (a->command, b->command) {
        (
            WorkerCommand::StartBfs { source: x },
            WorkerCommand::StartBfs { source: y },
        ) => x == y,
        (WorkerCommand::ExpandBfs, WorkerCommand::ExpandBfs) => true,
        (WorkerCommand::AdvanceBfs, WorkerCommand::AdvanceBfs) => true,
        (WorkerCommand::ApplyDiscoveries(x), WorkerCommand::ApplyDiscoveries(y)) => x@ == y@,
        (WorkerCommand::FinishBfsLevel(x), WorkerCommand::FinishBfsLevel(y)) => x@ == y@,
        _ => false,
    }
}

/// The same is told.
pub open spec fn same_answer(
    a: Result<WorkerResponse, String>,
    b: Result<WorkerResponse, String>,
) -> bool {
    match (a, b) {
        (Err(x), Err(y)) => x@ == y@,
        (
            Ok(WorkerResponse::BfsExpanded { local_discovered: m, discoveries_by_owner: x }),
            Ok(WorkerResponse::BfsExpanded { local_discovered: n, discoveries_by_owner: y }),
        ) => m == n && rows::seqs(x@) == rows::seqs(y@),
        (Ok(x), Ok(y)) => x == y,
        _ => false,
    }
}

/// The workers differ at most in whether they know their ring to be intact.
pub open spec fn alike(a: ShardView, b: ShardView) -> bool {
    b == (ShardView { ring_intact: b.ring_intact, ..a })
}

proof fn lemma_alike_sets(a: ShardView, b: ShardView)
    requires
        alike(a, b),
    ensures
        a.visited_set() == b.visited_set(),
        a.reported_set() == b.reported_set(),
        a.reach() == b.reach(),
        a.local_reach() == b.local_reach(),
        alike(a.expanded(), b.expanded()),
        forall|t: int| #[trigger] a.discoveries_for(t) == b.discoveries_for(t),
        forall|nodes: Seq<u32>| alike(#[trigger] a.marked(nodes), b.marked(nodes)),
        forall|nodes: Seq<u32>| #[trigger] a.owns_all(nodes) == b.owns_all(nodes),
{
    assert(a.visited_set() =~= b.visited_set());
    assert(a.reported_set() =~= b.reported_set());
    assert forall|nodes: Seq<u32>| alike(#[trigger] a.marked(nodes), b.marked(nodes)) by {
        assert(a.marked(nodes).visited =~= b.marked(nodes).visited);
    }
    assert(a.expanded().remote =~= b.expanded().remote);
    assert(a.expanded().visited =~= b.expanded().visited);
}

/// Only one node is the first that the worker does not own.
proof fn lemma_one_foreign(shard: ShardView, nodes: Seq<u32>, j: int, k: int)
    requires
        shard.first_foreign(nodes, j),
        shard.first_foreign(nodes, k),
    ensures
        j == k,
{
    if j < k {
        assert(shard.owns(nodes[j] as int));
    } else if k < j {
        assert(shard.owns(nodes[k] as int));
    }
}

proof fn lemma_same_marking(
    a: ShardView,
    b: ShardView,
    nodes: Seq<u32>,
    x: Seq<char>,
    y: Seq<char>,
    after_a: ShardView,
    after_b: ShardView,
)
    requires
        alike(a, b),
        a.stopped_marking(nodes, x, after_a),
        b.stopped_marking(nodes, y, after_b),
    ensures
        x == y,
        alike(after_a, after_b),
{
    lemma_alike_sets(a, b);
    let j = choose|j: int| #[trigger]
        a.foreign_outcome(nodes, j, x) && after_a == a.marked(nodes.take(j));
    let k = choose|k: int| #[trigger]
        b.foreign_outcome(nodes, k, y) && after_b == b.marked(nodes.take(k));
    assert(a.first_foreign(nodes, k)) by {
        assert forall|i: int| 0 <= i < k implies a.owns(#[trigger] nodes[i] as int) by {
            assert(b.owns(nodes[i] as int));
        }
    }
    lemma_one_foreign(a, nodes, j, k);
    assert(alike(a.marked(nodes.take(j)), b.marked(nodes.take(j))));
}

/// Workers that are alike answer alike and stay alike.
proof fn lemma_same_step(
    a: ShardView,
    b: ShardView,
    step_a: Step,
    step_b: Step,
    after_a: ShardView,
    after_b: ShardView,
)
    requires
        alike(a, b),
        a.config is Some,
        takes(a, step_a, after_a),
        takes(b, step_b, after_b),
        step_a is Request,
        step_b is Request,
        same_request(step_a, step_b),
        !(step_a->command is StartBfs),
    ensures
        same_answer(step_a->answer, step_b->answer),
        alike(after_a, after_b),
        after_a.config == a.config,
{
    lemma_alike_sets(a, b);
    let x = step_a->answer;
    let y = step_b->answer;
    match step_a->command {
        WorkerCommand::ExpandBfs => {
            let left = x->Ok_0->discoveries_by_owner;
            let right = y->Ok_0->discoveries_by_owner;
            assert forall|t: int| 0 <= t < left@.len() implies rows::seqs(left@)[t] == rows::seqs(
                right@,
            )[t] by {
                assert(left@[t]@ == a.discoveries_for(t));
                assert(right@[t]@ == b.discoveries_for(t));
            }
            assert(rows::seqs(left@) =~= rows::seqs(right@));
        },
        WorkerCommand::ApplyDiscoveries(nodes) => {
            assert(a.owns_all(nodes@) == b.owns_all(nodes@));
            assert(alike(a.marked(nodes@), b.marked(nodes@)));
            if x is Err {
                lemma_same_marking(
                    a,
                    b,
                    nodes@,
                    x->Err_0@,
                    y->Err_0@,
                    after_a,
                    after_b,
                );
            }
        },
        WorkerCommand::FinishBfsLevel(nodes) => {
            assert(a.owns_all(nodes@) == b.owns_all(nodes@));
            assert(alike(a.marked(nodes@), b.marked(nodes@)));
            if x is Err {
                lemma_same_marking(
                    a,
                    b,
                    nodes@,
                    x->Err_0@,
                    y->Err_0@,
                    after_a,
                    after_b,
                );
            }
        },
        _ => {},
    }
}

/// A search starts from scratch: whatever two workers with the same number,
/// configuration and rows have searched before, they answer every request of a
/// search from the same source alike, and starting it leaves their rows as they are.
pub proof fn lemma_fresh_search(
    a: Seq<ShardView>,
    steps_a: Seq<Step>,
    b: Seq<ShardView>,
    steps_b: Seq<Step>,
    source: u32,
    n: int,
)
    requires
        search_history(a, steps_a, source),
        search_history(b, steps_b, source),
        a[0].id == b[0].id,
        a[0].config == b[0].config,
        a[0].rows == b[0].rows,
        steps_a.len() == steps_b.len(),
        forall|i: int|
            0 <= i < steps_a.len() ==> same_request(#[trigger] steps_a[i], steps_b[i]),
        1 <= n <= steps_a.len(),
    ensures
        forall|i: int|
            0 <= i < n ==> same_answer((#[trigger] steps_a[i])->answer, steps_b[i]->answer),
        alike(a[n], b[n]),
        a[n].config == a[0].config,
        a[n].rows == a[0].rows,
    decreases n,
{
    assert(takes(a[n - 1], steps_a[n - 1], a[n]));
    assert(takes(b[n - 1], steps_b[n - 1], b[n]));
    assert(same_request(steps_a[n - 1], steps_b[n - 1]));
    if n == 1 {
        assert(starts(steps_a[0], source) && starts(steps_b[0], source));
        assert(a[1].visited =~= b[1].visited);
        assert(a[1].remote =~= b[1].remote);
    } else {
        lemma_fresh_search(a, steps_a, b, steps_b, source, n - 1);
        assert(!starts(steps_a[n - 1], source));
        lemma_same_step(a[n - 1], b[n - 1], steps_a[n - 1], steps_b[n - 1], a[n], b[n]);
    }
}

/// `v` is a neighbor of some node of the frontier.
pub open spec fn frontier_neighbor(shard: ShardView, v: u32) -> bool {
    exists|u: u32| #[trigger] shard.frontier.contains(u) && shard.row(u as int).contains(v)
}

/// The step told `v` to some worker.
pub open spec fn returned(step: Step, v: u32) -> bool {
    match step {
        Step::Request {
            answer: Ok(WorkerResponse::BfsExpanded { discoveries_by_owner, .. }),
            ..
        } => exists|t: int|
            0 <= t < discoveries_by_owner@.len() && (
            #[trigger] discoveries_by_owner@[t])@.contains(v),
        _ => false,
    }
}

/// One of the steps before `n` told `v` to some worker.
pub open spec fn returned_before(steps: Seq<Step>, n: int, v: u32) -> bool {
    exists|j: int| 0 <= j < n && returned(#[trigger] steps[j], v)
}

/// What an expansion sees of a node.
proof fn lemma_seen(shard: ShardView, v: u32)
    requires
        shard.wf(),
        shard.config is Some,
        shard.expandable(),
    ensures
        shard.reach().contains(v) <==> frontier_neighbor(shard, v),
        shard.reach().contains(v) ==> v < shard.config->Some_0.nodes && (shard.owns(v as int) || v
            < shard.remote.len()),
        shard.local_reach().contains(v) <==> frontier_neighbor(shard, v) && shard.owns(v as int),
{
    let config = shard.config->Some_0;
    super::bfs::lemma_reached(shard.rows, shard.start, shard.frontier, v);
    assert forall|u: u32| shard.frontier.contains(u) implies shard.row(u as int)
        == shard.rows[u - shard.start] by {}
    if shard.reach().contains(v) {
        let u = choose|u: u32| #[trigger]
            shard.frontier.contains(u) && shard.rows[u - shard.start].contains(v);
        assert(shard.row(u as int).contains(v));
        let i = choose|i: int| 0 <= i < shard.frontier.len() && shard.frontier[i] == u;
        let j = choose|j: int|
            0 <= j < shard.row(u as int).len() && shard.row(u as int)[j] == v;
        assert(shard.row(shard.frontier[i] as int)[j] == v);
        lemma_own(shard, v as int);
    }
    if frontier_neighbor(shard, v) {
        let u = choose|u: u32| #[trigger]
            shard.frontier.contains(u) && shard.row(u as int).contains(v);
        assert(shard.frontier.contains(u) && shard.rows[u - shard.start].contains(v));
    }
    lemma_owned_part(shard.reach(), config, shard.id as int);
}

/// What an expansion tells to each worker.
proof fn lemma_told(shard: ShardView, t: int, v: u32)
    requires
        shard.wf(),
        shard.config is Some,
        shard.expandable(),
    ensures
        shard.discoveries_for(t).no_duplicates(),
        shard.discoveries_for(t).contains(v) <==> {
            &&& t != shard.id
            &&& frontier_neighbor(shard, v)
            &&& shard.owner(v) == t
            &&& !shard.reported_set().contains(v)
        },
{
    let config = shard.config->Some_0;
    lemma_seen(shard, v);
    let part = owned_part(shard.reach(), config, t);
    lemma_owned_part(shard.reach(), config, t);
    lemma_fresh(shard.reported_set(), part);
    if t != shard.id {
        assert(shard.discoveries_for(t) == fresh(shard.reported_set(), part));
    }
}

/// The bits of a worker are just the nodes that it has told to others since the
/// search was started.
proof fn lemma_bits(states: Seq<ShardView>, steps: Seq<Step>, source: u32, n: int)
    requires
        search_history(states, steps, source),
        1 <= n <= steps.len(),
    ensures
        states[n].wf(),
        states[n].config == states[0].config,
        states[n].id == states[0].id,
        states[n].rows == states[0].rows,
        states[n].start == states[0].start,
        states[n].end == states[0].end,
        forall|v: u32|
            v < states[n].remote.len() && !states[n].owns(v as int) ==> (
            states[n].remote[v as int] <==> #[trigger] returned_before(steps, n, v)),
        forall|v: u32| #[trigger]
            returned_before(steps, n, v) ==> !states[n].owns(v as int) && v
                < states[n].remote.len(),
    decreases n,
{
    let before = states[n - 1];
    let step = steps[n - 1];
    let after = states[n];
    assert(takes(before, step, after));
    if n == 1 {
        assert(starts(steps[0], source));
        assert forall|v: u32| !(#[trigger] returned_before(steps, 1, v)) by {
            assert(!returned(steps[0], v));
        }
    } else {
        lemma_bits(states, steps, source, n - 1);
        assert forall|v: u32| #[trigger] returned_before(steps, n, v) <==> returned_before(
            steps,
            n - 1,
            v,
        ) || returned(step, v) by {
            if returned_before(steps, n, v) {
                let j = choose|j: int| 0 <= j < n && returned(#[trigger] steps[j], v);
                if j < n - 1 {
                    assert(returned_before(steps, n - 1, v));
                }
            }
            if returned_before(steps, n - 1, v) {
                let j = choose|j: int| 0 <= j < n - 1 && returned(#[trigger] steps[j], v);
                assert(0 <= j < n && returned(steps[j], v));
            }
            if returned(step, v) {
                assert(returned(steps[n - 1], v));
            }
        }
        if expands(step) {
            let told = step->answer->Ok_0->discoveries_by_owner;
            assert forall|v: u32| #[trigger] returned(step, v) <==> frontier_neighbor(before, v)
                && !before.owns(v as int) && !before.reported_set().contains(v) by {
                lemma_seen(before, v);
                if returned(step, v) {
                    let t = choose|t: int|
                        0 <= t < told@.len() && (#[trigger] told@[t])@.contains(v);
                    assert(told@[t]@ == before.discoveries_for(t));
                    lemma_told(before, t, v);
                    lemma_own(before, v as int);
                }
                if frontier_neighbor(before, v) && !before.owns(v as int)
                    && !before.reported_set().contains(v) {
                    lemma_own(before, v as int);
                    let t = before.owner(v);
                    lemma_told(before, t, v);
                    assert(told@[t]@ == before.discoveries_for(t));
                    assert(told@[t]@.contains(v));
                }
            }
            assert forall|v: u32| returned_before(steps, n, v) implies !after.owns(v as int) && v
                < after.remote.len() by {
                lemma_seen(before, v);
            }
            assert forall|v: u32|
                v < after.remote.len() && !after.owns(v as int) implies (after.remote[v as int]
                <==> #[trigger] returned_before(steps, n, v)) by {
                lemma_seen(before, v);
                assert(after.remote[v as int] == (before.remote[v as int] || among(
                    before.reach(),
                    v as int,
                )));
            }
        } else {
            assert forall|v: u32| !(#[trigger] returned(step, v)) by {}
            assert(after.remote == before.remote) by {
                if step->answer is Err {
                    lemma_marking_keeps(before, step, after);
                }
            }
            assert(after.rows == before.rows && after.config == before.config && after.id
                == before.id && after.start == before.start && after.end == before.end) by {
                if step->answer is Err {
                    lemma_marking_keeps(before, step, after);
                }
            }
        }
    }
}

/// Discoveries that could not all be marked leave the rest of the worker as it is.
proof fn lemma_marking_keeps(before: ShardView, step: Step, after: ShardView)
    requires
        takes(before, step, after),
        applies(step) || advances(step) || finishes(step),
    ensures
        after.remote == before.remote,
        after.rows == before.rows,
        after.config == before.config,
        after.id == before.id,
        after.start == before.start,
        after.end == before.end,
{
    match step {
        Step::Request { command, answer, .. } => match command {
            WorkerCommand::ApplyDiscoveries(nodes) => {
                if answer is Err {
                    let k = choose|k: int| #[trigger]
                        before.foreign_outcome(nodes@, k, answer->Err_0@) && after == before.marked(
                            nodes@.take(k),
                        );
                    assert(after == before.marked(nodes@.take(k)));
                }
            },
            WorkerCommand::FinishBfsLevel(nodes) => {
                if answer is Err {
                    let k = choose|k: int| #[trigger]
                        before.foreign_outcome(nodes@, k, answer->Err_0@) && after == before.marked(
                            nodes@.take(k),
                        );
                    assert(after == before.marked(nodes@.take(k)));
                }
            },
            _ => {},
        },
        _ => {},
    }
}

/// The nodes of the worker's own that the frontier leads to and that are not marked.
pub open spec fn unmarked_neighbors(shard: ShardView) -> Set<u32> {
    Set::new(
        |v: u32|
            shard.owns(v as int) && frontier_neighbor(shard, v) && !shard.visited[v - shard.start],
    )
}

/// A node of another worker is told to its owner once per search: each expansion
/// tells every worker, without repeats, just those neighbors of the frontier that
/// it owns and that no expansion since the start has told. The worker's own
/// neighbors of the frontier that were not marked are counted, and marked.
pub proof fn lemma_told_once(states: Seq<ShardView>, steps: Seq<Step>, source: u32, n: int)
    requires
        search_history(states, steps, source),
        1 <= n < steps.len(),
        expands(steps[n]),
    ensures
        match steps[n]->answer {
            Ok(WorkerResponse::BfsExpanded { local_discovered, discoveries_by_owner: told }) => {
                let shard = states[n];
                &&& told@.len() == shard.config->Some_0.workers
                &&& told@[shard.id as int]@.len() == 0
                &&& forall|t: int|
                    0 <= t < told@.len() ==> (#[trigger] told@[t])@.no_duplicates()
                &&& forall|t: int, v: u32|
                    0 <= t < told@.len() ==> (#[trigger] told@[t]@.contains(v) <==> {
                        &&& t != shard.id
                        &&& frontier_neighbor(shard, v)
                        &&& shard.owner(v) == t
                        &&& !returned_before(steps, n, v)
                    })
                &&& unmarked_neighbors(shard).finite()
                &&& local_discovered == unmarked_neighbors(shard).len()
                &&& forall|i: int|
                    0 <= i < shard.visited.len() ==> #[trigger] states[n + 1].visited[i] == (
                    shard.visited[i] || unmarked_neighbors(shard).contains(
                        (shard.start + i) as u32,
                    ))
            },
            _ => false,
        },
{
    let shard = states[n];
    let after = states[n + 1];
    assert(takes(states[n], steps[n], states[n + 1]));
    lemma_bits(states, steps, source, n);
    let told = steps[n]->answer->Ok_0->discoveries_by_owner;
    assert(told@[shard.id as int]@ == shard.discoveries_for(shard.id as int));
    assert forall|t: int| 0 <= t < told@.len() implies (#[trigger] told@[t])@.no_duplicates() by {
        lemma_told(shard, t, 0);
    }
    assert forall|t: int, v: u32| 0 <= t < told@.len() implies (#[trigger] told@[t]@.contains(v)
        <==> {
        &&& t != shard.id
        &&& frontier_neighbor(shard, v)
        &&& shard.owner(v) == t
        &&& !returned_before(steps, n, v)
    }) by {
        assert(told@[t]@ == shard.discoveries_for(t));
        lemma_told(shard, t, v);
        lemma_seen(shard, v);
        if frontier_neighbor(shard, v) {
            lemma_own(shard, v as int);
        }
    }
    let found = fresh(shard.visited_set(), shard.local_reach());
    let set = unmarked_neighbors(shard);
    lemma_fresh(shard.visited_set(), shard.local_reach());
    assert forall|v: u32| set.contains(v) <==> found.contains(v) by {
        lemma_seen(shard, v);
    }
    assert(set =~= found.to_set());
    found.unique_seq_to_set();
    vstd::seq_lib::seq_to_set_is_finite(found);
    assert forall|i: int| 0 <= i < shard.visited.len() implies #[trigger] after.visited[i] == (
    shard.visited[i] || set.contains((shard.start + i) as u32)) by {
        let v = (shard.start + i) as u32;
        lemma_seen(shard, v);
        assert(after.visited[i] == (shard.visited[i] || among(
            shard.local_reach(),
            shard.start + i,
        )));
    }
}

/// The place of the state after the last of the first `n` steps that began a
/// level: the start of the search, or an advance.
pub open spec fn level_start(steps: Seq<Step>, n: int) -> int
    decreases n,
{
    if n <= 1 || advances(steps[n - 1]) || finishes(steps[n - 1]) {
        n
    } else {
        level_start(steps, n - 1)
    }
}

/// The nodes marked in the second state and not in the first.
pub open spec fn first_marked(before: ShardView, after: ShardView) -> Set<u32> {
    Set::new(
        |v: u32|
            after.owns(v as int) && after.visited[v - after.start] && !before.visited[v
                - before.start],
    )
}

/// Nodes as they are marked and put on the next frontier.
proof fn lemma_marking(base: ShardView, before: ShardView, nodes: Seq<u32>)
    requires
        before.wf(),
        base.start == before.start,
        base.end == before.end,
        base.visited.len() == before.visited.len(),
        forall|i: int|
            0 <= i < base.visited.len() && #[trigger] base.visited[i] ==> before.visited[i],
        before.owns_all(nodes),
        before.next_frontier.no_duplicates(),
        before.next_frontier.to_set() == first_marked(base, before),
    ensures
        ({
            let after = before.marked(nodes);
            &&& after.next_frontier.no_duplicates()
            &&& after.next_frontier.to_set() == first_marked(base, after)
            &&& forall|i: int|
                0 <= i < base.visited.len() && #[trigger] base.visited[i] ==> after.visited[i]
        }),
{
    let after = before.marked(nodes);
    let more = fresh(before.visited_set(), nodes);
    let old_frontier = before.next_frontier;
    lemma_fresh(before.visited_set(), nodes);
    assert forall|v: u32| nodes.contains(v) implies before.owns(v as int) by {
        let i = choose|i: int| 0 <= i < nodes.len() && nodes[i] == v;
        assert(before.owns(nodes[i] as int));
    }
    assert forall|v: u32| old_frontier.contains(v) implies before.owns(v as int)
        && before.visited[v - before.start] by {
        assert(old_frontier.to_set().contains(v));
    }
    assert(after.next_frontier == old_frontier + more);
    assert(after.next_frontier.no_duplicates()) by {
        assert forall|i: int, j: int|
            0 <= i < after.next_frontier.len() && 0 <= j < after.next_frontier.len() && i
                != j implies after.next_frontier[i] != after.next_frontier[j] by {
            if i < old_frontier.len() && j >= old_frontier.len() {
                assert(old_frontier.contains(old_frontier[i]));
                assert(more.contains(more[j - old_frontier.len()]));
            } else if j < old_frontier.len() && i >= old_frontier.len() {
                assert(old_frontier.contains(old_frontier[j]));
                assert(more.contains(more[i - old_frontier.len()]));
            }
        }
    }
    assert forall|v: u32| after.next_frontier.to_set().contains(v) <==> first_marked(
        base,
        after,
    ).contains(v) by {
        if after.next_frontier.contains(v) {
            let i = choose|i: int|
                0 <= i < after.next_frontier.len() && after.next_frontier[i] == v;
            if i < old_frontier.len() {
                assert(old_frontier[i] == v);
                assert(old_frontier.to_set().contains(v));
                assert(first_marked(base, before).contains(v));
            } else {
                assert(more[i - old_frontier.len()] == v);
                assert(more.contains(v));
                assert(before.owns(v as int));
                assert(!before.visited[v - before.start]);
            }
        }
        if first_marked(base, after).contains(v) {
            assert(after.visited[v - before.start] == (before.visited[v - before.start] || among(
                nodes,
                v as int,
            )));
            if before.visited[v - before.start] {
                assert(first_marked(base, before).contains(v));
                assert(old_frontier.to_set().contains(v));
                let i = choose|i: int| 0 <= i < old_frontier.len() && old_frontier[i] == v;
                assert(after.next_frontier[i] == v);
            } else {
                assert(more.contains(v));
                let i = choose|i: int| 0 <= i < more.len() && more[i] == v;
                assert(after.next_frontier[old_frontier.len() + i] == v);
            }
        }
    }
    assert(after.next_frontier.to_set() =~= first_marked(base, after));
}

/// Where a search stands after `n` steps, all of which were answered without an
/// error: the next frontier holds, once each, the nodes first marked since the
/// level began, and the count is that of the marks.
pub proof fn lemma_marks(states: Seq<ShardView>, steps: Seq<Step>, source: u32, n: int)
    requires
        search_history(states, steps, source),
        1 <= n <= steps.len(),
        forall|i: int| 0 <= i < n ==> succeeds(#[trigger] steps[i]),
    ensures
        ({
            let p = level_start(steps, n);
            &&& 1 <= p <= n
            &&& states[n].wf()
            &&& states[n].config is Some
            &&& states[n].counted()
            &&& states[p].start == states[n].start
            &&& states[p].end == states[n].end
            &&& states[p].visited.len() == states[n].visited.len()
            &&& states[n].next_frontier.no_duplicates()
            &&& states[n].next_frontier.to_set() == first_marked(states[p], states[n])
            &&& forall|i: int|
                0 <= i < states[p].visited.len() && #[trigger] states[p].visited[i]
                    ==> states[n].visited[i]
        }),
    decreases n,
{
    let before = states[n - 1];
    let step = steps[n - 1];
    let after = states[n];
    assert(takes(before, step, after));
    assert(succeeds(step));
    if n == 1 {
        assert(starts(steps[0], source));
        assert(after.next_frontier.to_set() =~= first_marked(after, after));
    } else {
        lemma_marks(states, steps, source, n - 1);
        let base = states[level_start(steps, n - 1)];
        if expands(step) {
            let local = before.local_reach();
            assert(before.owns_all(local)) by {
                assert forall|i: int| 0 <= i < local.len() implies before.owns(
                    #[trigger] local[i] as int,
                ) by {
                    lemma_seen(before, local[i]);
                    assert(local.contains(local[i]));
                }
            }
            lemma_marking(base, before, local);
            assert(after.visited == before.marked(local).visited);
            assert(first_marked(base, after) =~= first_marked(base, before.marked(local)));
        } else if applies(step) {
            let nodes = step->command->ApplyDiscoveries_0@;
            lemma_marking(base, before, nodes);
            assert(first_marked(base, after) =~= first_marked(base, before.marked(nodes)));
        } else {
            assert(advances(step) || finishes(step));
            assert(after.next_frontier.to_set() =~= first_marked(after, after));
        }
    }
}

/// As long as every step since the start was answered without an error, an
/// advance tells how many nodes are marked, and as its frontier how many were
/// first marked since the previous advance or, on the first level, since the
/// start, the source not among them.
pub proof fn lemma_advance_tells(states: Seq<ShardView>, steps: Seq<Step>, source: u32, n: int)
    requires
        search_history(states, steps, source),
        1 <= n < steps.len(),
        forall|i: int| 0 <= i <= n ==> succeeds(#[trigger] steps[i]),
        advances(steps[n]) || finishes(steps[n]),
    ensures
        ({
            let base = states[level_start(steps, n)];
            // A finished level marks what it is told before it advances.
            let marked = first_marked(base, states[n + 1]);
            &&& marked.finite()
            &&& match steps[n]->answer {
                Ok(WorkerResponse::BfsAdvanced { frontier, visited }) => {
                    &&& frontier == marked.len()
                    &&& visited == super::set_count(states[n + 1].visited)
                    &&& states[n + 1].visited == states[n].visited
                },
                Ok(WorkerResponse::BfsLevelFinished { frontier, visited, .. }) => {
                    &&& frontier == marked.len()
                    &&& visited == super::set_count(states[n + 1].visited)
                },
                _ => false,
            }
        }),
{
    let before = states[n];
    let after = states[n + 1];
    let step = steps[n];
    assert(takes(states[n], steps[n], states[n + 1]));
    assert(succeeds(step));
    lemma_marks(states, steps, source, n);
    let base = states[level_start(steps, n)];
    super::lemma_set_count_bound(after.visited);
    if advances(step) {
        assert(first_marked(base, after) =~= first_marked(base, before));
        before.next_frontier.unique_seq_to_set();
        vstd::seq_lib::seq_to_set_is_finite(before.next_frontier);
        lemma_frontier_fits(before);
    } else {
        let nodes = step->command->FinishBfsLevel_0@;
        lemma_marking(base, before, nodes);
        let marked = before.marked(nodes);
        assert(first_marked(base, after) =~= first_marked(base, marked));
        marked.next_frontier.unique_seq_to_set();
        vstd::seq_lib::seq_to_set_is_finite(marked.next_frontier);
        assert(after.frontier == marked.next_frontier);
        lemma_no_more_than_owned(marked.next_frontier, after.start, after.end);
    }
}

/// The next frontier of a search is no longer than the worker's range.
proof fn lemma_frontier_fits(shard: ShardView)
    requires
        shard.wf(),
        shard.next_frontier.no_duplicates(),
    ensures
        shard.next_frontier.len() <= u32::MAX,
{
    lemma_no_more_than_owned(shard.next_frontier, shard.start, shard.end);
}

/// Nodes of a range, none twice, are no more than the range holds.
pub proof fn lemma_no_more_than_owned(nodes: Seq<u32>, start: int, end: int)
    requires
        nodes.no_duplicates(),
        0 <= start <= end <= u32::MAX,
        forall|i: int| 0 <= i < nodes.len() ==> start <= (#[trigger] nodes[i]) < end,
    ensures
        nodes.len() <= end - start,
{
    let ints = nodes.map_values(|v: u32| v as int);
    assert(ints.no_duplicates()) by {
        assert forall|i: int, j: int| 0 <= i < ints.len() && 0 <= j < ints.len() && i
            != j implies ints[i] != ints[j] by {
            assert(nodes[i] != nodes[j]);
        }
    }
    ints.unique_seq_to_set();
    let all = vstd::set_lib::set_int_range(start, end);
    vstd::set_lib::lemma_int_range(start, end);
    assert forall|x: int| #[trigger] ints.to_set().contains(x) implies all.contains(x) by {
        let i = choose|i: int| 0 <= i < ints.len() && ints[i] == x;
        assert(start <= nodes[i] < end);
    }
    vstd::set_lib::lemma_len_subset(ints.to_set(), all);
}

/// A second advance at once tells an empty frontier and the same count.
pub proof fn lemma_second_advance(
    shard: ShardView,
    first: WorkerResponse,
    between: ShardView,
    second: WorkerResponse,
    after: ShardView,
)
    requires
        shard.advance_outcome(first, between),
        between.advance_outcome(second, after),
    ensures
        second == (WorkerResponse::BfsAdvanced {
            frontier: 0,
            visited: first->BfsAdvanced_visited,
        }),
        after.visited == shard.visited,
{
}

} // verus!
