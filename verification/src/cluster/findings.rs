//! What the coordinator makes of the searches over a cluster.

use super::levels::{distance_told, level_told, nodes_told, takes_search, LevelTaken};
use super::turns::told;
use super::{cluster, graph_link, proper, ring_rows, simple};
use crate::coordinator::course::course;
use crate::coordinator::search::{frontier_size, level_visited};
use crate::coordinator::{sum_of, Action, Clock, Coordinator, Reply, Stage, Stop, Turn};
use crate::counting;
use crate::distance;
use crate::measures::{known, walk_between};
use crate::model::ExperimentConfig;
use crate::protocol::{WorkerCommand, WorkerResponse};
use crate::worker::ShardView;
use vstd::prelude::*;

verus! {

/// The shortest walk along the rows from the source to `v` has that many steps, or there
/// is none.
pub open spec fn shortest(graph: Seq<Seq<u32>>, source: int, v: int, steps: Option<nat>) -> bool {
    let link = |x: int, y: int|
        0 <= x < graph.len() && 0 <= y <= u32::MAX && graph[x].contains(y as u32);
    match steps {
        Some(d) => {
            &&& exists|path: Seq<int>| #[trigger]
                walk_between(link, path, source, v) && path.len() == d + 1
            &&& forall|path: Seq<int>| #[trigger]
                walk_between(link, path, source, v) ==> path.len() > d
        },
        None => forall|path: Seq<int>| !#[trigger] walk_between(link, path, source, v),
    }
}

proof fn lemma_steps(graph: Seq<Seq<u32>>, source: int, v: int, steps: Option<nat>)
    requires
        shortest(graph, source, v, steps),
    ensures
        steps is Some <==> distance::reachable(graph_link(graph), source, v),
        steps is Some ==> steps->Some_0 == distance::distance(graph_link(graph), source, v),
{
    let link = |x: int, y: int|
        0 <= x < graph.len() && 0 <= y <= u32::MAX && graph[x].contains(y as u32);
    assert(link =~= graph_link(graph));
    crate::measures::lemma_shortest_walk(link, source, v);
    if steps is Some {
        let path = choose|path: Seq<int>| #[trigger]
            walk_between(link, path, source, v) && path.len() == steps->Some_0 + 1;
        assert(walk_between(link, path, source, v));
    }
}

proof fn lemma_step_sums(
    graph: Seq<Seq<u32>>,
    source: int,
    steps: spec_fn(int) -> Option<nat>,
    n: nat,
)
    requires
        forall|v: int| 0 <= v < n ==> shortest(graph, source, v, #[trigger] steps(v)),
    ensures
        distance::distance_sum(graph_link(graph), source, n) == counting::sum(
            |v: int| known(steps(v)),
            n,
        ),
        distance::reach_count(graph_link(graph), source, n) == counting::sum(
            |v: int|
                if v != source && steps(v) is Some {
                    1nat
                } else {
                    0
                },
            n,
        ),
    decreases n,
{
    if n > 0 {
        lemma_step_sums(graph, source, steps, (n - 1) as nat);
        assert(shortest(graph, source, n - 1, steps(n - 1)));
        lemma_steps(graph, source, n - 1, steps(n - 1));
    }
}

/// Replies `at + 2`, `at + 3` and so on are what the workers answered on the levels of a
/// search, of which the last is the first to leave no frontier.
#[verifier::opaque]
pub open spec fn told_to(replies: Seq<Reply>, at: int, levels: Seq<LevelTaken>) -> bool {
    &&& levels.len() > 0
    &&& forall|d: int|
        0 <= d < levels.len() ==> {
            let expanded = replies[at + 2 + 2 * d];
            let finished = replies[at + 3 + 2 * d];
            &&& expanded is All
            &&& finished is All
            &&& expanded->All_0@ == told((#[trigger] levels[d]).expanded)
            &&& finished->All_0@ == told(levels[d].finished)
            &&& d < levels.len() - 1 <==> sum_of(told(levels[d].finished), frontier_size()) != 0
        }
}

/// One level of a search.
#[verifier::rlimit(60)]
proof fn lemma_one_level(
    a: Coordinator,
    expanded: Reply,
    first: Turn,
    b: Coordinator,
    finished: Reply,
    second: Turn,
    c: Coordinator,
    clocks: (Clock, Clock),
    level: LevelTaken,
    e: int,
)
    requires
        0 <= e <= u32::MAX,
        a.stage == (Stage::Expanding { level: e as u32 }),
        expanded is All,
        finished is All,
        expanded->All_0@ == told(level.expanded),
        finished->All_0@ == told(level.finished),
        a.turn(expanded, clocks.0, Ok::<Turn, Stop>(first), b),
        b.turn(finished, clocks.1, Ok::<Turn, Stop>(second), c),
    ensures
        c.totals.total_distance == a.totals.total_distance + (e + 1) * level_told(level),
        c.totals.total_reachable == a.totals.total_reachable + level_told(level),
        c.totals.vertices_visited == a.totals.vertices_visited + if sum_of(
            told(level.finished),
            frontier_size(),
        ) == 0 {
            sum_of(told(level.finished), level_visited())
        } else {
            0
        },
        sum_of(told(level.finished), frontier_size()) != 0 ==> e < u32::MAX && c.stage == (
        Stage::Expanding { level: (e + 1) as u32 }),
{
    let found = level_told(level);
    assert(found * (e + 1) == (e + 1) * found) by (nonlinear_arith);
}

/// In the midst of a search: the coordinator has added what the levels so far told.
#[verifier::rlimit(60)]
proof fn lemma_level_totals(
    config: ExperimentConfig,
    states: Seq<Coordinator>,
    replies: Seq<Reply>,
    clocks: Seq<Clock>,
    turns: Seq<Turn>,
    at: int,
    levels: Seq<LevelTaken>,
    d: int,
)
    requires
        course(config, states, replies, clocks, turns),
        0 <= at,
        at + 1 + 2 * levels.len() < replies.len(),
        states[at + 1].stage == Stage::Starting,
        told_to(replies, at, levels),
        0 <= d < levels.len(),
    ensures
        ({
            let before = states[at + 1];
            let now = states[at + 2 + 2 * d];
            &&& now.stage == (Stage::Expanding { level: d as u32 })
            &&& d <= u32::MAX
            &&& now.totals.total_distance == before.totals.total_distance + distance_told(levels, d)
            &&& now.totals.total_reachable == before.totals.total_reachable + nodes_told(levels, d)
            &&& now.totals.vertices_visited == before.totals.vertices_visited
        }),
    decreases d,
{
    if d == 0 {
        crate::coordinator::course::lemma_at(config, states, replies, clocks, turns, at + 1);
        assert(at + 1 + 1 == at + 2 + 2 * d);
    } else {
        let e = d - 1;
        let i = at + 2 + 2 * e;
        lemma_level_totals(config, states, replies, clocks, turns, at, levels, e);
        reveal(told_to);
        crate::coordinator::course::lemma_at(config, states, replies, clocks, turns, i);
        crate::coordinator::course::lemma_at(config, states, replies, clocks, turns, i + 1);
        assert(levels[e] == levels[e]);
        assert(at + 3 + 2 * e == i + 1);
        assert(at + 2 + 2 * d == i + 1 + 1);
        lemma_one_level(
            states[i],
            replies[i],
            turns[i],
            states[i + 1],
            replies[i + 1],
            turns[i + 1],
            states[i + 1 + 1],
            (clocks[i], clocks[i + 1]),
            levels[e],
            e,
        );
    }
}

/// When a search over a cluster that holds a simple undirected graph is over, the
/// coordinator has added to its totals the lengths of the shortest walks from the
/// source to every node that it reaches, the number of those nodes, and the
/// number of nodes visited, the source among them.
#[verifier::rlimit(60)]
pub proof fn lemma_search_total(
    config: ExperimentConfig,
    states: Seq<Coordinator>,
    replies: Seq<Reply>,
    clocks: Seq<Clock>,
    turns: Seq<Turn>,
    at: int,
    shards: Seq<ShardView>,
    graph: Seq<Seq<u32>>,
    source: u32,
    started: Seq<Result<WorkerResponse, String>>,
    clusters: Seq<Seq<ShardView>>,
    levels: Seq<LevelTaken>,
    steps: spec_fn(int) -> Option<nat>,
)
    requires
        course(config, states, replies, clocks, turns),
        0 <= at,
        at + 1 + 2 * levels.len() < replies.len(),
        turns[at].action == Action::Broadcast(WorkerCommand::StartBfs { source }),
        told_to(replies, at, levels),
        config.workers > 0,
        cluster(shards, config.cluster(), graph),
        simple(graph),
        source < config.nodes,
        forall|t: int|
            0 <= t < shards.len() ==> (#[trigger] shards[t]).visited.len() == shards[t].end
                - shards[t].start,
        takes_search(shards, source, started, clusters, levels),
        forall|v: int|
            0 <= v < config.nodes ==> shortest(graph, source as int, v, #[trigger] steps(v)),
    ensures
        ({
            let before = states[at + 1].totals;
            let after = states[at + 2 + 2 * levels.len()].totals;
            let reached = counting::sum(
                |v: int|
                    if v != source && steps(v) is Some {
                        1nat
                    } else {
                        0
                    },
                config.nodes as nat,
            );
            &&& after.total_distance == before.total_distance + counting::sum(
                |v: int| known(steps(v)),
                config.nodes as nat,
            )
            &&& after.total_reachable == before.total_reachable + reached
            &&& after.vertices_visited == before.vertices_visited + reached + 1
        }),
{
    let end = levels.len() as int;
    reveal(told_to);
    crate::coordinator::course::lemma_begun(config, states, replies, clocks, turns, at);
    lemma_level_totals(config, states, replies, clocks, turns, at, levels, end - 1);
    let i = at + 2 + 2 * (end - 1);
    assert(levels[end - 1] == levels.last());
    assert(at + 3 + 2 * (end - 1) == i + 1);
    assert(at + 2 + 2 * levels.len() == i + 1 + 1);
    crate::coordinator::course::lemma_at(config, states, replies, clocks, turns, i);
    crate::coordinator::course::lemma_at(config, states, replies, clocks, turns, i + 1);
    lemma_one_level(
        states[i],
        replies[i],
        turns[i],
        states[i + 1],
        replies[i + 1],
        turns[i + 1],
        states[i + 1 + 1],
        (clocks[i], clocks[i + 1]),
        levels[end - 1],
        end - 1,
    );
    super::levels::lemma_search_ends(
        shards,
        config.cluster(),
        graph,
        source,
        started,
        clusters,
        levels,
    );
    lemma_step_sums(graph, source as int, steps, config.nodes as nat);
    let left = |v: int|
        if v != source as int && steps(v) is Some {
            1nat
        } else {
            0
        };
    let right = |v: int|
        if v != source && steps(v) is Some {
            1nat
        } else {
            0
        };
    counting::lemma_same_sum(left, right, config.nodes as nat);
}

/// When the workers of a cluster that holds the ring have told their ring distances, the
/// coordinator has added to its totals the lengths of the shortest walks from the
/// source to every node, the number of other nodes, and that of all nodes.
#[verifier::rlimit(60)]
pub proof fn lemma_ring_total(
    config: ExperimentConfig,
    states: Seq<Coordinator>,
    replies: Seq<Reply>,
    clocks: Seq<Clock>,
    turns: Seq<Turn>,
    at: int,
    shards: Seq<ShardView>,
    graph: Seq<Seq<u32>>,
    source: u32,
    answers: Seq<Result<WorkerResponse, String>>,
    steps: spec_fn(int) -> Option<nat>,
)
    requires
        course(config, states, replies, clocks, turns),
        0 <= at,
        at + 1 < replies.len(),
        turns[at].action == Action::Broadcast(WorkerCommand::RingDistances { source }),
        proper(config.cluster()),
        cluster(shards, config.cluster(), graph),
        source < config.nodes,
        forall|t: int|
            0 <= t < shards.len() ==> (#[trigger] shards[t]).wf() && shards[t].ring_intact
                && shards[t].ring_outcome(source, answers[t]),
        answers.len() == shards.len(),
        replies[at + 1] is All,
        replies[at + 1]->All_0@ == told(answers),
        forall|v: int|
            0 <= v < config.nodes ==> shortest(graph, source as int, v, #[trigger] steps(v)),
    ensures
        ({
            let before = states[at + 1].totals;
            let after = states[at + 2].totals;
            &&& after.total_distance == before.total_distance + counting::sum(
                |v: int| known(steps(v)),
                config.nodes as nat,
            )
            &&& after.total_reachable == before.total_reachable + config.nodes - 1
            &&& after.vertices_visited == before.vertices_visited + config.nodes
        }),
{
    let cluster_config = config.cluster();
    let responses = told(answers);
    crate::coordinator::course::lemma_begun(config, states, replies, clocks, turns, at);
    crate::coordinator::course::lemma_at(config, states, replies, clocks, turns, at + 1);
    super::levels::lemma_intact_cluster(shards, cluster_config, graph);
    super::lemma_built(shards, cluster_config);
    assert(graph =~= ring_rows(cluster_config)) by {
        assert forall|node: int| 0 <= node < cluster_config.nodes implies graph[node] == ring_rows(
            cluster_config,
        )[node] by {
            super::lemma_row(shards, cluster_config, graph, node);
            super::lemma_row(shards, cluster_config, ring_rows(cluster_config), node);
        }
    }
    assert forall|t: int| 0 <= t < responses.len() implies {
        let response = #[trigger] responses[t];
        answers[t] is Ok && response is RingDistances && shards[t].config == Some(cluster_config)
    } by {
        assert(super::placed(shards[t], cluster_config, t));
        assert(shards[t].ring_outcome(source, answers[t]));
    }
    super::conduct::lemma_ring_sums(shards, cluster_config, graph, source as int, responses);
    super::ring::lemma_ring_search(cluster_config, source as int);
    lemma_step_sums(graph, source as int, steps, config.nodes as nat);
}

} // verus!
