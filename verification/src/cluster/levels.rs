//! A search over a whole cluster, as the calls of its workers.

use super::conduct::{expanded_by, finished_by};
use super::ring::told_distances;
use super::search::{
    after_level, after_levels, all_routed, distance_found, level_step, nodes_found, part_at,
    routed, search_at, total_found, total_visited,
};
use super::turns::told;
use super::{built, cluster, graph_link, placed, proper, ring_rows, simple};
use crate::coordinator::search::{
    accepted_found, frontier_size, level_visited, local_found, reported,
};
use crate::coordinator::{search, sum_of};
use crate::distance;
use crate::protocol::{ClusterConfig, WorkerResponse};
use crate::worker::ShardView;
use vstd::prelude::*;

verus! {

/// One level of a search: what the workers answered when they expanded their
/// frontiers, their states then, the nodes that each of them was told, and what
/// they answered to that.
pub struct LevelTaken {
    pub expanded: Seq<Result<WorkerResponse, String>>,
    pub between: Seq<ShardView>,
    pub routes: Seq<Seq<u32>>,
    pub finished: Seq<Result<WorkerResponse, String>>,
}

/// All workers expand their frontiers, are told just the nodes reported to them,
/// in whatever order and however often each, and go on.
pub open spec fn takes_level(
    before: Seq<ShardView>,
    level: LevelTaken,
    after: Seq<ShardView>,
) -> bool {
    &&& level.expanded.len() == before.len()
    &&& level.between.len() == before.len()
    &&& level.routes.len() == before.len()
    &&& level.finished.len() == before.len()
    &&& after.len() == before.len()
    &&& forall|t: int|
        0 <= t < before.len() ==> (#[trigger] before[t]).expand_outcome(
            level.expanded[t],
            level.between[t],
        )
    &&& forall|t: int, node: u32|
        0 <= t < before.len() ==> (#[trigger] level.routes[t].contains(node) <==> reported(
            told(level.expanded),
            t,
            node,
        ))
    &&& forall|t: int|
        0 <= t < before.len() ==> (#[trigger] level.between[t]).level_outcome(
            level.routes[t],
            level.finished[t],
            after[t],
        )
}

/// Marking what was discovered and then advancing is finishing a level.
pub proof fn lemma_two_calls(
    shard: ShardView,
    discoveries: Seq<u32>,
    accepted: u64,
    between: ShardView,
    frontier: u64,
    visited: u64,
    after: ShardView,
)
    requires
        shard.discovery_outcome(
            discoveries,
            Ok(WorkerResponse::DiscoveriesApplied { accepted }),
            between,
        ),
        between.advance_outcome(WorkerResponse::BfsAdvanced { frontier, visited }, after),
    ensures
        shard.level_outcome(
            discoveries,
            Ok(WorkerResponse::BfsLevelFinished { accepted, frontier, visited }),
            after,
        ),
{
}

/// A level as its calls is a level of the search.
proof fn lemma_level_taken(
    before: Seq<ShardView>,
    config: ClusterConfig,
    graph: Seq<Seq<u32>>,
    source: int,
    d: nat,
    level: LevelTaken,
    after: Seq<ShardView>,
)
    requires
        config.workers > 0,
        cluster(before, config, graph),
        simple(graph),
        search_at(before, graph, source, d),
        0 <= source < config.nodes,
        takes_level(before, level, after),
    ensures
        forall|t: int|
            0 <= t < before.len() ==> (#[trigger] level.expanded[t]) is Ok
                && level.finished[t] is Ok,
        routed(before, level.routes),
        after == after_level(before, level.routes),
        expanded_by(before, told(level.expanded)),
        finished_by(before, level.routes, told(level.finished)),
{
    let responses = told(level.expanded);
    assert forall|t: int| 0 <= t < before.len() implies (#[trigger] level.expanded[t]) is Ok by {
        assert(placed(before[t], config, t));
        assert(before[t].expand_outcome(level.expanded[t], level.between[t]));
    }
    assert(expanded_by(before, responses)) by {
        assert forall|t: int| 0 <= t < responses.len() implies match #[trigger] responses[t] {
            WorkerResponse::BfsExpanded { local_discovered, discoveries_by_owner } => {
                &&& local_discovered == crate::worker::bfs::fresh(
                    before[t].visited_set(),
                    before[t].local_reach(),
                ).len()
                &&& discoveries_by_owner@.len() == before.len()
                &&& forall|x: int|
                    0 <= x < before.len() ==> #[trigger] discoveries_by_owner@[x]@
                        == before[t].discoveries_for(x)
            },
            _ => false,
        } by {
            assert(placed(before[t], config, t));
            assert(before[t].expand_outcome(level.expanded[t], level.between[t]));
        }
    }
    assert(routed(before, level.routes)) by {
        assert forall|t: int, node: u32| 0 <= t < before.len() implies (
        #[trigger] level.routes[t].contains(node) <==> exists|i: int| #[trigger]
            super::search::reported_by(before, i, t, node)) by {
            assert(level.routes[t].contains(node) <==> reported(responses, t, node));
            super::search::lemma_reported_by(before, config, graph, responses, t, node);
        }
    }
    assert forall|t: int| 0 <= t < before.len() implies after[t] == level_step(
        before[t],
        level.routes[t],
    ) && level.finished[t] is Ok by {
        assert(placed(before[t], config, t));
        assert(before[t].expand_outcome(level.expanded[t], level.between[t]));
        assert(level.between[t] == before[t].expanded());
        assert(level.between[t].level_outcome(level.routes[t], level.finished[t], after[t]));
        assert(level.between[t].owns_all(level.routes[t])) by {
            assert forall|i: int| 0 <= i < level.routes[t].len() implies level.between[t].owns(
                #[trigger] level.routes[t][i] as int,
            ) by {
                let node = level.routes[t][i];
                assert(level.routes[t].contains(node));
                let x = choose|x: int| #[trigger]
                    super::search::reported_by(before, x, t, node);
                super::search::lemma_reported(
                    before,
                    config,
                    graph,
                    source,
                    d,
                    x,
                    t,
                    node,
                );
            }
        }
    }
    assert forall|t: int| 0 <= t < before.len() implies (#[trigger] level.expanded[t]) is Ok
        && level.finished[t] is Ok by {
        assert(after[t] == level_step(before[t], level.routes[t]));
    }
    assert(after =~= after_level(before, level.routes));
    let finished = told(level.finished);
    assert forall|t: int| 0 <= t < finished.len() implies match #[trigger] finished[t] {
        WorkerResponse::BfsLevelFinished { accepted, frontier, visited } => {
            let end = level_step(before[t], level.routes[t]);
            &&& accepted == crate::worker::bfs::fresh(
                before[t].expanded().visited_set(),
                level.routes[t],
            ).len()
            &&& frontier == end.frontier.len()
            &&& visited == end.visited_count
        },
        _ => false,
    } by {
        assert(after[t] == level_step(before[t], level.routes[t]));
        assert(before[t].expand_outcome(level.expanded[t], level.between[t]));
        assert(placed(before[t], config, t));
        assert(level.between[t].level_outcome(level.routes[t], level.finished[t], after[t]));
        super::search::lemma_level_part(before, config, graph, source, d, level.routes, t);
        super::search::lemma_frontier_fits(
            after[t],
            config,
            t,
            graph,
            source,
            d + 1,
        );
    }
}

/// All workers are asked to start a search, and then go through it level by level.
pub open spec fn takes_search(
    shards: Seq<ShardView>,
    source: u32,
    started: Seq<Result<WorkerResponse, String>>,
    clusters: Seq<Seq<ShardView>>,
    levels: Seq<LevelTaken>,
) -> bool {
    &&& started.len() == shards.len()
    &&& clusters.len() == levels.len() + 1
    &&& clusters[0].len() == shards.len()
    &&& forall|t: int|
        0 <= t < shards.len() ==> (#[trigger] shards[t]).start_outcome(
            source,
            started[t],
            clusters[0][t],
        )
    &&& forall|d: int|
        0 <= d < levels.len() ==> takes_level(clusters[d], #[trigger] levels[d], clusters[d + 1])
}

/// The routes of all levels.
pub open spec fn level_routes(levels: Seq<LevelTaken>) -> Seq<Seq<Seq<u32>>> {
    Seq::new(levels.len(), |d: int| levels[d].routes)
}

/// What the workers told to have found on a level: of their own accord, and by
/// what they were told.
pub open spec fn level_told(level: LevelTaken) -> nat {
    sum_of(told(level.expanded), local_found()) + sum_of(told(level.finished), accepted_found())
}

/// What was told on each of the first `d` levels, times how far that level is.
pub open spec fn distance_told(levels: Seq<LevelTaken>, d: int) -> nat
    decreases d,
{
    if d <= 0 {
        0
    } else {
        distance_told(levels, d - 1) + d as nat * level_told(levels[d - 1])
    }
}

/// What was told on the first `d` levels.
pub open spec fn nodes_told(levels: Seq<LevelTaken>, d: int) -> nat
    decreases d,
{
    if d <= 0 {
        0
    } else {
        nodes_told(levels, d - 1) + level_told(levels[d - 1])
    }
}

/// Every call of the level was answered without an error.
pub open spec fn level_succeeds(level: LevelTaken) -> bool {
    forall|t: int|
        0 <= t < level.expanded.len() ==> (#[trigger] level.expanded[t]) is Ok
            && level.finished[t] is Ok
}

/// The worker's nodes that the level marked are those just `d` steps from the source.
pub open spec fn marks_sphere(
    before: ShardView,
    after: ShardView,
    link: spec_fn(int, int) -> bool,
    source: int,
    d: nat,
) -> bool {
    forall|i: int|
        0 <= i < after.visited.len() ==> (#[trigger] after.visited[i] && !before.visited[i]
            <==> distance::at_distance(link, source, after.start + i, d))
}

/// The first `d` levels of a search over a cluster.
proof fn lemma_levels_taken(
    shards: Seq<ShardView>,
    config: ClusterConfig,
    graph: Seq<Seq<u32>>,
    source: u32,
    started: Seq<Result<WorkerResponse, String>>,
    clusters: Seq<Seq<ShardView>>,
    levels: Seq<LevelTaken>,
    d: int,
)
    requires
        config.workers > 0,
        cluster(shards, config, graph),
        simple(graph),
        source < config.nodes,
        forall|t: int|
            0 <= t < shards.len() ==> (#[trigger] shards[t]).visited.len() == shards[t].end
                - shards[t].start,
        takes_search(shards, source, started, clusters, levels),
        0 <= d <= levels.len(),
    ensures
        forall|t: int| 0 <= t < started.len() ==> (#[trigger] started[t]) is Ok,
        clusters[0] == Seq::new(shards.len(), |t: int| shards[t].started(source as int)),
        clusters[d] == after_levels(clusters[0], level_routes(levels), d),
        cluster(clusters[d], config, graph),
        search_at(clusters[d], graph, source as int, d as nat),
        total_visited(clusters[0], config.workers as int) == 1,
        forall|e: int|
            0 <= e < d ==> level_succeeds(#[trigger] levels[e]) && routed(
                clusters[e],
                levels[e].routes,
            ),
        distance_told(levels, d) == distance_found(
            clusters[0],
            level_routes(levels),
            config.workers as int,
            d,
        ),
        nodes_told(levels, d) == nodes_found(
            clusters[0],
            level_routes(levels),
            config.workers as int,
            d,
        ),
    decreases d,
{
    let routes = level_routes(levels);
    let workers = config.workers as int;
    if d == 0 {
        let first = Seq::new(shards.len(), |t: int| shards[t].started(source as int));
        assert forall|t: int| 0 <= t < shards.len() implies clusters[0][t] == first[t] by {
            assert(placed(shards[t], config, t));
            assert(shards[t].start_outcome(source, started[t], clusters[0][t]));
        }
        assert forall|t: int| 0 <= t < started.len() implies (#[trigger] started[t]) is Ok by {
            assert(clusters[0][t] == first[t]);
            assert(placed(shards[t], config, t));
            assert(shards[t].start_outcome(source, started[t], clusters[0][t]));
        }
        assert(clusters[0] =~= first);
        super::search::lemma_started(shards, config, graph, source as int);
    } else {
        let e = d - 1;
        lemma_levels_taken(shards, config, graph, source, started, clusters, levels, e);
        assert(takes_level(clusters[e], levels[e], clusters[e + 1]));
        lemma_level_taken(
            clusters[e],
            config,
            graph,
            source as int,
            e as nat,
            levels[e],
            clusters[d],
        );
        super::search::lemma_level(
            clusters[e],
            config,
            graph,
            source as int,
            e as nat,
            levels[e].routes,
        );
        super::conduct::lemma_level_sums(
            clusters[e],
            config,
            graph,
            source as int,
            e as nat,
            levels[e].routes,
            told(levels[e].expanded),
            told(levels[e].finished),
        );
        assert(level_told(levels[e]) == total_found(clusters[e], levels[e].routes, workers));
    }
}

/// A search over a cluster that holds a simple undirected graph: every call
/// succeeds, and on level `d` the workers mark just the nodes at distance `d`
/// from the source.
pub proof fn lemma_search_taken(
    shards: Seq<ShardView>,
    config: ClusterConfig,
    graph: Seq<Seq<u32>>,
    source: u32,
    started: Seq<Result<WorkerResponse, String>>,
    clusters: Seq<Seq<ShardView>>,
    levels: Seq<LevelTaken>,
    d: int,
)
    requires
        config.workers > 0,
        cluster(shards, config, graph),
        simple(graph),
        source < config.nodes,
        forall|t: int|
            0 <= t < shards.len() ==> (#[trigger] shards[t]).visited.len() == shards[t].end
                - shards[t].start,
        takes_search(shards, source, started, clusters, levels),
        1 <= d <= levels.len(),
    ensures
        forall|t: int| 0 <= t < started.len() ==> (#[trigger] started[t]) is Ok,
        level_succeeds(levels[d - 1]),
        forall|t: int|
            0 <= t < shards.len() ==> marks_sphere(
                clusters[d - 1][t],
                #[trigger] clusters[d][t],
                graph_link(graph),
                source as int,
                d as nat,
            ),
{
    let link = graph_link(graph);
    let s = source as int;
    lemma_levels_taken(shards, config, graph, source, started, clusters, levels, d - 1);
    lemma_levels_taken(shards, config, graph, source, started, clusters, levels, d);
    assert forall|t: int| 0 <= t < shards.len() implies marks_sphere(
        clusters[d - 1][t],
        #[trigger] clusters[d][t],
        link,
        s,
        d as nat,
    ) by {
        let before = clusters[d - 1][t];
        let after = clusters[d][t];
        assert(part_at(clusters[d - 1][t], link, s, (d - 1) as nat));
        assert(part_at(clusters[d][t], link, s, d as nat));
        assert(placed(clusters[d - 1][t], config, t) && placed(clusters[d][t], config, t));
        assert forall|i: int| 0 <= i < after.visited.len() implies (#[trigger] after.visited[i]
            && !before.visited[i] <==> distance::at_distance(link, s, after.start + i, d as nat))
        by {
            assert(before.visited[i] == distance::within(
                link,
                s,
                before.start + i,
                (d - 1) as nat,
            ));
        }
    }
}

/// A search that goes on until all workers tell an empty frontier: what they told
/// to have found on each level, times how far that level is, sums up to the
/// distances from the source; together it is the number of nodes that the source
/// reaches; and the counts that they tell last sum up to the source's component.
/// On a ring that all workers know to be intact, the distances are those that
/// they tell by formula.
pub proof fn lemma_search_ends(
    shards: Seq<ShardView>,
    config: ClusterConfig,
    graph: Seq<Seq<u32>>,
    source: u32,
    started: Seq<Result<WorkerResponse, String>>,
    clusters: Seq<Seq<ShardView>>,
    levels: Seq<LevelTaken>,
)
    requires
        config.workers > 0,
        cluster(shards, config, graph),
        simple(graph),
        source < config.nodes,
        forall|t: int|
            0 <= t < shards.len() ==> (#[trigger] shards[t]).visited.len() == shards[t].end
                - shards[t].start,
        takes_search(shards, source, started, clusters, levels),
        levels.len() > 0,
        sum_of(told(levels.last().finished), frontier_size()) == 0,
    ensures
        ({
            let link = graph_link(graph);
            let n = config.nodes as nat;
            &&& distance_told(levels, levels.len() as int) == distance::distance_sum(
                link,
                source as int,
                n,
            )
            &&& nodes_told(levels, levels.len() as int) == distance::reach_count(
                link,
                source as int,
                n,
            )
            &&& sum_of(told(levels.last().finished), level_visited()) == distance::reach_count(
                link,
                source as int,
                n,
            ) + 1
            &&& proper(config) && built(shards, config) ==> distance_told(
                levels,
                levels.len() as int,
            ) == told_distances(config, source as int, config.workers as int)
        }),
{
    let link = graph_link(graph);
    let s = source as int;
    let end = levels.len() as int;
    let workers = config.workers as int;
    let routes = level_routes(levels);
    let first = clusters[0];
    lemma_levels_taken(shards, config, graph, source, started, clusters, levels, end);
    lemma_levels_taken(shards, config, graph, source, started, clusters, levels, end - 1);
    lemma_levels_taken(shards, config, graph, source, started, clusters, levels, 0);
    assert(all_routed(first, routes)) by {
        assert forall|e: int| 0 <= e < routes.len() implies routed(
            after_levels(first, routes, e),
            #[trigger] routes[e],
        ) by {
            lemma_levels_taken(shards, config, graph, source, started, clusters, levels, e);
            assert(routed(clusters[e], levels[e].routes));
        }
    }
    let before = clusters[end - 1];
    assert(takes_level(clusters[end - 1], levels[end - 1], clusters[end - 1 + 1]));
    lemma_level_taken(
        before,
        config,
        graph,
        s,
        (end - 1) as nat,
        levels[end - 1],
        clusters[end],
    );
    super::conduct::lemma_level_sums(
        before,
        config,
        graph,
        s,
        (end - 1) as nat,
        levels[end - 1].routes,
        told(levels[end - 1].expanded),
        told(levels[end - 1].finished),
    );
    super::search::lemma_search(first, config, graph, s, routes);
    if proper(config) && built(shards, config) {
        super::lemma_built(shards, config);
        assert(graph =~= ring_rows(config)) by {
            assert forall|node: int| 0 <= node < config.nodes implies graph[node] == ring_rows(
                config,
            )[node] by {
                super::lemma_row(shards, config, graph, node);
                super::lemma_row(shards, config, ring_rows(config), node);
            }
        }
        super::ring::lemma_ring_search(config, s);
    }
}

/// Workers of a cluster that know their rings to be intact hold the ring together.
pub proof fn lemma_intact_cluster(
    shards: Seq<ShardView>,
    config: ClusterConfig,
    graph: Seq<Seq<u32>>,
)
    requires
        cluster(shards, config, graph),
        forall|t: int|
            0 <= t < shards.len() ==> (#[trigger] shards[t]).wf() && shards[t].ring_intact,
    ensures
        built(shards, config),
{
    assert forall|t: int| 0 <= t < shards.len() implies placed(#[trigger] shards[t], config, t)
        && shards[t].rows.len() == shards[t].end - shards[t].start && shards[t].holds_ring() by {
        assert(shards[t].wf());
    }
}

/// On an intact ring the workers all tell their distances by formula, and what
/// they tell sums up to what a search from the same source finds.
pub proof fn lemma_formula_agrees(
    shards: Seq<ShardView>,
    config: ClusterConfig,
    graph: Seq<Seq<u32>>,
    source: u32,
    started: Seq<Result<WorkerResponse, String>>,
    clusters: Seq<Seq<ShardView>>,
    levels: Seq<LevelTaken>,
    answers: Seq<Result<WorkerResponse, String>>,
)
    requires
        proper(config),
        cluster(shards, config, graph),
        simple(graph),
        source < config.nodes,
        forall|t: int|
            0 <= t < shards.len() ==> (#[trigger] shards[t]).wf() && shards[t].ring_intact,
        takes_search(shards, source, started, clusters, levels),
        levels.len() > 0,
        sum_of(told(levels.last().finished), frontier_size()) == 0,
        answers.len() == shards.len(),
        forall|t: int|
            0 <= t < shards.len() ==> shards[t].ring_outcome(source, #[trigger] answers[t]),
    ensures
        forall|t: int| 0 <= t < answers.len() ==> (#[trigger] answers[t]) is Ok,
        sum_of(told(answers), search::ring_sum()) == distance_told(levels, levels.len() as int),
        sum_of(told(answers), search::ring_reachable()) == nodes_told(
            levels,
            levels.len() as int,
        ),
        sum_of(told(answers), search::ring_visited()) == sum_of(
            told(levels.last().finished),
            level_visited(),
        ),
{
    lemma_intact_cluster(shards, config, graph);
    assert forall|t: int| 0 <= t < shards.len() implies (#[trigger] shards[t]).visited.len()
        == shards[t].end - shards[t].start by {
        assert(shards[t].wf());
    }
    let responses = told(answers);
    assert forall|t: int| 0 <= t < answers.len() implies (#[trigger] answers[t]) is Ok by {
        assert(shards[t].ring_outcome(source, answers[t]));
        assert(placed(shards[t], config, t));
        assert(shards[t].ring_intact);
    }
    assert(super::conduct::measured_by(shards, config, source as int, responses)) by {
        assert forall|t: int| 0 <= t < responses.len() implies responses[t] == answers[t]->Ok_0
            && answers[t] is Ok && placed(shards[t], config, t) && shards[t].ring_outcome(
            source,
            #[trigger] answers[t],
        ) && shards[t].ring_intact by {
            assert(shards[t].wf());
        }
        assert forall|t: int| 0 <= t < responses.len() implies match #[trigger] responses[t] {
            WorkerResponse::RingDistances { distance_sum, reachable, visited } => {
                &&& distance_sum == crate::worker::ring::ring_distance_sum(
                    config.nodes as int,
                    super::half(config),
                    source as int,
                    shards[t].start,
                    shards[t].end,
                )
                &&& reachable == shards[t].end - shards[t].start - if shards[t].owns(
                    source as int,
                ) {
                    1int
                } else {
                    0
                }
                &&& visited == shards[t].end - shards[t].start
            },
            _ => false,
        } by {
            assert(shards[t].ring_outcome(source, answers[t]));
            super::lemma_bounds(config, t);
        }
    }
    super::conduct::lemma_ring_sums(shards, config, graph, source as int, responses);
    lemma_search_ends(shards, config, graph, source, started, clusters, levels);
    super::lemma_built(shards, config);
    assert(graph =~= ring_rows(config)) by {
        assert forall|node: int| 0 <= node < config.nodes implies graph[node] == ring_rows(
            config,
        )[node] by {
            super::lemma_row(shards, config, graph, node);
            super::lemma_row(shards, config, ring_rows(config), node);
        }
    }
    super::ring::lemma_ring_search(config, source as int);
}

} // verus!
