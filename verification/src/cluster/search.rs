//! A search by many workers, level by level.

use super::{cluster, first_of, graph_link, owner, placed, simple, sound_row};
use crate::coordinator::search;
use crate::distance;
use crate::protocol::{ClusterConfig, WorkerResponse};
use crate::worker::bfs::{among, fresh, owned_part};
use crate::worker::ShardView;
use crate::worker;
use vstd::prelude::*;

verus! {

/// A worker's part of a search that has come to level `d`: it has marked its
/// nodes within `d` steps, its frontier is those just `d` steps away, and what
/// it has reported to others has been found.
pub open spec fn part_at(
    shard: ShardView,
    link: spec_fn(int, int) -> bool,
    source: int,
    d: nat,
) -> bool {
    let config = shard.config->Some_0;
    &&& shard.visited.len() == shard.end - shard.start
    &&& forall|i: int|
        0 <= i < shard.visited.len() ==> #[trigger] shard.visited[i] == distance::within(
            link,
            source,
            shard.start + i,
            d,
        )
    &&& shard.frontier.no_duplicates()
    &&& forall|v: u32| #[trigger]
        shard.frontier.contains(v) <==> shard.owns(v as int) && distance::at_distance(
            link,
            source,
            v as int,
            d,
        )
    &&& shard.next_frontier == Seq::<u32>::empty()
    &&& config.workers > 1 ==> shard.remote.len() >= config.nodes
    &&& forall|v: int|
        0 <= v < shard.remote.len() && !shard.owns(v) && #[trigger] shard.remote[v]
            ==> distance::within(link, source, v, d)
}

/// Every worker's part has come to level `d`.
pub open spec fn search_at(
    shards: Seq<ShardView>,
    graph: Seq<Seq<u32>>,
    source: int,
    d: nat,
) -> bool {
    forall|t: int|
        0 <= t < shards.len() ==> part_at(#[trigger] shards[t], graph_link(graph), source, d)
}

/// Some worker other than `t` reports the node to `t`.
pub open spec fn reported_by(shards: Seq<ShardView>, i: int, t: int, node: u32) -> bool {
    0 <= i < shards.len() && i != t && shards[i].discoveries_for(t).contains(node)
}

/// The routes carry to every worker just the nodes that were reported to it.
pub open spec fn routed(shards: Seq<ShardView>, routes: Seq<Seq<u32>>) -> bool {
    &&& routes.len() == shards.len()
    &&& forall|t: int, node: u32|
        0 <= t < shards.len() ==> (#[trigger] routes[t].contains(node) <==> exists|i: int|
            #[trigger] reported_by(shards, i, t, node))
}

/// A worker after it has expanded its frontier, been told its route and gone on.
pub open spec fn level_step(shard: ShardView, route: Seq<u32>) -> ShardView {
    let expanded = shard.expanded();
    expanded.marked(route).recounted(fresh(expanded.visited_set(), route).len()).advanced()
}

/// How many nodes a worker finds on a level: of its own accord and by its route.
pub open spec fn level_found(shard: ShardView, route: Seq<u32>) -> nat {
    fresh(shard.visited_set(), shard.local_reach()).len() + fresh(
        shard.expanded().visited_set(),
        route,
    ).len()
}

/// All workers after a level.
pub open spec fn after_level(shards: Seq<ShardView>, routes: Seq<Seq<u32>>) -> Seq<ShardView> {
    Seq::new(shards.len(), |t: int| level_step(shards[t], routes[t]))
}

/// A search that has just been started is at level zero.
pub proof fn lemma_started(
    shards: Seq<ShardView>,
    config: ClusterConfig,
    graph: Seq<Seq<u32>>,
    source: int,
)
    requires
        cluster(shards, config, graph),
        config.workers > 0,
        0 <= source < config.nodes,
        forall|t: int|
            0 <= t < shards.len() ==> (#[trigger] shards[t]).visited.len() == shards[t].end
                - shards[t].start,
    ensures
        ({
            let started = Seq::new(shards.len(), |t: int| shards[t].started(source));
            &&& cluster(started, config, graph)
            &&& search_at(started, graph, source, 0)
            &&& total_visited(started, config.workers as int) == 1
        }),
{
    let link = graph_link(graph);
    lemma_started_visited(shards, config, graph, source, config.workers as int);
    super::lemma_bounds(config, 0);
    let started = Seq::new(shards.len(), |t: int| shards[t].started(source));
    assert forall|t: int| 0 <= t < started.len() implies placed(#[trigger] started[t], config, t)
        && super::holds(started[t], graph) && part_at(started[t], link, source, 0) by {
        let shard = shards[t];
        assert(placed(shards[t], config, t) && super::holds(shards[t], graph));
        super::lemma_bounds(config, t);
        let now = shard.started(source);
        assert forall|v: u32| #[trigger] now.frontier.contains(v) <==> now.owns(v as int)
            && distance::at_distance(link, source, v as int, 0) by {
            if now.owns(source) {
                assert(now.frontier[0] == source as u32);
            }
        }
    }
}

/// What the worker of a searched part sees of the next level.
proof fn lemma_reach(
    shard: ShardView,
    config: ClusterConfig,
    t: int,
    graph: Seq<Seq<u32>>,
    source: int,
    d: nat,
    v: u32,
)
    requires
        placed(shard, config, t),
        super::holds(shard, graph),
        graph.len() == config.nodes,
        simple(graph),
        part_at(shard, graph_link(graph), source, d),
    ensures
        shard.reach().contains(v) <==> exists|u: u32| #[trigger]
            shard.frontier.contains(u) && graph[u as int].contains(v),
        shard.reach().contains(v) ==> v < config.nodes && distance::within(
            graph_link(graph),
            source,
            v as int,
            d + 1,
        ),
{
    let link = graph_link(graph);
    super::lemma_bounds(config, t);
    worker::bfs::lemma_reached(shard.rows, shard.start, shard.frontier, v);
    assert forall|u: u32| #[trigger] shard.frontier.contains(u) implies shard.rows[u - shard.start]
        == graph[u as int] by {
        assert(shard.owns(u as int));
        assert(shard.rows[u - shard.start] == graph[shard.start + (u - shard.start)]);
    }
    if shard.reach().contains(v) {
        let u = choose|u: u32| #[trigger]
            shard.frontier.contains(u) && shard.rows[u - shard.start].contains(v);
        assert(graph[u as int].contains(v));
        assert(sound_row(graph, u as int));
        assert(link(u as int, v as int));
        distance::lemma_within_step(link, source, u as int, v as int, d);
        assert(shard.frontier.contains(u) && graph[u as int].contains(v));
    }
    if exists|u: u32| #[trigger] shard.frontier.contains(u) && graph[u as int].contains(v) {
        let u = choose|u: u32| #[trigger]
            shard.frontier.contains(u) && graph[u as int].contains(v);
        assert(shard.frontier.contains(u) && shard.rows[u - shard.start].contains(v));
    }
}

/// What is reported to a worker is its own and lies within the next level.
pub proof fn lemma_reported(
    shards: Seq<ShardView>,
    config: ClusterConfig,
    graph: Seq<Seq<u32>>,
    source: int,
    d: nat,
    i: int,
    t: int,
    v: u32,
)
    requires
        config.workers > 0,
        cluster(shards, config, graph),
        simple(graph),
        search_at(shards, graph, source, d),
        0 <= t < shards.len(),
        reported_by(shards, i, t, v),
    ensures
        v < config.nodes,
        owner(config, v as int) == t,
        shards[t].owns(v as int),
        distance::within(graph_link(graph), source, v as int, d + 1),
{
    let shard = shards[i];
    assert(placed(shards[i], config, i) && super::holds(shards[i], graph));
    assert(placed(shards[t], config, t));
    assert(part_at(shards[i], graph_link(graph), source, d));
    let part = owned_part(shard.reach(), config, t);
    worker::bfs::lemma_fresh(shard.reported_set(), part);
    worker::bfs::lemma_owned_part(shard.reach(), config, t);
    assert(fresh(shard.reported_set(), part).contains(v));
    assert(part.contains(v));
    lemma_reach(shard, config, i, graph, source, d, v);
    super::lemma_owner(shards[t], config, t, v as int);
}

/// A node of the next level is found: by its owner, or by another worker that reports it.
proof fn lemma_found(
    shards: Seq<ShardView>,
    config: ClusterConfig,
    graph: Seq<Seq<u32>>,
    source: int,
    d: nat,
    t: int,
    v: u32,
)
    requires
        config.workers > 0,
        cluster(shards, config, graph),
        simple(graph),
        search_at(shards, graph, source, d),
        0 <= source < config.nodes,
        0 <= t < shards.len(),
        shards[t].owns(v as int),
        distance::within(graph_link(graph), source, v as int, d + 1),
        !distance::within(graph_link(graph), source, v as int, d),
    ensures
        shards[t].local_reach().contains(v) || exists|i: int| #[trigger]
            reported_by(shards, i, t, v),
{
    let link = graph_link(graph);
    assert(placed(shards[t], config, t));
    super::lemma_bounds(config, t);
    let u = distance::lemma_within_split(link, source, v as int, d);
    assert(link(u, v as int));
    assert(distance::at_distance(link, source, u, d)) by {
        if d > 0 && distance::within(link, source, u, (d - 1) as nat) {
            distance::lemma_within_step(link, source, u, v as int, (d - 1) as nat);
        }
    }
    super::lemma_row(shards, config, graph, u);
    let i = owner(config, u);
    let shard = shards[i];
    assert(placed(shards[i], config, i) && super::holds(shards[i], graph));
    assert(part_at(shards[i], link, source, d));
    assert(shard.frontier.contains(u as u32) && graph[(u as u32) as int].contains(v));
    lemma_reach(shard, config, i, graph, source, d, v);
    super::lemma_owner(shards[t], config, t, v as int);
    worker::bfs::lemma_owned_part(shard.reach(), config, t);
    assert(owned_part(shard.reach(), config, t).contains(v));
    if i != t {
        worker::bfs::lemma_fresh(shard.reported_set(), owned_part(shard.reach(), config, t));
        super::lemma_owner(shard, config, i, v as int);
        assert(!shard.reported_set().contains(v)) by {
            if shard.reported_set().contains(v) {
                assert(shard.remote[v as int]);
            }
        }
        assert(reported_by(shards, i, t, v));
    }
}

/// One worker after a level.
pub proof fn lemma_level_part(
    shards: Seq<ShardView>,
    config: ClusterConfig,
    graph: Seq<Seq<u32>>,
    source: int,
    d: nat,
    routes: Seq<Seq<u32>>,
    t: int,
)
    requires
        config.workers > 0,
        cluster(shards, config, graph),
        simple(graph),
        search_at(shards, graph, source, d),
        0 <= source < config.nodes,
        routed(shards, routes),
        0 <= t < shards.len(),
    ensures
        ({
            let after = level_step(shards[t], routes[t]);
            &&& placed(after, config, t)
            &&& super::holds(after, graph)
            &&& part_at(after, graph_link(graph), source, d + 1)
            &&& after.frontier.len() == level_found(shards[t], routes[t])
            &&& after.visited_count == shards[t].visited_count + level_found(
                shards[t],
                routes[t],
            )
        }),
{
    let link = graph_link(graph);
    let shard = shards[t];
    let route = routes[t];
    assert(placed(shards[t], config, t) && super::holds(shards[t], graph));
    assert(part_at(shards[t], link, source, d));
    super::lemma_bounds(config, t);
    let local = shard.local_reach();
    let expanded = shard.expanded();
    let after = level_step(shard, route);
    worker::bfs::lemma_owned_part(shard.reach(), config, t);
    worker::bfs::lemma_fresh(shard.visited_set(), local);
    worker::bfs::lemma_fresh(expanded.visited_set(), route);
    let own = fresh(shard.visited_set(), local);
    let told = fresh(expanded.visited_set(), route);
    assert(after.frontier =~= own + told);
    assert(after.next_frontier =~= Seq::empty());
    // Nodes of the local reach and of the route lie within the next level.
    assert forall|v: u32| #[trigger] local.contains(v) implies shard.owns(v as int)
        && distance::within(link, source, v as int, d + 1) by {
        lemma_reach(shard, config, t, graph, source, d, v);
        super::lemma_owner(shard, config, t, v as int);
    }
    assert forall|v: u32| #[trigger] route.contains(v) implies shard.owns(v as int)
        && distance::within(link, source, v as int, d + 1) by {
        let i = choose|i: int| #[trigger] reported_by(shards, i, t, v);
        lemma_reported(shards, config, graph, source, d, i, t, v);
    }
    // The marks of the next level.
    assert forall|i: int| 0 <= i < after.visited.len() implies #[trigger] after.visited[i]
        == distance::within(link, source, shard.start + i, d + 1) by {
        let v = (shard.start + i) as u32;
        assert(after.visited[i] == (shard.visited[i] || local.contains(v) || route.contains(v)));
        if shard.visited[i] {
            distance::lemma_within_more(link, source, v as int, d, d + 1);
        }
        if distance::within(link, source, v as int, d + 1) && !shard.visited[i] {
            lemma_found(shards, config, graph, source, d, t, v);
            if !local.contains(v) {
                let j = choose|j: int| #[trigger] reported_by(shards, j, t, v);
                assert(route.contains(v));
            }
        }
    }
    // The frontier of the next level.
    assert((d + 1 - 1) as nat == d);
    assert forall|v: u32| #[trigger] after.frontier.contains(v) <==> after.owns(v as int)
        && distance::at_distance(link, source, v as int, d + 1) by {
        if shard.owns(v as int) {
            let i = v - shard.start;
            assert(shard.visited_set().contains(v) == shard.visited[i]);
            assert(shard.visited[i] == distance::within(link, source, shard.start + i, d));
            assert(after.visited[i] == (shard.visited[i] || local.contains(v) || route.contains(
                v,
            )));
            assert(expanded.visited_set().contains(v) == (shard.visited[i] || local.contains(v)));
            assert(after.visited[i] == distance::within(link, source, shard.start + i, d + 1));
        }
        if after.frontier.contains(v) {
            let i = choose|i: int| 0 <= i < after.frontier.len() && after.frontier[i] == v;
            if i < own.len() {
                assert(own[i] == v);
                assert(own.contains(v));
            } else {
                assert(told[i - own.len()] == v);
                assert(told.contains(v));
            }
        }
        if after.owns(v as int) && distance::at_distance(link, source, v as int, d + 1) {
            if local.contains(v) {
                assert(own.contains(v));
                let i = choose|i: int| 0 <= i < own.len() && own[i] == v;
                assert(after.frontier[i] == v);
            } else {
                assert(told.contains(v));
                let i = choose|i: int| 0 <= i < told.len() && told[i] == v;
                assert(after.frontier[own.len() + i] == v);
            }
        }
    }
    assert(after.frontier.no_duplicates()) by {
        assert forall|a: int, b: int|
            0 <= a < after.frontier.len() && 0 <= b < after.frontier.len() && a != b implies
            after.frontier[a] != after.frontier[b] by {
            if a < own.len() && b >= own.len() {
                assert(own.contains(own[a]) && told.contains(told[b - own.len()]));
                lemma_apart(shard, local, route, own[a]);
            } else if b < own.len() && a >= own.len() {
                assert(own.contains(own[b]) && told.contains(told[a - own.len()]));
                lemma_apart(shard, local, route, own[b]);
            }
        }
    }
    // What was reported has been found.
    assert forall|v: int|
        0 <= v < after.remote.len() && !after.owns(v)
            && #[trigger] after.remote[v] implies distance::within(link, source, v, d + 1) by {
        if shard.remote[v] {
            distance::lemma_within_more(link, source, v, d, d + 1);
        } else {
            assert(among(shard.reach(), v));
            lemma_reach(shard, config, t, graph, source, d, v as u32);
        }
    }
}

/// What a worker finds of its own accord it is not told again.
proof fn lemma_apart(shard: ShardView, local: Seq<u32>, route: Seq<u32>, v: u32)
    requires
        shard.visited.len() == shard.end - shard.start,
        local == shard.local_reach(),
        fresh(shard.visited_set(), local).contains(v),
        forall|x: u32| #[trigger] local.contains(x) ==> shard.owns(x as int),
    ensures
        !fresh(shard.expanded().visited_set(), route).contains(v),
{
    worker::bfs::lemma_fresh(shard.visited_set(), local);
    worker::bfs::lemma_fresh(shard.expanded().visited_set(), route);
    assert(local.contains(v));
    assert(shard.expanded().visited_set().contains(v));
}

/// Level by level, the workers together go through the spheres around the
/// source: after each level the marks, the frontiers and the reports of every
/// worker are those of the next one. A node reported by several workers, or
/// found and reported, is found once.
pub proof fn lemma_level(
    shards: Seq<ShardView>,
    config: ClusterConfig,
    graph: Seq<Seq<u32>>,
    source: int,
    d: nat,
    routes: Seq<Seq<u32>>,
)
    requires
        config.workers > 0,
        cluster(shards, config, graph),
        simple(graph),
        search_at(shards, graph, source, d),
        0 <= source < config.nodes,
        routed(shards, routes),
    ensures
        cluster(after_level(shards, routes), config, graph),
        search_at(after_level(shards, routes), graph, source, d + 1),
        total_found(shards, routes, config.workers as int) == distance::level_count(
            graph_link(graph),
            source,
            d + 1,
            config.nodes as nat,
        ),
        total_visited(after_level(shards, routes), config.workers as int) == total_visited(
            shards,
            config.workers as int,
        ) + total_found(shards, routes, config.workers as int),
{
    let after = after_level(shards, routes);
    lemma_total_visited(shards, config, graph, source, d, routes, config.workers as int);
    assert forall|t: int| 0 <= t < after.len() implies placed(#[trigger] after[t], config, t)
        && super::holds(after[t], graph) by {
        lemma_level_part(shards, config, graph, source, d, routes, t);
    }
    assert forall|t: int| 0 <= t < after.len() implies part_at(
        #[trigger] after[t],
        graph_link(graph),
        source,
        d + 1,
    ) by {
        lemma_level_part(shards, config, graph, source, d, routes, t);
    }
    lemma_total_found(shards, config, graph, source, d, routes, config.workers as int);
    super::lemma_bounds(config, 0);
}

/// What the first `count` workers find on a level.
pub open spec fn total_found(
    shards: Seq<ShardView>,
    routes: Seq<Seq<u32>>,
    count: int,
) -> nat
    decreases count,
{
    if count <= 0 {
        0
    } else {
        total_found(shards, routes, count - 1) + level_found(
            shards[count - 1],
            routes[count - 1],
        )
    }
}

proof fn lemma_total_found(
    shards: Seq<ShardView>,
    config: ClusterConfig,
    graph: Seq<Seq<u32>>,
    source: int,
    d: nat,
    routes: Seq<Seq<u32>>,
    count: int,
)
    requires
        config.workers > 0,
        cluster(shards, config, graph),
        simple(graph),
        search_at(shards, graph, source, d),
        0 <= source < config.nodes,
        routed(shards, routes),
        0 <= count <= config.workers,
    ensures
        total_found(shards, routes, count) == distance::level_count(
            graph_link(graph),
            source,
            d + 1,
            first_of(config, count) as nat,
        ),
    decreases count,
{
    super::lemma_bounds(config, 0);
    if count > 0 {
        let t = count - 1;
        lemma_total_found(shards, config, graph, source, d, routes, t);
        super::lemma_bounds(config, t);
        lemma_level_part(shards, config, graph, source, d, routes, t);
        let after = level_step(shards[t], routes[t]);
        lemma_frontier_count(
            graph_link(graph),
            source,
            d + 1,
            after.frontier,
            after.start as nat,
            after.end as nat,
        );
    }
}

/// A frontier without repetitions counts the nodes of its range on its level.
proof fn lemma_frontier_count(
    link: spec_fn(int, int) -> bool,
    source: int,
    d: nat,
    frontier: Seq<u32>,
    start: nat,
    end: nat,
)
    requires
        start <= end <= u32::MAX,
        frontier.no_duplicates(),
        forall|v: u32| #[trigger]
            frontier.contains(v) <==> start <= v < end && distance::at_distance(
                link,
                source,
                v as int,
                d,
            ),
    ensures
        distance::level_count(link, source, d, end) == distance::level_count(
            link,
            source,
            d,
            start,
        ) + frontier.len(),
    decreases end,
{
    if end == start {
        if frontier.len() > 0 {
            assert(frontier.contains(frontier[0]));
        }
    } else {
        let v = (end - 1) as u32;
        if frontier.contains(v) {
            let i = choose|i: int| 0 <= i < frontier.len() && frontier[i] == v;
            let fewer = frontier.remove(i);
            frontier.remove_ensures(i);
            assert(fewer.no_duplicates());
            assert forall|x: u32| #[trigger] fewer.contains(x) <==> start <= x < end - 1
                && distance::at_distance(link, source, x as int, d) by {
                if fewer.contains(x) {
                    let j = choose|j: int| 0 <= j < fewer.len() && fewer[j] == x;
                    if j < i {
                        assert(frontier[j] == x);
                    } else {
                        assert(frontier[j + 1] == x);
                    }
                    assert(frontier.contains(x));
                    assert(x != v);
                }
                if start <= x < end - 1 && distance::at_distance(link, source, x as int, d) {
                    assert(frontier.contains(x));
                    let j = choose|j: int| 0 <= j < frontier.len() && frontier[j] == x;
                    if j < i {
                        assert(fewer[j] == x);
                    } else {
                        assert(fewer[j - 1] == x);
                    }
                }
            }
            lemma_frontier_count(link, source, d, fewer, start, (end - 1) as nat);
        } else {
            assert forall|x: u32| #[trigger] frontier.contains(x) <==> start <= x < end - 1
                && distance::at_distance(link, source, x as int, d) by {
                if frontier.contains(x) {
                    assert(x != v);
                }
            }
            assert(!distance::at_distance(link, source, v as int, d));
            lemma_frontier_count(link, source, d, frontier, start, (end - 1) as nat);
        }
    }
}

/// The running counts of the first `count` workers together.
pub open spec fn total_visited(shards: Seq<ShardView>, count: int) -> nat
    decreases count,
{
    if count <= 0 {
        0
    } else {
        total_visited(shards, count - 1) + shards[count - 1].visited_count
    }
}

proof fn lemma_started_visited(
    shards: Seq<ShardView>,
    config: ClusterConfig,
    graph: Seq<Seq<u32>>,
    source: int,
    count: int,
)
    requires
        cluster(shards, config, graph),
        config.workers > 0,
        0 <= source < config.nodes,
        0 <= count <= config.workers,
    ensures
        total_visited(Seq::new(shards.len(), |t: int| shards[t].started(source)), count)
            == if source < first_of(config, count) {
            1nat
        } else {
            0
        },
    decreases count,
{
    super::lemma_bounds(config, 0);
    if count > 0 {
        lemma_started_visited(shards, config, graph, source, count - 1);
        super::lemma_bounds(config, count - 1);
        assert(placed(shards[count - 1], config, count - 1));
    }
}

proof fn lemma_total_visited(
    shards: Seq<ShardView>,
    config: ClusterConfig,
    graph: Seq<Seq<u32>>,
    source: int,
    d: nat,
    routes: Seq<Seq<u32>>,
    count: int,
)
    requires
        config.workers > 0,
        cluster(shards, config, graph),
        simple(graph),
        search_at(shards, graph, source, d),
        0 <= source < config.nodes,
        routed(shards, routes),
        0 <= count <= config.workers,
    ensures
        total_visited(after_level(shards, routes), count) == total_visited(shards, count)
            + total_found(shards, routes, count),
    decreases count,
{
    if count > 0 {
        lemma_total_visited(shards, config, graph, source, d, routes, count - 1);
        lemma_level_part(shards, config, graph, source, d, routes, count - 1);
    }
}

/// The workers after `d` levels, whose routes are given level by level.
pub open spec fn after_levels(
    shards: Seq<ShardView>,
    routes: Seq<Seq<Seq<u32>>>,
    d: int,
) -> Seq<ShardView>
    decreases d,
{
    if d <= 0 {
        shards
    } else {
        after_level(after_levels(shards, routes, d - 1), routes[d - 1])
    }
}

/// On every level the routes carry what was reported.
pub open spec fn all_routed(shards: Seq<ShardView>, routes: Seq<Seq<Seq<u32>>>) -> bool {
    forall|d: int| 0 <= d < routes.len() ==> routed(after_levels(shards, routes, d), #[trigger]
        routes[d])
}

/// What is found on each of the first `d` levels, times how far that level is.
pub open spec fn distance_found(
    shards: Seq<ShardView>,
    routes: Seq<Seq<Seq<u32>>>,
    workers: int,
    d: int,
) -> nat
    decreases d,
{
    if d <= 0 {
        0
    } else {
        distance_found(shards, routes, workers, d - 1) + d as nat * total_found(
            after_levels(shards, routes, d - 1),
            routes[d - 1],
            workers,
        )
    }
}

/// What is found on the first `d` levels.
pub open spec fn nodes_found(
    shards: Seq<ShardView>,
    routes: Seq<Seq<Seq<u32>>>,
    workers: int,
    d: int,
) -> nat
    decreases d,
{
    if d <= 0 {
        0
    } else {
        nodes_found(shards, routes, workers, d - 1) + total_found(
            after_levels(shards, routes, d - 1),
            routes[d - 1],
            workers,
        )
    }
}

/// The first `d` levels of a search.
pub proof fn lemma_search_levels(
    shards: Seq<ShardView>,
    config: ClusterConfig,
    graph: Seq<Seq<u32>>,
    source: int,
    routes: Seq<Seq<Seq<u32>>>,
    d: int,
)
    requires
        config.workers > 0,
        cluster(shards, config, graph),
        simple(graph),
        search_at(shards, graph, source, 0),
        0 <= source < config.nodes,
        all_routed(shards, routes),
        0 <= d <= routes.len(),
    ensures
        ({
            let now = after_levels(shards, routes, d);
            let workers = config.workers as int;
            let link = graph_link(graph);
            let n = config.nodes as nat;
            &&& cluster(now, config, graph)
            &&& search_at(now, graph, source, d as nat)
            &&& distance_found(shards, routes, workers, d) == distance::level_sum(
                link,
                source,
                d as nat,
                n,
            )
            &&& nodes_found(shards, routes, workers, d) == distance::level_total(
                link,
                source,
                d as nat,
                n,
            )
            &&& total_visited(now, workers) == total_visited(shards, workers) + nodes_found(
                shards,
                routes,
                workers,
                d,
            )
        }),
    decreases d,
{
    if d > 0 {
        lemma_search_levels(shards, config, graph, source, routes, d - 1);
        let before = after_levels(shards, routes, d - 1);
        assert(routed(before, routes[d - 1]));
        lemma_level(before, config, graph, source, (d - 1) as nat, routes[d - 1]);
    }
}

/// A search that has been started on all workers and goes on until a level on
/// which nothing is found sums up the distances to every reachable node, and
/// has then visited those nodes and the source.
pub proof fn lemma_search(
    shards: Seq<ShardView>,
    config: ClusterConfig,
    graph: Seq<Seq<u32>>,
    source: int,
    routes: Seq<Seq<Seq<u32>>>,
)
    requires
        config.workers > 0,
        cluster(shards, config, graph),
        simple(graph),
        search_at(shards, graph, source, 0),
        0 <= source < config.nodes,
        all_routed(shards, routes),
        routes.len() > 0,
        total_found(
            after_levels(shards, routes, routes.len() - 1),
            routes.last(),
            config.workers as int,
        ) == 0,
    ensures
        ({
            let workers = config.workers as int;
            let link = graph_link(graph);
            let n = config.nodes as nat;
            let end = routes.len() as int;
            &&& distance_found(shards, routes, workers, end) == distance::distance_sum(
                link,
                source,
                n,
            )
            &&& nodes_found(shards, routes, workers, end) == distance::reach_count(
                link,
                source,
                n,
            )
            &&& total_visited(after_levels(shards, routes, end), workers) == total_visited(
                shards,
                workers,
            ) + distance::reach_count(link, source, n)
        }),
{
    let link = graph_link(graph);
    let n = config.nodes as nat;
    let end = routes.len() as int;
    lemma_search_levels(shards, config, graph, source, routes, end);
    lemma_search_levels(shards, config, graph, source, routes, end - 1);
    let before = after_levels(shards, routes, end - 1);
    assert(routed(before, routes[end - 1]));
    lemma_level(before, config, graph, source, (end - 1) as nat, routes[end - 1]);
    assert(distance::stays_below(link, n)) by {
        assert forall|u: int, v: int| #[trigger] link(u, v) implies 0 <= v < n by {
            assert(sound_row(graph, u));
        }
    }
    distance::lemma_levels(link, source, n, end as nat);
}

/// The responses are what the workers answer when they expand their frontiers.
pub open spec fn expansions(shards: Seq<ShardView>, responses: Seq<WorkerResponse>) -> bool {
    &&& responses.len() == shards.len()
    &&& forall|i: int|
        0 <= i < responses.len() ==> match #[trigger] responses[i] {
            WorkerResponse::BfsExpanded { discoveries_by_owner, .. } => {
                &&& discoveries_by_owner@.len() == shards.len()
                &&& forall|t: int|
                    0 <= t < shards.len() ==> #[trigger] discoveries_by_owner@[t]@
                        == shards[i].discoveries_for(t)
            },
            _ => false,
        }
}

/// A node is reported in the answers just when some worker reports it.
pub proof fn lemma_reported_by(
    shards: Seq<ShardView>,
    config: ClusterConfig,
    graph: Seq<Seq<u32>>,
    responses: Seq<WorkerResponse>,
    t: int,
    node: u32,
)
    requires
        cluster(shards, config, graph),
        expansions(shards, responses),
        0 <= t < shards.len(),
    ensures
        search::reported(responses, t, node) <==> exists|i: int| #[trigger]
            reported_by(shards, i, t, node),
{
    if search::reported(responses, t, node) {
        let i = choose|i: int|
            0 <= i < responses.len() && #[trigger] search::reports(responses[i], t, node);
        assert(search::reports(responses[i], t, node));
        assert(shards[i].discoveries_for(t).contains(node));
        assert(placed(shards[i], config, i));
        assert(reported_by(shards, i, t, node));
    }
    if exists|i: int| #[trigger] reported_by(shards, i, t, node) {
        let i = choose|i: int| #[trigger] reported_by(shards, i, t, node);
        assert(responses[i] is BfsExpanded);
        assert(search::reports(responses[i], t, node));
    }
}

/// A worker's frontier is no longer than its range.
pub proof fn lemma_frontier_fits(
    shard: ShardView,
    config: ClusterConfig,
    t: int,
    graph: Seq<Seq<u32>>,
    source: int,
    d: nat,
)
    requires
        placed(shard, config, t),
        part_at(shard, graph_link(graph), source, d),
    ensures
        shard.frontier.len() <= u32::MAX,
{
    super::lemma_bounds(config, t);
    assert forall|i: int| 0 <= i < shard.frontier.len() implies shard.start <= (
    #[trigger] shard.frontier[i]) < shard.end by {
        assert(shard.frontier.contains(shard.frontier[i]));
    }
    worker::searches::lemma_no_more_than_owned(shard.frontier, shard.start, shard.end);
}

/// What the coordinator makes of the workers' answers are the routes that a
/// level needs: every worker is told the nodes reported to it and no others.
pub proof fn lemma_coordinator_routes(
    shards: Seq<ShardView>,
    config: ClusterConfig,
    graph: Seq<Seq<u32>>,
    responses: Seq<WorkerResponse>,
    routes: Seq<Seq<u32>>,
)
    requires
        cluster(shards, config, graph),
        expansions(shards, responses),
        routes.len() == shards.len(),
        forall|t: int|
            0 <= t < routes.len() ==> search::routes(#[trigger] routes[t], responses, t),
    ensures
        routed(shards, routes),
{
    assert forall|t: int, node: u32| 0 <= t < shards.len() implies (
    #[trigger] routes[t].contains(node) <==> exists|i: int| #[trigger]
        reported_by(shards, i, t, node)) by {
        assert(search::routes(routes[t], responses, t));
        lemma_reported_by(shards, config, graph, responses, t, node);
    }
}

} // verus!
