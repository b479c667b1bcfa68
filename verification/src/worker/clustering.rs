//! One worker's part in counting the links between neighbors.

use super::{ShardView, Worker};
use crate::batches::{Batches, Waiting};
use crate::batches;
use crate::partition;
use crate::protocol::{ClusterConfig, EdgeQuery, WorkerResponse};
use crate::sorted;
use vstd::prelude::*;

verus! {

/// How many of the nodes stand in the row.
pub open spec fn links_into(row: Seq<u32>, nodes: Seq<u32>) -> nat
    decreases nodes.len(),
{
    if nodes.len() == 0 {
        0
    } else {
        links_into(row, nodes.drop_last()) + if row.contains(nodes.last()) {
            1nat
        } else {
            0
        }
    }
}

/// Whom a query is for: the owner of its first node.
pub open spec fn query_target(config: ClusterConfig) -> spec_fn(EdgeQuery) -> int {
    |query: EdgeQuery|
        partition::owner_of(query.a as int, config.nodes as nat, config.workers as nat)
}

impl ShardView {
    /// The links that the worker itself can tell between the first `count`
    /// neighbors in the row and the neighbors after each of them.
    pub open spec fn own_links(self, row: Seq<u32>, count: int) -> nat
        decreases count,
    {
        if count <= 0 {
            0
        } else {
            let a = row[count - 1] as int;
            self.own_links(row, count - 1) + if self.owns(a) {
                links_into(self.row(a), row.skip(count))
            } else {
                0
            }
        }
    }

    /// The questions for other workers about the first `count` neighbors in the
    /// row, each paired with the neighbors after it.
    pub open spec fn row_queries(self, origin: int, row: Seq<u32>, count: int) -> Seq<EdgeQuery>
        decreases count,
    {
        if count <= 0 {
            Seq::empty()
        } else {
            self.row_queries(origin, row, count - 1) + self.tail_queries(
                origin,
                row,
                count - 1,
                row.len() as int,
            )
        }
    }

    /// The questions about neighbor `first` of the row paired with those after it, up to `end`.
    pub open spec fn tail_queries(
        self,
        origin: int,
        row: Seq<u32>,
        first: int,
        end: int,
    ) -> Seq<EdgeQuery> {
        if self.owns(row[first] as int) {
            Seq::empty()
        } else {
            Seq::new(
                (end - first - 1) as nat,
                |x: int|
                    EdgeQuery {
                        origin_index: origin as u32,
                        a: row[first],
                        b: row[first + 1 + x],
                    },
            )
        }
    }

    /// The questions for other workers about the rows of the vertices.
    pub open spec fn all_queries(self, vertices: Seq<u32>) -> Seq<EdgeQuery>
        decreases vertices.len(),
    {
        if vertices.len() == 0 {
            Seq::empty()
        } else {
            let row = self.row(vertices.last() as int);
            self.all_queries(vertices.drop_last()) + self.row_queries(
                vertices.len() - 1,
                row,
                row.len() as int,
            )
        }
    }

    /// The questions about the first `vertex` vertices and about the first
    /// `first` neighbors of the next.
    pub open spec fn asked(self, vertices: Seq<u32>, vertex: int, first: int) -> Seq<EdgeQuery> {
        self.all_queries(vertices.take(vertex)) + if first == 0 {
            Seq::empty()
        } else {
            self.row_queries(vertex, self.row(vertices[vertex] as int), first)
        }
    }

    /// The degrees of the vertices.
    pub open spec fn degrees(self, vertices: Seq<u32>) -> Seq<u32> {
        Seq::new(vertices.len(), |i: int| self.row(vertices[i] as int).len() as u32)
    }

    /// The links that the worker itself can tell between the neighbors of each vertex.
    pub open spec fn local_counts(self, vertices: Seq<u32>) -> Seq<u64> {
        Seq::new(
            vertices.len(),
            |i: int|
                {
                    let row = self.row(vertices[i] as int);
                    self.own_links(row, row.len() as int) as u64
                },
        )
    }

    /// Every neighbor that has another after it is a node of the graph, in the
    /// rows of the vertices before the first that the worker does not own.
    pub open spec fn askable(self, vertices: Seq<u32>) -> bool {
        forall|i: int, j: int|
            0 <= i < vertices.len() && self.owns_all(vertices.take(i + 1)) && 0 <= j && j + 1
                < self.row(vertices[i] as int).len() ==> #[trigger] self.row(
                vertices[i] as int,
            )[j] < self.config->Some_0.nodes
    }

    /// The pass is about this worker's vertices and stands somewhere among them.
    pub open spec fn fits_queries(self, pass: ClusteringPass) -> bool {
        let vertices = pass.vertices@;
        &&& self.config is Some
        &&& self.askable(vertices)
        &&& pass.vertex <= vertices.len()
        &&& forall|i: int| 0 <= i < pass.vertex ==> self.owns(#[trigger] vertices[i] as int)
        &&& pass.first > 0 ==> {
            &&& pass.vertex < vertices.len()
            &&& self.owns(vertices[pass.vertex as int] as int)
            &&& pass.first < self.row(vertices[pass.vertex as int] as int).len()
        }
        &&& pass.links == if pass.first == 0 {
            0
        } else {
            self.own_links(self.row(vertices[pass.vertex as int] as int), pass.first as int)
        }
        &&& pass.degrees@ == self.degrees(vertices.take(pass.vertex as int))
        &&& pass.local_counts@ == self.local_counts(vertices.take(pass.vertex as int))
        &&& pass.batches@.wf()
        &&& pass.batches@.groups.len() == self.config->Some_0.workers
    }

    /// The questions that the pass has come to so far.
    pub open spec fn asked_by(self, pass: ClusteringPass) -> Seq<EdgeQuery> {
        self.asked(pass.vertices@, pass.vertex as int, pass.first as int)
    }
}

/// A clustering pass that can be left between neighbors and taken up again.
///
/// `vertex` vertices are done; of the next one, `first` neighbors have been
/// paired with those after them, and `links` links were found.
pub struct ClusteringPass {
    pub vertices: Vec<u32>,
    pub vertex: usize,
    pub first: usize,
    pub links: u64,
    pub degrees: Vec<u32>,
    pub local_counts: Vec<u64>,
    pub batches: Batches<EdgeQuery>,
}

/// What one leg of a clustering pass brought: batches for other workers, and
/// the summary once the pass has come to its end.
pub struct ClusteringLeg {
    pub sent: Vec<(u32, Vec<EdgeQuery>)>,
    pub outcome: Result<Option<WorkerResponse>, String>,
}

/// The pass has come further.
pub open spec fn further(from: ClusteringPass, to: ClusteringPass) -> bool {
    from.vertex < to.vertex || from.vertex == to.vertex && from.first < to.first
}

/// The response carries the batch.
pub open spec fn carries_queries(response: WorkerResponse, batch: (u32, Seq<EdgeQuery>)) -> bool {
    match response {
        WorkerResponse::ClusteringQueries { target, queries } => target == batch.0 && queries@
            == batch.1,
        _ => false,
    }
}

/// The responses from `skip` on carry the batches, in order.
pub open spec fn carry_queries(
    responses: Seq<WorkerResponse>,
    skip: int,
    sent: Seq<(u32, Seq<EdgeQuery>)>,
) -> bool {
    &&& responses.len() == skip + sent.len()
    &&& forall|i: int|
        0 <= i < sent.len() ==> carries_queries(responses[skip + i], #[trigger] sent[i])
}

/// Turns batches into the responses that carry them.
pub fn query_responses(sent: Vec<(u32, Vec<EdgeQuery>)>, output: &mut Vec<WorkerResponse>)
    ensures
        final(output)@.take(old(output)@.len() as int) == old(output)@,
        carry_queries(final(output)@, old(output)@.len() as int, batches::sent_seqs(sent@)),
{
    let ghost before = output@;
    let ghost batches = batches::sent_seqs(sent@);
    let mut rest = sent;
    let mut i: usize = 0;
    assert(output@.take(before.len() as int) =~= before);
    while i < rest.len()
        invariant
            i <= rest@.len(),
            rest@.len() == sent@.len(),
            forall|j: int| i <= j < rest@.len() ==> #[trigger] rest@[j] == sent@[j],
            batches == batches::sent_seqs(sent@),
            output@.len() == before.len() + i,
            output@.take(before.len() as int) == before,
            forall|j: int|
                0 <= j < i ==> carries_queries(output@[before.len() + j], #[trigger] batches[j]),
        decreases rest@.len() - i,
    {
        let ghost written = output@;
        assert(rest@[i as int] == sent@[i as int]);
        let target: u32 = rest[i].0;
        let mut queries: Vec<EdgeQuery> = Vec::new();
        std::mem::swap(&mut queries, &mut rest[i].1);
        output.push(WorkerResponse::ClusteringQueries { target, queries });
        assert(output@.take(before.len() as int) =~= written.take(before.len() as int));
        i = i + 1;
    }
}

proof fn lemma_links_bound(row: Seq<u32>, nodes: Seq<u32>)
    ensures
        links_into(row, nodes) <= nodes.len(),
    decreases nodes.len(),
{
    if nodes.len() > 0 {
        lemma_links_bound(row, nodes.drop_last());
    }
}

/// There are no more links than pairs.
pub proof fn lemma_own_links_bound(shard: ShardView, row: Seq<u32>, count: int)
    requires
        0 <= count <= row.len(),
    ensures
        shard.own_links(row, count) <= count * row.len(),
    decreases count,
{
    if count > 0 {
        lemma_own_links_bound(shard, row, count - 1);
        let a = row[count - 1] as int;
        lemma_links_bound(shard.row(a), row.skip(count));
        assert((count - 1) * row.len() + row.len() == count * row.len()) by (nonlinear_arith);
    } else {
        assert(count * row.len() == 0) by (nonlinear_arith)
            requires
                count == 0,
        ;
    }
}

impl Worker {
    /// Pairs one neighbor with those after it: counts the links that the worker
    /// can tell, queues a question for each pair that it cannot.
    fn pair_neighbor(
        &self,
        pass: &mut ClusteringPass,
        config: ClusterConfig,
        sent: &mut Vec<(u32, Vec<EdgeQuery>)>,
    )
        requires
            self@.wf(),
            self.config == Some(config),
            self@.fits_queries(*old(pass)),
            old(pass).vertex < old(pass).vertices@.len(),
            self@.owns(old(pass).vertices@[old(pass).vertex as int] as int),
            old(pass).first + 1 < self@.row(
                old(pass).vertices@[old(pass).vertex as int] as int,
            ).len(),
        ensures
            ({
                let row = self@.row(old(pass).vertices@[old(pass).vertex as int] as int);
                let asked = self@.tail_queries(
                    old(pass).vertex as int,
                    row,
                    old(pass).first as int,
                    row.len() as int,
                );
                &&& final(pass).vertices == old(pass).vertices
                &&& final(pass).vertex == old(pass).vertex
                &&& final(pass).first == old(pass).first + 1
                &&& final(pass).degrees == old(pass).degrees
                &&& final(pass).local_counts == old(pass).local_counts
                &&& self@.fits_queries(*final(pass))
                &&& final(pass).batches@ == old(pass).batches@.queue_all(
                    asked,
                    query_target(config),
                )
                &&& batches::sent_seqs(final(sent)@) == batches::sent_seqs(old(sent)@) + old(
                    pass,
                ).batches@.sends_all(asked, query_target(config))
            }),
    {
        let ghost begun = *pass;
        let ghost sent_before = batches::sent_seqs(sent@);
        let ghost shard = self@;
        let vertex: u32 = pass.vertices[pass.vertex];
        let index: usize = (vertex - self.start) as usize;
        let ghost row = shard.rows[index as int];
        assert(row == shard.row(begun.vertices@[begun.vertex as int] as int));
        assert(sorted::ascending(row));
        let first: usize = pass.first;
        let size: usize = self.adjacency[index].len();
        let a: u32 = self.adjacency[index][first];
        assert(a == shard.row(begun.vertices@[begun.vertex as int] as int)[first as int]);
        let target: usize = partition::owner(a, config.nodes, config.workers);
        proof {
            super::bfs::lemma_own(shard, a as int);
            sorted::lemma_ascending_len(row, 0x1_0000_0000);
        }
        let mut j: usize = first + 1;
        if target == self.id {
            let ghost near = shard.row(a as int);
            let ghost tail = row.skip(first + 1);
            proof {
                lemma_own_links_bound(shard, row, first as int);
                assert(tail.take(0) =~= Seq::empty());
                assert(first * row.len() <= 0xffff_fffe * 0x1_0000_0000) by (nonlinear_arith)
                    requires
                        0 <= first <= 0xffff_fffe,
                        0 <= row.len() <= 0x1_0000_0000,
                ;
            }
            while j < size
                invariant
                    first < j <= size,
                    size == row.len(),
                    row.len() <= 0x1_0000_0000,
                    shard == self@,
                    shard.wf(),
                    shard.owns(a as int),
                    near == shard.row(a as int),
                    tail == row.skip(first + 1),
                    index < shard.rows.len(),
                    row == shard.rows[index as int],
                    pass.vertices == begun.vertices,
                    pass.vertex == begun.vertex,
                    pass.first == begun.first,
                    pass.degrees == begun.degrees,
                    pass.local_counts == begun.local_counts,
                    pass.batches == begun.batches,
                    begun.links <= 0xffff_fffe * 0x1_0000_0000,
                    pass.links == begun.links + links_into(near, tail.take(j - first - 1)),
                decreases size - j,
            {
                let b: u32 = self.adjacency[index][j];
                proof {
                    assert(tail.take(j - first).drop_last() =~= tail.take(j - first - 1));
                    assert(tail.take(j - first).last() == b);
                    lemma_links_bound(near, tail.take(j - first - 1));
                }
                let linked = match self.contains_edge(a, b) {
                    Ok(linked) => linked,
                    Err(_) => false,
                };
                if linked {
                    pass.links = pass.links + 1;
                }
                j = j + 1;
            }
            proof {
                assert(tail.take(j - first - 1) =~= tail);
                let asked = shard.tail_queries(
                    begun.vertex as int,
                    row,
                    first as int,
                    row.len() as int,
                );
                assert(asked.len() == 0);
                assert(begun.batches@.queue_all(asked, query_target(config)) == begun.batches@);
                assert(sent_before + begun.batches@.sends_all(asked, query_target(config))
                    =~= sent_before);
                assert(shard.own_links(row, first + 1) == shard.own_links(row, first as int)
                    + links_into(near, tail));
            }
        } else {
            let origin_index: u32 = #[verifier::truncate] (pass.vertex as u32);
            let ghost asked = shard.tail_queries(
                begun.vertex as int,
                row,
                first as int,
                row.len() as int,
            );
            proof {
                assert(asked.take(0) =~= Seq::empty());
                assert(sent_before + begun.batches@.sends_all(
                    asked.take(0),
                    query_target(config),
                ) =~= sent_before);
            }
            while j < size
                invariant
                    first < j <= size,
                    size == row.len(),
                    shard == self@,
                    shard.wf(),
                    self.config == Some(config),
                    !shard.owns(a as int),
                    a == row[first as int],
                    target == partition::owner_of(
                        a as int,
                        config.nodes as nat,
                        config.workers as nat,
                    ),
                    target < config.workers,
                    index < shard.rows.len(),
                    row == shard.rows[index as int],
                    origin_index == begun.vertex as u32,
                    asked == shard.tail_queries(
                        begun.vertex as int,
                        row,
                        first as int,
                        row.len() as int,
                    ),
                    pass.vertices == begun.vertices,
                    pass.vertex == begun.vertex,
                    pass.first == begun.first,
                    pass.degrees == begun.degrees,
                    pass.local_counts == begun.local_counts,
                    pass.links == begun.links,
                    pass.batches@.wf(),
                    pass.batches@.groups.len() == config.workers,
                    pass.batches@ == begun.batches@.queue_all(
                        asked.take(j - first - 1),
                        query_target(config),
                    ),
                    batches::sent_seqs(sent@) == sent_before + begun.batches@.sends_all(
                        asked.take(j - first - 1),
                        query_target(config),
                    ),
                decreases size - j,
            {
                let b: u32 = self.adjacency[index][j];
                let query = EdgeQuery { origin_index, a, b };
                let ghost waiting = pass.batches@;
                proof {
                    let longer = asked.take(j - first);
                    assert(longer.drop_last() =~= asked.take(j - first - 1));
                    assert(longer.last() == query);
                    assert(query_target(config)(query) == target);
                    batches::lemma_queue(waiting, target as int, query);
                    assert(sent_before + (begun.batches@.sends_all(
                        longer.drop_last(),
                        query_target(config),
                    ) + waiting.sends(target as int, query)) =~= sent_before
                        + begun.batches@.sends_all(longer.drop_last(), query_target(config))
                        + waiting.sends(target as int, query));
                }
                pass.batches.add_item(target, query, sent);
                j = j + 1;
            }
            assert(asked.take(j - first - 1) =~= asked);
            assert(shard.own_links(row, first + 1) == shard.own_links(row, first as int));
        }
        assert(first == 0 ==> shard.own_links(row, first as int) == 0);
        pass.first = first + 1;
        assert(shard.fits_queries(*pass));
    }

    /// Readies a clustering pass over the vertices.
    pub fn begin_clustering(&self, vertices: Vec<u32>) -> (begun: Result<ClusteringPass, String>)
        requires
            self@.wf(),
        ensures
            match begun {
                Err(message) => self.config is None && message@ == super::not_built_text(),
                Ok(pass) => {
                    &&& self.config is Some
                    &&& pass.vertices == vertices
                    &&& pass.vertex == 0
                    &&& pass.first == 0
                    &&& pass.batches@ == Waiting::<EdgeQuery>::none(
                        self.config->Some_0.workers as nat,
                    )
                    &&& self@.askable(vertices@) ==> self@.fits_queries(pass)
                },
            },
    {
        let config = match self.config() {
            Ok(config) => config,
            Err(message) => return Err(message),
        };
        let pass = ClusteringPass {
            vertices,
            vertex: 0,
            first: 0,
            links: 0,
            degrees: Vec::new(),
            local_counts: Vec::new(),
            batches: Batches::new(config.workers as usize),
        };
        proof {
            assert(pass.degrees@ =~= self@.degrees(vertices@.take(0)));
            assert(pass.local_counts@ =~= self@.local_counts(vertices@.take(0)));
        }
        Ok(pass)
    }

    /// Takes a clustering pass on until a batch is due for another worker, or to
    /// its end. Stops at the first vertex that the worker does not own.
    pub fn continue_clustering(&self, pass: &mut ClusteringPass) -> (leg: ClusteringLeg)
        requires
            self@.wf(),
            self@.fits_queries(*old(pass)),
        ensures
            self@.clustering_leg(*old(pass), leg, *final(pass)),
    {
        let ghost shard = self@;
        let ghost begun = *pass;
        let ghost vertices = pass.vertices@;
        let ghost from = shard.asked_by(begun);
        let mut sent: Vec<(u32, Vec<EdgeQuery>)> = Vec::new();
        let config = match self.config() {
            Ok(config) => config,
            Err(message) => return ClusteringLeg { sent, outcome: Err(message) },
        };
        let ghost target = query_target(config);
        proof {
            assert(batches::sent_seqs(sent@) =~= Seq::empty());
            assert(from.skip(from.len() as int) =~= Seq::empty());
            assert(from.take(from.len() as int) =~= from);
        }
        while pass.vertex < pass.vertices.len() && sent.len() == 0
            invariant
                shard == self@,
                shard.wf(),
                self.config == Some(config),
                target == query_target(config),
                begun == *old(pass),
                vertices == begun.vertices@,
                pass.vertices@ == vertices,
                from == shard.asked_by(begun),
                shard.fits_queries(*pass),
                further(begun, *pass) || sent@.len() == 0 && begun.vertex == pass.vertex
                    && begun.first == pass.first,
                from.len() <= shard.asked_by(*pass).len(),
                shard.asked_by(*pass).take(from.len() as int) == from,
                pass.batches@ == begun.batches@.queue_all(
                    shard.asked_by(*pass).skip(from.len() as int),
                    target,
                ),
                batches::sent_seqs(sent@) == begun.batches@.sends_all(
                    shard.asked_by(*pass).skip(from.len() as int),
                    target,
                ),
            decreases
                    pass.vertices@.len() - pass.vertex,
                    if pass.vertex < pass.vertices@.len() {
                        shard.row(pass.vertices@[pass.vertex as int] as int).len() - pass.first
                    } else {
                        0
                    },
        {
            let vertex: u32 = pass.vertices[pass.vertex];
            let index: usize = match self.local_index(vertex) {
                Ok(index) => index,
                Err(message) => {
                    assert(shard.first_foreign(vertices, pass.vertex as int));
                    return ClusteringLeg { sent, outcome: Err(message) };
                },
            };
            let size: usize = self.adjacency[index].len();
            let ghost row = shard.row(vertex as int);
            assert(shard.rows[index as int] == row);
            let ghost earlier = shard.asked_by(*pass);
            let ghost at = pass.vertex as int;
            if pass.first + 1 < size {
                let ghost first = pass.first as int;
                let ghost asked = shard.tail_queries(at, row, first, row.len() as int);
                self.pair_neighbor(pass, config, &mut sent);
                proof {
                    let later = shard.asked_by(*pass);
                    assert(shard.row_queries(at, row, first + 1) == shard.row_queries(
                        at,
                        row,
                        first,
                    ) + asked);
                    if first == 0 {
                        assert(shard.row_queries(at, row, 0) =~= Seq::empty());
                    }
                    assert(later =~= earlier + asked);
                    shard.lemma_extend(begun.batches@, from, earlier, asked, target);
                }
            } else {
                proof {
                    shard.lemma_vertex_done(vertices, at, pass.first as int);
                    assert(vertices.take(at + 1).drop_last() =~= vertices.take(at));
                    sorted::lemma_ascending_len(row, 0x1_0000_0000);
                    if pass.first < size {
                        shard.lemma_last_neighbor(row);
                    }
                }
                pass.degrees.push(#[verifier::truncate] (size as u32));
                pass.local_counts.push(pass.links);
                pass.vertex = pass.vertex + 1;
                pass.first = 0;
                pass.links = 0;
                proof {
                    assert(pass.degrees@ =~= shard.degrees(vertices.take(at + 1)));
                    assert(pass.local_counts@ =~= shard.local_counts(vertices.take(at + 1)));
                }
            }
        }
        if pass.vertex < pass.vertices.len() {
            return ClusteringLeg { sent, outcome: Ok(None) };
        }
        pass.batches.flush(&mut sent);
        let mut degrees: Vec<u32> = Vec::new();
        std::mem::swap(&mut degrees, &mut pass.degrees);
        let mut local_counts: Vec<u64> = Vec::new();
        std::mem::swap(&mut local_counts, &mut pass.local_counts);
        assert(vertices.take(vertices.len() as int) =~= vertices);
        ClusteringLeg {
            sent,
            outcome: Ok(Some(WorkerResponse::ClusteringPrepared { degrees, local_counts })),
        }
    }

    /// A whole clustering pass over the vertices: their degrees, and the links
    /// between their neighbors that the worker can tell. Questions for other
    /// workers go to `output` in batches.
    pub fn prepare_clustering(
        &self,
        vertices: Vec<u32>,
        output: &mut Vec<WorkerResponse>,
    ) -> (answer: Result<WorkerResponse, String>)
        requires
            self@.wf(),
            self.config is Some ==> self@.askable(vertices@),
        ensures
            self@.clustering_outcome(vertices@, old(output)@, answer, final(output)@),
    {
        let ghost shard = self@;
        assert(output@.take(output@.len() as int) =~= output@);
        let mut pass = match self.begin_clustering(vertices) {
            Ok(pass) => pass,
            Err(message) => return Err(message),
        };
        let ghost config = self.config->Some_0;
        let ghost target = query_target(config);
        let ghost none = Waiting::<EdgeQuery>::none(config.workers as nat);
        let ghost skip = output@.len() as int;
        let ghost given = output@;
        let ghost mut sent_so_far: Seq<(u32, Seq<EdgeQuery>)> = Seq::empty();
        proof {
            assert(shard.asked_by(pass) =~= Seq::empty());
        }
        loop
            invariant
                shard == self@,
                shard.wf(),
                self.config == Some(config),
                target == query_target(config),
                none == Waiting::<EdgeQuery>::none(config.workers as nat),
                pass.vertices@ == vertices@,
                shard.fits_queries(pass),
                pass.batches@ == none.queue_all(shard.asked_by(pass), target),
                sent_so_far == none.sends_all(shard.asked_by(pass), target),
                given == old(output)@,
                skip == given.len(),
                skip <= output@.len(),
                output@.take(skip) == given,
                carry_queries(output@, skip, sent_so_far),
            decreases vertices@.len() - pass.vertex, shard.remaining(pass),
        {
            let ghost from = shard.asked_by(pass);
            let ghost written = output@;
            let leg = self.continue_clustering(&mut pass);
            let ghost to = shard.asked_by(pass);
            let ghost asked = to.skip(from.len() as int);
            proof {
                assert(to =~= from + asked);
                batches::lemma_queue_sum(none, from, asked, target);
            }
            let ghost sent = batches::sent_seqs(leg.sent@);
            query_responses(leg.sent, output);
            proof {
                assert(output@.take(skip) =~= written.take(skip)) by {
                    assert forall|i: int| 0 <= i < skip implies output@[i] == written[i] by {
                        assert(output@.take(written.len() as int)[i] == written[i]);
                    }
                }
                lemma_carry(output@, written, skip, sent_so_far, sent);
                sent_so_far = sent_so_far + sent;
            }
            match leg.outcome {
                Err(message) => {
                    proof {
                        assert(shard.asked_by(pass) =~= shard.all_queries(
                            vertices@.take(pass.vertex as int),
                        ));
                        assert(shard.foreign_outcome(
                            vertices@,
                            pass.vertex as int,
                            message@,
                        ));
                        assert(sent_so_far == none.sends_all(
                            shard.all_queries(vertices@.take(pass.vertex as int)),
                            target,
                        ));
                        assert(shard.stopped_asking(vertices@, message@, skip, output@));
                    }
                    return Err(message);
                },
                Ok(Some(response)) => {
                    proof {
                        assert(vertices@.take(pass.vertex as int) =~= vertices@);
                        assert(shard.asked_by(pass) =~= shard.all_queries(vertices@));
                        assert(sent_so_far =~= none.sends_all(to, target) + batches::flushed(
                            none.queue_all(to, target).groups,
                        ));
                    }
                    return Ok(response);
                },
                Ok(None) => {},
            }
        }
    }
}

proof fn lemma_carry(
    now: Seq<WorkerResponse>,
    earlier: Seq<WorkerResponse>,
    skip: int,
    a: Seq<(u32, Seq<EdgeQuery>)>,
    b: Seq<(u32, Seq<EdgeQuery>)>,
)
    requires
        skip >= 0,
        carry_queries(earlier, skip, a),
        now.take(earlier.len() as int) == earlier,
        carry_queries(now, earlier.len() as int, b),
    ensures
        carry_queries(now, skip, a + b),
{
    assert forall|i: int| 0 <= i < (a + b).len() implies carries_queries(
        now[skip + i],
        #[trigger] (a + b)[i],
    ) by {
        if i < a.len() {
            assert(now.take(earlier.len() as int)[skip + i] == earlier[skip + i]);
            assert(carries_queries(earlier[skip + i], a[i]));
        } else {
            assert(carries_queries(now[earlier.len() + (i - a.len())], b[i - a.len()]));
        }
    }
}

impl ShardView {
    /// The neighbors of the current vertex that a pass has not paired yet.
    spec fn remaining(self, pass: ClusteringPass) -> int {
        if pass.vertex < pass.vertices@.len() {
            self.row(pass.vertices@[pass.vertex as int] as int).len() - pass.first
        } else {
            0
        }
    }

    /// More questions after those of an earlier stage.
    proof fn lemma_extend(
        self,
        waiting: Waiting<EdgeQuery>,
        from: Seq<EdgeQuery>,
        earlier: Seq<EdgeQuery>,
        asked: Seq<EdgeQuery>,
        target: spec_fn(EdgeQuery) -> int,
    )
        requires
            from.len() <= earlier.len(),
            earlier.take(from.len() as int) == from,
        ensures
            (earlier + asked).take(from.len() as int) == from,
            waiting.queue_all((earlier + asked).skip(from.len() as int), target)
                == waiting.queue_all(earlier.skip(from.len() as int), target).queue_all(
                asked,
                target,
            ),
            waiting.sends_all((earlier + asked).skip(from.len() as int), target)
                == waiting.sends_all(earlier.skip(from.len() as int), target)
                + waiting.queue_all(earlier.skip(from.len() as int), target).sends_all(
                asked,
                target,
            ),
    {
        let n = from.len() as int;
        assert((earlier + asked).take(n) =~= earlier.take(n));
        assert((earlier + asked).skip(n) =~= earlier.skip(n) + asked);
        batches::lemma_queue_sum(waiting, earlier.skip(n), asked, target);
    }

    /// The last neighbor of a row has none after it.
    proof fn lemma_last_neighbor(self, row: Seq<u32>)
        requires
            row.len() > 0,
        ensures
            self.own_links(row, row.len() as int) == self.own_links(row, row.len() - 1),
    {
        assert(row.skip(row.len() as int) =~= Seq::empty());
    }

    /// A vertex is done once its next to last neighbor is.
    proof fn lemma_vertex_done(self, vertices: Seq<u32>, at: int, first: int)
        requires
            0 <= at < vertices.len(),
            0 <= first,
            first > 0 ==> first < self.row(vertices[at] as int).len(),
            first + 1 >= self.row(vertices[at] as int).len(),
        ensures
            self.asked(vertices, at + 1, 0) == self.asked(vertices, at, first),
    {
        let row = self.row(vertices[at] as int);
        assert(vertices.take(at + 1).drop_last() =~= vertices.take(at));
        assert(vertices.take(at + 1).last() == vertices[at]);
        if row.len() > 0 {
            assert(self.tail_queries(at, row, row.len() - 1, row.len() as int)
                =~= Seq::empty());
        }
        let all = self.row_queries(at, row, row.len() as int);
        assert(self.all_queries(vertices.take(at + 1)) == self.all_queries(vertices.take(at))
            + all);
        if row.len() > 0 {
            assert(all =~= self.row_queries(at, row, row.len() - 1));
        }
        if first == 0 {
            assert(all =~= Seq::empty());
        }
        assert(self.asked(vertices, at + 1, 0) =~= self.asked(vertices, at, first));
    }
}

/// The nodes whose rows the queries ask about.
pub open spec fn asked_nodes(queries: Seq<EdgeQuery>) -> Seq<u32> {
    Seq::new(queries.len(), |i: int| queries[i].a)
}

/// Origins ascend.
pub open spec fn origins_ascend(counts: Seq<(u32, u64)>) -> bool {
    forall|i: int, j: int| 0 <= i < j < counts.len() ==> (#[trigger] counts[i]).0 < (
    #[trigger] counts[j]).0
}

/// The origin has an entry.
pub open spec fn has_origin(counts: Seq<(u32, u64)>, origin: u32) -> bool {
    exists|i: int| 0 <= i < counts.len() && (#[trigger] counts[i]).0 == origin
}

impl ShardView {
    /// How many queries of this origin find a link.
    pub open spec fn hits(self, queries: Seq<EdgeQuery>, origin: u32) -> nat
        decreases queries.len(),
    {
        if queries.len() == 0 {
            0
        } else {
            let last = queries.last();
            self.hits(queries.drop_last(), origin) + if last.origin_index == origin && self.row(
                last.a as int,
            ).contains(last.b) {
                1nat
            } else {
                0
            }
        }
    }

    /// The counts are the hits of the queries by origin: every origin with a hit
    /// has one entry, in ascending order, and no other origin has any.
    pub open spec fn tallies(self, counts: Seq<(u32, u64)>, queries: Seq<EdgeQuery>) -> bool {
        &&& origins_ascend(counts)
        &&& forall|i: int|
            0 <= i < counts.len() ==> (#[trigger] counts[i]).1 > 0 && counts[i].1 == self.hits(
                queries,
                counts[i].0,
            )
        &&& forall|origin: u32|
            self.hits(queries, origin) > 0 ==> #[trigger] has_origin(counts, origin)
    }

    proof fn lemma_hits_bound(self, queries: Seq<EdgeQuery>, origin: u32)
        ensures
            self.hits(queries, origin) <= queries.len(),
        decreases queries.len(),
    {
        if queries.len() > 0 {
            self.lemma_hits_bound(queries.drop_last(), origin);
        }
    }
}

/// The first position whose origin is not below the given one.
fn origin_place(counts: &Vec<(u32, u64)>, origin: u32) -> (place: usize)
    requires
        origins_ascend(counts@),
    ensures
        place <= counts@.len(),
        forall|i: int| 0 <= i < place ==> (#[trigger] counts@[i]).0 < origin,
        forall|i: int| place <= i < counts@.len() ==> (#[trigger] counts@[i]).0 >= origin,
{
    let mut low: usize = 0;
    let mut high: usize = counts.len();
    while low < high
        invariant
            low <= high <= counts@.len(),
            origins_ascend(counts@),
            forall|i: int| 0 <= i < low ==> (#[trigger] counts@[i]).0 < origin,
            forall|i: int| high <= i < counts@.len() ==> (#[trigger] counts@[i]).0 >= origin,
        decreases high - low,
    {
        let middle: usize = low + (high - low) / 2;
        let found: u32 = counts[middle].0;
        if found < origin {
            low = middle + 1;
        } else {
            high = middle;
        }
    }
    low
}

impl Worker {
    /// Answers queries about the worker's own rows: how many links each origin
    /// gains, by ascending origin, the origins without one left out.
    #[verifier::rlimit(30)]
    #[verifier::spinoff_prover]
    pub fn resolve_edge_queries(&self, queries: Vec<EdgeQuery>) -> (answer: Result<
        WorkerResponse,
        String,
    >)
        requires
            self@.wf(),
        ensures
            self@.query_outcome(queries@, answer),
    {
        let ghost shard = self@;
        let mut counts: Vec<(u32, u64)> = Vec::new();
        let mut i: usize = 0;
        while i < queries.len()
            invariant
                shard == self@,
                shard.wf(),
                i <= queries@.len(),
                shard.tallies(counts@, queries@.take(i as int)),
                forall|j: int| 0 <= j < i ==> shard.owns((#[trigger] queries@[j]).a as int),
            decreases queries.len() - i,
        {
            let query = queries[i];
            let ghost done = queries@.take(i as int);
            let ghost more = queries@.take(i + 1);
            proof {
                assert(more.drop_last() =~= done);
                assert(more.last() == query);
                shard.lemma_hits_bound(done, query.origin_index);
            }
            let linked = match self.contains_edge(query.a, query.b) {
                Ok(linked) => linked,
                Err(message) => {
                    proof {
                        let nodes = asked_nodes(queries@);
                        assert forall|j: int| 0 <= j < i implies shard.owns(
                            #[trigger] nodes[j] as int,
                        ) by {
                            assert(shard.owns(queries@[j].a as int));
                        }
                        assert(!shard.owns(nodes[i as int] as int));
                        assert(!shard.owns_all(nodes));
                        assert(shard.foreign_outcome(nodes, i as int, message@));
                        assert(shard.refused(nodes, message@));
                    }
                    return Err(message);
                },
            };
            if linked {
                let place: usize = origin_place(&counts, query.origin_index);
                let ghost before = counts@;
                let origin: u32 = query.origin_index;
                if place < counts.len() && counts[place].0 == origin {
                    let count: u64 = counts[place].1;
                    counts.set(place, (origin, count + 1));
                    proof {
                        assert forall|o: u32| shard.hits(more, o) > 0 implies #[trigger] has_origin(
                            counts@,
                            o,
                        ) by {
                            if o == origin {
                                assert(counts@[place as int].0 == o);
                            } else {
                                assert(has_origin(before, o));
                                let j = choose|j: int|
                                    0 <= j < before.len() && (#[trigger] before[j]).0 == o;
                                assert(counts@[j].0 == o);
                            }
                        }
                    }
                } else {
                    counts.insert(place, (origin, 1));
                    proof {
                        before.insert_ensures(place as int, (origin, 1u64));
                        assert(!has_origin(before, origin)) by {
                            if has_origin(before, origin) {
                                let j = choose|j: int|
                                    0 <= j < before.len() && (#[trigger] before[j]).0 == origin;
                                if j > place {
                                    assert(before[place as int].0 < before[j].0);
                                }
                            }
                        }
                        assert(shard.hits(done, origin) == 0);
                        assert forall|j: int| 0 <= j < counts@.len() implies (
                        #[trigger] counts@[j]).1 > 0 && counts@[j].1 == shard.hits(
                            more,
                            counts@[j].0,
                        ) by {
                            if j < place {
                                assert(counts@[j] == before[j]);
                            } else if j > place {
                                assert(counts@[j] == before[j - 1]);
                            }
                        }
                        assert forall|o: u32| shard.hits(more, o) > 0 implies #[trigger] has_origin(
                            counts@,
                            o,
                        ) by {
                            if o == origin {
                                assert(counts@[place as int].0 == o);
                            } else {
                                assert(has_origin(before, o));
                                let j = choose|j: int|
                                    0 <= j < before.len() && (#[trigger] before[j]).0 == o;
                                if j < place {
                                    assert(counts@[j].0 == o);
                                } else {
                                    assert(counts@[j + 1].0 == o);
                                }
                            }
                        }
                        assert(origins_ascend(counts@)) by {
                            assert forall|a: int, b: int| 0 <= a < b < counts@.len() implies (
                            #[trigger] counts@[a]).0 < (#[trigger] counts@[b]).0 by {
                                if a < place {
                                    assert(counts@[a] == before[a]);
                                    if b > place {
                                        assert(counts@[b] == before[b - 1]);
                                    } else if b < place {
                                        assert(counts@[b] == before[b]);
                                    }
                                } else {
                                    assert(counts@[b] == before[b - 1]);
                                    if a > place {
                                        assert(counts@[a] == before[a - 1]);
                                    } else if b - 1 > place {
                                        assert(before[place as int].0 < before[b - 1].0);
                                    }
                                }
                            }
                        }
                    }
                }
            } else {
                assert forall|o: u32| shard.hits(more, o) > 0 implies #[trigger] has_origin(
                    counts@,
                    o,
                ) by {
                    assert(shard.hits(done, o) > 0);
                }
            }
            i = i + 1;
        }
        proof {
            assert(queries@.take(i as int) =~= queries@);
            let nodes = asked_nodes(queries@);
            assert forall|j: int| 0 <= j < nodes.len() implies shard.owns(
                #[trigger] nodes[j] as int,
            ) by {
                assert(shard.owns(queries@[j].a as int));
            }
        }
        Ok(WorkerResponse::EdgeQueriesResolved { counts })
    }
}

} // verus!
