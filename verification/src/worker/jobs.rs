//! A request that is worked on in steps does what it does in one go.

use super::clustering::{carry_queries, query_target, ClusteringLeg, ClusteringPass};
use super::handle::{answers, clustering_step, rewire_step, tells_error, Job};
use super::rewire::{carry_mutations, PassState, RewireLeg, RewirePass};
use super::ShardView;
use crate::batches;
use crate::batches::Waiting;
use crate::protocol::{EdgeQuery, Mutation, WorkerCommand, WorkerResponse};
use rand::distributions::Bernoulli;
use vstd::prelude::*;

verus! {

/// The request has been taken on and advanced step by step up to its answer; `frames`
/// are the messages of each step.
pub open spec fn goes_through(
    command: WorkerCommand,
    before: ShardView,
    jobs: Seq<Job>,
    shards: Seq<ShardView>,
    frames: Seq<Seq<WorkerResponse>>,
) -> bool {
    &&& jobs.len() == frames.len() + 1
    &&& shards.len() == jobs.len()
    &&& before.begin_outcome(command, jobs[0], shards[0])
    &&& forall|i: int|
        0 <= i < frames.len() ==> advances(
            jobs[i],
            shards[i],
            #[trigger] frames[i],
            jobs[i + 1],
            shards[i + 1],
        )
    &&& jobs.last() is Answered
}

/// A step of a job that has no answer yet.
pub open spec fn advances(
    job: Job,
    shard: ShardView,
    frames: Seq<WorkerResponse>,
    next: Job,
    after: ShardView,
) -> bool {
    match job {
        Job::Rewire(pass) => rewire_step(shard, pass, frames, next, after),
        Job::Clustering(pass) => after == shard && clustering_step(shard, pass, frames, next),
        Job::Answered(_) => false,
    }
}

/// The messages of the first `n` steps.
pub open spec fn joined(frames: Seq<Seq<WorkerResponse>>, n: int) -> Seq<WorkerResponse>
    decreases n,
{
    if n <= 0 {
        Seq::empty()
    } else {
        joined(frames, n - 1) + frames[n - 1]
    }
}

/// The two workers are in the same place of the same cluster.
spec fn alike(a: ShardView, b: ShardView) -> bool {
    a.id == b.id && a.config == b.config && a.start == b.start && a.end == b.end
}

proof fn lemma_same_run(
    a: ShardView,
    b: ShardView,
    state: PassState,
    chance: Bernoulli,
    seed: u64,
    from: int,
    to: int,
)
    requires
        alike(a, b),
    ensures
        a.run(state, chance, seed, from, to) == b.run(state, chance, seed, from, to),
    decreases to - from,
{
    if from < to {
        lemma_same_run(a, b, state, chance, seed, from, to - 1);
    }
}

proof fn lemma_carry_mutations(
    a: Seq<WorkerResponse>,
    b: Seq<WorkerResponse>,
    first: Seq<(u32, Seq<Mutation>)>,
    second: Seq<(u32, Seq<Mutation>)>,
)
    requires
        carry_mutations(a, 0, first),
        carry_mutations(b, 0, second),
    ensures
        carry_mutations(a + b, 0, first + second),
{
    let sent = first + second;
    assert forall|i: int| 0 <= i < sent.len() implies super::rewire::carries_mutations(
        (a + b)[0 + i],
        #[trigger] sent[i],
    ) by {
        if i < first.len() {
            assert(super::rewire::carries_mutations(a[0 + i], first[i]));
        } else {
            let j = i - first.len();
            assert(super::rewire::carries_mutations(b[0 + j], second[j]));
        }
    }
}

proof fn lemma_carry_queries(
    a: Seq<WorkerResponse>,
    b: Seq<WorkerResponse>,
    first: Seq<(u32, Seq<EdgeQuery>)>,
    second: Seq<(u32, Seq<EdgeQuery>)>,
)
    requires
        carry_queries(a, 0, first),
        carry_queries(b, 0, second),
    ensures
        carry_queries(a + b, 0, first + second),
{
    let sent = first + second;
    assert forall|i: int| 0 <= i < sent.len() implies super::clustering::carries_queries(
        (a + b)[0 + i],
        #[trigger] sent[i],
    ) by {
        if i < first.len() {
            assert(super::clustering::carries_queries(a[0 + i], first[i]));
        } else {
            let j = i - first.len();
            assert(super::clustering::carries_queries(b[0 + j], second[j]));
        }
    }
}

/// Where a rewiring pass stands that has been left before its end.
spec fn stands(
    before: ShardView,
    pass: RewirePass,
    shard: ShardView,
    written: Seq<WorkerResponse>,
) -> bool {
    let left = before.run(
        before.pass_start(),
        pass.probability.chance->Some_0,
        pass.seed,
        0,
        pass.position as int,
    );
    &&& left.failure is None
    &&& shard == before.with_rows(left.rows, left.intact)
    &&& pass.batches@ == left.waiting
    &&& pass.rewired == left.rewired
    &&& carry_mutations(written, 0, left.sent)
    &&& pass.position <= before.edge_total()
}

/// What one more leg adds to a pass.
#[verifier::rlimit(60)]
proof fn lemma_leg(
    before: ShardView,
    pass: RewirePass,
    shard: ShardView,
    written: Seq<WorkerResponse>,
    frames: Seq<WorkerResponse>,
    leg: RewireLeg,
    next: RewirePass,
    after: ShardView,
)
    requires
        stands(before, pass, shard, written),
        shard.rewire_leg(pass, leg, after, next),
        carry_mutations(frames, 0, batches::sent_seqs(leg.sent@)),
        !pass.probability.zero(),
    ensures
        leg.outcome == Ok::<Option<WorkerResponse>, String>(None) ==> stands(
            before,
            next,
            after,
            written + frames,
        ),
        leg.outcome is Ok && leg.outcome->Ok_0 is Some ==> before.rewire_outcome(
            pass.probability,
            pass.seed,
            Seq::empty(),
            Ok(leg.outcome->Ok_0->Some_0),
            after,
            written + frames,
        ) || before.config is None,
        leg.outcome is Err ==> before.rewire_outcome(
            pass.probability,
            pass.seed,
            Seq::empty(),
            Err(leg.outcome->Err_0),
            after,
            written + frames,
        ) || before.config is None,
{
    let chance = pass.probability.chance->Some_0;
    let seed = pass.seed;
    let from = pass.position as int;
    let to = next.position as int;
    let start = before.pass_start();
    let left = before.run(start, chance, seed, 0, from);
    let whole = before.run(start, chance, seed, 0, to);
    assert(alike(before, shard));
    let taken_up = PassState { outbox: Seq::empty(), sent: Seq::empty(), ..left };
    assert(shard.resumed(pass) == taken_up);
    lemma_same_run(before, shard, taken_up, chance, seed, from, to);
    let rest = before.run(taken_up, chance, seed, from, to);
    crate::cluster::passes::lemma_paused_pass(before, start, chance, seed, 0, from, to);
    assert(shard.edge_total() == before.edge_total());
    lemma_carry_mutations(written, frames, left.sent, batches::sent_seqs(leg.sent@));
    assert(after == before.with_rows(rest.rows, rest.intact));
    let all = written + frames;
    assert(all.take(0) =~= Seq::empty());
    match leg.outcome {
        Ok(None) => {},
        Ok(Some(response)) => {
            assert(left.sent + (rest.sent + batches::flushed(rest.waiting.groups)) =~= whole.sent
                + batches::flushed(whole.waiting.groups));
        },
        Err(message) => {
            before.lemma_failed_pass(start, chance, seed, 0, to, before.edge_total());
        },
    }
}

/// A rewiring pass that has not come to its end after `n` steps.
#[verifier::rlimit(60)]
proof fn lemma_legs(
    before: ShardView,
    probability: crate::probability::Probability,
    seed: u64,
    jobs: Seq<Job>,
    shards: Seq<ShardView>,
    frames: Seq<Seq<WorkerResponse>>,
    n: int,
)
    requires
        before.wf(),
        before.config is Some,
        goes_through(WorkerCommand::Rewire { probability, seed }, before, jobs, shards, frames),
        0 <= n < frames.len(),
    ensures
        jobs[n] is Rewire,
        jobs[n]->Rewire_0.probability == probability,
        jobs[n]->Rewire_0.seed == seed,
        n > 0 ==> !probability.zero(),
        stands(before, jobs[n]->Rewire_0, shards[n], joined(frames, n)),
    decreases n,
{
    if n == 0 {
        let pass = jobs[0]->Rewire_0;
        assert(before.resumed(pass) == before.pass_start());
        assert(before.edge_total() >= 0) by (nonlinear_arith)
            requires
                before.edge_total() == (before.end - before.start) * before.half(),
                before.start <= before.end,
                0 <= before.half(),
        ;
        lemma_begun(before, pass, shards[0]);
    } else {
        let i = n - 1;
        lemma_legs(before, probability, seed, jobs, shards, frames, i);
        let pass = jobs[i]->Rewire_0;
        assert(advances(jobs[i], shards[i], frames[i], jobs[i + 1], shards[i + 1]));
        assert(advances(jobs[n], shards[n], frames[n], jobs[n + 1], shards[n + 1]));
        let (leg, next) = choose|leg: RewireLeg, next: RewirePass|
            {
                &&& #[trigger] shards[i].rewire_leg(pass, leg, shards[i + 1], next)
                &&& carry_mutations(frames[i], 0, batches::sent_seqs(leg.sent@))
                &&& match leg.outcome {
                    Ok(None) => jobs[i + 1] == Job::Rewire(next),
                    Ok(Some(response)) => jobs[i + 1] == Job::Answered(response),
                    Err(message) => jobs[i + 1] is Answered && tells_error(
                        jobs[i + 1]->Answered_0,
                        message@,
                    ),
                }
            };
        assert(!probability.zero());
        lemma_leg(
            before,
            pass,
            shards[i],
            joined(frames, i),
            frames[i],
            leg,
            next,
            shards[i + 1],
        );
    }
}

proof fn lemma_begun(before: ShardView, pass: RewirePass, shard: ShardView)
    requires
        pass.position == 0,
        before.resumed(pass) == before.pass_start(),
        shard == before,
        0 <= before.edge_total(),
    ensures
        stands(before, pass, shard, Seq::empty()),
{
    let start = before.pass_start();
    assert(start.rewired == 0);
    assert(before.resumed(pass).waiting == pass.batches@);
    assert(before.resumed(pass).rewired == pass.rewired);
}

#[verifier::rlimit(60)]
proof fn lemma_streamed_rewiring(
    before: ShardView,
    probability: crate::probability::Probability,
    seed: u64,
    jobs: Seq<Job>,
    shards: Seq<ShardView>,
    frames: Seq<Seq<WorkerResponse>>,
) -> (answer: Result<WorkerResponse, String>)
    requires
        before.wf(),
        before.config is Some,
        goes_through(WorkerCommand::Rewire { probability, seed }, before, jobs, shards, frames),
    ensures
        answers(answer, jobs.last()->Answered_0),
        before.rewire_outcome(
            probability,
            seed,
            Seq::empty(),
            answer,
            shards.last(),
            joined(frames, frames.len() as int),
        ),
{
    assert(jobs[0] is Rewire);
    let n = frames.len() - 1;
    lemma_legs(before, probability, seed, jobs, shards, frames, n);
    let pass = jobs[n]->Rewire_0;
    let written = joined(frames, n);
    let all = joined(frames, n + 1);
    assert(advances(jobs[n], shards[n], frames[n], jobs[n + 1], shards[n + 1]));
    let (leg, next) = choose|leg: RewireLeg, next: RewirePass|
        {
            &&& #[trigger] shards[n].rewire_leg(pass, leg, shards[n + 1], next)
            &&& carry_mutations(frames[n], 0, batches::sent_seqs(leg.sent@))
            &&& match leg.outcome {
                Ok(None) => jobs[n + 1] == Job::Rewire(next),
                Ok(Some(response)) => jobs[n + 1] == Job::Answered(response),
                Err(message) => jobs[n + 1] is Answered && tells_error(
                    jobs[n + 1]->Answered_0,
                    message@,
                ),
            }
        };
    assert(all == written + frames[n]);
    if probability.zero() {
        assert(n == 0);
        assert(all =~= Seq::empty());
        assert(all.take(0) =~= Seq::empty());
    } else {
        lemma_leg(before, pass, shards[n], written, frames[n], leg, next, shards[n + 1]);
    }
    match leg.outcome {
        Ok(Some(response)) => Ok(response),
        Err(message) => Err(message),
        Ok(None) => Ok(jobs.last()->Answered_0),
    }
}

/// Where a clustering pass stands that has been left before its end.
spec fn stands_asking(
    before: ShardView,
    pass: ClusteringPass,
    vertices: Seq<u32>,
    written: Seq<WorkerResponse>,
) -> bool {
    let none = Waiting::<EdgeQuery>::none(before.config->Some_0.workers as nat);
    let target = query_target(before.config->Some_0);
    let asked = before.asked_by(pass);
    &&& pass.vertices@ == vertices
    &&& pass.batches@ == none.queue_all(asked, target)
    &&& carry_queries(written, 0, none.sends_all(asked, target))
}

/// What one more leg adds to a pass.
#[verifier::rlimit(60)]
proof fn lemma_asking(
    before: ShardView,
    pass: ClusteringPass,
    vertices: Seq<u32>,
    written: Seq<WorkerResponse>,
    frames: Seq<WorkerResponse>,
    leg: ClusteringLeg,
    next: ClusteringPass,
)
    requires
        before.config is Some,
        stands_asking(before, pass, vertices, written),
        before.clustering_leg(pass, leg, next),
        carry_queries(frames, 0, batches::sent_seqs(leg.sent@)),
    ensures
        leg.outcome == Ok::<Option<WorkerResponse>, String>(None) ==> stands_asking(
            before,
            next,
            vertices,
            written + frames,
        ),
        leg.outcome is Ok && leg.outcome->Ok_0 is Some ==> before.clustering_outcome(
            vertices,
            Seq::empty(),
            Ok(leg.outcome->Ok_0->Some_0),
            written + frames,
        ),
        leg.outcome is Err ==> before.clustering_outcome(
            vertices,
            Seq::empty(),
            Err(leg.outcome->Err_0),
            written + frames,
        ),
{
    let none = Waiting::<EdgeQuery>::none(before.config->Some_0.workers as nat);
    let target = query_target(before.config->Some_0);
    let from = before.asked_by(pass);
    let to = before.asked_by(next);
    let asked = to.skip(from.len() as int);
    assert(from + asked =~= to);
    batches::lemma_queue_sum(none, from, asked, target);
    let sent = batches::sent_seqs(leg.sent@);
    lemma_carry_queries(written, frames, none.sends_all(from, target), sent);
    let all = written + frames;
    assert(all.take(0) =~= Seq::empty());
    match leg.outcome {
        Ok(None) => {},
        Ok(Some(response)) => {
            assert(vertices.take(vertices.len() as int) =~= vertices);
            assert(to =~= before.all_queries(vertices));
            let flush = batches::flushed(none.queue_all(to, target).groups);
            assert(none.sends_all(from, target) + sent =~= none.sends_all(to, target) + flush);
        },
        Err(message) => {
            assert(to =~= before.all_queries(vertices.take(next.vertex as int)));
            assert(before.foreign_outcome(vertices, next.vertex as int, message@));
        },
    }
}

/// A clustering pass that has not come to its end after `n` steps.
#[verifier::rlimit(60)]
proof fn lemma_askings(
    before: ShardView,
    vertices: Vec<u32>,
    jobs: Seq<Job>,
    shards: Seq<ShardView>,
    frames: Seq<Seq<WorkerResponse>>,
    n: int,
)
    requires
        before.config is Some,
        goes_through(
            WorkerCommand::PrepareClustering { vertices },
            before,
            jobs,
            shards,
            frames,
        ),
        0 <= n < frames.len(),
    ensures
        jobs[n] is Clustering,
        shards[n] == before,
        stands_asking(before, jobs[n]->Clustering_0, vertices@, joined(frames, n)),
    decreases n,
{
    if n == 0 {
        let pass = jobs[0]->Clustering_0;
        assert(vertices@.take(0) =~= Seq::empty());
        assert(before.asked_by(pass) =~= Seq::empty());
    } else {
        let i = n - 1;
        lemma_askings(before, vertices, jobs, shards, frames, i);
        let pass = jobs[i]->Clustering_0;
        assert(advances(jobs[i], shards[i], frames[i], jobs[i + 1], shards[i + 1]));
        assert(advances(jobs[n], shards[n], frames[n], jobs[n + 1], shards[n + 1]));
        let (leg, next) = choose|leg: ClusteringLeg, next: ClusteringPass|
            {
                &&& #[trigger] shards[i].clustering_leg(pass, leg, next)
                &&& carry_queries(frames[i], 0, batches::sent_seqs(leg.sent@))
                &&& match leg.outcome {
                    Ok(None) => jobs[i + 1] == Job::Clustering(next),
                    Ok(Some(response)) => jobs[i + 1] == Job::Answered(response),
                    Err(message) => jobs[i + 1] is Answered && tells_error(
                        jobs[i + 1]->Answered_0,
                        message@,
                    ),
                }
            };
        lemma_asking(before, pass, vertices@, joined(frames, i), frames[i], leg, next);
    }
}

#[verifier::rlimit(60)]
proof fn lemma_streamed_clustering(
    before: ShardView,
    vertices: Vec<u32>,
    jobs: Seq<Job>,
    shards: Seq<ShardView>,
    frames: Seq<Seq<WorkerResponse>>,
) -> (answer: Result<WorkerResponse, String>)
    requires
        before.config is Some,
        goes_through(
            WorkerCommand::PrepareClustering { vertices },
            before,
            jobs,
            shards,
            frames,
        ),
    ensures
        answers(answer, jobs.last()->Answered_0),
        before.clustering_outcome(
            vertices@,
            Seq::empty(),
            answer,
            joined(frames, frames.len() as int),
        ),
        shards.last() == before,
{
    assert(jobs[0] is Clustering);
    let n = frames.len() - 1;
    lemma_askings(before, vertices, jobs, shards, frames, n);
    let pass = jobs[n]->Clustering_0;
    assert(advances(jobs[n], shards[n], frames[n], jobs[n + 1], shards[n + 1]));
    let (leg, next) = choose|leg: ClusteringLeg, next: ClusteringPass|
        {
            &&& #[trigger] shards[n].clustering_leg(pass, leg, next)
            &&& carry_queries(frames[n], 0, batches::sent_seqs(leg.sent@))
            &&& match leg.outcome {
                Ok(None) => jobs[n + 1] == Job::Clustering(next),
                Ok(Some(response)) => jobs[n + 1] == Job::Answered(response),
                Err(message) => jobs[n + 1] is Answered && tells_error(
                    jobs[n + 1]->Answered_0,
                    message@,
                ),
            }
        };
    lemma_asking(before, pass, vertices@, joined(frames, n), frames[n], leg, next);
    match leg.outcome {
        Ok(Some(response)) => Ok(response),
        Err(message) => Err(message),
        Ok(None) => Ok(jobs.last()->Answered_0),
    }
}

/// A request that is taken on and advanced step by step comes to the answer that it gets
/// when it is handled in one go; the messages of its steps, one after the other, are
/// those that it writes then, and the worker ends up the same.
#[verifier::rlimit(60)]
pub proof fn lemma_streamed(
    command: WorkerCommand,
    before: ShardView,
    jobs: Seq<Job>,
    shards: Seq<ShardView>,
    frames: Seq<Seq<WorkerResponse>>,
) -> (answer: Result<WorkerResponse, String>)
    requires
        before.wf(),
        goes_through(command, before, jobs, shards, frames),
    ensures
        answers(answer, jobs.last()->Answered_0),
        before.outcome(
            command,
            Seq::empty(),
            answer,
            shards.last(),
            joined(frames, frames.len() as int),
        ),
{
    match command {
        WorkerCommand::Rewire { probability, seed } if before.config is Some => {
            lemma_streamed_rewiring(before, probability, seed, jobs, shards, frames)
        },
        WorkerCommand::PrepareClustering { vertices } if before.config is Some => {
            lemma_streamed_clustering(before, vertices, jobs, shards, frames)
        },
        _ => {
            assert(jobs[0] is Answered);
            if frames.len() > 0 {
                assert(advances(jobs[0], shards[0], frames[0], jobs[1], shards[1]));
            }
            choose|answer: Result<WorkerResponse, String>|
                #[trigger] answers(answer, jobs[0]->Answered_0) && before.outcome(
                    command,
                    Seq::empty(),
                    answer,
                    shards[0],
                    Seq::empty(),
                )
        },
    }
}

} // verus!
