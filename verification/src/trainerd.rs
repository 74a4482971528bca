//! Host-side trainer harness: drives the scheduler and the batch engine of
//! [`crate::trainer_core`] against an in-process [`GraphRuntime`], one
//! acknowledged mutation at a time, exactly as the protected service does.

use vstd::prelude::*;
use crate::search::{first_index, is_first, lemma_first_found, lemma_first_none};
use crate::graph_runtime::{
    GraphRuntime, GraphModel, GraphError, Mutation, ScoredNode, SpectralSnapshot, sat_inc, spec_apply,
    neighborhood_upto, min_nat, spec_spectral_snapshot, MAX_RESULTS, MAX_EDGES,
};
use crate::trainer_core::{
    BatchExecution, BatchModel, BatchError, CoreError, GraphWork, RecordBatch, TrainerCore,
    TrainerModel, WorkerAction, MAX_BATCH_RECORDS, FNV_OFFSET, complete_spec, next_spec,
    acknowledge_spec, next_edge_from, has_relation, running_job_spec, correlate_spec, finish_spec,
};

verus! {

/// Relation kind of the edge that a CORRELATE job promotes.
pub const CORRELATION_EDGE_KIND: u16 = 30;

/// The graph mutation and provenance that carry one unit of batch work,
/// stamped with `now`.
pub open spec fn work_mutation(work: GraphWork, now: u64) -> (Mutation, u64) {
    match work {
        GraphWork::AddNode { kind, flags, weight, parent, provenance } => (
            Mutation::AddNode { kind, flags, weight, parent, now },
            provenance,
        ),
        GraphWork::AddEdge { kind, weight, from, to, provenance } => (
            Mutation::AddEdge { kind, flags: 0, weight, from, to, now },
            provenance,
        ),
    }
}

/// The graph's answer to one unit of batch work stamped with `now`.
#[verifier::opaque]
pub open spec fn apply_work_spec(g: GraphModel, work: GraphWork, now: u64) -> (Result<u64, GraphError>, GraphModel) {
    spec_apply(g, work_mutation(work, now).0, work_mutation(work, now).1)
}

/// Send one unit of batch work to the graph.
fn apply_work(graph: &mut GraphRuntime, work: GraphWork, now: u64) -> (r: Result<u64, GraphError>)
    requires
        old(graph).wf(),
    ensures
        final(graph).wf(),
        (r, final(graph)@) == apply_work_spec(old(graph)@, work, now),
{
    proof { reveal(apply_work_spec); }
    let (mutation, provenance) = match work {
        GraphWork::AddNode { kind, flags, weight, parent, provenance } => (
            Mutation::AddNode { kind, flags, weight, parent, now },
            provenance,
        ),
        GraphWork::AddEdge { kind, weight, from, to, provenance } => (
            Mutation::AddEdge { kind, flags: 0, weight, from, to, now },
            provenance,
        ),
    };
    graph.apply(mutation, provenance)
}

/// The execution state of a batch that has just been started.
pub open spec fn batch_start(batch: RecordBatch) -> BatchModel {
    BatchModel {
        owner: batch.owner,
        count: batch.count as nat,
        records: batch.records@,
        resolved: Seq::new(MAX_BATCH_RECORDS as nat, |i: int| 0u64),
        node_cursor: 0,
        edge_cursor: 0,
        awaiting: false,
        awaiting_edge: false,
        verifier: FNV_OFFSET,
    }
}

pub open spec fn verifier_of(m: BatchModel) -> i32 {
    (m.verifier & 0x7fff_ffff) as i32
}

/// Work left in a batch: each record is added once and related at most once.
pub open spec fn batch_measure(m: BatchModel) -> int {
    2 * m.count - m.node_cursor - m.edge_cursor
}

/// The outcome of running a batch from state `m` against graph `g` at clock
/// `now`: the verifier code or the first error, the graph and the clock after.
#[verifier::opaque]
pub open spec fn run_batch(g: GraphModel, m: BatchModel, now: u64) -> (Result<i32, BatchError>, GraphModel, u64)
    decreases batch_measure(m),
    when m.wf() && !m.awaiting
{
    if complete_spec(m) {
        (Ok(verifier_of(m)), g, now)
    } else {
        let (step, m1) = next_spec(m);
        match step {
            Err(e) => (Err(e), g, now),
            Ok(None) => (Ok(verifier_of(m1)), g, now),
            Ok(Some(work)) => {
                let now1 = sat_inc(now);
                let (applied, g1) = apply_work_spec(g, work, now1);
                match applied {
                    Err(_) => (Err(BatchError::UnexpectedAck), g1, now1),
                    Ok(id) => {
                        let (ack, m2) = acknowledge_spec(m1, id, g1.generation);
                        match ack {
                            Err(e) => (Err(e), g1, now1),
                            Ok(_) => {
                                proof { lemma_step_progress(m, id, g1.generation); }
                                run_batch(g1, m2, now1)
                            },
                        }
                    },
                }
            },
        }
    }
}

/// A completed batch yields its verifier code and leaves graph and clock alone.
pub proof fn lemma_run_complete(g: GraphModel, m: BatchModel, now: u64)
    requires
        m.wf(),
        !m.awaiting,
        complete_spec(m),
    ensures
        run_batch(g, m, now) == (Ok::<i32, BatchError>(verifier_of(m)), g, now),
{
    reveal_with_fuel(run_batch, 1);
}

/// The next relation of a batch lies between the cursor and the record count.
pub proof fn lemma_next_edge_range(m: BatchModel, start: int)
    requires
        m.wf(),
        0 <= start <= m.count,
    ensures
        next_edge_from(m, start) matches Some(i) ==> start <= i < m.count,
{
    let sub = m.records.subrange(start, m.count as int);
    if let Some(i) = first_index(sub, has_relation()) {
        assert(is_first(sub, has_relation(), i));
    }
}

/// One acknowledged step of a batch strictly shrinks the work that is left.
pub proof fn lemma_step_progress(m: BatchModel, id: u64, generation: u64)
    requires
        m.wf(),
        !m.awaiting,
        next_spec(m).0 matches Ok(Some(_)),
        acknowledge_spec(next_spec(m).1, id, generation).0 is Ok,
    ensures
        next_spec(m).1.wf(),
        acknowledge_spec(next_spec(m).1, id, generation).1.wf(),
        !acknowledge_spec(next_spec(m).1, id, generation).1.awaiting,
        0 <= batch_measure(acknowledge_spec(next_spec(m).1, id, generation).1) < batch_measure(m),
{
    lemma_next_edge_range(m, m.edge_cursor as int);
}

/// The clock after one tick, held at `u64::MAX`.
fn tick(now: u64) -> (r: u64)
    ensures
        r == sat_inc(now),
{
    if now < u64::MAX {
        now + 1
    } else {
        now
    }
}

/// Carry one unit of batch work through the graph. `None` when the batch
/// goes on; otherwise the batch's outcome.
#[verifier::rlimit(40)]
fn batch_step(graph: &mut GraphRuntime, execution: &mut BatchExecution, now: &mut u64) -> (r: Option<
    Result<i32, BatchError>,
>)
    requires
        old(graph).wf(),
        old(execution).wf(),
        !old(execution)@.awaiting,
        !complete_spec(old(execution)@),
    ensures
        final(graph).wf(),
        final(execution).wf(),
        match r {
            Some(res) => (res, final(graph)@, *final(now)) == run_batch(old(graph)@, old(execution)@, *old(now)),
            None => {
                &&& !final(execution)@.awaiting
                &&& 0 <= batch_measure(final(execution)@) < batch_measure(old(execution)@)
                &&& run_batch(final(graph)@, final(execution)@, *final(now)) == run_batch(
                    old(graph)@,
                    old(execution)@,
                    *old(now),
                )
            },
        },
{
    proof { reveal_with_fuel(run_batch, 2); }
    let ghost m0 = execution@;
    let work = match execution.next() {
        Err(e) => return Some(Err(e)),
        Ok(None) => return Some(Ok(execution.verifier_code())),
        Ok(Some(w)) => w,
    };
    *now = tick(*now);
    let object_id = match apply_work(graph, work, *now) {
        Ok(id) => id,
        Err(_) => return Some(Err(BatchError::UnexpectedAck)),
    };
    match execution.acknowledge(object_id, graph.generation()) {
        Ok(()) => {},
        Err(e) => return Some(Err(e)),
    }
    proof { lemma_step_progress(m0, object_id, graph@.generation); }
    None
}

/// Execute a decoded INDEX or HYDRATE batch: one mutation at a time, each
/// stamped with the next clock tick, with graph acknowledgements resolving
/// the identifiers that later records refer to.
pub fn execute_batch(graph: &mut GraphRuntime, batch: RecordBatch, now: &mut u64) -> (r: Result<i32, BatchError>)
    requires
        old(graph).wf(),
        batch.count <= MAX_BATCH_RECORDS,
    ensures
        final(graph).wf(),
        (r, final(graph)@, *final(now)) == run_batch(old(graph)@, batch_start(batch), *old(now)),
{
    let ghost outcome = run_batch(graph@, batch_start(batch), *now);
    let mut execution = BatchExecution::new(batch);
    while !execution.is_complete()
        invariant
            graph.wf(),
            execution.wf(),
            !execution@.awaiting,
            run_batch(graph@, execution@, *now) == outcome,
            outcome == run_batch(old(graph)@, batch_start(batch), *old(now)),
        decreases batch_measure(execution@),
    {
        if let Some(res) = batch_step(graph, &mut execution, now) {
            return res;
        }
    }
    proof { lemma_run_complete(graph@, execution@, *now); }
    Ok(execution.verifier_code())
}

pub open spec fn other_than(target: u64) -> spec_fn(ScoredNode) -> bool {
    |s: ScoredNode| s.node.id != target
}

/// The first ranked neighbour, among the first `count`, that is not the
/// target itself.
pub open spec fn correlation_peer(results: Seq<ScoredNode>, count: nat, target: u64) -> Option<u64> {
    match first_index(results.subrange(0, count as int), other_than(target)) {
        Some(i) => Some(results[i].node.id),
        None => None,
    }
}

/// The promotion edge between the running CORRELATE job's target and `to`.
pub open spec fn promotion(from: u64, to: u64, now: u64) -> Mutation {
    Mutation::AddEdge { kind: CORRELATION_EDGE_KIND, flags: 0, weight: 1, from, to, now }
}

pub open spec fn job_verifier(r: Result<crate::trainer_core::Job, CoreError>) -> Result<i32, CoreError> {
    match r {
        Ok(job) => Ok(job.verifier),
        Err(e) => Err(e),
    }
}

/// The outcome of one CORRELATE step: the verifier code or the error, and the
/// scheduler, the graph and the clock after it.
pub open spec fn correlation_spec(tm: TrainerModel, g: GraphModel, now: u64) -> (
    Result<i32, CoreError>,
    TrainerModel,
    GraphModel,
    u64,
) {
    match running_job_spec(tm) {
        None => (Err(CoreError::MissingRunningJob), tm, g, now),
        Some(job) => {
            let (nodes, count) = neighborhood_upto(
                g,
                job.target,
                now,
                min_nat(MAX_RESULTS as nat, MAX_RESULTS as nat),
                MAX_EDGES as int,
            );
            match correlation_peer(nodes, count, job.target) {
                None => (Err(CoreError::InvalidJob), tm, g, now),
                Some(peer) => {
                    let (candidate, tm1) = correlate_spec(tm, peer);
                    match candidate {
                        Err(e) => (Err(e), tm1, g, now),
                        Ok(WorkerAction::CorrelatePromote { job_seq, from, to }) => {
                            let now1 = sat_inc(now);
                            let (applied, g1) = spec_apply(g, promotion(from, to, now1), job_seq as u64);
                            match applied {
                                Err(_) => (Err(CoreError::InvalidJob), tm1, g1, now1),
                                Ok(edge) => {
                                    let (done, tm2) = finish_spec(tm1, true, now1, (edge & 0x7fff_ffff) as i32);
                                    (job_verifier(done), tm2, g1, now1)
                                },
                            }
                        },
                        Ok(_) => (Err(CoreError::InvalidJob), tm1, g, now),
                    }
                },
            }
        },
    }
}

/// Run relation candidate selection and promotion for the running CORRELATE
/// job: pick the best-ranked neighbour of its target, relate the two in the
/// graph and complete the job with the new edge as its verifier.
pub fn execute_correlation(core: &mut TrainerCore, graph: &mut GraphRuntime, now: &mut u64) -> (r: Result<i32, CoreError>)
    requires
        old(graph).wf(),
    ensures
        final(graph).wf(),
        (r, final(core)@, final(graph)@, *final(now)) == correlation_spec(old(core)@, old(graph)@, *old(now)),
{
    let job = match core.running_job() {
        Some(job) => job,
        None => return Err(CoreError::MissingRunningJob),
    };
    let neighborhood = graph.scored_neighborhood(job.target, *now, MAX_RESULTS);
    let ghost found = neighborhood.nodes@.subrange(0, neighborhood.count as int);
    let mut index: usize = 0;
    let mut peer: u64 = 0;
    let mut have_peer = false;
    while index < neighborhood.count && !have_peer
        invariant
            neighborhood.count <= MAX_RESULTS,
            found == neighborhood.nodes@.subrange(0, neighborhood.count as int),
            index <= neighborhood.count,
            have_peer ==> index >= 1 && is_first(found, other_than(job.target), index - 1)
                && peer == neighborhood.nodes[index - 1].node.id,
            !have_peer ==> forall|j: int| 0 <= j < index ==> !(#[trigger] other_than(job.target)(found[j])),
        decreases neighborhood.count - index,
    {
        if neighborhood.nodes[index].node.id != job.target {
            peer = neighborhood.nodes[index].node.id;
            have_peer = true;
        }
        index += 1;
    }
    if !have_peer {
        proof { lemma_first_none(found, other_than(job.target)); }
        return Err(CoreError::InvalidJob);
    }
    proof { lemma_first_found(found, other_than(job.target), index - 1); }
    let (job_seq, from, to) = match core.correlation_candidate(peer) {
        Ok(WorkerAction::CorrelatePromote { job_seq, from, to }) => (job_seq, from, to),
        Ok(_) => return Err(CoreError::InvalidJob),
        Err(e) => return Err(e),
    };
    *now = tick(*now);
    let edge = match graph.apply(
        Mutation::AddEdge { kind: CORRELATION_EDGE_KIND, flags: 0, weight: 1, from, to, now: *now },
        job_seq as u64,
    ) {
        Ok(edge) => edge,
        Err(_) => return Err(CoreError::InvalidJob),
    };
    match core.complete(true, *now, (edge & 0x7fff_ffff) as i32) {
        Ok(job) => Ok(job.verifier),
        Err(e) => Err(e),
    }
}

/// The verifier code of a spectral refresh: checksum, residual energy and
/// the eigenvalue's bits folded together, as a non-negative `i32`.
pub open spec fn spectral_verifier(s: SpectralSnapshot) -> i32 {
    ((s.checksum ^ s.spectral_energy ^ (s.dominant_eigen_q16 as u32 as u64)) & 0x7fff_ffff) as i32
}

/// Refresh the graph's structural and spectral summary and complete the
/// running job with its verifier code.
pub fn execute_spectral(core: &mut TrainerCore, graph: &GraphRuntime, now: u64) -> (r: Result<i32, CoreError>)
    requires
        graph.wf(),
    ensures
        r == job_verifier(finish_spec(old(core)@, true, now, spectral_verifier(spec_spectral_snapshot(graph@))).0),
        final(core)@ == finish_spec(old(core)@, true, now, spectral_verifier(spec_spectral_snapshot(graph@))).1,
{
    let snapshot = graph.spectral_snapshot();
    let verifier = ((snapshot.checksum ^ snapshot.spectral_energy ^ (snapshot.dominant_eigen_q16 as u32 as u64))
        & 0x7fff_ffff) as i32;
    match core.complete(true, now, verifier) {
        Ok(job) => Ok(job.verifier),
        Err(e) => Err(e),
    }
}

} // verus!
