//! The trainer service around the trainer scheduler: its request and report
//! formats, the answers it reads back from the graph service, the paths of
//! batch files, and its durable job snapshot.

use vstd::prelude::*;
use crate::bytes::{
    get_u32, get_u64, le_u32_at, le_u32_bytes, le_u64_at, le_u64_bytes, lemma_le_u32_at_eq, lemma_le_u32_roundtrip,
    lemma_le_u64_at_eq, lemma_le_u64_roundtrip, put_bytes, put_u32, put_u64,
};
use crate::trainer_core::{
    job_type_index, job_type_of, CoreError, Job, JobState, JobType, ResourcePolicy, Subsystem, TrainerCore,
    TrainerModel, MAX_JOBS, SUBSYSTEM_COUNT, control_spec, finish_spec, running_job_spec, running_index_spec,
    acknowledge_spec, batch_count, batch_decode_error, batch_records, claim_spec, complete_spec, correlate_spec,
    decode_batch, next_spec, progress_model, progress_spec, BatchExecution, BatchModel, GraphWork, WorkerAction,
    FNV_OFFSET, MAX_BATCH_RECORDS, MAX_BATCH_SIZE,
};

verus! {

pub const TAG_JOB_SUBMIT: u8 = 0x40;
pub const TAG_JOB_REPORT: u8 = 0x41;
pub const TAG_CONTROL: u8 = 0x42;
pub const TAG_STATUS_QUERY: u8 = 0x43;
pub const TAG_STATUS_RESPONSE: u8 = 0x44;
pub const JOB_RECORD: usize = 56;
pub const SUBSYSTEMS_OFFSET: usize = 32;
pub const JOBS_OFFSET: usize = 96;
pub const TRAINER_SNAPSHOT_CAP: usize = 1888;

pub open spec fn zeros(n: nat) -> Seq<u8> {
    Seq::new(n, |i: int| 0u8)
}

/// The wire number of a job state, in declaration order.
pub open spec fn state_code(state: JobState) -> u8 {
    match state {
        JobState::Pending => 0,
        JobState::Running => 1,
        JobState::Paused => 2,
        JobState::Completed => 3,
        JobState::Failed => 4,
    }
}

/// The job state a wire number names; unknown numbers read as pending.
pub open spec fn state_of(value: u8) -> JobState {
    if value == 1 {
        JobState::Running
    } else if value == 2 {
        JobState::Paused
    } else if value == 3 {
        JobState::Completed
    } else if value == 4 {
        JobState::Failed
    } else {
        JobState::Pending
    }
}

pub fn decode_state(value: u8) -> (r: JobState)
    ensures
        r == state_of(value),
{
    match value {
        1 => JobState::Running,
        2 => JobState::Paused,
        3 => JobState::Completed,
        4 => JobState::Failed,
        _ => JobState::Pending,
    }
}

pub fn encode_state(state: JobState) -> (r: u8)
    ensures
        r == state_code(state),
{
    match state {
        JobState::Pending => 0,
        JobState::Running => 1,
        JobState::Paused => 2,
        JobState::Completed => 3,
        JobState::Failed => 4,
    }
}

fn kind_code(kind: JobType) -> (r: u8)
    ensures
        r == job_type_index(kind),
{
    kind.index() as u8
}

// ---------------------------------------------------------------------------
// Requests
// ---------------------------------------------------------------------------

/// A submission request's answer and the scheduler after it: error 1 for
/// a short request or an unknown job kind, 2 when the scheduler refuses.
pub open spec fn submit_request_model(core: TrainerModel, payload: Seq<u8>, requester: u32) -> (Result<u32, u8>, TrainerModel) {
    if payload.len() < 24 || job_type_of(payload[0]) is None {
        (Err(1), core)
    } else {
        let (r, next) = crate::trainer_core::submit_model(
            core,
            job_type_of(payload[0]).unwrap(),
            payload[1],
            le_u64_at(payload, 8),
            le_u64_at(payload, 16),
            requester,
        );
        match r {
            Ok(seq) => (Ok(seq), next),
            Err(_) => (Err(2), next),
        }
    }
}

/// Submit the job a request describes: kind, priority, target, time.
pub fn submit_request(core: &mut TrainerCore, payload: &[u8], requester: u32) -> (r: Result<u32, u8>)
    ensures
        (r, final(core)@) == submit_request_model(old(core)@, payload@, requester),
{
    if payload.len() < 24 {
        return Err(1);
    }
    let kind = match JobType::from_u8(payload[0]) {
        Some(kind) => kind,
        None => return Err(1),
    };
    match core.submit(kind, payload[1], get_u64(payload, 8), get_u64(payload, 16), requester) {
        Ok(seq) => Ok(seq),
        Err(_) => Err(2),
    }
}

/// The outcome of a control request: whether the scheduler took it, and
/// whether it paused the kind of job that was running.
#[derive(Clone, Copy, Debug, PartialEq, Eq, Structural)]
pub struct ControlOutcome {
    pub controlled: bool,
    pub interrupted: bool,
}

/// A control request's outcome and the scheduler after it.
pub open spec fn control_request_model(core: TrainerModel, payload: Seq<u8>) -> (ControlOutcome, TrainerModel) {
    if payload.len() < 16 || job_type_of(payload[0]) is None {
        (ControlOutcome { controlled: false, interrupted: false }, core)
    } else {
        let kind = job_type_of(payload[0]).unwrap();
        let policy = ResourcePolicy { cpu_budget: payload[2], io_budget: payload[3], schedule: payload[4] };
        let (r, next) = control_spec(core, kind, payload[1], policy);
        (
            ControlOutcome {
                controlled: r is Ok,
                interrupted: payload[1] == 1 && (running_job_spec(core) matches Some(job) && job.kind == kind),
            },
            next,
        )
    }
}

/// Apply a control request: kind, action, CPU and I/O budgets, schedule.
pub fn control_request(core: &mut TrainerCore, payload: &[u8]) -> (r: ControlOutcome)
    ensures
        (r, final(core)@) == control_request_model(old(core)@, payload@),
{
    if payload.len() < 16 {
        return ControlOutcome { controlled: false, interrupted: false };
    }
    let kind = match JobType::from_u8(payload[0]) {
        Some(kind) => kind,
        None => return ControlOutcome { controlled: false, interrupted: false },
    };
    let policy = ResourcePolicy { cpu_budget: payload[2], io_budget: payload[3], schedule: payload[4] };
    let interrupted = payload[1] == 1 && match core.running_job() {
        Some(job) => job.kind == kind,
        None => false,
    };
    let controlled = core.control(kind, payload[1], policy).is_ok();
    ControlOutcome { controlled, interrupted }
}

// ---------------------------------------------------------------------------
// Answers from the graph service
// ---------------------------------------------------------------------------

/// The first of the answered nodes (at most eight, and only those that fit
/// in the answer) that is neither empty nor the job's own target; zero when
/// there is none.
pub open spec fn peer_from(payload: Seq<u8>, target: u64, i: int, n: int) -> u64
    decreases n - i,
{
    if i >= n || i < 0 {
        0
    } else {
        let offset = 16 + i * 16;
        if offset + 8 <= payload.len() && le_u64_at(payload, offset) != 0 && le_u64_at(payload, offset) != target {
            le_u64_at(payload, offset)
        } else {
            peer_from(payload, target, i + 1, n)
        }
    }
}

/// The correlation peer a query answer offers; `None` when the answer is
/// short or reports no nodes.
pub open spec fn correlation_peer_spec(payload: Seq<u8>, target: u64) -> Option<u64> {
    if payload.len() < 32 || payload[1] == 0 {
        None
    } else {
        Some(peer_from(payload, target, 0, if payload[1] > 8 { 8 } else { payload[1] as int }))
    }
}

pub fn correlation_peer(payload: &[u8], target: u64) -> (r: Option<u64>)
    ensures
        r == correlation_peer_spec(payload@, target),
{
    if payload.len() < 32 || payload[1] == 0 {
        return None;
    }
    let n: usize = if payload[1] > 8 { 8 } else { payload[1] as usize };
    let mut i: usize = 0;
    while i < n
        invariant
            i <= n <= 8,
            payload@.len() >= 32,
            payload@[1] != 0,
            n == (if payload@[1] > 8 { 8 } else { payload@[1] as int }),
            peer_from(payload@, target, 0, n as int) == peer_from(payload@, target, i as int, n as int),
        decreases n - i,
    {
        let offset = 16 + i * 16;
        if offset + 8 <= payload.len() {
            let id = get_u64(payload, offset);
            if id != 0 && id != target {
                assert(peer_from(payload@, target, i as int, n as int) == id);
                return Some(id);
            }
        }
        i += 1;
    }
    Some(0)
}

/// The verifier of a spectral refresh: checksum, energy and eigenvalue of
/// the structural answer folded into a non-negative `i32`; `None` when the
/// answer is short.
pub open spec fn spectral_verifier_spec(payload: Seq<u8>) -> Option<i32> {
    if payload.len() < 40 {
        None
    } else {
        let checksum = le_u64_at(payload, 32);
        let eigen = le_u32_at(payload, 40);
        let energy = le_u64_at(payload, 48);
        Some(((checksum ^ energy ^ (eigen as u64)) & 0x7fff_ffff) as i32)
    }
}

pub fn spectral_verifier(payload: &[u8]) -> (r: Option<i32>)
    requires
        payload@.len() < 40 || payload@.len() >= 56,
    ensures
        r == spectral_verifier_spec(payload@),
{
    if payload.len() < 40 {
        return None;
    }
    let checksum = get_u64(payload, 32);
    let eigen = get_u32(payload, 40);
    let energy = get_u64(payload, 48);
    let folded = (checksum ^ energy ^ (eigen as u64)) & 0x7fff_ffff;
    assert(folded <= 0x7fff_ffff) by (bit_vector)
        requires folded == (checksum ^ energy ^ (eigen as u64)) & 0x7fff_ffff;
    Some(folded as i32)
}

/// The generation and object of a successful mutation acknowledgement.
pub open spec fn ack_spec(payload: Seq<u8>) -> Option<(u64, u64)> {
    if payload.len() < 24 || payload[0] != 0 {
        None
    } else {
        Some((le_u64_at(payload, 8), le_u64_at(payload, 16)))
    }
}

pub fn graph_ack(payload: &[u8]) -> (r: Option<(u64, u64)>)
    ensures
        r == ack_spec(payload@),
{
    if payload.len() < 24 || payload[0] != 0 {
        return None;
    }
    Some((get_u64(payload, 8), get_u64(payload, 16)))
}

/// The query asking for the neighbours of an entity (kind 4, up to eight).
pub open spec fn correlation_query_bytes(entity: u64) -> Seq<u8> {
    seq![4u8, 0, 0, 0, 8] + zeros(3) + le_u64_bytes(entity) + zeros(16)
}

pub fn correlation_query(entity: u64) -> (r: [u8; 32])
    ensures
        r@ == correlation_query_bytes(entity),
{
    let mut out = [0u8; 32];
    out[0] = 4;
    out[4] = 8;
    put_u64(&mut out, 8, entity);
    assert(out@ =~= correlation_query_bytes(entity));
    out
}

/// The query asking for the structural answer (kind 6).
pub fn spectral_query() -> (r: [u8; 32])
    ensures
        r@ == seq![6u8] + zeros(31),
{
    let mut out = [0u8; 32];
    out[0] = 6;
    assert(out@ =~= seq![6u8] + zeros(31));
    out
}

// ---------------------------------------------------------------------------
// Reports
// ---------------------------------------------------------------------------

/// The report of a job to its requester.
pub open spec fn report_bytes(job: Job) -> Seq<u8> {
    seq![job_type_index(job.kind) as u8, state_code(job.state), job.progress, 0u8] + le_u32_bytes(job.seq)
        + le_u64_bytes(job.target) + le_u64_bytes(job.started_at) + le_u64_bytes(job.completed_at) + zeros(4)
        + le_u32_bytes(job.verifier as u32) + zeros(8)
}

pub fn job_report(job: &Job) -> (r: [u8; 48])
    ensures
        r@ == report_bytes(*job),
{
    let mut out = [0u8; 48];
    out[0] = kind_code(job.kind);
    out[1] = encode_state(job.state);
    out[2] = job.progress;
    put_u32(&mut out, 4, job.seq);
    put_u64(&mut out, 8, job.target);
    put_u64(&mut out, 16, job.started_at);
    put_u64(&mut out, 24, job.completed_at);
    put_u32(&mut out, 36, job.verifier as u32);
    assert(out@ =~= report_bytes(*job));
    out
}

/// The receipt of an accepted submission: the job's sequence number.
pub fn submit_receipt(seq: u32) -> (r: [u8; 8])
    ensures
        r@ == zeros(4) + le_u32_bytes(seq),
{
    let mut out = [0u8; 8];
    put_u32(&mut out, 4, seq);
    assert(out@ =~= zeros(4) + le_u32_bytes(seq));
    out
}

/// A runtime event for the observability service.
pub open spec fn event_bytes(kind: u8, node: u64, value: u32, clock: u64) -> Seq<u8> {
    seq![kind] + le_u64_bytes(node) + zeros(8) + le_u32_bytes(value) + le_u64_bytes(clock)
}

pub fn runtime_event(kind: u8, node: u64, value: u32, clock: u64) -> (r: [u8; 29])
    ensures
        r@ == event_bytes(kind, node, value, clock),
{
    let mut out = [0u8; 29];
    out[0] = kind;
    put_u64(&mut out, 1, node);
    put_u32(&mut out, 17, value);
    put_u64(&mut out, 21, clock);
    assert(out@ =~= event_bytes(kind, node, value, clock));
    out
}

/// One subsystem in the status answer and in the snapshot.
pub open spec fn subsystem_bytes(s: Subsystem) -> Seq<u8> {
    seq![state_code(s.state), s.policy.cpu_budget, s.policy.io_budget, s.policy.schedule] + le_u32_bytes(s.completed)
        + le_u32_bytes(s.failed)
}

/// The status answer: each subsystem, the pending count and the next sequence number.
pub open spec fn status_bytes(m: TrainerModel) -> Seq<u8> {
    subsystem_bytes(m.subsystems[0]) + subsystem_bytes(m.subsystems[1]) + subsystem_bytes(m.subsystems[2])
        + subsystem_bytes(m.subsystems[3]) + le_u32_bytes(m.jobs.filter(crate::trainer_core::pending()).len() as u32)
        + le_u32_bytes(m.next_seq)
}

fn write_subsystem(out: &mut [u8], o: usize, s: &Subsystem)
    requires
        o + 12 <= old(out)@.len(),
    ensures
        final(out)@ == put_bytes(old(out)@, o as int, subsystem_bytes(*s)),
{
    let ghost start = out@;
    out[o] = encode_state(s.state);
    out[o + 1] = s.policy.cpu_budget;
    out[o + 2] = s.policy.io_budget;
    out[o + 3] = s.policy.schedule;
    put_u32(out, o + 4, s.completed);
    put_u32(out, o + 8, s.failed);
    assert(out@ =~= put_bytes(start, o as int, subsystem_bytes(*s)));
}

pub fn status(core: &TrainerCore) -> (r: [u8; 56])
    requires
        core@.wf(),
    ensures
        r@ == status_bytes(core@),
{
    let mut out = [0u8; 56];
    let subsystems = core.subsystems();
    write_subsystem(&mut out, 0, &subsystems[0]);
    write_subsystem(&mut out, 12, &subsystems[1]);
    write_subsystem(&mut out, 24, &subsystems[2]);
    write_subsystem(&mut out, 36, &subsystems[3]);
    let pending = core.pending_count();
    proof {
        core@.jobs.lemma_filter_len(crate::trainer_core::pending());
    }
    put_u32(&mut out, 48, pending as u32);
    put_u32(&mut out, 52, core.next_seq());
    assert(out@ =~= status_bytes(core@));
    out
}

/// The batch file of a job: the trainer's index or hydrate prefix, then the
/// owner in sixteen lowercase hex digits.
pub open spec fn batch_prefix(mode: JobType) -> Seq<u8> {
    if mode == JobType::Index {
        seq![0x2fu8, 0x70, 0x65, 0x72, 0x73, 0x69, 0x73, 0x74, 0x2f, 0x74, 0x72, 0x61, 0x69, 0x6e, 0x65, 0x72, 0x64,
            0x2e, 0x69, 0x6e, 0x64, 0x65, 0x78, 0x2e]
    } else {
        seq![0x2fu8, 0x70, 0x65, 0x72, 0x73, 0x69, 0x73, 0x74, 0x2f, 0x74, 0x72, 0x61, 0x69, 0x6e, 0x65, 0x72, 0x64,
            0x2e, 0x68, 0x79, 0x64, 0x72, 0x61, 0x74, 0x65, 0x2e]
    }
}

/// The lowercase hex digit of a nibble.
pub open spec fn hex_digit(nibble: u64) -> u8 {
    if nibble < 10 {
        (0x30 + nibble) as u8
    } else {
        (0x61 + nibble - 10) as u8
    }
}

/// The hex digit at position `i` (most significant first) of `v`.
pub open spec fn hex_at(v: u64, i: int) -> u8 {
    hex_digit((v >> ((15 - i) * 4) as u64) & 0xf)
}

pub open spec fn batch_path_bytes(mode: JobType, owner: u64) -> Seq<u8> {
    batch_prefix(mode) + Seq::new(16, |i: int| hex_at(owner, i))
}

/// The path of a job's batch file and its length.
pub fn batch_path(mode: JobType, owner: u64) -> (r: ([u8; 48], usize))
    ensures
        r.1 <= 48,
        r.0@.subrange(0, r.1 as int) == batch_path_bytes(mode, owner),
{
    let index_prefix: [u8; 24] = [
        0x2f, 0x70, 0x65, 0x72, 0x73, 0x69, 0x73, 0x74, 0x2f, 0x74, 0x72, 0x61, 0x69, 0x6e, 0x65, 0x72, 0x64, 0x2e,
        0x69, 0x6e, 0x64, 0x65, 0x78, 0x2e,
    ];
    let hydrate_prefix: [u8; 26] = [
        0x2f, 0x70, 0x65, 0x72, 0x73, 0x69, 0x73, 0x74, 0x2f, 0x74, 0x72, 0x61, 0x69, 0x6e, 0x65, 0x72, 0x64, 0x2e,
        0x68, 0x79, 0x64, 0x72, 0x61, 0x74, 0x65, 0x2e,
    ];
    let prefix: &[u8] = if mode == JobType::Index { index_prefix.as_slice() } else { hydrate_prefix.as_slice() };
    assert(prefix@ =~= batch_prefix(mode));
    let mut out = [0u8; 48];
    let mut i: usize = 0;
    while i < prefix.len()
        invariant
            i <= prefix.len() <= 26,
            prefix@ == batch_prefix(mode),
            forall|k: int| 0 <= k < i ==> out@[k] == prefix@[k],
        decreases prefix.len() - i,
    {
        out[i] = prefix[i];
        i += 1;
    }
    let base = prefix.len();
    let mut d: usize = 0;
    while d < 16
        invariant
            d <= 16,
            base == prefix@.len() <= 26,
            prefix@ == batch_prefix(mode),
            forall|k: int| 0 <= k < base ==> out@[k] == prefix@[k],
            forall|k: int| 0 <= k < d ==> out@[base + k] == hex_at(owner, k),
        decreases 16 - d,
    {
        let shift = ((15 - d) * 4) as u64;
        let nibble = (owner >> shift) & 0xf;
        assert(nibble < 16) by (bit_vector)
            requires nibble == (owner >> shift) & 0xf;
        out[base + d] = if nibble < 10 { (0x30 + nibble) as u8 } else { (0x61 + nibble - 10) as u8 };
        d += 1;
    }
    assert(out@.subrange(0, (base + 16) as int) =~= batch_path_bytes(mode, owner));
    (out, base + 16)
}

// ---------------------------------------------------------------------------
// The durable snapshot
// ---------------------------------------------------------------------------

/// The 56-byte record of a job.
pub open spec fn job_bytes(j: Job) -> Seq<u8> {
    seq![if j.occupied { 1u8 } else { 0u8 }, job_type_index(j.kind) as u8, j.priority, state_code(j.state), j.progress]
        + zeros(3) + le_u32_bytes(j.seq) + le_u32_bytes(j.requester) + le_u64_bytes(j.target) + le_u64_bytes(
        j.submitted_at,
    ) + le_u64_bytes(j.started_at) + le_u64_bytes(j.completed_at) + le_u32_bytes(j.verifier as u32) + zeros(4)
}

/// The snapshot header: "TRN2", sequence numbers and the clock.
pub open spec fn trainer_header_bytes(m: TrainerModel, clock: u64) -> Seq<u8> {
    seq![0x54u8, 0x52, 0x4e, 0x32] + le_u32_bytes(m.next_seq) + le_u32_bytes(m.running_seq) + zeros(4) + le_u64_bytes(
        clock,
    ) + zeros(8)
}

pub open spec fn trainer_snapshot_byte(m: TrainerModel, clock: u64, k: int) -> u8 {
    if k < SUBSYSTEMS_OFFSET {
        trainer_header_bytes(m, clock)[k]
    } else if k < JOBS_OFFSET {
        (subsystem_bytes(m.subsystems[(k - 32) / 16]) + zeros(4))[(k - 32) % 16]
    } else {
        job_bytes(m.jobs[(k - 96) / 56])[(k - 96) % 56]
    }
}

pub open spec fn trainer_snapshot_bytes(m: TrainerModel, clock: u64) -> Seq<u8> {
    Seq::new(TRAINER_SNAPSHOT_CAP as nat, |k: int| trainer_snapshot_byte(m, clock, k))
}

/// The job a record at `o` holds, when its kind is a known one.
pub open spec fn job_at(s: Seq<u8>, o: int) -> Option<Job> {
    match job_type_of(s[o + 1]) {
        None => None,
        Some(kind) => Some(
            Job {
                occupied: s[o] != 0,
                kind,
                priority: s[o + 2],
                state: state_of(s[o + 3]),
                progress: s[o + 4],
                seq: le_u32_at(s, o + 8),
                requester: le_u32_at(s, o + 12),
                target: le_u64_at(s, o + 16),
                submitted_at: le_u64_at(s, o + 24),
                started_at: le_u64_at(s, o + 32),
                completed_at: le_u64_at(s, o + 40),
                verifier: le_u32_at(s, o + 48) as i32,
            },
        ),
    }
}

pub open spec fn subsystem_at(s: Seq<u8>, o: int) -> Subsystem {
    Subsystem {
        state: state_of(s[o]),
        policy: ResourcePolicy { cpu_budget: s[o + 1], io_budget: s[o + 2], schedule: s[o + 3] },
        completed: le_u32_at(s, o + 4),
        failed: le_u32_at(s, o + 8),
    }
}

/// Whether every job record of a snapshot names a known kind.
pub open spec fn jobs_readable(s: Seq<u8>) -> bool {
    forall|i: int| 0 <= i < MAX_JOBS ==> #[trigger] job_at(s, 96 + i * 56) is Some
}

pub open spec fn trainer_magic(s: Seq<u8>) -> bool {
    s[0] == 0x54 && s[1] == 0x52 && s[2] == 0x4e && s[3] == 0x32
}

/// What a snapshot holds: jobs, subsystems, sequence numbers, clock.
pub open spec fn trainer_decode_spec(s: Seq<u8>) -> (Seq<Job>, Seq<Subsystem>, u32, u32, u64) {
    (
        Seq::new(MAX_JOBS as nat, |i: int| job_at(s, 96 + i * 56).unwrap()),
        Seq::new(SUBSYSTEM_COUNT as nat, |i: int| subsystem_at(s, 32 + i * 16)),
        le_u32_at(s, 4),
        le_u32_at(s, 8),
        le_u64_at(s, 16),
    )
}

proof fn lemma_u64_field(s: Seq<u8>, o: int, v: u64)
    requires
        0 <= o,
        o + 8 <= s.len(),
        forall|c: int| 0 <= c < 8 ==> #[trigger] s[o + c] == le_u64_bytes(v)[c],
    ensures
        le_u64_at(s, o) == v,
{
    lemma_le_u64_at_eq(s, o, le_u64_bytes(v));
    lemma_le_u64_roundtrip(v);
}

proof fn lemma_u32_field(s: Seq<u8>, o: int, v: u32)
    requires
        0 <= o,
        o + 4 <= s.len(),
        forall|c: int| 0 <= c < 4 ==> #[trigger] s[o + c] == le_u32_bytes(v)[c],
    ensures
        le_u32_at(s, o) == v,
{
    lemma_le_u32_at_eq(s, o, le_u32_bytes(v));
    lemma_le_u32_roundtrip(v);
}

proof fn lemma_state_roundtrip(state: JobState)
    ensures
        state_of(state_code(state)) == state,
{
}

proof fn lemma_job_at(s: Seq<u8>, o: int, j: Job)
    requires
        0 <= o,
        o + 56 <= s.len(),
        forall|c: int| 0 <= c < 56 ==> #[trigger] s[o + c] == job_bytes(j)[c],
    ensures
        job_at(s, o) == Some(j),
{
    let r = job_bytes(j);
    assert forall|c: int| 0 <= c < 4 implies #[trigger] s[o + 8 + c] == le_u32_bytes(j.seq)[c] by {
        assert(s[o + (8 + c)] == r[8 + c]);
    }
    lemma_u32_field(s, o + 8, j.seq);
    assert forall|c: int| 0 <= c < 4 implies #[trigger] s[o + 12 + c] == le_u32_bytes(j.requester)[c] by {
        assert(s[o + (12 + c)] == r[12 + c]);
    }
    lemma_u32_field(s, o + 12, j.requester);
    assert forall|c: int| 0 <= c < 8 implies #[trigger] s[o + 16 + c] == le_u64_bytes(j.target)[c] by {
        assert(s[o + (16 + c)] == r[16 + c]);
    }
    lemma_u64_field(s, o + 16, j.target);
    assert forall|c: int| 0 <= c < 8 implies #[trigger] s[o + 24 + c] == le_u64_bytes(j.submitted_at)[c] by {
        assert(s[o + (24 + c)] == r[24 + c]);
    }
    lemma_u64_field(s, o + 24, j.submitted_at);
    assert forall|c: int| 0 <= c < 8 implies #[trigger] s[o + 32 + c] == le_u64_bytes(j.started_at)[c] by {
        assert(s[o + (32 + c)] == r[32 + c]);
    }
    lemma_u64_field(s, o + 32, j.started_at);
    assert forall|c: int| 0 <= c < 8 implies #[trigger] s[o + 40 + c] == le_u64_bytes(j.completed_at)[c] by {
        assert(s[o + (40 + c)] == r[40 + c]);
    }
    lemma_u64_field(s, o + 40, j.completed_at);
    assert forall|c: int| 0 <= c < 4 implies #[trigger] s[o + 48 + c] == le_u32_bytes(j.verifier as u32)[c] by {
        assert(s[o + (48 + c)] == r[48 + c]);
    }
    lemma_u32_field(s, o + 48, j.verifier as u32);
    crate::bytes::lemma_i32_bits_roundtrip(j.verifier);
    assert(s[o + 0] == r[0]);
    assert(s[o + 1] == r[1]);
    assert(s[o + 2] == r[2]);
    assert(s[o + 3] == r[3]);
    assert(s[o + 4] == r[4]);
    lemma_state_roundtrip(j.state);
}

proof fn lemma_subsystem_at(s: Seq<u8>, o: int, sub: Subsystem)
    requires
        0 <= o,
        o + 16 <= s.len(),
        forall|c: int| 0 <= c < 16 ==> #[trigger] s[o + c] == (subsystem_bytes(sub) + zeros(4))[c],
    ensures
        subsystem_at(s, o) == sub,
{
    let r = subsystem_bytes(sub) + zeros(4);
    assert forall|c: int| 0 <= c < 4 implies #[trigger] s[o + 4 + c] == le_u32_bytes(sub.completed)[c] by {
        assert(s[o + (4 + c)] == r[4 + c]);
    }
    lemma_u32_field(s, o + 4, sub.completed);
    assert forall|c: int| 0 <= c < 4 implies #[trigger] s[o + 8 + c] == le_u32_bytes(sub.failed)[c] by {
        assert(s[o + (8 + c)] == r[8 + c]);
    }
    lemma_u32_field(s, o + 8, sub.failed);
    assert(s[o + 0] == r[0]);
    assert(s[o + 1] == r[1]);
    assert(s[o + 2] == r[2]);
    assert(s[o + 3] == r[3]);
    lemma_state_roundtrip(sub.state);
}

proof fn lemma_slot(base: int, size: int, i: int, k: int)
    requires
        0 <= i,
        0 < size,
        base + i * size <= k < base + i * size + size,
    ensures
        (k - base) / size == i,
        (k - base) % size == k - base - i * size,
{
    assert((k - base) / size == i && (k - base) % size == k - base - i * size) by (nonlinear_arith)
        requires
            0 <= i,
            0 < size,
            base + i * size <= k < base + i * size + size,
    ;
}

proof fn lemma_job_roundtrip(m: TrainerModel, clock: u64, i: int)
    requires
        m.wf(),
        0 <= i < MAX_JOBS,
    ensures
        job_at(trainer_snapshot_bytes(m, clock), 96 + i * 56) == Some(m.jobs[i]),
{
    let s = trainer_snapshot_bytes(m, clock);
    let o = 96 + i * 56;
    assert(o + 56 <= TRAINER_SNAPSHOT_CAP && o >= JOBS_OFFSET) by (nonlinear_arith)
        requires
            0 <= i < 32,
            o == 96 + i * 56,
    ;
    assert forall|c: int| 0 <= c < 56 implies #[trigger] s[o + c] == job_bytes(m.jobs[i])[c] by {
        lemma_slot(96, 56, i, o + c);
    }
    lemma_job_at(s, o, m.jobs[i]);
}

proof fn lemma_subsystem_roundtrip(m: TrainerModel, clock: u64, i: int)
    requires
        m.wf(),
        0 <= i < SUBSYSTEM_COUNT,
    ensures
        subsystem_at(trainer_snapshot_bytes(m, clock), 32 + i * 16) == m.subsystems[i],
{
    let s = trainer_snapshot_bytes(m, clock);
    let o = 32 + i * 16;
    assert forall|c: int| 0 <= c < 16 implies #[trigger] s[o + c] == (subsystem_bytes(m.subsystems[i]) + zeros(4))[c] by {
        lemma_slot(32, 16, i, o + c);
    }
    lemma_subsystem_at(s, o, m.subsystems[i]);
}

/// The trainer's jobs, subsystems, sequence numbers and clock read back
/// from its snapshot are what was written.
pub proof fn lemma_trainer_snapshot_roundtrip(m: TrainerModel, clock: u64)
    requires
        m.wf(),
    ensures
        trainer_magic(trainer_snapshot_bytes(m, clock)),
        jobs_readable(trainer_snapshot_bytes(m, clock)),
        trainer_decode_spec(trainer_snapshot_bytes(m, clock)) == (m.jobs, m.subsystems, m.next_seq, m.running_seq, clock),
{
    let s = trainer_snapshot_bytes(m, clock);
    let h = trainer_header_bytes(m, clock);
    assert forall|c: int| 0 <= c < 4 implies #[trigger] s[4 + c] == le_u32_bytes(m.next_seq)[c] by {
        assert(s[4 + c] == h[4 + c]);
    }
    lemma_u32_field(s, 4, m.next_seq);
    assert forall|c: int| 0 <= c < 4 implies #[trigger] s[8 + c] == le_u32_bytes(m.running_seq)[c] by {
        assert(s[8 + c] == h[8 + c]);
    }
    lemma_u32_field(s, 8, m.running_seq);
    assert forall|c: int| 0 <= c < 8 implies #[trigger] s[16 + c] == le_u64_bytes(clock)[c] by {
        assert(s[16 + c] == h[16 + c]);
    }
    lemma_u64_field(s, 16, clock);
    assert(s[0] == h[0] && s[1] == h[1] && s[2] == h[2] && s[3] == h[3]);
    assert forall|i: int| 0 <= i < MAX_JOBS implies #[trigger] job_at(s, 96 + i * 56) == Some(m.jobs[i]) by {
        lemma_job_roundtrip(m, clock, i);
    }
    assert forall|i: int| 0 <= i < SUBSYSTEM_COUNT implies #[trigger] subsystem_at(s, 32 + i * 16) == m.subsystems[i] by {
        lemma_subsystem_roundtrip(m, clock, i);
    }
    assert(trainer_decode_spec(s).0 =~= m.jobs);
    assert(trainer_decode_spec(s).1 =~= m.subsystems);
}

pub open spec fn job_head_bytes(j: Job) -> Seq<u8> {
    seq![if j.occupied { 1u8 } else { 0u8 }, job_type_index(j.kind) as u8, j.priority, state_code(j.state), j.progress]
        + zeros(3) + le_u32_bytes(j.seq) + le_u32_bytes(j.requester)
}

pub open spec fn job_tail_bytes(j: Job) -> Seq<u8> {
    le_u64_bytes(j.target) + le_u64_bytes(j.submitted_at) + le_u64_bytes(j.started_at) + le_u64_bytes(j.completed_at)
        + le_u32_bytes(j.verifier as u32) + zeros(4)
}

fn write_job_head(out: &mut [u8], o: usize, j: &Job)
    requires
        o + 16 <= old(out)@.len(),
    ensures
        final(out)@ == put_bytes(old(out)@, o as int, job_head_bytes(*j)),
{
    let ghost start = out@;
    out[o] = if j.occupied { 1 } else { 0 };
    out[o + 1] = kind_code(j.kind);
    out[o + 2] = j.priority;
    out[o + 3] = encode_state(j.state);
    out[o + 4] = j.progress;
    out[o + 5] = 0;
    out[o + 6] = 0;
    out[o + 7] = 0;
    put_u32(out, o + 8, j.seq);
    put_u32(out, o + 12, j.requester);
    assert(out@ =~= put_bytes(start, o as int, job_head_bytes(*j)));
}

fn write_job_tail(out: &mut [u8], o: usize, j: &Job)
    requires
        o + 40 <= old(out)@.len(),
    ensures
        final(out)@ == put_bytes(old(out)@, o as int, job_tail_bytes(*j)),
{
    let ghost start = out@;
    let len = out.len();
    assert(o + 40 <= len);
    put_u64(out, o, j.target);
    put_u64(out, o + 8, j.submitted_at);
    put_u64(out, o + 16, j.started_at);
    put_u64(out, o + 24, j.completed_at);
    put_u32(out, o + 32, j.verifier as u32);
    out[o + 36] = 0;
    out[o + 37] = 0;
    out[o + 38] = 0;
    out[o + 39] = 0;
    assert(out@ =~= put_bytes(start, o as int, job_tail_bytes(*j)));
}

fn write_job(out: &mut [u8], o: usize, j: &Job)
    requires
        o + JOB_RECORD <= old(out)@.len(),
    ensures
        final(out)@ == put_bytes(old(out)@, o as int, job_bytes(*j)),
{
    let ghost start = out@;
    let len = out.len();
    assert(o + 56 <= len);
    write_job_head(out, o, j);
    write_job_tail(out, o + 16, j);
    assert(job_bytes(*j) =~= job_head_bytes(*j) + job_tail_bytes(*j));
    assert(out@ =~= put_bytes(start, o as int, job_bytes(*j)));
}

/// Write the trainer's durable snapshot.
pub fn encode_trainer_snapshot(core: &TrainerCore, clock: u64, out: &mut [u8])
    requires
        core@.wf(),
        old(out)@.len() == TRAINER_SNAPSHOT_CAP,
    ensures
        final(out)@ == trainer_snapshot_bytes(core@, clock),
{
    let ghost m = core@;
    let ghost h = trainer_header_bytes(m, clock);
    let mut k: usize = 0;
    while k < 32
        invariant
            k <= 32,
            out@.len() == TRAINER_SNAPSHOT_CAP,
            forall|j: int| 0 <= j < k ==> #[trigger] out@[j] == 0u8,
        decreases 32 - k,
    {
        out[k] = 0;
        k += 1;
    }
    out[0] = 0x54;
    out[1] = 0x52;
    out[2] = 0x4e;
    out[3] = 0x32;
    put_u32(out, 4, core.next_seq());
    put_u32(out, 8, core.running_seq());
    put_u64(out, 16, clock);
    assert forall|j: int| 0 <= j < 32 implies #[trigger] out@[j] == trainer_snapshot_byte(m, clock, j) by {}
    let subsystems = core.subsystems();
    let mut i: usize = 0;
    while i < SUBSYSTEM_COUNT
        invariant
            i <= SUBSYSTEM_COUNT,
            core@ == m,
            m.wf(),
            subsystems@ == m.subsystems,
            out@.len() == TRAINER_SNAPSHOT_CAP,
            forall|j: int| 0 <= j < 32 + i * 16 ==> #[trigger] out@[j] == trainer_snapshot_byte(m, clock, j),
        decreases SUBSYSTEM_COUNT - i,
    {
        let o = 32 + i * 16;
        write_subsystem(out, o, &subsystems[i]);
        out[o + 12] = 0;
        out[o + 13] = 0;
        out[o + 14] = 0;
        out[o + 15] = 0;
        proof {
            assert forall|j: int| 0 <= j < 32 + (i + 1) * 16 implies #[trigger] out@[j] == trainer_snapshot_byte(
                m,
                clock,
                j,
            ) by {
                if j >= 32 + i * 16 {
                    lemma_slot(32, 16, i as int, j);
                }
            }
        }
        i += 1;
    }
    let jobs = core.jobs();
    let mut i: usize = 0;
    while i < MAX_JOBS
        invariant
            i <= MAX_JOBS,
            core@ == m,
            m.wf(),
            jobs@ == m.jobs,
            out@.len() == TRAINER_SNAPSHOT_CAP,
            forall|j: int| 0 <= j < 96 + i * 56 ==> #[trigger] out@[j] == trainer_snapshot_byte(m, clock, j),
        decreases MAX_JOBS - i,
    {
        write_job(out, 96 + i * 56, &jobs[i]);
        proof {
            assert forall|j: int| 0 <= j < 96 + (i + 1) * 56 implies #[trigger] out@[j] == trainer_snapshot_byte(
                m,
                clock,
                j,
            ) by {
                if j >= 96 + i * 56 {
                    lemma_slot(96, 56, i as int, j);
                }
            }
        }
        i += 1;
    }
    assert(out@ =~= trainer_snapshot_bytes(m, clock));
}

/// Read a trainer snapshot: `None` when it is not of full size, lacks the
/// magic, or names an unknown job kind.
pub fn decode_trainer_snapshot(bytes: &[u8]) -> (r: Option<([Job; MAX_JOBS], [Subsystem; SUBSYSTEM_COUNT], u32, u32, u64)>)
    ensures
        r is Some <==> (bytes@.len() == TRAINER_SNAPSHOT_CAP && trainer_magic(bytes@) && jobs_readable(bytes@)),
        r matches Some((jobs, subsystems, next_seq, running_seq, clock)) ==> (jobs@, subsystems@, next_seq,
            running_seq, clock) == trainer_decode_spec(bytes@),
{
    if bytes.len() != TRAINER_SNAPSHOT_CAP || bytes[0] != 0x54 || bytes[1] != 0x52 || bytes[2] != 0x4e || bytes[3]
        != 0x32 {
        return None;
    }
    let mut subsystems = [crate::trainer_core::empty_subsystem(); SUBSYSTEM_COUNT];
    let mut i: usize = 0;
    while i < SUBSYSTEM_COUNT
        invariant
            i <= SUBSYSTEM_COUNT,
            bytes@.len() == TRAINER_SNAPSHOT_CAP,
            forall|k: int| 0 <= k < i ==> #[trigger] subsystems@[k] == subsystem_at(bytes@, 32 + k * 16),
        decreases SUBSYSTEM_COUNT - i,
    {
        let o = 32 + i * 16;
        subsystems[i] = Subsystem {
            state: decode_state(bytes[o]),
            policy: ResourcePolicy { cpu_budget: bytes[o + 1], io_budget: bytes[o + 2], schedule: bytes[o + 3] },
            completed: get_u32(bytes, o + 4),
            failed: get_u32(bytes, o + 8),
        };
        i += 1;
    }
    let mut jobs = [crate::trainer_core::empty_job(); MAX_JOBS];
    let mut i: usize = 0;
    while i < MAX_JOBS
        invariant
            i <= MAX_JOBS,
            bytes@.len() == TRAINER_SNAPSHOT_CAP,
            forall|k: int| 0 <= k < i ==> #[trigger] job_at(bytes@, 96 + k * 56) == Some(jobs@[k]),
        decreases MAX_JOBS - i,
    {
        let o = 96 + i * 56;
        let kind = match JobType::from_u8(bytes[o + 1]) {
            Some(kind) => kind,
            None => {
                assert(job_at(bytes@, 96 + i * 56) is None);
                return None;
            },
        };
        jobs[i] = Job {
            occupied: bytes[o] != 0,
            kind,
            priority: bytes[o + 2],
            state: decode_state(bytes[o + 3]),
            progress: bytes[o + 4],
            seq: get_u32(bytes, o + 8),
            requester: get_u32(bytes, o + 12),
            target: get_u64(bytes, o + 16),
            submitted_at: get_u64(bytes, o + 24),
            started_at: get_u64(bytes, o + 32),
            completed_at: get_u64(bytes, o + 40),
            verifier: get_u32(bytes, o + 48) as i32,
        };
        i += 1;
    }
    assert(jobs@ =~= trainer_decode_spec(bytes@).0);
    assert(subsystems@ =~= trainer_decode_spec(bytes@).1);
    Some((jobs, subsystems, get_u32(bytes, 4), get_u32(bytes, 8), get_u64(bytes, 16)))
}

// ---------------------------------------------------------------------------
// The service's decisions
// ---------------------------------------------------------------------------

/// A query the trainer asks of the graph service.
#[derive(Clone, Copy, Debug, PartialEq, Eq, Structural)]
pub enum GraphQuery {
    /// The ranked neighbours of an entity.
    Neighbours(u64),
    /// The structural and spectral summary.
    Summary,
}

/// What the service asks its runtime to do, in order.
#[derive(Clone, Copy, Debug, PartialEq, Eq, Structural)]
pub enum TrainerAction {
    /// Write the durable snapshot.
    Persist,
    /// Report a job to its requester and to the observability service.
    Report(Job),
    /// Tell the observability service about a job.
    Event { kind: u8, node: u64, value: u32, clock: u64 },
    /// Ask the graph service to apply a unit of work; when that cannot be
    /// sent, the runtime calls `send_failed`.
    SendWork(GraphWork),
    /// Ask the graph service a query; when that cannot be sent, the runtime
    /// calls `send_failed`.
    SendQuery(GraphQuery),
    /// Read the batch file of a job and hand it to `begin_batch`.
    LoadBatch { mode: JobType, owner: u64 },
}

pub struct ServiceState {
    pub core: TrainerModel,
    pub batch: Option<BatchModel>,
    pub clock: u64,
}

pub struct TrainerService {
    core: TrainerCore,
    batch: Option<BatchExecution>,
    clock: u64,
}

impl View for TrainerService {
    type V = ServiceState;

    closed spec fn view(&self) -> ServiceState {
        ServiceState {
            core: self.core@,
            batch: match self.batch {
                Some(b) => Some(b@),
                None => None,
            },
            clock: self.clock,
        }
    }
}

pub open spec fn tick(clock: u64) -> u64 {
    if clock == u64::MAX {
        u64::MAX
    } else {
        (clock + 1) as u64
    }
}

/// The report of the running job, if any.
pub open spec fn running_report(core: TrainerModel) -> Seq<TrainerAction> {
    match running_job_spec(core) {
        Some(job) => seq![TrainerAction::Report(job)],
        None => Seq::empty(),
    }
}

/// Ending the running job: the clock advances, the scheduler completes the
/// job, and the result is persisted, reported and announced.
pub open spec fn finish_model(s: ServiceState, success: bool, verifier: i32) -> (ServiceState, Seq<TrainerAction>) {
    let now = tick(s.clock);
    let (r, core) = finish_spec(s.core, success, now, verifier);
    let next = ServiceState { core, clock: now, ..s };
    match r {
        Err(_) => (next, Seq::empty()),
        Ok(job) => (
            next,
            seq![
                TrainerAction::Persist,
                TrainerAction::Report(job),
                TrainerAction::Event {
                    kind: if success { 31u8 } else { 0xfeu8 },
                    node: job.target,
                    value: job.seq,
                    clock: now,
                },
            ],
        ),
    }
}

/// The request that starts the work a claim hands out.
pub open spec fn action_request(action: WorkerAction) -> TrainerAction {
    match action {
        WorkerAction::Index { document_node, .. } => TrainerAction::LoadBatch { mode: JobType::Index, owner: document_node },
        WorkerAction::Hydrate { corpus_node, .. } => TrainerAction::LoadBatch { mode: JobType::Hydrate, owner: corpus_node },
        WorkerAction::CorrelateQuery { entity_node, .. } => TrainerAction::SendQuery(GraphQuery::Neighbours(entity_node)),
        WorkerAction::SpectralRefresh { .. } => TrainerAction::SendQuery(GraphQuery::Summary),
        WorkerAction::CorrelatePromote { job_seq, from, to } => TrainerAction::SendWork(
            GraphWork::AddEdge { kind: 30, weight: 1, from, to, provenance: job_seq as u64 },
        ),
    }
}

/// Trying to start work: the clock advances and the scheduler is asked for
/// a job; a claimed job is persisted, reported, announced and started.
pub open spec fn dispatch_model(s: ServiceState, idle: bool) -> (ServiceState, Seq<TrainerAction>) {
    let now = tick(s.clock);
    let (r, core) = claim_spec(s.core, now, idle);
    let next = ServiceState { core, clock: now, ..s };
    match r {
        Ok(Some(action)) => (
            next,
            seq![TrainerAction::Persist] + match running_job_spec(core) {
                Some(job) => seq![
                    TrainerAction::Report(job),
                    TrainerAction::Event { kind: 32, node: job.target, value: job.seq, clock: now },
                ],
                None => Seq::empty(),
            } + seq![action_request(action)],
        ),
        _ => (next, Seq::empty()),
    }
}

/// Moving a batch on: a finished batch completes its job with its
/// verifier; otherwise its next unit of work is reported and sent; a batch
/// that cannot go on fails its job.
pub open spec fn advance_model(s: ServiceState) -> (ServiceState, Seq<TrainerAction>) {
    match s.batch {
        None => finish_model(s, false, 0),
        Some(b) => if complete_spec(b) {
            finish_model(ServiceState { batch: None, ..s }, true, (b.verifier & 0x7fff_ffff) as i32)
        } else {
            let (r, b1) = next_spec(b);
            match r {
                Ok(Some(work)) => {
                    let p = progress_spec(b1);
                    let core = progress_model(s.core, if p < 10 { 10 } else { p }).1;
                    (
                        ServiceState { core, batch: Some(b1), ..s },
                        seq![TrainerAction::Persist] + running_report(core) + seq![TrainerAction::SendWork(work)],
                    )
                },
                _ => finish_model(ServiceState { batch: None, ..s }, false, 0),
            }
        },
    }
}

/// The batch a valid batch file describes, before any work.
pub open spec fn batch_start_model(bytes: Seq<u8>, owner: u64) -> BatchModel {
    BatchModel {
        owner,
        count: batch_count(bytes) as nat,
        records: batch_records(bytes),
        resolved: Seq::new(MAX_BATCH_RECORDS as nat, |i: int| 0u64),
        node_cursor: 0,
        edge_cursor: 0,
        awaiting: false,
        awaiting_edge: false,
        verifier: FNV_OFFSET,
    }
}

/// Starting a batch from its file (absent when it could not be opened):
/// a missing or invalid file fails the job.
pub open spec fn begin_batch_model(s: ServiceState, file: Option<Seq<u8>>, mode: JobType, owner: u64) -> (
    ServiceState,
    Seq<TrainerAction>,
) {
    match file {
        None => finish_model(s, false, 0),
        Some(bytes) => {
            let b = bytes.subrange(0, if bytes.len() < MAX_BATCH_SIZE { bytes.len() as int } else { MAX_BATCH_SIZE as int });
            if batch_decode_error(b, owner, mode) is Some {
                finish_model(s, false, 0)
            } else {
                advance_model(ServiceState { batch: Some(batch_start_model(b, owner)), ..s })
            }
        },
    }
}

/// Handling a query answer from the graph service for the running job.
pub open spec fn graph_result_model(s: ServiceState, payload: Seq<u8>) -> (ServiceState, Seq<TrainerAction>) {
    match running_job_spec(s.core) {
        None => (s, Seq::empty()),
        Some(job) => if job.kind == JobType::Correlate {
            match correlation_peer_spec(payload, job.target) {
                None => finish_model(s, false, 0),
                Some(peer) => {
                    let (r, core) = correlate_spec(s.core, peer);
                    match r {
                        Ok(WorkerAction::CorrelatePromote { job_seq, from, to }) => (
                            ServiceState { core, ..s },
                            seq![TrainerAction::Persist] + running_report(core) + seq![
                                TrainerAction::SendWork(
                                    GraphWork::AddEdge { kind: 30, weight: 1, from, to, provenance: job_seq as u64 },
                                ),
                            ],
                        ),
                        Ok(_) => (ServiceState { core, ..s }, Seq::empty()),
                        Err(_) => finish_model(ServiceState { core, ..s }, false, 0),
                    }
                },
            }
        } else if job.kind == JobType::Spectral {
            match spectral_verifier_spec(payload) {
                None => finish_model(s, false, 0),
                Some(v) => finish_model(s, true, v),
            }
        } else {
            finish_model(s, false, 0)
        },
    }
}

/// Handling a mutation acknowledgement from the graph service.
pub open spec fn graph_ack_model(s: ServiceState, payload: Seq<u8>) -> (ServiceState, Seq<TrainerAction>) {
    match ack_spec(payload) {
        None => finish_model(ServiceState { batch: None, ..s }, false, 0),
        Some((generation, object_id)) => match s.batch {
            Some(b) => {
                let (r, b1) = acknowledge_spec(b, object_id, generation);
                match r {
                    Ok(()) => advance_model(ServiceState { batch: Some(b1), ..s }),
                    Err(_) => finish_model(ServiceState { batch: None, ..s }, false, 0),
                }
            },
            None => finish_model(s, true, (generation & 0x7fff_ffff) as i32),
        },
    }
}

impl TrainerService {
    pub closed spec fn wf(&self) -> bool {
        &&& self.core@.wf()
        &&& self.batch matches Some(b) ==> b.wf()
    }

    /// No jobs, no batch, the clock at zero.
    pub fn new() -> (r: Self)
        ensures
            r.wf(),
            r@.batch is None,
            r@.clock == 0,
    {
        TrainerService { core: TrainerCore::new(), batch: None, clock: 0 }
    }

    /// The scheduler, to inspect or persist.
    pub fn scheduler(&self) -> (r: &TrainerCore)
        ensures
            r@ == self@.core,
    {
        &self.core
    }

    pub fn clock(&self) -> (r: u64)
        ensures
            r == self@.clock,
    {
        self.clock
    }

    fn now(&mut self) -> (r: u64)
        requires
            old(self).wf(),
        ensures
            final(self).wf(),
            r == tick(old(self)@.clock),
            final(self)@ == (ServiceState { clock: r, ..old(self)@ }),
    {
        self.clock = self.clock.saturating_add(1);
        self.clock
    }

    fn report_running(&self, actions: &mut Vec<TrainerAction>)
        ensures
            final(actions)@ == old(actions)@ + running_report(self@.core),
    {
        if let Some(job) = self.core.running_job() {
            actions.push(TrainerAction::Report(job));
        } else {
            assert(old(actions)@ + running_report(self@.core) =~= old(actions)@);
        }
    }

    /// End the running job.
    pub fn finish(&mut self, success: bool, verifier: i32) -> (r: Vec<TrainerAction>)
        requires
            old(self).wf(),
        ensures
            final(self).wf(),
            (final(self)@, r@) == finish_model(old(self)@, success, verifier),
    {
        let now = self.now();
        let mut actions: Vec<TrainerAction> = Vec::new();
        match self.core.complete(success, now, verifier) {
            Ok(job) => {
                actions.push(TrainerAction::Persist);
                actions.push(TrainerAction::Report(job));
                actions.push(
                    TrainerAction::Event { kind: if success { 31 } else { 0xfe }, node: job.target, value: job.seq, clock: now },
                );
            },
            Err(_) => {},
        }
        actions
    }

    /// Try to claim and start a job.
    pub fn dispatch(&mut self, idle: bool) -> (r: Vec<TrainerAction>)
        requires
            old(self).wf(),
        ensures
            final(self).wf(),
            (final(self)@, r@) == dispatch_model(old(self)@, idle),
    {
        let now = self.now();
        let mut actions: Vec<TrainerAction> = Vec::new();
        let claimed = self.core.claim_next_with_context(now, idle);
        let action = match claimed {
            Ok(Some(action)) => action,
            _ => return actions,
        };
        actions.push(TrainerAction::Persist);
        if let Some(job) = self.core.running_job() {
            actions.push(TrainerAction::Report(job));
            actions.push(TrainerAction::Event { kind: 32, node: job.target, value: job.seq, clock: now });
        }
        let request = match action {
            WorkerAction::Index { document_node, .. } => TrainerAction::LoadBatch { mode: JobType::Index, owner: document_node },
            WorkerAction::Hydrate { corpus_node, .. } => TrainerAction::LoadBatch { mode: JobType::Hydrate, owner: corpus_node },
            WorkerAction::CorrelateQuery { entity_node, .. } => TrainerAction::SendQuery(GraphQuery::Neighbours(entity_node)),
            WorkerAction::SpectralRefresh { .. } => TrainerAction::SendQuery(GraphQuery::Summary),
            WorkerAction::CorrelatePromote { job_seq, from, to } => TrainerAction::SendWork(
                GraphWork::AddEdge { kind: 30, weight: 1, from, to, provenance: job_seq as u64 },
            ),
        };
        actions.push(request);
        proof {
            let head = seq![TrainerAction::Persist] + match running_job_spec(self@.core) {
                Some(job) => seq![
                    TrainerAction::Report(job),
                    TrainerAction::Event { kind: 32, node: job.target, value: job.seq, clock: now },
                ],
                None => Seq::empty(),
            };
            assert(actions@ =~= head + seq![action_request(action)]);
            self.core.lemma_wf();
        }
        actions
    }

    /// Move the batch on by one unit of work.
    pub fn advance_batch(&mut self) -> (r: Vec<TrainerAction>)
        requires
            old(self).wf(),
        ensures
            final(self).wf(),
            (final(self)@, r@) == advance_model(old(self)@),
    {
        let taken = self.batch.take();
        let mut batch = match taken {
            None => return self.finish(false, 0),
            Some(b) => b,
        };
        if batch.is_complete() {
            let verifier = batch.verifier_code();
            return self.finish(true, verifier);
        }
        match batch.next() {
            Ok(Some(work)) => {
                let p = batch.progress();
                let _ = self.core.set_progress(if p < 10 { 10 } else { p });
                self.batch = Some(batch);
                let mut actions: Vec<TrainerAction> = Vec::new();
                actions.push(TrainerAction::Persist);
                self.report_running(&mut actions);
                actions.push(TrainerAction::SendWork(work));
                actions
            },
            _ => self.finish(false, 0),
        }
    }

    /// Start a batch from its file, `None` when the file could not be opened.
    pub fn begin_batch(&mut self, file: Option<&[u8]>, mode: JobType, owner: u64) -> (r: Vec<TrainerAction>)
        requires
            old(self).wf(),
        ensures
            final(self).wf(),
            (final(self)@, r@) == begin_batch_model(
                old(self)@,
                match file {
                    Some(b) => Some(b@),
                    None => None,
                },
                mode,
                owner,
            ),
    {
        let bytes = match file {
            None => return self.finish(false, 0),
            Some(b) => b,
        };
        let end = if bytes.len() < MAX_BATCH_SIZE { bytes.len() } else { MAX_BATCH_SIZE };
        let slice = &bytes[0..end];
        match decode_batch(slice, owner, mode) {
            Err(_) => self.finish(false, 0),
            Ok(batch) => {
                let execution = BatchExecution::new(batch);
                assert(execution@ == batch_start_model(slice@, owner));
                self.batch = Some(execution);
                self.advance_batch()
            },
        }
    }

    /// Handle a query answer from the graph service.
    pub fn handle_graph_result(&mut self, payload: &[u8]) -> (r: Vec<TrainerAction>)
        requires
            old(self).wf(),
            running_job_spec(old(self)@.core) matches Some(job) && job.kind == JobType::Spectral ==> payload@.len() < 40
                || payload@.len() >= 56,
        ensures
            final(self).wf(),
            (final(self)@, r@) == graph_result_model(old(self)@, payload@),
    {
        let job = match self.core.running_job() {
            None => return Vec::new(),
            Some(job) => job,
        };
        if job.kind == JobType::Correlate {
            let peer = match correlation_peer(payload, job.target) {
                None => return self.finish(false, 0),
                Some(peer) => peer,
            };
            let candidate = self.core.correlation_candidate(peer);
            match candidate {
                Ok(WorkerAction::CorrelatePromote { job_seq, from, to }) => {
                    let mut actions: Vec<TrainerAction> = Vec::new();
                    actions.push(TrainerAction::Persist);
                    self.report_running(&mut actions);
                    actions.push(
                        TrainerAction::SendWork(
                            GraphWork::AddEdge { kind: 30, weight: 1, from, to, provenance: job_seq as u64 },
                        ),
                    );
                    actions
                },
                Ok(_) => Vec::new(),
                Err(_) => self.finish(false, 0),
            }
        } else if job.kind == JobType::Spectral {
            match spectral_verifier(payload) {
                None => self.finish(false, 0),
                Some(v) => self.finish(true, v),
            }
        } else {
            self.finish(false, 0)
        }
    }

    /// Handle a mutation acknowledgement from the graph service.
    pub fn handle_graph_ack(&mut self, payload: &[u8]) -> (r: Vec<TrainerAction>)
        requires
            old(self).wf(),
        ensures
            final(self).wf(),
            (final(self)@, r@) == graph_ack_model(old(self)@, payload@),
    {
        match graph_ack(payload) {
            None => {
                self.batch = None;
                self.finish(false, 0)
            },
            Some((generation, object_id)) => {
                let taken = self.batch.take();
                match taken {
                    Some(mut batch) => match batch.acknowledge(object_id, generation) {
                        Ok(()) => {
                            self.batch = Some(batch);
                            self.advance_batch()
                        },
                        Err(_) => self.finish(false, 0),
                    },
                    None => {
                        assert(generation & 0x7fff_ffff <= 0x7fff_ffff) by (bit_vector);
                        self.finish(true, (generation & 0x7fff_ffff) as i32)
                    },
                }
            },
        }
    }

    /// A request to the graph service could not be sent: the batch, if
    /// any, is dropped and the running job fails.
    pub fn send_failed(&mut self) -> (r: Vec<TrainerAction>)
        requires
            old(self).wf(),
        ensures
            final(self).wf(),
            (final(self)@, r@) == finish_model(ServiceState { batch: None, ..old(self)@ }, false, 0),
    {
        self.batch = None;
        self.finish(false, 0)
    }

    /// Handle a submission request from `requester`.
    pub fn submit(&mut self, payload: &[u8], requester: u32) -> (r: Result<u32, u8>)
        requires
            old(self).wf(),
        ensures
            final(self).wf(),
            (r, final(self)@.core) == submit_request_model(old(self)@.core, payload@, requester),
            final(self)@.batch == old(self)@.batch,
            final(self)@.clock == old(self)@.clock,
    {
        let r = submit_request(&mut self.core, payload, requester);
        r
    }

    /// Handle a control request; a pause of the running kind drops its batch.
    pub fn control(&mut self, payload: &[u8]) -> (r: bool)
        requires
            old(self).wf(),
        ensures
            final(self).wf(),
            ({
                let (outcome, core) = control_request_model(old(self)@.core, payload@);
                &&& r == outcome.controlled
                &&& final(self)@.core == core
                &&& final(self)@.batch == (if outcome.interrupted { None } else { old(self)@.batch })
                &&& final(self)@.clock == old(self)@.clock
            }),
    {
        let outcome = control_request(&mut self.core, payload);
        if outcome.interrupted {
            self.batch = None;
        }
        outcome.controlled
    }

    /// Take the state of a snapshot; false, changing nothing, for one that
    /// does not read back.
    pub fn restore(&mut self, bytes: &[u8]) -> (r: bool)
        requires
            old(self).wf(),
        ensures
            final(self).wf(),
            r == (bytes@.len() == TRAINER_SNAPSHOT_CAP && trainer_magic(bytes@) && jobs_readable(bytes@)),
            !r ==> final(self)@ == old(self)@,
            r ==> ({
                let (jobs, subsystems, next_seq, running_seq, clock) = trainer_decode_spec(bytes@);
                &&& final(self)@.core == crate::trainer_core::restore_model(jobs, subsystems, next_seq, running_seq)
                &&& final(self)@.clock == clock
                &&& final(self)@.batch == old(self)@.batch
            }),
    {
        match decode_trainer_snapshot(bytes) {
            None => false,
            Some((jobs, subsystems, next_seq, running_seq, clock)) => {
                self.core.restore(jobs, subsystems, next_seq, running_seq);
                self.clock = clock;
                true
            },
        }
    }
}

} // verus!
