//! Bounded, acknowledgement-driven work scheduler shared by the protected
//! trainer service and its host harness: a fixed job table, per-subsystem
//! resource policy, one running job at a time, and batch imports that only
//! refer to graph identifiers the graph service has acknowledged.

use vstd::prelude::*;
use crate::search::{first_index, is_first, lemma_first_found, lemma_first_none, lemma_first_none_all, lemma_filter_step};
use crate::bytes::{le_u16_at, le_u64_at, le_u32_at, le_u64_bytes, get_u16, get_u32, get_u64};

verus! {

pub const MAX_JOBS: usize = 32;
pub const SUBSYSTEM_COUNT: usize = 4;
pub const MAX_BATCH_RECORDS: usize = 16;
pub const BATCH_HEADER_SIZE: usize = 32;
pub const BATCH_RECORD_SIZE: usize = 40;
pub const MAX_BATCH_SIZE: usize = BATCH_HEADER_SIZE + MAX_BATCH_RECORDS * BATCH_RECORD_SIZE;

/// Worker kinds, numbered 0 to 3 in declaration order on the wire.
#[derive(Clone, Copy, Debug, PartialEq, Eq, Structural)]
pub enum JobType {
    Index,
    Correlate,
    Spectral,
    Hydrate,
}

pub open spec fn job_type_of(value: u8) -> Option<JobType> {
    if value == 0 {
        Some(JobType::Index)
    } else if value == 1 {
        Some(JobType::Correlate)
    } else if value == 2 {
        Some(JobType::Spectral)
    } else if value == 3 {
        Some(JobType::Hydrate)
    } else {
        None
    }
}

pub open spec fn job_type_index(kind: JobType) -> nat {
    match kind {
        JobType::Index => 0,
        JobType::Correlate => 1,
        JobType::Spectral => 2,
        JobType::Hydrate => 3,
    }
}

impl JobType {
    /// The kind with wire number `value`, if any.
    pub fn from_u8(value: u8) -> (r: Option<JobType>)
        ensures
            r == job_type_of(value),
    {
        match value {
            0 => Some(JobType::Index),
            1 => Some(JobType::Correlate),
            2 => Some(JobType::Spectral),
            3 => Some(JobType::Hydrate),
            _ => None,
        }
    }

    /// The wire number of this kind, also its subsystem slot.
    pub fn index(self) -> (r: usize)
        ensures
            r == job_type_index(self),
            r < SUBSYSTEM_COUNT,
    {
        match self {
            JobType::Index => 0,
            JobType::Correlate => 1,
            JobType::Spectral => 2,
            JobType::Hydrate => 3,
        }
    }
}

/// Job lifecycle states, numbered 0 to 4 in declaration order on the wire.
#[derive(Clone, Copy, Debug, PartialEq, Eq, Structural)]
pub enum JobState {
    Pending,
    Running,
    Paused,
    Completed,
    Failed,
}

/// Budgets Low=0/Medium=1/High=2; schedule 0 runs only when idle, 1 always.
#[derive(Clone, Copy, Debug, PartialEq, Eq, Structural)]
pub struct ResourcePolicy {
    pub cpu_budget: u8,
    pub io_budget: u8,
    pub schedule: u8,
}

pub open spec fn default_policy_spec() -> ResourcePolicy {
    ResourcePolicy { cpu_budget: 2, io_budget: 2, schedule: 0 }
}

/// High CPU and I/O budgets, idle-only schedule.
#[verifier::when_used_as_spec(default_policy_spec)]
pub fn default_policy() -> (r: ResourcePolicy)
    ensures
        r == default_policy_spec(),
{
    ResourcePolicy { cpu_budget: 2, io_budget: 2, schedule: 0 }
}

#[derive(Clone, Copy, Debug, PartialEq, Eq, Structural)]
pub struct Job {
    pub seq: u32,
    pub kind: JobType,
    pub priority: u8,
    pub state: JobState,
    pub progress: u8,
    pub target: u64,
    pub submitted_at: u64,
    pub started_at: u64,
    pub completed_at: u64,
    pub requester: u32,
    pub verifier: i32,
    pub occupied: bool,
}

pub open spec fn empty_job_spec() -> Job {
    Job {
        seq: 0,
        kind: JobType::Index,
        priority: 0,
        state: JobState::Pending,
        progress: 0,
        target: 0,
        submitted_at: 0,
        started_at: 0,
        completed_at: 0,
        requester: 0,
        verifier: 0,
        occupied: false,
    }
}

/// An unoccupied job slot.
#[verifier::when_used_as_spec(empty_job_spec)]
pub fn empty_job() -> (r: Job)
    ensures
        r == empty_job_spec(),
{
    Job {
        seq: 0,
        kind: JobType::Index,
        priority: 0,
        state: JobState::Pending,
        progress: 0,
        target: 0,
        submitted_at: 0,
        started_at: 0,
        completed_at: 0,
        requester: 0,
        verifier: 0,
        occupied: false,
    }
}

#[derive(Clone, Copy, Debug, PartialEq, Eq, Structural)]
pub struct Subsystem {
    pub state: JobState,
    pub completed: u32,
    pub failed: u32,
    pub policy: ResourcePolicy,
}

pub open spec fn empty_subsystem_spec() -> Subsystem {
    Subsystem { state: JobState::Pending, completed: 0, failed: 0, policy: default_policy_spec() }
}

/// A subsystem that has run nothing, under the default policy.
#[verifier::when_used_as_spec(empty_subsystem_spec)]
pub fn empty_subsystem() -> (r: Subsystem)
    ensures
        r == empty_subsystem_spec(),
{
    Subsystem { state: JobState::Pending, completed: 0, failed: 0, policy: default_policy() }
}

#[derive(Clone, Copy, Debug, PartialEq, Eq, Structural)]
pub enum WorkerAction {
    Index { job_seq: u32, document_node: u64 },
    CorrelateQuery { job_seq: u32, entity_node: u64 },
    CorrelatePromote { job_seq: u32, from: u64, to: u64 },
    SpectralRefresh { job_seq: u32 },
    Hydrate { job_seq: u32, corpus_node: u64 },
}

#[derive(Clone, Copy, Debug, PartialEq, Eq, Structural)]
pub enum CoreError {
    InvalidJob,
    QueueFull,
    Busy,
    MissingRunningJob,
    Paused,
}

// ---------------------------------------------------------------------------
// Batches
// ---------------------------------------------------------------------------

#[derive(Clone, Copy, Debug, PartialEq, Eq, Structural)]
pub struct SourceRecord {
    pub external_id: u64,
    pub parent_external_id: u64,
    pub relation_external_id: u64,
    pub kind: u16,
    pub relation_kind: u16,
    pub flags: u16,
    pub weight: i32,
}

pub open spec fn empty_source_record_spec() -> SourceRecord {
    SourceRecord {
        external_id: 0,
        parent_external_id: 0,
        relation_external_id: 0,
        kind: 0,
        relation_kind: 0,
        flags: 0,
        weight: 0,
    }
}

/// The all-zero record that fills unused batch positions.
#[verifier::when_used_as_spec(empty_source_record_spec)]
pub fn empty_source_record() -> (r: SourceRecord)
    ensures
        r == empty_source_record_spec(),
{
    SourceRecord {
        external_id: 0,
        parent_external_id: 0,
        relation_external_id: 0,
        kind: 0,
        relation_kind: 0,
        flags: 0,
        weight: 0,
    }
}

#[derive(Clone, Copy, Debug, PartialEq, Eq)]
pub struct RecordBatch {
    pub owner: u64,
    pub mode: JobType,
    pub count: usize,
    pub records: [SourceRecord; MAX_BATCH_RECORDS],
    pub checksum: u64,
}

#[derive(Clone, Copy, Debug, PartialEq, Eq, Structural)]
pub enum GraphWork {
    AddNode { kind: u16, flags: u16, weight: i32, parent: u64, provenance: u64 },
    AddEdge { kind: u16, weight: i32, from: u64, to: u64, provenance: u64 },
}

#[derive(Clone, Copy, Debug, PartialEq, Eq, Structural)]
pub enum BatchError {
    InvalidHeader,
    WrongOwner,
    WrongMode,
    InvalidCount,
    InvalidRecord,
    Checksum,
    MissingReference,
    UnexpectedAck,
}

pub const FNV_OFFSET: u64 = 0xcbf2_9ce4_8422_2325;
pub const FNV_PRIME: u64 = 0x100_0000_01b3;

pub open spec fn fnv_step(hash: u64, byte: u8) -> u64 {
    (hash ^ (byte as u64)).wrapping_mul(FNV_PRIME)
}

/// FNV-1a over `s`, starting from `hash`.
pub open spec fn fnv(hash: u64, s: Seq<u8>) -> u64
    decreases s.len(),
{
    if s.len() == 0 {
        hash
    } else {
        fnv_step(fnv(hash, s.drop_last()), s.last())
    }
}

proof fn lemma_fnv_step(hash: u64, s: Seq<u8>, k: int)
    requires
        0 <= k < s.len(),
    ensures
        fnv(hash, s.subrange(0, k + 1)) == fnv_step(fnv(hash, s.subrange(0, k)), s[k]),
{
    let t = s.subrange(0, k + 1);
    assert(t.drop_last() =~= s.subrange(0, k));
}

/// FNV-1a 64-bit hash of `bytes`.
pub fn hash_bytes(bytes: &[u8]) -> (r: u64)
    ensures
        r == fnv(FNV_OFFSET, bytes@),
{
    let mut hash = FNV_OFFSET;
    let mut k: usize = 0;
    while k < bytes.len()
        invariant
            k <= bytes@.len(),
            hash == fnv(FNV_OFFSET, bytes@.subrange(0, k as int)),
        decreases bytes@.len() - k,
    {
        proof { lemma_fnv_step(FNV_OFFSET, bytes@, k as int); }
        hash = (hash ^ bytes[k] as u64).wrapping_mul(FNV_PRIME);
        k += 1;
    }
    assert(bytes@.subrange(0, bytes@.len() as int) =~= bytes@);
    hash
}

/// Continue an FNV-1a hash over the little-endian bytes of `value`.
fn hash_u64(hash: u64, value: u64) -> (r: u64)
    ensures
        r == fnv(hash, le_u64_bytes(value)),
{
    let b0 = (value & 0xff) as u8;
    let b1 = ((value >> 8u64) & 0xff) as u8;
    let b2 = ((value >> 16u64) & 0xff) as u8;
    let b3 = ((value >> 24u64) & 0xff) as u8;
    let b4 = ((value >> 32u64) & 0xff) as u8;
    let b5 = ((value >> 40u64) & 0xff) as u8;
    let b6 = ((value >> 48u64) & 0xff) as u8;
    let b7 = ((value >> 56u64) & 0xff) as u8;
    let h0 = (hash ^ b0 as u64).wrapping_mul(FNV_PRIME);
    let h1 = (h0 ^ b1 as u64).wrapping_mul(FNV_PRIME);
    let h2 = (h1 ^ b2 as u64).wrapping_mul(FNV_PRIME);
    let h3 = (h2 ^ b3 as u64).wrapping_mul(FNV_PRIME);
    let h4 = (h3 ^ b4 as u64).wrapping_mul(FNV_PRIME);
    let h5 = (h4 ^ b5 as u64).wrapping_mul(FNV_PRIME);
    let h6 = (h5 ^ b6 as u64).wrapping_mul(FNV_PRIME);
    let h7 = (h6 ^ b7 as u64).wrapping_mul(FNV_PRIME);
    proof {
        let b = le_u64_bytes(value);
        assert(b.subrange(0, 0) =~= Seq::<u8>::empty());
        lemma_fnv_step(hash, b, 0);
        lemma_fnv_step(hash, b, 1);
        lemma_fnv_step(hash, b, 2);
        lemma_fnv_step(hash, b, 3);
        lemma_fnv_step(hash, b, 4);
        lemma_fnv_step(hash, b, 5);
        lemma_fnv_step(hash, b, 6);
        lemma_fnv_step(hash, b, 7);
        assert(b.subrange(0, 8) =~= b);
    }
    h7
}

pub open spec fn record_at(s: Seq<u8>, o: int) -> SourceRecord {
    SourceRecord {
        external_id: le_u64_at(s, o),
        parent_external_id: le_u64_at(s, o + 8),
        relation_external_id: le_u64_at(s, o + 16),
        kind: le_u16_at(s, o + 24),
        relation_kind: le_u16_at(s, o + 26),
        flags: le_u16_at(s, o + 28),
        weight: le_u32_at(s, o + 32) as i32,
    }
}

pub open spec fn has_external(recs: Seq<SourceRecord>, n: int, id: u64) -> bool {
    exists|j: int| 0 <= j < n && (#[trigger] recs[j]).external_id == id
}

/// The error record `i` raises given the records before it, if any.
pub open spec fn record_error(recs: Seq<SourceRecord>, i: int) -> Option<BatchError> {
    let r = recs[i];
    if r.external_id == 0 || r.kind == 0 || has_external(recs, i, r.external_id) {
        Some(BatchError::InvalidRecord)
    } else if r.parent_external_id != 0 && !has_external(recs, i, r.parent_external_id) {
        Some(BatchError::MissingReference)
    } else {
        None
    }
}

/// The first error among the first `k` records.
pub open spec fn records_error(recs: Seq<SourceRecord>, k: int) -> Option<BatchError>
    decreases k,
{
    if k <= 0 {
        None
    } else {
        match records_error(recs, k - 1) {
            Some(e) => Some(e),
            None => record_error(recs, k - 1),
        }
    }
}

/// Every relation of the first `n` records names one of them.
pub open spec fn relations_resolved(recs: Seq<SourceRecord>, n: int) -> bool {
    forall|i: int|
        0 <= i < n ==> (#[trigger] recs[i]).relation_external_id == 0 || has_external(
            recs,
            n,
            recs[i].relation_external_id,
        )
}

proof fn lemma_records_error_persists(recs: Seq<SourceRecord>, i: int, n: int)
    requires
        0 <= i < n,
        records_error(recs, i) is None,
        record_error(recs, i) is Some,
    ensures
        records_error(recs, n) == record_error(recs, i),
    decreases n - i,
{
    if n > i + 1 {
        lemma_records_error_persists(recs, i, n - 1);
    }
}

pub open spec fn batch_magic_ok(s: Seq<u8>) -> bool {
    s[0] == 0x54u8 && s[1] == 0x52u8 && s[2] == 0x42u8 && s[3] == 0x31u8 && s[4] == 1u8
}

pub open spec fn batch_count(s: Seq<u8>) -> int {
    le_u16_at(s, 6) as int
}

pub open spec fn batch_records(s: Seq<u8>) -> Seq<SourceRecord> {
    Seq::new(
        MAX_BATCH_RECORDS as nat,
        |i: int|
            if i < batch_count(s) {
                record_at(s, BATCH_HEADER_SIZE + BATCH_RECORD_SIZE * i)
            } else {
                empty_source_record_spec()
            },
    )
}

/// The error [`decode_batch`] returns for `s`, if any: the first check that
/// fails, in order header, mode, count, owner, checksum, records, relations.
pub open spec fn batch_decode_error(s: Seq<u8>, owner: u64, expected_mode: JobType) -> Option<BatchError> {
    if s.len() < BATCH_HEADER_SIZE || !batch_magic_ok(s) {
        Some(BatchError::InvalidHeader)
    } else if job_type_of(s[5]) is None {
        Some(BatchError::WrongMode)
    } else if job_type_of(s[5]).unwrap() != expected_mode || !(expected_mode == JobType::Index
        || expected_mode == JobType::Hydrate) {
        Some(BatchError::WrongMode)
    } else if batch_count(s) == 0 || batch_count(s) > MAX_BATCH_RECORDS || s.len() != BATCH_HEADER_SIZE
        + batch_count(s) * BATCH_RECORD_SIZE {
        Some(BatchError::InvalidCount)
    } else if le_u64_at(s, 8) != owner {
        Some(BatchError::WrongOwner)
    } else if fnv(FNV_OFFSET, s.subrange(BATCH_HEADER_SIZE as int, s.len() as int)) != le_u64_at(s, 16) {
        Some(BatchError::Checksum)
    } else if records_error(batch_records(s), batch_count(s)) is Some {
        records_error(batch_records(s), batch_count(s))
    } else if !relations_resolved(batch_records(s), batch_count(s)) {
        Some(BatchError::MissingReference)
    } else {
        None
    }
}

/// Record `i` is acceptable given the records before it: a non-zero new
/// identifier, a non-zero kind, and a parent, when it has one, among the
/// earlier records.
pub open spec fn record_valid(recs: Seq<SourceRecord>, i: int) -> bool {
    let r = recs[i];
    &&& r.external_id != 0
    &&& r.kind != 0
    &&& !has_external(recs, i, r.external_id)
    &&& (r.parent_external_id != 0 ==> has_external(recs, i, r.parent_external_id))
}

proof fn lemma_records_error_none(recs: Seq<SourceRecord>, k: int)
    ensures
        (records_error(recs, k) is None) == (forall|i: int| 0 <= i < k ==> #[trigger] record_valid(recs, i)),
    decreases k,
{
    if k > 0 {
        lemma_records_error_none(recs, k - 1);
        assert((record_error(recs, k - 1) is None) == record_valid(recs, k - 1));
    }
}

/// A batch decodes exactly when its header reads "TRB1" version 1, its mode
/// byte names the expected mode and that mode is Index or Hydrate, it
/// declares 1 to 16 records and has exactly that many 40-byte records after
/// the 32-byte header, it names the expected owner, its checksum is the
/// FNV-1a hash of the records, every record is valid given the ones before
/// it, and every relation names some record of the batch.
pub proof fn lemma_decode_batch_accepts_iff(s: Seq<u8>, owner: u64, mode: JobType)
    ensures
        (batch_decode_error(s, owner, mode) is None) == (s.len() >= BATCH_HEADER_SIZE && batch_magic_ok(s)
            && job_type_of(s[5]) == Some(mode) && (mode == JobType::Index || mode == JobType::Hydrate) && 1
            <= batch_count(s) <= MAX_BATCH_RECORDS && s.len() == BATCH_HEADER_SIZE + batch_count(s) * BATCH_RECORD_SIZE
            && le_u64_at(s, 8) == owner && fnv(FNV_OFFSET, s.subrange(BATCH_HEADER_SIZE as int, s.len() as int))
            == le_u64_at(s, 16) && (forall|i: int| 0 <= i < batch_count(s) ==> #[trigger] record_valid(
            batch_records(s),
            i,
        )) && relations_resolved(batch_records(s), batch_count(s))),
{
    lemma_records_error_none(batch_records(s), batch_count(s));
}

fn read_record(bytes: &[u8], o: usize) -> (r: SourceRecord)
    requires
        o + BATCH_RECORD_SIZE <= bytes@.len(),
    ensures
        r == record_at(bytes@, o as int),
{
    let _len = bytes.len();
    SourceRecord {
        external_id: get_u64(bytes, o),
        parent_external_id: get_u64(bytes, o + 8),
        relation_external_id: get_u64(bytes, o + 16),
        kind: get_u16(bytes, o + 24),
        relation_kind: get_u16(bytes, o + 26),
        flags: get_u16(bytes, o + 28),
        weight: get_u32(bytes, o + 32) as i32,
    }
}

fn contains_external(records: &[SourceRecord; MAX_BATCH_RECORDS], n: usize, id: u64) -> (r: bool)
    requires
        n <= MAX_BATCH_RECORDS,
    ensures
        r == has_external(records@, n as int, id),
{
    let mut j: usize = 0;
    while j < n
        invariant
            j <= n <= MAX_BATCH_RECORDS,
            forall|k: int| 0 <= k < j ==> (#[trigger] records@[k]).external_id != id,
        decreases n - j,
    {
        if records[j].external_id == id {
            return true;
        }
        j += 1;
    }
    false
}

/// Decode the durable `TRB1` interchange used by INDEX and HYDRATE workers.
/// The checksum covers the complete record region and rejects partial VFS
/// writes; records must have distinct non-zero identifiers and kinds, parents
/// must come before their children and relations must name a record of the
/// batch.
pub fn decode_batch(bytes: &[u8], expected_owner: u64, expected_mode: JobType) -> (r: Result<RecordBatch, BatchError>)
    ensures
        match r {
            Ok(b) => {
                &&& batch_decode_error(bytes@, expected_owner, expected_mode) is None
                &&& b.owner == expected_owner
                &&& b.mode == expected_mode
                &&& b.count == batch_count(bytes@)
                &&& b.checksum == le_u64_at(bytes@, 16)
                &&& b.records@ == batch_records(bytes@)
            },
            Err(e) => batch_decode_error(bytes@, expected_owner, expected_mode) == Some(e),
        },
{
    if bytes.len() < BATCH_HEADER_SIZE || !(bytes[0] == 0x54u8 && bytes[1] == 0x52u8 && bytes[2] == 0x42u8
        && bytes[3] == 0x31u8 && bytes[4] == 1u8) {
        return Err(BatchError::InvalidHeader);
    }
    let mode = match JobType::from_u8(bytes[5]) {
        Some(m) => m,
        None => return Err(BatchError::WrongMode),
    };
    if mode != expected_mode || !(mode == JobType::Index || mode == JobType::Hydrate) {
        return Err(BatchError::WrongMode);
    }
    let count = get_u16(bytes, 6) as usize;
    if count == 0 || count > MAX_BATCH_RECORDS || bytes.len() != BATCH_HEADER_SIZE + count * BATCH_RECORD_SIZE {
        return Err(BatchError::InvalidCount);
    }
    let owner = get_u64(bytes, 8);
    if owner != expected_owner {
        return Err(BatchError::WrongOwner);
    }
    let expected_checksum = get_u64(bytes, 16);
    let body = &bytes[BATCH_HEADER_SIZE..bytes.len()];
    assert(body@ == bytes@.subrange(BATCH_HEADER_SIZE as int, bytes@.len() as int));
    if hash_bytes(body) != expected_checksum {
        return Err(BatchError::Checksum);
    }
    let ghost target = batch_records(bytes@);
    let mut records = [empty_source_record(); MAX_BATCH_RECORDS];
    let mut index: usize = 0;
    while index < count
        invariant
            bytes@.len() >= BATCH_HEADER_SIZE,
            batch_magic_ok(bytes@),
            job_type_of(bytes@[5]) == Some(expected_mode),
            expected_mode == JobType::Index || expected_mode == JobType::Hydrate,
            le_u64_at(bytes@, 8) == expected_owner,
            fnv(FNV_OFFSET, bytes@.subrange(BATCH_HEADER_SIZE as int, bytes@.len() as int)) == le_u64_at(bytes@, 16),
            count == batch_count(bytes@),
            1 <= count <= MAX_BATCH_RECORDS,
            bytes@.len() == BATCH_HEADER_SIZE + count * BATCH_RECORD_SIZE,
            target == batch_records(bytes@),
            index <= count,
            records_error(target, index as int) is None,
            forall|k: int| 0 <= k < index ==> #[trigger] records@[k] == target[k],
            forall|k: int| index <= k < MAX_BATCH_RECORDS ==> #[trigger] records@[k] == empty_source_record_spec(),
        decreases count - index,
    {
        let offset = BATCH_HEADER_SIZE + index * BATCH_RECORD_SIZE;
        let record = read_record(bytes, offset);
        assert(record == target[index as int]);
        proof {
            assert forall|id: u64| has_external(records@, index as int, id) == has_external(target, index as int, id) by {
                if has_external(records@, index as int, id) {
                    let j = choose|j: int| 0 <= j < index && (#[trigger] records@[j]).external_id == id;
                    assert(target[j] == records@[j]);
                }
                if has_external(target, index as int, id) {
                    let j = choose|j: int| 0 <= j < index && (#[trigger] target[j]).external_id == id;
                    assert(target[j] == records@[j]);
                }
            }
        }
        if record.external_id == 0 || record.kind == 0 || contains_external(&records, index, record.external_id) {
            proof { lemma_records_error_persists(target, index as int, count as int); }
            return Err(BatchError::InvalidRecord);
        }
        if record.parent_external_id != 0 && !contains_external(&records, index, record.parent_external_id) {
            proof { lemma_records_error_persists(target, index as int, count as int); }
            return Err(BatchError::MissingReference);
        }
        records[index] = record;
        index += 1;
    }
    assert(records@ =~= target);
    let mut index: usize = 0;
    while index < count
        invariant
            bytes@.len() >= BATCH_HEADER_SIZE,
            batch_magic_ok(bytes@),
            job_type_of(bytes@[5]) == Some(expected_mode),
            expected_mode == JobType::Index || expected_mode == JobType::Hydrate,
            le_u64_at(bytes@, 8) == expected_owner,
            fnv(FNV_OFFSET, bytes@.subrange(BATCH_HEADER_SIZE as int, bytes@.len() as int)) == le_u64_at(bytes@, 16),
            count == batch_count(bytes@),
            1 <= count <= MAX_BATCH_RECORDS,
            records@ == batch_records(bytes@),
            bytes@.len() == BATCH_HEADER_SIZE + count * BATCH_RECORD_SIZE,
            records_error(batch_records(bytes@), count as int) is None,
            index <= count,
            forall|k: int| 0 <= k < index ==> (#[trigger] records@[k]).relation_external_id == 0 || has_external(
                records@,
                count as int,
                records@[k].relation_external_id,
            ),
        decreases count - index,
    {
        let relation = records[index].relation_external_id;
        if relation != 0 && !contains_external(&records, count, relation) {
            assert(!((records@[index as int]).relation_external_id == 0 || has_external(
                records@,
                count as int,
                records@[index as int].relation_external_id,
            )));
            assert(!relations_resolved(records@, count as int));
            return Err(BatchError::MissingReference);
        }
        index += 1;
    }
    Ok(RecordBatch { owner, mode, count, records, checksum: expected_checksum })
}

// ---------------------------------------------------------------------------
// Acknowledged batch execution
// ---------------------------------------------------------------------------

/// Abstract state of a [`BatchExecution`].
#[verifier::ext_equal]
pub struct BatchModel {
    pub owner: u64,
    pub count: nat,
    pub records: Seq<SourceRecord>,
    pub resolved: Seq<u64>,
    pub node_cursor: nat,
    pub edge_cursor: nat,
    pub awaiting: bool,
    pub awaiting_edge: bool,
    pub verifier: u64,
}

impl BatchModel {
    pub open spec fn wf(self) -> bool {
        &&& self.count <= MAX_BATCH_RECORDS
        &&& self.records.len() == MAX_BATCH_RECORDS
        &&& self.resolved.len() == MAX_BATCH_RECORDS
        &&& self.node_cursor <= self.count
        &&& self.edge_cursor <= self.count
        &&& self.awaiting && self.awaiting_edge ==> self.edge_cursor < self.count
        &&& self.awaiting && !self.awaiting_edge ==> self.node_cursor < self.count
    }
}

pub open spec fn has_relation() -> spec_fn(SourceRecord) -> bool {
    |r: SourceRecord| r.relation_external_id != 0
}

pub open spec fn with_external(id: u64) -> spec_fn(SourceRecord) -> bool {
    |r: SourceRecord| r.external_id == id
}

/// The first record at or after `start` that carries a relation.
pub open spec fn next_edge_from(m: BatchModel, start: int) -> Option<int> {
    match first_index(m.records.subrange(start, m.count as int), has_relation()) {
        Some(i) => Some(start + i),
        None => None,
    }
}

/// The graph identifier acknowledged for the record with `external_id`,
/// among the records already added.
pub open spec fn resolve_spec(m: BatchModel, external_id: u64) -> Result<u64, BatchError> {
    match first_index(m.records.subrange(0, m.node_cursor as int), with_external(external_id)) {
        Some(i) => if m.resolved[i] != 0 {
            Ok(m.resolved[i])
        } else {
            Err(BatchError::MissingReference)
        },
        None => Err(BatchError::MissingReference),
    }
}

/// What [`BatchExecution::next`] returns and leaves behind: nodes first, in
/// record order, each under its parent or the batch owner; then one edge per
/// record that carries a relation, between acknowledged identifiers.
pub open spec fn next_spec(m: BatchModel) -> (Result<Option<GraphWork>, BatchError>, BatchModel) {
    if m.awaiting {
        (Err(BatchError::UnexpectedAck), m)
    } else if m.node_cursor < m.count {
        let record = m.records[m.node_cursor as int];
        let parent = if record.parent_external_id == 0 {
            Ok(m.owner)
        } else {
            resolve_spec(m, record.parent_external_id)
        };
        match parent {
            Err(e) => (Err(e), m),
            Ok(p) => (
                Ok(
                    Some(
                        GraphWork::AddNode {
                            kind: record.kind,
                            flags: record.flags,
                            weight: record.weight,
                            parent: p,
                            provenance: record.external_id,
                        },
                    ),
                ),
                BatchModel { awaiting: true, awaiting_edge: false, ..m },
            ),
        }
    } else {
        match next_edge_from(m, m.edge_cursor as int) {
            None => (Ok(None), m),
            Some(index) => {
                let record = m.records[index];
                match resolve_spec(m, record.relation_external_id) {
                    Err(e) => (Err(e), m),
                    Ok(to) => (
                        Ok(
                            Some(
                                GraphWork::AddEdge {
                                    kind: record.relation_kind,
                                    weight: record.weight,
                                    from: m.resolved[index],
                                    to,
                                    provenance: record.external_id,
                                },
                            ),
                        ),
                        BatchModel { edge_cursor: index as nat, awaiting: true, awaiting_edge: true, ..m },
                    ),
                }
            },
        }
    }
}

/// What [`BatchExecution::acknowledge`] returns and leaves behind.
pub open spec fn acknowledge_spec(m: BatchModel, object_id: u64, generation: u64) -> (Result<(), BatchError>, BatchModel) {
    if !m.awaiting || object_id == 0 {
        (Err(BatchError::UnexpectedAck), m)
    } else {
        let v = fnv(fnv(m.verifier, le_u64_bytes(object_id)), le_u64_bytes(generation));
        if m.awaiting_edge {
            (Ok(()), BatchModel { verifier: v, edge_cursor: m.edge_cursor + 1, awaiting: false, ..m })
        } else {
            (
                Ok(()),
                BatchModel {
                    verifier: v,
                    resolved: m.resolved.update(m.node_cursor as int, object_id),
                    node_cursor: m.node_cursor + 1,
                    awaiting: false,
                    ..m
                },
            )
        }
    }
}

pub open spec fn progress_spec(m: BatchModel) -> u8 {
    let edges = m.records.subrange(0, m.count as int).filter(has_relation()).len();
    let total = m.count + edges;
    if total == 0 {
        100
    } else {
        let p = ((m.node_cursor + m.edge_cursor) * 100) / total;
        if p < 99 {
            p as u8
        } else {
            99
        }
    }
}

pub open spec fn complete_spec(m: BatchModel) -> bool {
    !m.awaiting && m.node_cursor == m.count && next_edge_from(m, m.edge_cursor as int) is None
}

/// A bounded, acknowledgement-driven import/index execution. Node identifiers
/// are resolved only from graphd acknowledgements; relations cannot race
/// ahead of nodes.
/// The acknowledgement protocol: issuing work leaves the execution awaiting
/// its acknowledgement; an acknowledgement is refused, changing nothing,
/// exactly when none is awaited or the identifier is zero; an accepted one
/// ends the wait, and the identifier acknowledged for a node is what later
/// work resolves that record's external identifier to.
pub proof fn lemma_acknowledge_law(m: BatchModel, object_id: u64, generation: u64)
    requires
        m.wf(),
    ensures
        next_spec(m).0 matches Ok(Some(_)) ==> next_spec(m).1.awaiting,
        ({
            let (r, m2) = acknowledge_spec(m, object_id, generation);
            &&& (r == Err::<(), BatchError>(BatchError::UnexpectedAck)) == (!m.awaiting || object_id == 0)
            &&& r is Err ==> m2 == m
            &&& r is Ok ==> !m2.awaiting
            &&& r is Ok && !m.awaiting_edge && (forall|j: int|
                0 <= j < m.node_cursor ==> #[trigger] m.records[j].external_id != m.records[m.node_cursor as int].external_id)
                ==> resolve_spec(m2, m.records[m.node_cursor as int].external_id) == Ok::<u64, BatchError>(object_id)
        }),
{
    let (r, m2) = acknowledge_spec(m, object_id, generation);
    if r is Ok && !m.awaiting_edge {
        let x = m.records[m.node_cursor as int].external_id;
        if forall|j: int| 0 <= j < m.node_cursor ==> #[trigger] m.records[j].external_id != x {
            let sub = m2.records.subrange(0, m2.node_cursor as int);
            assert forall|j: int| 0 <= j < m.node_cursor implies !with_external(x)(#[trigger] sub[j]) by {
                assert(sub[j] == m.records[j]);
            }
            assert(sub[m.node_cursor as int] == m.records[m.node_cursor as int]);
            lemma_first_found(sub, with_external(x), m.node_cursor as int);
            assert(m2.resolved[m.node_cursor as int] == object_id);
        }
    }
}

/// Every node added so far has been acknowledged with a graph identifier.
pub open spec fn nodes_acknowledged(m: BatchModel) -> bool {
    forall|i: int| 0 <= i < m.node_cursor ==> #[trigger] m.resolved[i] != 0
}

/// A fresh execution, and every step of one, keeps each added node bound
/// to the non-zero identifier that graphd acknowledged for it.
pub proof fn lemma_acknowledged_invariant(m: BatchModel, object_id: u64, generation: u64)
    requires
        m.wf(),
        nodes_acknowledged(m),
    ensures
        nodes_acknowledged(next_spec(m).1),
        nodes_acknowledged(acknowledge_spec(m, object_id, generation).1),
        m.node_cursor == 0 ==> nodes_acknowledged(m),
{
    let a = acknowledge_spec(m, object_id, generation).1;
    if m.awaiting && object_id != 0 && !m.awaiting_edge {
        assert forall|i: int| 0 <= i < a.node_cursor implies #[trigger] a.resolved[i] != 0 by {
            if i < m.node_cursor {
                assert(a.resolved[i] == m.resolved[i]);
            }
        }
    }
}

/// Relations cannot race ahead of nodes: an edge is only issued once every
/// node of the batch has been added and acknowledged, and both of its ends
/// are acknowledged graph identifiers.
pub proof fn lemma_edges_follow_nodes(m: BatchModel)
    requires
        m.wf(),
        nodes_acknowledged(m),
    ensures
        next_spec(m).0 matches Ok(Some(GraphWork::AddEdge { from, to, .. })) ==> m.node_cursor == m.count && from
            != 0 && to != 0,
{
    if !m.awaiting && m.node_cursor >= m.count {
        if let Some(index) = next_edge_from(m, m.edge_cursor as int) {
            let sub = m.records.subrange(m.edge_cursor as int, m.count as int);
            let k = index - m.edge_cursor;
            assert(is_first(sub, has_relation(), k));
            assert(m.resolved[index] != 0);
        }
    }
}

pub struct BatchExecution {
    batch: RecordBatch,
    resolved: [u64; MAX_BATCH_RECORDS],
    node_cursor: usize,
    edge_cursor: usize,
    awaiting: bool,
    awaiting_edge: bool,
    verifier: u64,
}

impl View for BatchExecution {
    type V = BatchModel;

    closed spec fn view(&self) -> BatchModel {
        BatchModel {
            owner: self.batch.owner,
            count: self.batch.count as nat,
            records: self.batch.records@,
            resolved: self.resolved@,
            node_cursor: self.node_cursor as nat,
            edge_cursor: self.edge_cursor as nat,
            awaiting: self.awaiting,
            awaiting_edge: self.awaiting_edge,
            verifier: self.verifier,
        }
    }
}

impl BatchExecution {
    pub open spec fn wf(&self) -> bool {
        self@.wf()
    }

    pub fn new(batch: RecordBatch) -> (r: Self)
        requires
            batch.count <= MAX_BATCH_RECORDS,
        ensures
            r.wf(),
            r@ == (BatchModel {
                owner: batch.owner,
                count: batch.count as nat,
                records: batch.records@,
                resolved: Seq::new(MAX_BATCH_RECORDS as nat, |i: int| 0u64),
                node_cursor: 0,
                edge_cursor: 0,
                awaiting: false,
                awaiting_edge: false,
                verifier: FNV_OFFSET,
            }),
    {
        let r = BatchExecution {
            batch,
            resolved: [0u64; MAX_BATCH_RECORDS],
            node_cursor: 0,
            edge_cursor: 0,
            awaiting: false,
            awaiting_edge: false,
            verifier: FNV_OFFSET,
        };
        assert(r@.resolved =~= Seq::new(MAX_BATCH_RECORDS as nat, |i: int| 0u64));
        r
    }

    /// Completed share of the work, in percent; 99 until the batch is done,
    /// 100 for an empty batch.
    pub fn progress(&self) -> (r: u8)
        requires
            self.wf(),
        ensures
            r == progress_spec(self@),
    {
        let count = self.batch.count;
        let mut edges: usize = 0;
        let mut k: usize = 0;
        while k < count
            invariant
                self.wf(),
                count == self@.count,
                k <= count,
                edges == self@.records.subrange(0, count as int).subrange(0, k as int).filter(has_relation()).len(),
                edges <= k,
            decreases count - k,
        {
            proof { lemma_filter_step(self@.records.subrange(0, count as int), has_relation(), k as int); }
            if self.batch.records[k].relation_external_id != 0 {
                edges += 1;
            }
            k += 1;
        }
        assert(self@.records.subrange(0, count as int).subrange(0, count as int) =~= self@.records.subrange(0, count as int));
        let total = count + edges;
        if total == 0 {
            100
        } else {
            let p = ((self.node_cursor + self.edge_cursor) * 100) / total;
            if p < 99 {
                p as u8
            } else {
                99
            }
        }
    }

    /// The running hash of every acknowledgement, as a non-negative `i32`.
    pub fn verifier_code(&self) -> (r: i32)
        ensures
            r == (self@.verifier & 0x7fff_ffff) as i32,
    {
        (self.verifier & 0x7fff_ffff) as i32
    }

    fn next_edge_index(&self, start: usize) -> (r: Option<usize>)
        requires
            self.wf(),
            start <= self@.count,
        ensures
            match r {
                Some(i) => next_edge_from(self@, start as int) == Some(i as int),
                None => next_edge_from(self@, start as int) == None::<int>,
            },
    {
        let ghost sub = self@.records.subrange(start as int, self@.count as int);
        let mut index = start;
        while index < self.batch.count
            invariant
                self.wf(),
                start <= index <= self@.count,
                sub == self@.records.subrange(start as int, self@.count as int),
                forall|j: int| 0 <= j < index - start ==> !(#[trigger] has_relation()(sub[j])),
            decreases self@.count - index,
        {
            if self.batch.records[index].relation_external_id != 0 {
                proof {
                    assert(sub[index - start] == self@.records[index as int]);
                    lemma_first_found(sub, has_relation(), index - start);
                }
                return Some(index);
            }
            assert(sub[index - start] == self@.records[index as int]);
            index += 1;
        }
        proof { lemma_first_none(sub, has_relation()); }
        None
    }

    /// Whether every node and edge of the batch has been acknowledged.
    pub fn is_complete(&self) -> (r: bool)
        requires
            self.wf(),
        ensures
            r == complete_spec(self@),
    {
        !self.awaiting && self.node_cursor == self.batch.count && self.next_edge_index(self.edge_cursor).is_none()
    }

    fn resolve(&self, external_id: u64) -> (r: Result<u64, BatchError>)
        requires
            self.wf(),
        ensures
            r == resolve_spec(self@, external_id),
    {
        let ghost pre = self@.records.subrange(0, self@.node_cursor as int);
        let mut index: usize = 0;
        while index < self.node_cursor
            invariant
                self.wf(),
                index <= self@.node_cursor,
                pre == self@.records.subrange(0, self@.node_cursor as int),
                forall|j: int| 0 <= j < index ==> !(#[trigger] with_external(external_id)(pre[j])),
            decreases self@.node_cursor - index,
        {
            if self.batch.records[index].external_id == external_id {
                proof { lemma_first_found(pre, with_external(external_id), index as int); }
                let id = self.resolved[index];
                if id != 0 {
                    return Ok(id);
                } else {
                    return Err(BatchError::MissingReference);
                }
            }
            index += 1;
        }
        proof { lemma_first_none(pre, with_external(external_id)); }
        Err(BatchError::MissingReference)
    }

    /// The next graph mutation to send, once the previous one is acknowledged.
    pub fn next(&mut self) -> (r: Result<Option<GraphWork>, BatchError>)
        requires
            old(self).wf(),
        ensures
            final(self).wf(),
            r == next_spec(old(self)@).0,
            final(self)@ == next_spec(old(self)@).1,
    {
        if self.awaiting {
            return Err(BatchError::UnexpectedAck);
        }
        if self.node_cursor < self.batch.count {
            let record = self.batch.records[self.node_cursor];
            let parent = if record.parent_external_id == 0 {
                self.batch.owner
            } else {
                match self.resolve(record.parent_external_id) {
                    Ok(p) => p,
                    Err(e) => return Err(e),
                }
            };
            self.awaiting = true;
            self.awaiting_edge = false;
            return Ok(Some(GraphWork::AddNode {
                kind: record.kind,
                flags: record.flags,
                weight: record.weight,
                parent,
                provenance: record.external_id,
            }));
        }
        match self.next_edge_index(self.edge_cursor) {
            None => Ok(None),
            Some(index) => {
                let record = self.batch.records[index];
                let from = self.resolved[index];
                let to = match self.resolve(record.relation_external_id) {
                    Ok(t) => t,
                    Err(e) => return Err(e),
                };
                self.edge_cursor = index;
                self.awaiting = true;
                self.awaiting_edge = true;
                Ok(Some(GraphWork::AddEdge {
                    kind: record.relation_kind,
                    weight: record.weight,
                    from,
                    to,
                    provenance: record.external_id,
                }))
            },
        }
    }

    /// Record the graph identifier and generation acknowledging the
    /// outstanding mutation.
    pub fn acknowledge(&mut self, object_id: u64, generation: u64) -> (r: Result<(), BatchError>)
        requires
            old(self).wf(),
        ensures
            final(self).wf(),
            r == acknowledge_spec(old(self)@, object_id, generation).0,
            final(self)@ == acknowledge_spec(old(self)@, object_id, generation).1,
    {
        if !self.awaiting || object_id == 0 {
            return Err(BatchError::UnexpectedAck);
        }
        self.verifier = hash_u64(hash_u64(self.verifier, object_id), generation);
        if self.awaiting_edge {
            self.edge_cursor = self.edge_cursor + 1;
        } else {
            self.resolved[self.node_cursor] = object_id;
            self.node_cursor = self.node_cursor + 1;
        }
        self.awaiting = false;
        Ok(())
    }
}

// ---------------------------------------------------------------------------
// The scheduler
// ---------------------------------------------------------------------------

/// Abstract state of a [`TrainerCore`].
#[verifier::ext_equal]
pub struct TrainerModel {
    pub jobs: Seq<Job>,
    pub subsystems: Seq<Subsystem>,
    pub next_seq: u32,
    pub running_seq: u32,
}

impl TrainerModel {
    pub open spec fn wf(self) -> bool {
        self.jobs.len() == MAX_JOBS && self.subsystems.len() == SUBSYSTEM_COUNT
    }
}

pub open spec fn sat_inc_u32(x: u32) -> u32 {
    if x == u32::MAX {
        x
    } else {
        (x + 1) as u32
    }
}

pub open spec fn pending() -> spec_fn(Job) -> bool {
    |j: Job| j.occupied && j.state == JobState::Pending
}

pub open spec fn reusable() -> spec_fn(Job) -> bool {
    |j: Job| !j.occupied || j.state == JobState::Completed || j.state == JobState::Failed
}

pub open spec fn with_seq(seq: u32) -> spec_fn(Job) -> bool {
    |j: Job| j.occupied && j.seq == seq
}

/// A submission: the job goes into the first free or finished slot under
/// the next sequence number; a full table refuses it.
pub open spec fn submit_model(m: TrainerModel, kind: JobType, priority: u8, target: u64, submitted_at: u64, requester: u32) -> (Result<u32, CoreError>, TrainerModel) {
    match first_index(m.jobs, reusable()) {
        None => (Err(CoreError::QueueFull), m),
        Some(i) => {
            let seq = m.next_seq;
            (
                Ok(seq),
                TrainerModel {
                    jobs: m.jobs.update(
                        i,
                        Job {
                            seq,
                            kind,
                            priority,
                            state: JobState::Pending,
                            progress: 0,
                            target,
                            submitted_at,
                            started_at: 0,
                            completed_at: 0,
                            requester,
                            verifier: 0,
                            occupied: true,
                        },
                    ),
                    next_seq: sat_inc_u32(seq),
                    ..m
                },
            )
        },
    }
}

proof fn lemma_filter_update_len(s: Seq<Job>, p: spec_fn(Job) -> bool, i: int, x: Job, k: int)
    requires
        0 <= i < s.len(),
        0 <= k <= s.len(),
    ensures
        s.update(i, x).subrange(0, k).filter(p).len() + (if i < k && p(s[i]) { 1int } else { 0int }) == s.subrange(
            0,
            k,
        ).filter(p).len() + (if i < k && p(x) { 1int } else { 0int }),
    decreases k,
{
    let t = s.update(i, x);
    if k > 0 {
        lemma_filter_update_len(s, p, i, x, k - 1);
        lemma_filter_step(s, p, k - 1);
        lemma_filter_step(t, p, k - 1);
    } else {
        assert(s.subrange(0, 0).filter(p) =~= Seq::<Job>::empty().filter(p));
        assert(t.subrange(0, 0) =~= s.subrange(0, 0));
    }
}

/// Completing fails exactly when no occupied job carries the running
/// sequence number, and then changes nothing. Otherwise the job is returned
/// completed (progress 100) or failed with its completion time and
/// verifier, nothing runs any more, and the job's subsystem is pending again
/// with one more completion or failure, saturating.
pub proof fn lemma_complete_law(m: TrainerModel, success: bool, completed_at: u64, verifier: i32)
    requires
        m.wf(),
    ensures
        ({
            let (r, m2) = finish_spec(m, success, completed_at, verifier);
            &&& (r == Err::<Job, CoreError>(CoreError::MissingRunningJob)) == (forall|i: int|
                0 <= i < m.jobs.len() ==> !#[trigger] with_seq(m.running_seq)(m.jobs[i]))
            &&& r is Err ==> m2 == m
            &&& r matches Ok(j) ==> {
                let k = job_type_index(j.kind) as int;
                &&& j.state == (if success { JobState::Completed } else { JobState::Failed })
                &&& j.completed_at == completed_at
                &&& j.verifier == verifier
                &&& (success ==> j.progress == 100)
                &&& j.seq == m.running_seq
                &&& m2.running_seq == 0
                &&& m2.subsystems[k].state == JobState::Pending
                &&& m2.subsystems[k].completed == (if success { sat_inc_u32(m.subsystems[k].completed) } else {
                    m.subsystems[k].completed
                })
                &&& m2.subsystems[k].failed == (if !success { sat_inc_u32(m.subsystems[k].failed) } else {
                    m.subsystems[k].failed
                })
            }
        }),
{
    match running_index_spec(m) {
        None => {
            lemma_first_none_all(m.jobs, with_seq(m.running_seq));
        },
        Some(i) => {
            assert(is_first(m.jobs, with_seq(m.running_seq), i));
        },
    }
}

/// Submitting fails with a full queue exactly when every slot holds a job
/// that is neither completed nor failed, and then changes nothing; a
/// successful submission hands out the next sequence number, advances it
/// (saturating) and adds one pending job.
pub proof fn lemma_submit_law(m: TrainerModel, kind: JobType, priority: u8, target: u64, submitted_at: u64, requester: u32)
    ensures
        ({
            let (r, m2) = submit_model(m, kind, priority, target, submitted_at, requester);
            &&& (r == Err::<u32, CoreError>(CoreError::QueueFull)) == (forall|i: int|
                0 <= i < m.jobs.len() ==> !#[trigger] reusable()(m.jobs[i]))
            &&& r is Err ==> m2 == m
            &&& r matches Ok(s) ==> s == m.next_seq && m2.next_seq == sat_inc_u32(s) && m2.jobs.filter(pending()).len()
                == m.jobs.filter(pending()).len() + 1
        }),
{
    match first_index(m.jobs, reusable()) {
        None => {
            lemma_first_none_all(m.jobs, reusable());
        },
        Some(i) => {
            assert(is_first(m.jobs, reusable(), i));
            let r = submit_model(m, kind, priority, target, submitted_at, requester);
            let x = r.1.jobs[i];
            assert(r.1.jobs == m.jobs.update(i, x));
            lemma_filter_update_len(m.jobs, pending(), i, x, m.jobs.len() as int);
            assert(m.jobs.subrange(0, m.jobs.len() as int) =~= m.jobs);
            assert(m.jobs.update(i, x).subrange(0, m.jobs.len() as int) =~= m.jobs.update(i, x));
        },
    }
}

/// Reporting progress on the running job: capped at 99 until it completes.
pub open spec fn progress_model(m: TrainerModel, progress: u8) -> (Result<(), CoreError>, TrainerModel) {
    match running_index_spec(m) {
        None => (Err(CoreError::MissingRunningJob), m),
        Some(i) => (
            Ok(()),
            TrainerModel {
                jobs: m.jobs.update(i, Job { progress: if progress < 99 { progress } else { 99 }, ..m.jobs[i] }),
                ..m
            },
        ),
    }
}

/// A scheduler restored from saved jobs and subsystems: the sequence number
/// is at least one, and the job that was running goes back to pending.
pub open spec fn restore_model(jobs: Seq<Job>, subsystems: Seq<Subsystem>, next_seq: u32, running_seq: u32) -> TrainerModel {
    let m = TrainerModel { jobs, subsystems, next_seq: if next_seq < 1 { 1 } else { next_seq }, running_seq };
    TrainerModel {
        jobs: match running_index_spec(m) {
            Some(i) => m.jobs.update(i, Job { state: JobState::Pending, progress: 0, ..m.jobs[i] }),
            None => m.jobs,
        },
        running_seq: 0,
        ..m
    }
}

pub open spec fn running_index_spec(m: TrainerModel) -> Option<int> {
    first_index(m.jobs, with_seq(m.running_seq))
}

pub open spec fn running_job_spec(m: TrainerModel) -> Option<Job> {
    match running_index_spec(m) {
        Some(i) => Some(m.jobs[i]),
        None => None,
    }
}

/// Claim order of the wire priority: 1 first, then 0, then everything else.
pub open spec fn priority_rank(priority: u8) -> u8 {
    if priority == 1 {
        2
    } else if priority == 0 {
        1
    } else {
        0
    }
}

/// Runs of a subsystem are spaced by 1, 2 or 4 ticks for a high, medium or
/// low budget.
pub open spec fn budget_period(budget: u8) -> u64 {
    if budget >= 2 {
        1
    } else if budget == 1 {
        2
    } else {
        4
    }
}

pub open spec fn uses_io(kind: JobType) -> bool {
    kind == JobType::Index || kind == JobType::Hydrate
}

/// A pending job whose subsystem is not paused and whose policy admits a
/// run at tick `now` in the given idleness.
pub open spec fn claimable(m: TrainerModel, now: u64, idle: bool, job: Job) -> bool {
    let sub = m.subsystems[job_type_index(job.kind) as int];
    &&& pending()(job)
    &&& sub.state != JobState::Paused
    &&& !(sub.policy.schedule == 0 && !idle)
    &&& now % budget_period(sub.policy.cpu_budget) == 0
    &&& !(uses_io(job.kind) && now % budget_period(sub.policy.io_budget) != 0)
}

/// `a` is claimed before `b`: higher rank, or equal rank and submitted earlier.
pub open spec fn claims_before(a: Job, b: Job) -> bool {
    priority_rank(a.priority) > priority_rank(b.priority) || (priority_rank(a.priority) == priority_rank(b.priority)
        && a.submitted_at < b.submitted_at)
}

/// The job a claim picks among the first `k` slots: the first claimable job
/// that no later claimable job is claimed before.
pub open spec fn best_upto(m: TrainerModel, now: u64, idle: bool, k: int) -> Option<int>
    decreases k,
{
    if k <= 0 {
        None
    } else {
        let b = best_upto(m, now, idle, k - 1);
        let j = m.jobs[k - 1];
        if claimable(m, now, idle, j) && (b is None || claims_before(j, m.jobs[b.unwrap()])) {
            Some(k - 1)
        } else {
            b
        }
    }
}

pub open spec fn action_for_spec(job: Job) -> WorkerAction {
    match job.kind {
        JobType::Index => WorkerAction::Index { job_seq: job.seq, document_node: job.target },
        JobType::Correlate => WorkerAction::CorrelateQuery { job_seq: job.seq, entity_node: job.target },
        JobType::Spectral => WorkerAction::SpectralRefresh { job_seq: job.seq },
        JobType::Hydrate => WorkerAction::Hydrate { job_seq: job.seq, corpus_node: job.target },
    }
}

/// What [`TrainerCore::claim_next_with_context`] returns and leaves behind.
pub open spec fn claim_spec(m: TrainerModel, now: u64, idle: bool) -> (Result<Option<WorkerAction>, CoreError>, TrainerModel) {
    if m.running_seq != 0 {
        (Err(CoreError::Busy), m)
    } else {
        match best_upto(m, now, idle, MAX_JOBS as int) {
            None => (Ok(None), m),
            Some(i) => {
                let job = Job { state: JobState::Running, progress: 10, started_at: now, ..m.jobs[i] };
                let k = job_type_index(job.kind) as int;
                (
                    Ok(Some(action_for_spec(job))),
                    TrainerModel {
                        jobs: m.jobs.update(i, job),
                        subsystems: m.subsystems.update(k, Subsystem { state: JobState::Running, ..m.subsystems[k] }),
                        running_seq: job.seq,
                        ..m
                    },
                )
            },
        }
    }
}

pub open spec fn resume_job(kind: JobType) -> spec_fn(Job) -> Job {
    |j: Job|
        if j.occupied && j.kind == kind && j.state == JobState::Paused {
            Job { state: JobState::Pending, ..j }
        } else {
            j
        }
}

/// What [`TrainerCore::control`] returns and leaves behind.  Action 0 and 2
/// run the subsystem (2 also requeues its paused jobs), 1 pauses it and the
/// job of that kind that is running; the policy is stored even when the
/// action is refused.
pub open spec fn control_spec(m: TrainerModel, kind: JobType, action: u8, policy: ResourcePolicy) -> (Result<(), CoreError>, TrainerModel) {
    let k = job_type_index(kind) as int;
    let with_policy = TrainerModel {
        subsystems: m.subsystems.update(k, Subsystem { policy, ..m.subsystems[k] }),
        ..m
    };
    if action > 2 {
        (Err(CoreError::InvalidJob), with_policy)
    } else {
        let state = if action == 1 {
            JobState::Paused
        } else {
            JobState::Running
        };
        let m1 = TrainerModel {
            subsystems: m.subsystems.update(k, Subsystem { policy, state, ..m.subsystems[k] }),
            ..m
        };
        let m2 = if action == 1 && running_index_spec(m) is Some && m.jobs[running_index_spec(m).unwrap()].kind
            == kind {
            let i = running_index_spec(m).unwrap();
            TrainerModel {
                jobs: m1.jobs.update(i, Job { state: JobState::Paused, ..m1.jobs[i] }),
                running_seq: 0,
                ..m1
            }
        } else {
            m1
        };
        let m3 = if action == 2 {
            TrainerModel { jobs: m2.jobs.map_values(resume_job(kind)), ..m2 }
        } else {
            m2
        };
        (Ok(()), m3)
    }
}

/// What [`TrainerCore::correlation_candidate`] returns and leaves behind.
pub open spec fn correlate_spec(m: TrainerModel, peer: u64) -> (Result<WorkerAction, CoreError>, TrainerModel) {
    match running_index_spec(m) {
        None => (Err(CoreError::MissingRunningJob), m),
        Some(i) => {
            let job = m.jobs[i];
            if job.kind != JobType::Correlate || peer == 0 || peer == job.target {
                (Err(CoreError::InvalidJob), m)
            } else {
                (
                    Ok(WorkerAction::CorrelatePromote { job_seq: job.seq, from: job.target, to: peer }),
                    TrainerModel { jobs: m.jobs.update(i, Job { progress: 60, ..job }), ..m },
                )
            }
        },
    }
}

/// What [`TrainerCore::complete`] returns and leaves behind.
pub open spec fn finish_spec(m: TrainerModel, success: bool, completed_at: u64, verifier: i32) -> (
    Result<Job, CoreError>,
    TrainerModel,
) {
    match running_index_spec(m) {
        None => (Err(CoreError::MissingRunningJob), m),
        Some(i) => {
            let job = m.jobs[i];
            let k = job_type_index(job.kind) as int;
            let sub = m.subsystems[k];
            let done = Job {
                state: if success {
                    JobState::Completed
                } else {
                    JobState::Failed
                },
                progress: if success {
                    100
                } else {
                    job.progress
                },
                completed_at,
                verifier,
                ..job
            };
            (
                Ok(done),
                TrainerModel {
                    jobs: m.jobs.update(i, done),
                    subsystems: m.subsystems.update(
                        k,
                        Subsystem {
                            state: JobState::Pending,
                            completed: if success && sub.completed < u32::MAX {
                                (sub.completed + 1) as u32
                            } else {
                                sub.completed
                            },
                            failed: if !success && sub.failed < u32::MAX {
                                (sub.failed + 1) as u32
                            } else {
                                sub.failed
                            },
                            ..sub
                        },
                    ),
                    running_seq: 0,
                    ..m
                },
            )
        },
    }
}

pub struct TrainerCore {
    jobs: [Job; MAX_JOBS],
    subsystems: [Subsystem; SUBSYSTEM_COUNT],
    next_seq: u32,
    running_seq: u32,
}

impl View for TrainerCore {
    type V = TrainerModel;

    closed spec fn view(&self) -> TrainerModel {
        TrainerModel {
            jobs: self.jobs@,
            subsystems: self.subsystems@,
            next_seq: self.next_seq,
            running_seq: self.running_seq,
        }
    }
}

fn priority_rank_exec(priority: u8) -> (r: u8)
    ensures
        r == priority_rank(priority),
{
    match priority {
        1 => 2,
        0 => 1,
        _ => 0,
    }
}

fn action_for(job: Job) -> (r: WorkerAction)
    ensures
        r == action_for_spec(job),
{
    match job.kind {
        JobType::Index => WorkerAction::Index { job_seq: job.seq, document_node: job.target },
        JobType::Correlate => WorkerAction::CorrelateQuery { job_seq: job.seq, entity_node: job.target },
        JobType::Spectral => WorkerAction::SpectralRefresh { job_seq: job.seq },
        JobType::Hydrate => WorkerAction::Hydrate { job_seq: job.seq, corpus_node: job.target },
    }
}

fn budget_period_exec(budget: u8) -> (r: u64)
    ensures
        r == budget_period(budget),
{
    if budget >= 2 {
        1
    } else if budget == 1 {
        2
    } else {
        4
    }
}

impl TrainerCore {
    pub fn new() -> (r: Self)
        ensures
            r@.wf(),
            r@.jobs == Seq::new(MAX_JOBS as nat, |i: int| empty_job_spec()),
            r@.subsystems == Seq::new(SUBSYSTEM_COUNT as nat, |i: int| empty_subsystem_spec()),
            r@.next_seq == 1,
            r@.running_seq == 0,
    {
        let r = TrainerCore {
            jobs: [empty_job(); MAX_JOBS],
            subsystems: [empty_subsystem(); SUBSYSTEM_COUNT],
            next_seq: 1,
            running_seq: 0,
        };
        assert(r@.jobs =~= Seq::new(MAX_JOBS as nat, |i: int| empty_job_spec()));
        assert(r@.subsystems =~= Seq::new(SUBSYSTEM_COUNT as nat, |i: int| empty_subsystem_spec()));
        r
    }

    /// A scheduler always holds one slot per job and one per subsystem.
    pub proof fn lemma_wf(&self)
        ensures
            self@.wf(),
    {
    }

    pub fn next_seq(&self) -> (r: u32)
        ensures
            r == self@.next_seq,
    {
        self.next_seq
    }

    pub fn running_seq(&self) -> (r: u32)
        ensures
            r == self@.running_seq,
    {
        self.running_seq
    }

    pub fn jobs(&self) -> (r: &[Job; MAX_JOBS])
        ensures
            r@ == self@.jobs,
    {
        &self.jobs
    }

    pub fn subsystems(&self) -> (r: &[Subsystem; SUBSYSTEM_COUNT])
        ensures
            r@ == self@.subsystems,
    {
        &self.subsystems
    }

    /// Number of occupied pending jobs.
    pub fn pending_count(&self) -> (r: usize)
        ensures
            r == self@.jobs.filter(pending()).len(),
    {
        let mut count: usize = 0;
        let mut k: usize = 0;
        while k < MAX_JOBS
            invariant
                k <= MAX_JOBS,
                self@.jobs.len() == MAX_JOBS,
                count == self@.jobs.subrange(0, k as int).filter(pending()).len(),
                count <= k,
            decreases MAX_JOBS - k,
        {
            proof { lemma_filter_step(self@.jobs, pending(), k as int); }
            if self.jobs[k].occupied && self.jobs[k].state == JobState::Pending {
                count += 1;
            }
            k += 1;
        }
        assert(self@.jobs.subrange(0, MAX_JOBS as int) =~= self@.jobs);
        count
    }

    fn running_index(&self) -> (r: Option<usize>)
        ensures
            match r {
                Some(i) => running_index_spec(self@) == Some(i as int),
                None => running_index_spec(self@) == None::<int>,
            },
    {
        let mut k: usize = 0;
        while k < MAX_JOBS
            invariant
                k <= MAX_JOBS,
                self@.jobs.len() == MAX_JOBS,
                forall|j: int| 0 <= j < k ==> !(#[trigger] with_seq(self@.running_seq)(self@.jobs[j])),
            decreases MAX_JOBS - k,
        {
            if self.jobs[k].occupied && self.jobs[k].seq == self.running_seq {
                proof { lemma_first_found(self@.jobs, with_seq(self@.running_seq), k as int); }
                return Some(k);
            }
            k += 1;
        }
        proof { lemma_first_none(self@.jobs, with_seq(self@.running_seq)); }
        None
    }

    /// The occupied job whose sequence number is the running one, if any.
    pub fn running_job(&self) -> (r: Option<Job>)
        ensures
            r == running_job_spec(self@),
    {
        match self.running_index() {
            Some(i) => Some(self.jobs[i]),
            None => None,
        }
    }

    /// Set a subsystem's policy and run, pause or resume it.
    pub fn control(&mut self, kind: JobType, action: u8, policy: ResourcePolicy) -> (r: Result<(), CoreError>)
        ensures
            r == control_spec(old(self)@, kind, action, policy).0,
            final(self)@ == control_spec(old(self)@, kind, action, policy).1,
    {
        let k = kind.index();
        let mut sub = self.subsystems[k];
        sub.policy = policy;
        self.subsystems[k] = sub;
        let state = match action {
            0 | 2 => JobState::Running,
            1 => JobState::Paused,
            _ => return Err(CoreError::InvalidJob),
        };
        let mut sub = self.subsystems[k];
        sub.state = state;
        self.subsystems[k] = sub;
        let ghost m1 = self@;
        if action == 1 {
            if let Some(index) = self.running_index() {
                if self.jobs[index].kind == kind {
                    let mut job = self.jobs[index];
                    job.state = JobState::Paused;
                    self.jobs[index] = job;
                    self.running_seq = 0;
                }
            }
        }
        if action == 2 {
            let ghost before = self.jobs@;
            let mut i: usize = 0;
            while i < MAX_JOBS
                invariant
                    i <= MAX_JOBS,
                    before.len() == MAX_JOBS,
                    self@.jobs.len() == MAX_JOBS,
                    self@.subsystems == m1.subsystems,
                    self@.next_seq == m1.next_seq,
                    self@.running_seq == m1.running_seq,
                    forall|j: int| 0 <= j < i ==> self@.jobs[j] == resume_job(kind)(before[j]),
                    forall|j: int| i <= j < MAX_JOBS ==> self@.jobs[j] == before[j],
                decreases MAX_JOBS - i,
            {
                let job = self.jobs[i];
                if job.occupied && job.kind == kind && job.state == JobState::Paused {
                    self.jobs[i] = Job { state: JobState::Pending, ..job };
                }
                i += 1;
            }
            assert(self@.jobs =~= before.map_values(resume_job(kind)));
        }
        assert(self@ =~= control_spec(old(self)@, kind, action, policy).1);
        Ok(())
    }

    /// Claim the next job, as an idle-context claim.
    pub fn claim_next(&mut self, now: u64) -> (r: Result<Option<WorkerAction>, CoreError>)
        ensures
            r == claim_spec(old(self)@, now, true).0,
            final(self)@ == claim_spec(old(self)@, now, true).1,
    {
        self.claim_next_with_context(now, true)
    }

    /// Claim with execution context. Schedule 0 claims only when idle; a CPU
    /// budget below High spaces runs out to every second or fourth tick, and
    /// an I/O budget does the same for INDEX and HYDRATE.  Among claimable
    /// pending jobs the highest-ranked, then earliest-submitted one wins, ties
    /// keeping slot order.
    pub fn claim_next_with_context(&mut self, now: u64, idle: bool) -> (r: Result<Option<WorkerAction>, CoreError>)
        ensures
            r == claim_spec(old(self)@, now, idle).0,
            final(self)@ == claim_spec(old(self)@, now, idle).1,
    {
        if self.running_seq != 0 {
            return Err(CoreError::Busy);
        }
        let ghost m = self@;
        let mut best: Option<usize> = None;
        let mut k: usize = 0;
        while k < MAX_JOBS
            invariant
                k <= MAX_JOBS,
                m == self@,
                m.wf(),
                match best {
                    Some(b) => best_upto(m, now, idle, k as int) == Some(b as int) && b < k,
                    None => best_upto(m, now, idle, k as int) == None::<int>,
                },
            decreases MAX_JOBS - k,
        {
            let job = self.jobs[k];
            let sub = self.subsystems[job.kind.index()];
            let cpu_period = budget_period_exec(sub.policy.cpu_budget);
            let io_period = budget_period_exec(sub.policy.io_budget);
            let eligible = job.occupied && job.state == JobState::Pending && !(sub.state == JobState::Paused || (
            sub.policy.schedule == 0 && !idle) || now % cpu_period != 0 || ((job.kind == JobType::Index || job.kind
                == JobType::Hydrate) && now % io_period != 0));
            if eligible {
                let better = match best {
                    None => true,
                    Some(b) => {
                        let current = self.jobs[b];
                        let rank = priority_rank_exec(job.priority);
                        let current_rank = priority_rank_exec(current.priority);
                        rank > current_rank || (rank == current_rank && job.submitted_at < current.submitted_at)
                    },
                };
                if better {
                    best = Some(k);
                }
            }
            k += 1;
        }
        let index = match best {
            Some(i) => i,
            None => return Ok(None),
        };
        let mut job = self.jobs[index];
        job.state = JobState::Running;
        job.progress = 10;
        job.started_at = now;
        self.jobs[index] = job;
        self.running_seq = job.seq;
        let kind = job.kind.index();
        let mut sub = self.subsystems[kind];
        sub.state = JobState::Running;
        self.subsystems[kind] = sub;
        Ok(Some(action_for(job)))
    }

    /// Offer the running CORRELATE job a peer to relate its target to.
    pub fn correlation_candidate(&mut self, peer: u64) -> (r: Result<WorkerAction, CoreError>)
        ensures
            r == correlate_spec(old(self)@, peer).0,
            final(self)@ == correlate_spec(old(self)@, peer).1,
    {
        let index = match self.running_index() {
            Some(i) => i,
            None => return Err(CoreError::MissingRunningJob),
        };
        let job = self.jobs[index];
        if job.kind != JobType::Correlate || peer == 0 || peer == job.target {
            return Err(CoreError::InvalidJob);
        }
        self.jobs[index] = Job { progress: 60, ..job };
        Ok(WorkerAction::CorrelatePromote { job_seq: job.seq, from: job.target, to: peer })
    }

    /// Report progress of the running job, capped at 99.
    pub fn set_progress(&mut self, progress: u8) -> (r: Result<(), CoreError>)
        ensures
            r == progress_model(old(self)@, progress).0,
            final(self)@ == progress_model(old(self)@, progress).1,
    {
        let index = match self.running_index() {
            Some(i) => i,
            None => return Err(CoreError::MissingRunningJob),
        };
        let job = self.jobs[index];
        self.jobs[index] = Job {
            progress: if progress < 99 {
                progress
            } else {
                99
            },
            ..job
        };
        Ok(())
    }

    /// Finish the running job, count it in its subsystem and free the worker.
    pub fn complete(&mut self, success: bool, completed_at: u64, verifier: i32) -> (r: Result<Job, CoreError>)
        ensures
            r == finish_spec(old(self)@, success, completed_at, verifier).0,
            final(self)@ == finish_spec(old(self)@, success, completed_at, verifier).1,
    {
        let index = match self.running_index() {
            Some(i) => i,
            None => return Err(CoreError::MissingRunningJob),
        };
        let mut job = self.jobs[index];
        let kind = job.kind.index();
        let mut sub = self.subsystems[kind];
        job.state = if success {
            JobState::Completed
        } else {
            JobState::Failed
        };
        if success {
            job.progress = 100;
            sub.completed = sub.completed.saturating_add(1);
        } else {
            sub.failed = sub.failed.saturating_add(1);
        }
        job.completed_at = completed_at;
        job.verifier = verifier;
        sub.state = JobState::Pending;
        self.jobs[index] = job;
        self.subsystems[kind] = sub;
        self.running_seq = 0;
        Ok(job)
    }

    /// After a restart, requeue the job that was running, with no progress.
    pub fn recover_interrupted(&mut self)
        ensures
            final(self)@ == (TrainerModel {
                jobs: match running_index_spec(old(self)@) {
                    Some(i) => old(self)@.jobs.update(i, Job { state: JobState::Pending, progress: 0, ..old(self)@.jobs[i] }),
                    None => old(self)@.jobs,
                },
                running_seq: 0,
                ..old(self)@
            }),
    {
        if let Some(index) = self.running_index() {
            let job = self.jobs[index];
            self.jobs[index] = Job { state: JobState::Pending, progress: 0, ..job };
        }
        self.running_seq = 0;
    }

    /// Install persisted state (sequence numbers start at 1 at least) and
    /// recover the job that was running.
    pub fn restore(&mut self, jobs: [Job; MAX_JOBS], subsystems: [Subsystem; SUBSYSTEM_COUNT], next_seq: u32, running_seq: u32)
        ensures
            final(self)@ == restore_model(jobs@, subsystems@, next_seq, running_seq),
    {
        self.jobs = jobs;
        self.subsystems = subsystems;
        self.next_seq = if next_seq < 1 {
            1
        } else {
            next_seq
        };
        self.running_seq = running_seq;
        self.recover_interrupted();
    }

    fn reusable_slot(&self) -> (r: Option<usize>)
        ensures
            match r {
                Some(i) => first_index(self@.jobs, reusable()) == Some(i as int),
                None => first_index(self@.jobs, reusable()) == None::<int>,
            },
    {
        let mut k: usize = 0;
        while k < MAX_JOBS
            invariant
                k <= MAX_JOBS,
                self@.jobs.len() == MAX_JOBS,
                forall|j: int| 0 <= j < k ==> !(#[trigger] reusable()(self@.jobs[j])),
            decreases MAX_JOBS - k,
        {
            let j = self.jobs[k];
            if !j.occupied || j.state == JobState::Completed || j.state == JobState::Failed {
                proof { lemma_first_found(self@.jobs, reusable(), k as int); }
                return Some(k);
            }
            k += 1;
        }
        proof { lemma_first_none(self@.jobs, reusable()); }
        None
    }

    /// Queue a job in the first free or finished slot and return its
    /// sequence number.
    pub fn submit(&mut self, kind: JobType, priority: u8, target: u64, submitted_at: u64, requester: u32) -> (r: Result<u32, CoreError>)
        ensures
            r == submit_model(old(self)@, kind, priority, target, submitted_at, requester).0,
            final(self)@ == submit_model(old(self)@, kind, priority, target, submitted_at, requester).1,
    {
        let index = match self.reusable_slot() {
            Some(i) => i,
            None => return Err(CoreError::QueueFull),
        };
        let seq = self.next_seq;
        self.next_seq = self.next_seq.saturating_add(1);
        self.jobs[index] = Job {
            seq,
            kind,
            priority,
            state: JobState::Pending,
            progress: 0,
            target,
            submitted_at,
            started_at: 0,
            completed_at: 0,
            requester,
            verifier: 0,
            occupied: true,
        };
        Ok(seq)
    }
}

// ---------------------------------------------------------------------------
// Scheduling laws
// ---------------------------------------------------------------------------

proof fn lemma_best_upto(m: TrainerModel, now: u64, idle: bool, k: int)
    requires
        m.wf(),
        0 <= k <= MAX_JOBS,
    ensures
        match best_upto(m, now, idle, k) {
            Some(b) => {
                &&& 0 <= b < k
                &&& claimable(m, now, idle, m.jobs[b])
                &&& forall|i: int| 0 <= i < k && claimable(m, now, idle, #[trigger] m.jobs[i]) ==> !claims_before(m.jobs[i], m.jobs[b])
                &&& forall|i: int| 0 <= i < b && claimable(m, now, idle, #[trigger] m.jobs[i]) ==> claims_before(m.jobs[b], m.jobs[i])
            },
            None => forall|i: int| 0 <= i < k ==> !claimable(m, now, idle, #[trigger] m.jobs[i]),
        },
    decreases k,
{
    if k > 0 {
        lemma_best_upto(m, now, idle, k - 1);
    }
}

/// A claim picks a claimable job that no other claimable job would be
/// claimed before: the highest priority rank, then the earliest submission;
/// it picks none only when no pending job is claimable.
pub proof fn lemma_claim_picks_best(m: TrainerModel, now: u64, idle: bool)
    requires
        m.wf(),
        m.running_seq == 0,
    ensures
        match claim_spec(m, now, idle).0 {
            Ok(Some(action)) => {
                let b = best_upto(m, now, idle, MAX_JOBS as int).unwrap();
                &&& claimable(m, now, idle, m.jobs[b])
                &&& action == action_for_spec(Job { state: JobState::Running, progress: 10, started_at: now, ..m.jobs[b] })
                &&& forall|i: int|
                    0 <= i < MAX_JOBS && claimable(m, now, idle, #[trigger] m.jobs[i]) ==> !claims_before(m.jobs[i], m.jobs[b])
            },
            Ok(None) => forall|i: int| 0 <= i < MAX_JOBS ==> !claimable(m, now, idle, #[trigger] m.jobs[i]),
            Err(_) => false,
        },
{
    lemma_best_upto(m, now, idle, MAX_JOBS as int);
}

/// What a claim does: refused as busy, changing nothing, while a job runs;
/// otherwise nothing changes when no job is claimable, and else the picked
/// job, a claimable one that every claimable job in an earlier slot yields
/// to, is marked running at 10% from `now`, becomes the running job, and its
/// subsystem is running.
pub proof fn lemma_claim_effects(m: TrainerModel, now: u64, idle: bool)
    requires
        m.wf(),
    ensures
        ({
            let (r, m2) = claim_spec(m, now, idle);
            &&& (r == Err::<Option<WorkerAction>, CoreError>(CoreError::Busy)) == (m.running_seq != 0)
            &&& r is Err ==> m2 == m
            &&& r == Ok::<Option<WorkerAction>, CoreError>(None) ==> m2 == m
            &&& r matches Ok(Some(_)) ==> {
                let b = best_upto(m, now, idle, MAX_JOBS as int).unwrap();
                let k = job_type_index(m.jobs[b].kind) as int;
                &&& 0 <= b < MAX_JOBS
                &&& claimable(m, now, idle, m.jobs[b])
                &&& forall|i: int|
                    0 <= i < b && claimable(m, now, idle, #[trigger] m.jobs[i]) ==> claims_before(m.jobs[b], m.jobs[i])
                &&& m2.jobs[b].state == JobState::Running
                &&& m2.jobs[b].progress == 10
                &&& m2.jobs[b].started_at == now
                &&& m2.running_seq == m.jobs[b].seq
                &&& m2.subsystems[k].state == JobState::Running
            }
        }),
{
    lemma_best_upto(m, now, idle, MAX_JOBS as int);
}

/// Claims go by priority, then first come first served: the claimed job is
/// a claimable one such that no claimable job has priority 1 unless it does,
/// none has priority 0 unless it has 1 or 0, and no claimable job of the
/// same priority class was submitted before it.
pub proof fn lemma_claim_fifo(m: TrainerModel, now: u64, idle: bool)
    requires
        m.wf(),
    ensures
        claim_spec(m, now, idle).0 matches Ok(Some(action)) ==> exists|b: int|
            0 <= b < MAX_JOBS && claimable(m, now, idle, #[trigger] m.jobs[b]) && action == action_for_spec(
                Job { state: JobState::Running, progress: 10, started_at: now, ..m.jobs[b] },
            ) && forall|i: int|
                0 <= i < MAX_JOBS && claimable(m, now, idle, #[trigger] m.jobs[i]) ==> {
                    &&& (m.jobs[b].priority != 1 ==> m.jobs[i].priority != 1)
                    &&& (m.jobs[b].priority != 1 && m.jobs[b].priority != 0 ==> m.jobs[i].priority != 0)
                    &&& ((m.jobs[i].priority == 1) == (m.jobs[b].priority == 1) && (m.jobs[i].priority == 0) == (
                    m.jobs[b].priority == 0) ==> m.jobs[b].submitted_at <= m.jobs[i].submitted_at)
                },
{
    lemma_best_upto(m, now, idle, MAX_JOBS as int);
    if let Ok(Some(action)) = claim_spec(m, now, idle).0 {
        let b = best_upto(m, now, idle, MAX_JOBS as int).unwrap();
        assert forall|i: int| 0 <= i < MAX_JOBS && claimable(m, now, idle, #[trigger] m.jobs[i]) implies {
            &&& (m.jobs[b].priority != 1 ==> m.jobs[i].priority != 1)
            &&& (m.jobs[b].priority != 1 && m.jobs[b].priority != 0 ==> m.jobs[i].priority != 0)
            &&& ((m.jobs[i].priority == 1) == (m.jobs[b].priority == 1) && (m.jobs[i].priority == 0) == (m.jobs[b].priority
                == 0) ==> m.jobs[b].submitted_at <= m.jobs[i].submitted_at)
        } by {
            assert(!claims_before(m.jobs[i], m.jobs[b]));
        }
        assert(claimable(m, now, idle, m.jobs[b]));
    }
}

/// One job runs at a time: after a claim hands out a job with a non-zero
/// sequence number, every further claim is refused as busy until the job
/// completes.
pub proof fn lemma_claim_then_busy(m: TrainerModel, now: u64, idle: bool, later: u64, later_idle: bool)
    requires
        m.wf(),
        claim_spec(m, now, idle).0 matches Ok(Some(_)),
        m.jobs[best_upto(m, now, idle, MAX_JOBS as int).unwrap()].seq != 0,
    ensures
        claim_spec(claim_spec(m, now, idle).1, later, later_idle).0 == Err::<Option<WorkerAction>, CoreError>(
            CoreError::Busy,
        ),
{
}

/// Pausing a subsystem stops its jobs from being claimed, whatever the tick
/// and idleness, until it is resumed.
pub proof fn lemma_pause_blocks_claims(m: TrainerModel, kind: JobType, policy: ResourcePolicy, now: u64, idle: bool)
    requires
        m.wf(),
    ensures
        forall|i: int|
            0 <= i < MAX_JOBS && (#[trigger] control_spec(m, kind, 1, policy).1.jobs[i]).kind == kind ==> !claimable(
                control_spec(m, kind, 1, policy).1,
                now,
                idle,
                control_spec(m, kind, 1, policy).1.jobs[i],
            ),
{
}

/// Recovery after a restart loses no job: every slot stays occupied or free
/// as it was, only the interrupted job returns to pending, and no job is
/// left marked as the running one.
pub proof fn lemma_recovery_keeps_jobs(m: TrainerModel)
    requires
        m.wf(),
    ensures
        ({
            let after = TrainerModel {
                jobs: match running_index_spec(m) {
                    Some(i) => m.jobs.update(i, Job { state: JobState::Pending, progress: 0, ..m.jobs[i] }),
                    None => m.jobs,
                },
                running_seq: 0,
                ..m
            };
            &&& after.running_seq == 0
            &&& forall|i: int| 0 <= i < MAX_JOBS ==> (#[trigger] after.jobs[i]).occupied == m.jobs[i].occupied
                && after.jobs[i].seq == m.jobs[i].seq && after.jobs[i].kind == m.jobs[i].kind
                && after.jobs[i].target == m.jobs[i].target
            &&& match running_index_spec(m) {
                Some(r) => after.jobs[r].state == JobState::Pending,
                None => after.jobs == m.jobs,
            }
        }),
{
}

} // verus!
