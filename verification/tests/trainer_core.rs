use laplacianos::trainer_core::{
    decode_batch, default_policy, hash_bytes, BatchError, BatchExecution, CoreError, GraphWork, JobState, JobType,
    ResourcePolicy, TrainerCore, WorkerAction, BATCH_HEADER_SIZE, BATCH_RECORD_SIZE,
};

#[test]
fn claims_highest_priority_and_waits_for_receipt() {
    let mut core = TrainerCore::new();
    core.submit(JobType::Index, 0, 10, 1, 4).unwrap();
    core.submit(JobType::Spectral, 1, 0, 2, 5).unwrap();
    assert_eq!(core.claim_next(3).unwrap(), Some(WorkerAction::SpectralRefresh { job_seq: 2 }));
    assert_eq!(core.claim_next(4), Err(CoreError::Busy));
    assert_eq!(core.complete(true, 5, 99).unwrap().state, JobState::Completed);
}

#[test]
fn pause_and_recovery_preserve_work() {
    let mut core = TrainerCore::new();
    core.submit(JobType::Hydrate, 1, 42, 1, 7).unwrap();
    core.control(JobType::Hydrate, 1, default_policy()).unwrap();
    assert_eq!(core.claim_next(2).unwrap(), None);
    core.control(JobType::Hydrate, 2, default_policy()).unwrap();
    assert!(matches!(core.claim_next(3).unwrap(), Some(WorkerAction::Hydrate { .. })));
    core.recover_interrupted();
    assert_eq!(core.pending_count(), 1);
}

#[test]
fn budgets_and_idle_schedule_gate_claiming() {
    let mut core = TrainerCore::new();
    core.submit(JobType::Index, 1, 42, 1, 7).unwrap();
    core.control(JobType::Index, 0, ResourcePolicy { cpu_budget: 1, io_budget: 1, schedule: 0 }).unwrap();
    assert_eq!(core.claim_next_with_context(2, false).unwrap(), None);
    assert!(core.claim_next_with_context(4, true).unwrap().is_some());
    core.complete(true, 5, 1).unwrap();
    core.submit(JobType::Hydrate, 1, 43, 5, 7).unwrap();
    core.control(JobType::Hydrate, 0, ResourcePolicy { cpu_budget: 0, io_budget: 0, schedule: 1 }).unwrap();
    assert_eq!(core.claim_next_with_context(6, true).unwrap(), None);
    assert!(core.claim_next_with_context(8, false).unwrap().is_some());
}

#[test]
fn correlation_requires_a_distinct_candidate() {
    let mut core = TrainerCore::new();
    core.submit(JobType::Correlate, 1, 10, 1, 7).unwrap();
    core.claim_next(2).unwrap();
    assert_eq!(core.correlation_candidate(10), Err(CoreError::InvalidJob));
    assert_eq!(
        core.correlation_candidate(11).unwrap(),
        WorkerAction::CorrelatePromote { job_seq: 1, from: 10, to: 11 }
    );
}

#[test]
fn batch_waits_for_graph_ack_and_resolves_relations() {
    let mut bytes = [0u8; BATCH_HEADER_SIZE + 2 * BATCH_RECORD_SIZE];
    bytes[..4].copy_from_slice(b"TRB1");
    bytes[4] = 1;
    bytes[5] = JobType::Index as u8;
    bytes[6..8].copy_from_slice(&2u16.to_le_bytes());
    bytes[8..16].copy_from_slice(&77u64.to_le_bytes());
    let first = BATCH_HEADER_SIZE;
    bytes[first..first + 8].copy_from_slice(&100u64.to_le_bytes());
    bytes[first + 24..first + 26].copy_from_slice(&2u16.to_le_bytes());
    let second = first + BATCH_RECORD_SIZE;
    bytes[second..second + 8].copy_from_slice(&101u64.to_le_bytes());
    bytes[second + 8..second + 16].copy_from_slice(&100u64.to_le_bytes());
    bytes[second + 16..second + 24].copy_from_slice(&100u64.to_le_bytes());
    bytes[second + 24..second + 26].copy_from_slice(&3u16.to_le_bytes());
    bytes[second + 26..second + 28].copy_from_slice(&9u16.to_le_bytes());
    let checksum = hash_bytes(&bytes[BATCH_HEADER_SIZE..]);
    bytes[16..24].copy_from_slice(&checksum.to_le_bytes());
    let batch = decode_batch(&bytes, 77, JobType::Index).unwrap();
    let mut execution = BatchExecution::new(batch);
    assert!(matches!(execution.next().unwrap(), Some(GraphWork::AddNode { parent: 77, .. })));
    assert_eq!(execution.next(), Err(BatchError::UnexpectedAck));
    execution.acknowledge(500, 1).unwrap();
    assert!(matches!(execution.next().unwrap(), Some(GraphWork::AddNode { parent: 500, .. })));
    execution.acknowledge(501, 2).unwrap();
    assert!(matches!(execution.next().unwrap(), Some(GraphWork::AddEdge { from: 501, to: 500, .. })));
    execution.acknowledge(900, 3).unwrap();
    assert!(execution.is_complete());
    assert_ne!(execution.verifier_code(), 0);
}
