use laplacianos::graph_runtime::{GraphRuntime, Mutation};
use laplacianos::trainer_core::{
    decode_batch, hash_bytes, JobType, TrainerCore, WorkerAction, BATCH_HEADER_SIZE, BATCH_RECORD_SIZE,
};
use laplacianos::trainerd::{execute_batch, execute_correlation, execute_spectral};

fn encoded_batch(mode: JobType, owner: u64) -> Vec<u8> {
    let mut bytes = vec![0u8; BATCH_HEADER_SIZE + 2 * BATCH_RECORD_SIZE];
    bytes[..4].copy_from_slice(b"TRB1");
    bytes[4] = 1;
    bytes[5] = mode as u8;
    bytes[6..8].copy_from_slice(&2u16.to_le_bytes());
    bytes[8..16].copy_from_slice(&owner.to_le_bytes());
    let a = BATCH_HEADER_SIZE;
    bytes[a..a + 8].copy_from_slice(&101u64.to_le_bytes());
    bytes[a + 24..a + 26].copy_from_slice(&2u16.to_le_bytes());
    bytes[a + 32..a + 36].copy_from_slice(&8i32.to_le_bytes());
    let b = a + BATCH_RECORD_SIZE;
    bytes[b..b + 8].copy_from_slice(&102u64.to_le_bytes());
    bytes[b + 8..b + 16].copy_from_slice(&101u64.to_le_bytes());
    bytes[b + 16..b + 24].copy_from_slice(&101u64.to_le_bytes());
    bytes[b + 24..b + 26].copy_from_slice(&3u16.to_le_bytes());
    bytes[b + 26..b + 28].copy_from_slice(&7u16.to_le_bytes());
    bytes[b + 32..b + 36].copy_from_slice(&13i32.to_le_bytes());
    let checksum = hash_bytes(&bytes[BATCH_HEADER_SIZE..]);
    bytes[16..24].copy_from_slice(&checksum.to_le_bytes());
    bytes
}

#[test]
fn index_and_hydrate_share_acknowledged_batch_engine() {
    for mode in [JobType::Index, JobType::Hydrate] {
        let owner = 1;
        let bytes = encoded_batch(mode, owner);
        let batch = decode_batch(&bytes, owner, mode).unwrap();
        let mut graph = GraphRuntime::new();
        let mut now = 0;
        assert_eq!(
            graph
                .apply(Mutation::AddNode { kind: 1, flags: 0, weight: 1, parent: 0, now }, 99)
                .unwrap(),
            owner
        );
        let verifier = execute_batch(&mut graph, batch, &mut now).unwrap();
        assert_eq!(graph.spectral_snapshot().active_nodes, 3);
        assert_eq!(graph.spectral_snapshot().active_edges, 1);
        assert_ne!(verifier, 0);
        execute_batch(&mut graph, batch, &mut now).unwrap();
        assert_eq!(graph.spectral_snapshot().active_nodes, 3);
        assert_eq!(graph.spectral_snapshot().active_edges, 1);
    }
}

#[test]
fn correlation_and_spectral_complete_through_shared_scheduler() {
    let mut graph = GraphRuntime::new();
    let mut now = 1;
    let a = graph
        .apply(Mutation::AddNode { kind: 1, flags: 0, weight: 10, parent: 0, now }, 1)
        .unwrap();
    now += 1;
    let b = graph
        .apply(Mutation::AddNode { kind: 1, flags: 0, weight: 9, parent: 0, now }, 2)
        .unwrap();
    now += 1;
    graph
        .apply(Mutation::AddEdge { kind: 1, flags: 0, weight: 5, from: a, to: b, now }, 3)
        .unwrap();
    let mut core = TrainerCore::new();
    core.submit(JobType::Correlate, 1, a, now, 8).unwrap();
    assert!(matches!(core.claim_next(now + 1).unwrap(), Some(WorkerAction::CorrelateQuery { .. })));
    assert_ne!(execute_correlation(&mut core, &mut graph, &mut now).unwrap(), 0);
    core.submit(JobType::Spectral, 1, 0, now, 8).unwrap();
    assert!(matches!(core.claim_next(now + 1).unwrap(), Some(WorkerAction::SpectralRefresh { .. })));
    assert_ne!(execute_spectral(&mut core, &graph, now + 2).unwrap(), 0);
}
