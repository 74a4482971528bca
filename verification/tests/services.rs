use laplacianos::trainer_service::{GraphQuery, TrainerAction, TrainerService};
use laplacianos::artifacts::{
    encode_descriptor, handle_message as catalog_message, parse_descriptor, registration_audit, registration_event,
    Catalog, CatalogReply, CATALOG_SNAPSHOT_CAP, TAG_CREATED, TAG_PING, TAG_QUERY,
};
use laplacianos::graph_runtime::{Mutation, SNAPSHOT_CAP};
use laplacianos::graph_service::{decode_mutation, encode_graph_event, encode_work_request, GraphService};
use laplacianos::message::{decode_message_word, MessageHeader};
use laplacianos::telemetry::{
    handle_message as telemetry_message, Observatory, TelemetryReply, TAG_AUDIT, TAG_DIAGNOSTIC_QUERY, TAG_EVENT,
    TELEMETRY_SNAPSHOT_CAP,
};
use laplacianos::trainer_core::{GraphWork, JobState, JobType, TrainerCore};
use laplacianos::trainer_service::{
    batch_path, control_request, correlation_peer, correlation_query, decode_trainer_snapshot, encode_trainer_snapshot,
    graph_ack, job_report, spectral_verifier, status, submit_receipt, submit_request, ControlOutcome,
    TRAINER_SNAPSHOT_CAP,
};

fn artifact_payload(node: u64, hash_byte: u8, size: u32) -> [u8; 37] {
    let mut p = [0u8; 37];
    p[0..8].copy_from_slice(&node.to_le_bytes());
    p[8..24].copy_from_slice(&[hash_byte; 16]);
    p[24] = 7;
    p[25..29].copy_from_slice(&size.to_le_bytes());
    p[29..37].copy_from_slice(&99u64.to_le_bytes());
    p
}

#[test]
fn message_words_split_into_length_tag_and_reply() {
    let raw = (42u64 << 24) | (0x51u64 << 16) | 37;
    assert_eq!(decode_message_word(raw, 256), Some(MessageHeader { len: 37, tag: 0x51, reply: 42 }));
    assert_eq!(decode_message_word(0, 256), None);
    assert_eq!(decode_message_word(u64::MAX, 256), None);
    assert_eq!(decode_message_word(300, 256), None);
}

#[test]
fn catalog_registers_once_and_finds_what_it_registered() {
    let mut catalog = Catalog::new();
    let first = catalog.register(&artifact_payload(10, 1, 500)).unwrap();
    assert_eq!((first.node_id, first.size, first.kind, first.created_at), (10, 500, 7, 99));
    assert_eq!(catalog.find(10), Some(first));
    assert_eq!(catalog.register(&artifact_payload(10, 2, 1)), Err(2));
    assert_eq!(catalog.register(&artifact_payload(11, 1, 1)), Err(2));
    assert_eq!(catalog.register(&artifact_payload(11, 2, 1)[..36]), Err(1));
    assert_eq!(catalog.count(), 1);
    assert_eq!(catalog.generation(), 1);
    assert_eq!(catalog.find(11), None);
}

#[test]
fn full_catalog_refuses_a_registration() {
    let mut catalog = Catalog::new();
    for i in 0..128u64 {
        let mut payload = artifact_payload(i + 1, 0, 1);
        payload[8..16].copy_from_slice(&i.to_le_bytes());
        assert!(catalog.register(&payload).is_ok());
    }
    let mut payload = artifact_payload(1000, 0, 1);
    payload[8] = 0xff;
    payload[9] = 0xff;
    assert_eq!(catalog.register(&payload), Err(3));
}

#[test]
fn catalog_snapshot_and_descriptor_round_trip() {
    let mut catalog = Catalog::new();
    let entry = catalog.register(&artifact_payload(5, 3, 77)).unwrap();
    let descriptor = encode_descriptor(&entry);
    assert_eq!(descriptor, artifact_payload(5, 3, 77));
    assert_eq!(parse_descriptor(&descriptor), entry);
    let mut bytes = [0u8; CATALOG_SNAPSHOT_CAP];
    catalog.encode_snapshot(&mut bytes);
    let mut restored = Catalog::new();
    assert!(!restored.decode_snapshot(&bytes[..100]));
    assert!(restored.decode_snapshot(&bytes));
    assert_eq!(restored.find(5), Some(entry));
    assert_eq!(restored.generation(), 1);
    let event = registration_event(&entry);
    assert_eq!(event[0], 40);
    assert_eq!(u64::from_le_bytes(event[1..9].try_into().unwrap()), 5);
    let audit = registration_audit(&entry, 12);
    assert_eq!(u64::from_le_bytes(audit[8..16].try_into().unwrap()), 12);
    assert_eq!((audit[16], audit[17]), (1, 1));
}

#[test]
fn catalog_answers_messages() {
    let mut catalog = Catalog::new();
    assert!(matches!(catalog_message(&mut catalog, TAG_CREATED, &artifact_payload(8, 4, 2)), CatalogReply::Registered(a) if a.node_id == 8));
    assert!(matches!(catalog_message(&mut catalog, TAG_QUERY, &8u64.to_le_bytes()), CatalogReply::Found(a) if a.node_id == 8));
    assert_eq!(catalog_message(&mut catalog, TAG_QUERY, &9u64.to_le_bytes()), CatalogReply::Error(1));
    assert_eq!(catalog_message(&mut catalog, TAG_QUERY, &[1, 2]), CatalogReply::Error(1));
    let mut health = [0u8; 12];
    health[0] = 1;
    health[8] = 1;
    assert_eq!(catalog_message(&mut catalog, TAG_PING, &[]), CatalogReply::Pong(health));
    assert_eq!(catalog_message(&mut catalog, 0x04, &[]), CatalogReply::Shutdown);
    assert_eq!(catalog_message(&mut catalog, 0x77, &[]), CatalogReply::Error(0xff));
}

fn event_payload(kind: u8, timestamp: u64) -> [u8; 29] {
    let mut p = [0u8; 29];
    p[0] = kind;
    p[1..9].copy_from_slice(&3u64.to_le_bytes());
    p[17..21].copy_from_slice(&4u32.to_le_bytes());
    p[21..29].copy_from_slice(&timestamp.to_le_bytes());
    p
}

#[test]
fn telemetry_counts_events_and_round_trips_its_snapshot() {
    let mut state = Observatory::new();
    assert!(state.push_event(&event_payload(0, 1)));
    assert!(state.push_event(&event_payload(11, 2)));
    assert!(state.push_event(&event_payload(20, 77)));
    assert!(!state.push_event(&[0u8; 28]));
    assert!(state.push_audit(&[0u8; 26]));
    assert!(!state.push_audit(&[0u8; 25]));
    assert!(state.set_cognitive(&[3u8; 18]));
    let diagnostics = state.diagnostics();
    assert_eq!(u32::from_le_bytes(diagnostics[0..4].try_into().unwrap()), 1);
    assert_eq!(u32::from_le_bytes(diagnostics[4..8].try_into().unwrap()), 1);
    assert_eq!(u32::from_le_bytes(diagnostics[8..12].try_into().unwrap()), 0);
    assert_eq!(u64::from_le_bytes(diagnostics[19..27].try_into().unwrap()), 77);
    assert_eq!(u64::from_le_bytes(diagnostics[31..39].try_into().unwrap()), 3);
    assert_eq!(u64::from_le_bytes(diagnostics[39..47].try_into().unwrap()), 1);
    assert_eq!((diagnostics[47], diagnostics[48]), (1, 3));
    let mut bytes = [0u8; TELEMETRY_SNAPSHOT_CAP];
    state.encode_snapshot(&mut bytes);
    assert_eq!(&bytes[0..4], b"SYD1");
    let mut restored = Observatory::new();
    assert!(restored.decode_snapshot(&bytes));
    assert_eq!(restored.diagnostics(), diagnostics);
    let mut again = [0u8; TELEMETRY_SNAPSHOT_CAP];
    restored.encode_snapshot(&mut again);
    assert_eq!(again, bytes);
    bytes[0] = b'X';
    assert!(!restored.decode_snapshot(&bytes));
}

#[test]
fn telemetry_answers_messages() {
    let mut state = Observatory::new();
    assert_eq!(telemetry_message(&mut state, TAG_EVENT, &event_payload(12, 5)), TelemetryReply::Recorded);
    assert_eq!(telemetry_message(&mut state, TAG_AUDIT, &[0u8; 3]), TelemetryReply::Ignored);
    assert!(matches!(telemetry_message(&mut state, TAG_DIAGNOSTIC_QUERY, &[]), TelemetryReply::Diagnostics(d) if d[8] == 1));
    assert_eq!(telemetry_message(&mut state, 0x04, &[]), TelemetryReply::Shutdown);
    assert_eq!(telemetry_message(&mut state, 0x99, &[]), TelemetryReply::Ignored);
}

fn mutation_request(op: u8, kind: u8, from: u64, to: u64, target: u64) -> [u8; 48] {
    let mut p = [0u8; 48];
    p[0] = op;
    p[1] = kind;
    p[2] = kind;
    p[4..8].copy_from_slice(&5i32.to_le_bytes());
    p[8..16].copy_from_slice(&from.to_le_bytes());
    p[16..24].copy_from_slice(&to.to_le_bytes());
    p[24..32].copy_from_slice(&target.to_le_bytes());
    p
}

#[test]
fn graph_service_applies_mutations_and_answers_queries() {
    let mut service = GraphService::new();
    let a = service.mutate(&mutation_request(0, 1, 9, 0, 0)).unwrap();
    let b = service.mutate(&mutation_request(0, 2, 9, a, 0)).unwrap();
    assert!(service.mutate(&mutation_request(1, 3, a, b, 0)).is_ok());
    assert_eq!(service.mutate(&mutation_request(1, 3, a, 999, 0)), Err(3));
    assert_eq!(service.mutate(&mutation_request(9, 0, 0, 0, 0)), Err(2));
    assert_eq!(service.mutate(&[0u8; 10]), Err(1));
    let mut out = [0u8; 160];
    let mut query = [0u8; 32];
    query[0] = 0;
    query[8..16].copy_from_slice(&a.to_le_bytes());
    assert_eq!(service.query(&query, &mut out), 144);
    assert_eq!(out[1], 1);
    assert_eq!(u64::from_le_bytes(out[16..24].try_into().unwrap()), a);
    query[0] = 6;
    assert_eq!(service.query(&query, &mut out), 56);
    assert_eq!(u32::from_le_bytes(out[0..4].try_into().unwrap()), 2);
    assert_eq!(u32::from_le_bytes(out[4..8].try_into().unwrap()), 1);
    assert_eq!(out[8], 2);
    assert_eq!(i32::from_le_bytes(out[16..20].try_into().unwrap()), 32768);
    query[0] = 10;
    assert_eq!(service.query(&query, &mut out), 32);
    assert_eq!(u32::from_le_bytes(out[8..12].try_into().unwrap()), 2);
    query[0] = 7;
    assert_eq!(service.query(&query, &mut out), 112);
    assert_eq!(out[0], 3);
    assert_eq!(service.query(&[0u8; 4], &mut out), 16);
    assert_eq!(out[0], 1);
}

#[test]
fn graph_service_restores_and_keeps_subscribers() {
    let mut service = GraphService::new();
    assert!(!service.subscribe(0));
    assert!(service.subscribe(7));
    assert!(service.subscribe(7));
    assert_eq!(service.subscribers(), vec![7]);
    let id = service.mutate(&mutation_request(0, 1, 0, 0, 0)).unwrap();
    let mut bytes = [0u8; SNAPSHOT_CAP];
    service.graph().encode_snapshot(&mut bytes).unwrap();
    let mut restored = GraphService::new();
    assert!(!restored.restore(&bytes[..10]));
    assert!(restored.restore(&bytes));
    assert_eq!(restored.graph().node(id).unwrap().kind, 1);
    let event = encode_graph_event(0, 1, id);
    assert_eq!(u64::from_le_bytes(event[16..24].try_into().unwrap()), id);
}

#[test]
fn trainer_work_requests_decode_to_the_work_they_carry() {
    let edge = GraphWork::AddEdge { kind: 300, weight: -4, from: 11, to: 12, provenance: 5 };
    let request = encode_work_request(edge);
    assert_eq!(
        decode_mutation(&request, 9),
        Ok((Mutation::AddEdge { kind: 255, flags: 0, weight: -4, from: 11, to: 12, now: 9 }, 11))
    );
    let node = GraphWork::AddNode { kind: 2, flags: 3, weight: 8, parent: 77, provenance: 101 };
    assert_eq!(
        decode_mutation(&encode_work_request(node), 1),
        Ok((Mutation::AddNode { kind: 2, flags: 3, weight: 8, parent: 77, now: 1 }, 101))
    );
}

fn submit_payload(kind: u8, target: u64) -> [u8; 24] {
    let mut p = [0u8; 24];
    p[0] = kind;
    p[1] = 1;
    p[8..16].copy_from_slice(&target.to_le_bytes());
    p[16..24].copy_from_slice(&3u64.to_le_bytes());
    p
}

#[test]
fn trainer_requests_and_reports() {
    let mut core = TrainerCore::new();
    assert_eq!(submit_request(&mut core, &submit_payload(9, 1), 4), Err(1));
    assert_eq!(submit_request(&mut core, &[0u8; 5], 4), Err(1));
    assert_eq!(submit_request(&mut core, &submit_payload(1, 42), 4), Ok(1));
    let mut control = [0u8; 16];
    control[0] = 1;
    control[1] = 0;
    control[2] = 2;
    control[3] = 2;
    control[4] = 1;
    assert_eq!(control_request(&mut core, &control), ControlOutcome { controlled: true, interrupted: false });
    assert_eq!(control_request(&mut core, &[0u8; 3]), ControlOutcome { controlled: false, interrupted: false });
    assert!(core.claim_next(10).unwrap().is_some());
    control[1] = 1;
    assert_eq!(control_request(&mut core, &control), ControlOutcome { controlled: true, interrupted: true });
    let job = core.jobs()[0];
    let report = job_report(&job);
    assert_eq!((report[0], report[1]), (1, 2));
    assert_eq!(u64::from_le_bytes(report[8..16].try_into().unwrap()), 42);
    assert_eq!(submit_receipt(5), [0, 0, 0, 0, 5, 0, 0, 0]);
    let status = status(&core);
    assert_eq!(status[12], 2);
    assert_eq!(u32::from_le_bytes(status[52..56].try_into().unwrap()), 2);
}

#[test]
fn graph_answers_read_back_by_the_trainer() {
    let mut answer = [0u8; 64];
    answer[1] = 2;
    answer[16..24].copy_from_slice(&42u64.to_le_bytes());
    answer[32..40].copy_from_slice(&43u64.to_le_bytes());
    assert_eq!(correlation_peer(&answer, 42), Some(43));
    assert_eq!(correlation_peer(&answer, 7), Some(42));
    answer[1] = 0;
    assert_eq!(correlation_peer(&answer, 42), None);
    let mut structural = [0u8; 56];
    structural[32..40].copy_from_slice(&0xf0u64.to_le_bytes());
    structural[40..44].copy_from_slice(&(-1i32).to_le_bytes());
    structural[48..56].copy_from_slice(&0x0fu64.to_le_bytes());
    assert_eq!(spectral_verifier(&structural), Some(0x7fff_ff00));
    assert_eq!(spectral_verifier(&structural[..20]), None);
    let mut ack = [0u8; 24];
    ack[8..16].copy_from_slice(&5u64.to_le_bytes());
    ack[16..24].copy_from_slice(&6u64.to_le_bytes());
    assert_eq!(graph_ack(&ack), Some((5, 6)));
    ack[0] = 1;
    assert_eq!(graph_ack(&ack), None);
    let query = correlation_query(9);
    assert_eq!((query[0], query[4]), (4, 8));
    let (path, len) = batch_path(JobType::Index, 0xab);
    assert_eq!(&path[..len], b"/persist/trainerd.index.00000000000000ab");
    let (path, len) = batch_path(JobType::Hydrate, u64::MAX);
    assert_eq!(&path[..len], b"/persist/trainerd.hydrate.ffffffffffffffff");
}

#[test]
fn trainer_snapshot_round_trips() {
    let mut core = TrainerCore::new();
    core.submit(JobType::Spectral, 0, 7, 1, 2).unwrap();
    core.claim_next(5).unwrap();
    let mut bytes = [0u8; TRAINER_SNAPSHOT_CAP];
    encode_trainer_snapshot(&core, 77, &mut bytes);
    assert_eq!(&bytes[0..4], b"TRN2");
    let (jobs, subsystems, next_seq, running_seq, clock) = decode_trainer_snapshot(&bytes).unwrap();
    assert_eq!(&jobs, core.jobs());
    assert_eq!(&subsystems, core.subsystems());
    assert_eq!((next_seq, running_seq, clock), (core.next_seq(), core.running_seq(), 77));
    assert_eq!(jobs[0].state, JobState::Running);
    bytes[96 + 1] = 9;
    assert!(decode_trainer_snapshot(&bytes).is_none());
    assert!(decode_trainer_snapshot(&bytes[..10]).is_none());
}


fn submit_job(kind: u8, target: u64) -> [u8; 24] {
    let mut p = [0u8; 24];
    p[0] = kind;
    p[1] = 1;
    p[8..16].copy_from_slice(&target.to_le_bytes());
    p
}

#[test]
fn trainer_service_runs_a_correlation_through_the_graph_service() {
    let mut service = TrainerService::new();
    assert_eq!(service.submit(&submit_job(1, 10), 5), Ok(1));
    let actions = service.dispatch(true);
    assert_eq!(actions[0], TrainerAction::Persist);
    assert!(matches!(actions[1], TrainerAction::Report(job) if job.seq == 1));
    assert!(matches!(actions[2], TrainerAction::Event { kind: 32, node: 10, value: 1, .. }));
    assert_eq!(actions[3], TrainerAction::SendQuery(GraphQuery::Neighbours(10)));
    let mut answer = [0u8; 32];
    answer[1] = 1;
    answer[16..24].copy_from_slice(&11u64.to_le_bytes());
    let actions = service.handle_graph_result(&answer);
    assert_eq!(
        actions.last(),
        Some(&TrainerAction::SendWork(GraphWork::AddEdge { kind: 30, weight: 1, from: 10, to: 11, provenance: 1 }))
    );
    let mut ack = [0u8; 24];
    ack[8..16].copy_from_slice(&7u64.to_le_bytes());
    ack[16..24].copy_from_slice(&99u64.to_le_bytes());
    let actions = service.handle_graph_ack(&ack);
    assert!(matches!(actions[1], TrainerAction::Report(job) if job.state == JobState::Completed && job.verifier == 7));
    assert!(matches!(actions[2], TrainerAction::Event { kind: 31, .. }));
    assert!(service.dispatch(true).is_empty());
}

#[test]
fn trainer_service_runs_an_index_batch_and_fails_a_missing_one() {
    let mut service = TrainerService::new();
    assert_eq!(service.submit(&submit_job(0, 77), 5), Ok(1));
    let actions = service.dispatch(true);
    assert_eq!(actions.last(), Some(&TrainerAction::LoadBatch { mode: JobType::Index, owner: 77 }));
    let actions = service.begin_batch(None, JobType::Index, 77);
    assert!(matches!(actions[1], TrainerAction::Report(job) if job.state == JobState::Failed));
    assert_eq!(service.submit(&submit_job(0, 77), 5), Ok(2));
    service.dispatch(true);
    let mut bytes = vec![0u8; 32 + 40];
    bytes[..4].copy_from_slice(b"TRB1");
    bytes[4] = 1;
    bytes[5] = 0;
    bytes[6..8].copy_from_slice(&1u16.to_le_bytes());
    bytes[8..16].copy_from_slice(&77u64.to_le_bytes());
    bytes[32..40].copy_from_slice(&100u64.to_le_bytes());
    bytes[56..58].copy_from_slice(&2u16.to_le_bytes());
    let checksum = laplacianos::trainer_core::hash_bytes(&bytes[32..]);
    bytes[16..24].copy_from_slice(&checksum.to_le_bytes());
    let actions = service.begin_batch(Some(&bytes), JobType::Index, 77);
    assert!(matches!(actions.last(), Some(TrainerAction::SendWork(GraphWork::AddNode { parent: 77, .. }))));
    let mut ack = [0u8; 24];
    ack[8..16].copy_from_slice(&3u64.to_le_bytes());
    ack[16..24].copy_from_slice(&500u64.to_le_bytes());
    let actions = service.handle_graph_ack(&ack);
    assert!(matches!(actions[1], TrainerAction::Report(job) if job.state == JobState::Completed));
    assert!(service.send_failed().is_empty());
}
