use laplacianos::bm25::Bm25Index;
use laplacianos::kinds::WEIGHT_ONE;
use laplacianos::pagerank::PageRankEngine;
use laplacianos::pipeline::{execute, Engines, RetrievalChannel};
use laplacianos::spectral::{
    fiedler_drift, latest_snapshot, record_snapshot, total_snapshots, SnapshotRing, SpectralSnapshot,
};
use laplacianos::temporal::{exp_neg_q16, ln_q16, lambda_for_half_life_ticks};
use laplacianos::walsh_math::{
    causal_min_cover_q16, cfcb, sqrt_q16, CausalMass, CfcbInput, CfcbRejectReason, CmcCandidate, CmcConfig,
};

#[test]
fn pagerank_scores_sum_to_one_and_rank_the_hub_first() {
    let mut engine = PageRankEngine::new();
    let a = engine.add_node(100).unwrap();
    let b = engine.add_node(200).unwrap();
    let c = engine.add_node(300).unwrap();
    assert!(engine.add_edge(a, c, WEIGHT_ONE));
    assert!(engine.add_edge(b, c, WEIGHT_ONE));
    assert!(engine.add_edge(c, a, WEIGHT_ONE));
    assert!(engine.compute() > 0);
    let total: u64 = (0..engine.node_count()).map(|i| engine.score(i) as u64).sum();
    assert!(total.abs_diff(WEIGHT_ONE as u64) <= 3);
    let mut top = [(0u64, 0u32); 2];
    assert_eq!(engine.top_k(&mut top), 2);
    assert_eq!(top[0].0, 300);
    assert!(top[0].1 >= top[1].1);
}

#[test]
fn pipeline_fuses_lexical_and_graph_evidence() {
    let mut index = Bm25Index::new();
    let doc = index.add_document(100).unwrap();
    assert!(index.index_term(b"kernel", doc));
    let mut engine = PageRankEngine::new();
    let a = engine.add_node(100).unwrap();
    let b = engine.add_node(200).unwrap();
    assert!(engine.add_edge(a, b, WEIGHT_ONE));
    let mut engines = Engines { bm25: &index, pagerank: &mut engine };
    let result = execute(b"  kernel  ", &mut engines, |id| id == 100);
    assert!(result.evidence_count >= 1);
    assert_eq!(result.evidence[0].node_id, 100);
    assert_eq!(result.evidence[0].primary_channel, RetrievalChannel::Lexical);
    assert_eq!(result.channels_used & 1, 1);
    assert_eq!(result.support_score, result.evidence[0].score);
    assert_eq!(result.provenance_live_nodes, 1);
    let mut engines = Engines { bm25: &index, pagerank: &mut engine };
    let missing = execute(b"absent", &mut engines, |_| true);
    assert!(missing.recovery_used);
    assert_eq!(missing.evidence_count, 0);
    let mut engines = Engines { bm25: &index, pagerank: &mut engine };
    assert!(!execute(b"   ", &mut engines, |_| true).recovery_used);
}

fn snapshot(generation: u64, fiedler: u32) -> SpectralSnapshot {
    let mut s = SpectralSnapshot::empty();
    s.generation = generation;
    s.node_count = 4;
    s.eigenvalues[1] = fiedler;
    s
}

#[test]
fn snapshot_ring_keeps_history_and_reports_drift() {
    let mut ring = SnapshotRing::new();
    assert!(record_snapshot(&mut ring, snapshot(1, 1000)));
    assert!(record_snapshot(&mut ring, snapshot(2, 800)));
    let mut implausible = snapshot(3, 0);
    implausible.node_count = 0;
    assert!(!record_snapshot(&mut ring, implausible));
    assert_eq!(total_snapshots(&ring), 2);
    assert_eq!(latest_snapshot(&ring).unwrap().generation, 2);
    assert_eq!(fiedler_drift(&ring, 2), Some((-200, true)));
}

#[test]
fn fixed_point_math_reference_values() {
    assert_eq!(exp_neg_q16(0), WEIGHT_ONE);
    assert_eq!(ln_q16(65536), 0);
    let ln2 = ln_q16(2 * 65536);
    assert!(ln2.abs_diff(45426) <= 45);
    assert_eq!(sqrt_q16(4 * WEIGHT_ONE), 2 * WEIGHT_ONE);
    assert_eq!(sqrt_q16(0), 0);
    assert_eq!(lambda_for_half_life_ticks(0), None);
}

fn base_input(faithfulness: &[u32]) -> CfcbInput<'_> {
    CfcbInput {
        faithfulness,
        causal_mass: WEIGHT_ONE,
        causal_mass_valid: true,
        causal_entity_count: 64,
        causal_sin_theta: 0,
        faith_floor: WEIGHT_ONE / 2,
        causal_floor: WEIGHT_ONE / 2,
        alpha: WEIGHT_ONE / 20,
    }
}

#[test]
fn cfcb_rejects_for_each_reason_and_accepts_strong_evidence() {
    let strong = [WEIGHT_ONE; 64];
    let report = cfcb(base_input(&strong));
    assert!(report.accept);
    assert_eq!(report.reject_reason, None);
    assert_eq!(cfcb(CfcbInput { faithfulness: &[], ..base_input(&strong) }).reject_reason, Some(CfcbRejectReason::NoFaithWindows));
    assert_eq!(
        cfcb(CfcbInput { causal_mass_valid: false, ..base_input(&strong) }).reject_reason,
        Some(CfcbRejectReason::InvalidCausalMass)
    );
    let weak = [0u32; 64];
    assert_eq!(
        cfcb(CfcbInput { faithfulness: &weak, ..base_input(&strong) }).reject_reason,
        Some(CfcbRejectReason::FaithLcbBelowFloor)
    );
    assert_eq!(
        cfcb(CfcbInput { causal_mass: 0, ..base_input(&strong) }).reject_reason,
        Some(CfcbRejectReason::CausalLcbBelowFloor)
    );
}

#[test]
fn causal_min_cover_selects_a_covering_candidate() {
    let mut first = CmcCandidate::empty();
    first.id = 1;
    first.entities[0] = 10;
    first.entities[1] = 11;
    first.entity_count = 2;
    let mut second = CmcCandidate::empty();
    second.id = 2;
    second.entities[0] = 10;
    second.entity_count = 1;
    let masses = [CausalMass { entity: 10, mass: WEIGHT_ONE }, CausalMass { entity: 11, mass: WEIGHT_ONE }];
    let report = causal_min_cover_q16(&[first, second], &masses, CmcConfig::default());
    assert!(report.selected_count >= 1);
    assert_eq!(report.selected[0], 1);
}

#[test]
fn syscall_kernel_stack_accepts_an_aligned_top() {
    laplacianos::context::set_syscall_kernel_stack(0x8000_0000);
}
