use laplacianos::kinds::{EdgeKind, NodeKind, NodeId, Weight, WEIGHT_ONE};
use laplacianos::spectral::ReviewSignalDetector;
use laplacianos::temporal::{
    accumulate_transition, decay_weight_q16, exp_neg_q16, get_decay, heuristic_type_pair_adaptation, init,
    lambda_for_half_life_ticks, rate_per_day_to_rate_per_tick_q16, TemporalState, LN_2_Q16,
};
use laplacianos::typed_operator::{evaluate_message, TypeChannelOperator, TypeSignal, TypedMessage};
use laplacianos::walk::{
    normalized_transition_distribution, sample_transition, TransitionCandidate, TransitionProbability, WalkRng,
};

fn task() -> NodeKind {
    NodeKind::from_u16(3).unwrap()
}

fn service() -> NodeKind {
    NodeKind::from_u16(4).unwrap()
}

fn relative_error(actual: u32, expected: f64) -> f64 {
    ((actual as f64 / 65_536.0) - expected).abs() / expected.max(1e-12)
}

#[test]
fn stationary_data_does_not_accumulate_and_shift_triggers() {
    let mut detector = ReviewSignalDetector::default_detector();
    detector.begin_baseline(4);
    for _ in 0..4 {
        assert!(!detector.observe(WEIGHT_ONE));
    }
    for offset in [200, 0, 100, 0, 200, 0] {
        assert!(!detector.observe(WEIGHT_ONE + offset));
    }
    let mut alarm = false;
    for _ in 0..16 {
        alarm |= detector.observe(WEIGHT_ONE - 4_000);
    }
    assert!(alarm);
    detector.reset(WEIGHT_ONE);
    assert_eq!(detector.s_neg, 0);
}

#[test]
fn exponential_reference_points_and_monotonicity() {
    assert_eq!(exp_neg_q16(0), WEIGHT_ONE);
    assert!(relative_error(exp_neg_q16(LN_2_Q16 as u64), 0.5) < 1e-4);
    assert!(relative_error(exp_neg_q16(WEIGHT_ONE as u64), (-1.0f64).exp()) < 1e-3);
    let mut previous = WEIGHT_ONE;
    for x in 0..=(8 * WEIGHT_ONE) {
        let current = exp_neg_q16(x as u64);
        assert!(current <= previous);
        previous = current;
    }
}

#[test]
fn half_life_and_tick_scaling_are_not_shifted_twice() {
    let lambda = lambda_for_half_life_ticks(100).unwrap();
    let decayed = decay_weight_q16(WEIGHT_ONE, lambda, 100);
    assert!(relative_error(decayed, 0.5) < 0.01);
    assert_eq!(rate_per_day_to_rate_per_tick_q16(WEIGHT_ONE, 86_400), WEIGHT_ONE);
}

#[test]
fn adaptation_uses_q16_not_q32_scaling() {
    let mut state = TemporalState::new();
    init(&mut state);
    for _ in 0..8 {
        accumulate_transition(&mut state, None, task(), service(), 4);
    }
    assert_eq!(heuristic_type_pair_adaptation(&mut state), 1);
    assert_eq!(get_decay(&state, task(), service()), WEIGHT_ONE / 4);
}

#[test]
fn identity_operator_preserves_all_38_channels() {
    let mut signal = TypeSignal::zero();
    for (index, value) in signal.data.iter_mut().enumerate() {
        *value = ((index + 1) as u32) << 12;
    }
    assert_eq!(TypeChannelOperator::identity().apply(&signal), signal);
}

#[test]
fn message_coefficient_and_decay_are_independent() {
    let message = TypedMessage {
        source_kind: task(),
        destination_kind: service(),
        edge_kind: EdgeKind { code: 2 },
        edge_weight_q16: WEIGHT_ONE,
        source_value_q16: WEIGHT_ONE,
        coefficient_q16: WEIGHT_ONE / 2,
        lambda_per_tick_q16: 0,
        elapsed_ticks: 10,
    };
    assert_eq!(evaluate_message(&message), WEIGHT_ONE / 2);
}

fn candidate(node: NodeId, weight: Weight) -> TransitionCandidate {
    TransitionCandidate {
        node,
        edge_weight_q16: weight,
        lambda_per_tick_q16: 0,
        elapsed_ticks: 0,
        is_previous_node: false,
        is_adjacent_to_previous: true,
        valid_edge: true,
    }
}

#[test]
fn unbiased_distribution_reduces_to_weighted_first_order_walk() {
    let candidates = [candidate(1, WEIGHT_ONE), candidate(2, WEIGHT_ONE * 3)];
    let mut output = [TransitionProbability { node: 0, probability_q16: 0 }; 2];
    normalized_transition_distribution(&candidates, false, WEIGHT_ONE, WEIGHT_ONE, &mut output);
    assert_eq!(output[0].probability_q16, WEIGHT_ONE / 4);
    assert_eq!(output.iter().map(|entry| entry.probability_q16).sum::<u32>(), WEIGHT_ONE);
}

#[test]
fn invalid_edges_have_no_mass_and_seeded_replay_is_deterministic() {
    let mut candidates = [candidate(1, WEIGHT_ONE), candidate(2, WEIGHT_ONE)];
    candidates[1].valid_edge = false;
    let mut output = [TransitionProbability { node: 0, probability_q16: 0 }; 2];
    normalized_transition_distribution(&candidates, true, WEIGHT_ONE, WEIGHT_ONE, &mut output);
    assert_eq!(output[1].probability_q16, 0);
    let mut first = WalkRng::seeded(42);
    let mut second = WalkRng::seeded(42);
    for _ in 0..32 {
        assert_eq!(sample_transition(&output, &mut first), sample_transition(&output, &mut second));
    }
}

#[test]
fn fully_decayed_candidates_share_mass_by_edge_weight() {
    let mut candidates = [candidate(1, WEIGHT_ONE), candidate(2, WEIGHT_ONE * 3), candidate(3, WEIGHT_ONE)];
    for entry in candidates.iter_mut() {
        entry.lambda_per_tick_q16 = WEIGHT_ONE;
        entry.elapsed_ticks = 100;
    }
    candidates[2].valid_edge = false;
    let mut output = [TransitionProbability { node: 0, probability_q16: 0 }; 3];
    assert_eq!(normalized_transition_distribution(&candidates, false, WEIGHT_ONE, WEIGHT_ONE, &mut output), 3);
    assert_eq!(output[0].probability_q16, WEIGHT_ONE / 4);
    assert_eq!(output[1].probability_q16, WEIGHT_ONE * 3 / 4);
    assert_eq!(output[2].probability_q16, 0);
    let single = [TransitionCandidate { lambda_per_tick_q16: WEIGHT_ONE, elapsed_ticks: 100, ..candidate(7, WEIGHT_ONE) }];
    let mut one = [TransitionProbability { node: 0, probability_q16: 0 }; 1];
    assert_eq!(normalized_transition_distribution(&single, true, WEIGHT_ONE, WEIGHT_ONE, &mut one), 1);
    assert_eq!(one[0], TransitionProbability { node: 7, probability_q16: WEIGHT_ONE });
}
