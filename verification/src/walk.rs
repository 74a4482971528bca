//! Graph-walk state and normalized second-order (node2vec-style) PowerWalk
//! transition distributions, with a seeded generator for reproducible replay.

use vstd::prelude::*;
use crate::kinds::{EdgeKind, NodeId, NodeKind, Timestamp, Weight, WEIGHT_ONE};
use crate::temporal::{decay_spec, decay_weight_q16};
use crate::graph_runtime::xorshift;

verus! {

pub const MAX_WALK_LEN: usize = 64;

/// Positions of a walk: the origin and one per step.
pub const WALK_STEPS: usize = 65;

#[derive(Clone, Copy, Debug, PartialEq, Eq, Structural)]
pub struct WalkStep {
    pub node: NodeId,
    pub timestamp: Timestamp,
}

pub open spec fn empty_step_spec() -> WalkStep {
    WalkStep { node: 0, timestamp: 0 }
}

/// The filler of positions a walk has not reached.
#[verifier::when_used_as_spec(empty_step_spec)]
pub fn empty_step() -> (r: WalkStep)
    ensures
        r == empty_step_spec(),
{
    WalkStep { node: 0, timestamp: 0 }
}

/// The filler of edge kinds a walk has not taken.
pub open spec fn filler_edge_kind() -> EdgeKind {
    EdgeKind { code: 0 }
}

pub struct WalkState {
    pub steps: [WalkStep; WALK_STEPS],
    pub edge_kinds: [EdgeKind; MAX_WALK_LEN],
    pub edge_weights: [Weight; MAX_WALK_LEN],
    pub len: usize,
    pub origin_kind: NodeKind,
}

pub open spec fn is_kind(target: NodeKind) -> spec_fn(Option<NodeKind>) -> bool {
    |k: Option<NodeKind>| k == Some(target)
}

impl WalkState {
    /// The walk holds at most `MAX_WALK_LEN` steps.
    pub open spec fn wf(&self) -> bool {
        self.len <= MAX_WALK_LEN
    }

    /// A walk of no steps at `origin`, at time `t`.
    pub fn new(origin: NodeId, origin_kind: NodeKind, t: Timestamp) -> (r: Self)
        ensures
            r.wf(),
            r.len == 0,
            r.origin_kind == origin_kind,
            r.steps@ == Seq::new(WALK_STEPS as nat, |i: int| empty_step_spec()).update(
                0,
                WalkStep { node: origin, timestamp: t },
            ),
            r.edge_kinds@ == Seq::new(MAX_WALK_LEN as nat, |i: int| filler_edge_kind()),
            r.edge_weights@ == Seq::new(MAX_WALK_LEN as nat, |i: int| 0u32),
    {
        let mut state = WalkState {
            steps: [empty_step(); WALK_STEPS],
            edge_kinds: [EdgeKind { code: 0 }; MAX_WALK_LEN],
            edge_weights: [0; MAX_WALK_LEN],
            len: 0,
            origin_kind,
        };
        state.steps[0] = WalkStep { node: origin, timestamp: t };
        assert(state.steps@ =~= Seq::new(WALK_STEPS as nat, |i: int| empty_step_spec()).update(
            0,
            WalkStep { node: origin, timestamp: t },
        ));
        assert(state.edge_kinds@ =~= Seq::new(MAX_WALK_LEN as nat, |i: int| filler_edge_kind()));
        assert(state.edge_weights@ =~= Seq::new(MAX_WALK_LEN as nat, |i: int| 0u32));
        state
    }

    /// Extend the walk to `node` at `timestamp` along an edge; refused (and
    /// nothing changed) when the walk is full or time would run backwards.
    pub fn push(&mut self, node: NodeId, timestamp: Timestamp, edge_kind: EdgeKind, edge_weight: Weight) -> (r: bool)
        requires
            old(self).wf(),
        ensures
            final(self).wf(),
            r == (old(self).len < MAX_WALK_LEN && timestamp >= old(self).steps@[old(self).len as int].timestamp),
            !r ==> *final(self) == *old(self),
            r ==> {
                &&& final(self).len == old(self).len + 1
                &&& final(self).edge_kinds@ == old(self).edge_kinds@.update(old(self).len as int, edge_kind)
                &&& final(self).edge_weights@ == old(self).edge_weights@.update(old(self).len as int, edge_weight)
                &&& final(self).steps@ == old(self).steps@.update(
                    old(self).len + 1,
                    WalkStep { node, timestamp },
                )
                &&& final(self).origin_kind == old(self).origin_kind
            },
    {
        if self.len >= MAX_WALK_LEN {
            return false;
        }
        if timestamp < self.steps[self.len].timestamp {
            return false;
        }
        self.edge_kinds[self.len] = edge_kind;
        self.edge_weights[self.len] = edge_weight;
        self.len += 1;
        self.steps[self.len] = WalkStep { node, timestamp };
        true
    }

    pub fn current_node(&self) -> (r: NodeId)
        requires
            self.wf(),
        ensures
            r == self.steps@[self.len as int].node,
    {
        self.steps[self.len].node
    }

    pub fn previous_node(&self) -> (r: Option<NodeId>)
        requires
            self.wf(),
        ensures
            r == (if self.len == 0 {
                None
            } else {
                Some(self.steps@[self.len - 1].node)
            }),
    {
        if self.len == 0 {
            None
        } else {
            Some(self.steps[self.len - 1].node)
        }
    }

    pub fn current_timestamp(&self) -> (r: Timestamp)
        requires
            self.wf(),
        ensures
            r == self.steps@[self.len as int].timestamp,
    {
        self.steps[self.len].timestamp
    }

    pub fn origin(&self) -> (r: NodeId)
        ensures
            r == self.steps@[0].node,
    {
        self.steps[0].node
    }

    /// Time from the origin to the current position, never negative.
    pub fn elapsed(&self) -> (r: u64)
        requires
            self.wf(),
        ensures
            r == (if self.steps@[self.len as int].timestamp >= self.steps@[0].timestamp {
                self.steps@[self.len as int].timestamp - self.steps@[0].timestamp
            } else {
                0
            }),
    {
        self.steps[self.len].timestamp.saturating_sub(self.steps[0].timestamp)
    }

    /// Whether `node` is the origin or any position reached since.
    pub fn has_visited(&self, node: NodeId) -> (r: bool)
        requires
            self.wf(),
        ensures
            r == exists|i: int| 0 <= i <= self.len && (#[trigger] self.steps@[i]).node == node,
    {
        let mut i: usize = 0;
        while i <= self.len
            invariant
                self.wf(),
                i <= self.len + 1,
                forall|j: int| 0 <= j < i ==> (#[trigger] self.steps@[j]).node != node,
            decreases self.len + 1 - i,
        {
            if self.steps[i].node == node {
                return true;
            }
            i += 1;
        }
        false
    }

    /// How many positions of the walk hold a node that `kind_of` classifies
    /// as `target`.
    pub fn count_kind(&self, target: NodeKind, kind_of: impl Fn(NodeId) -> Option<NodeKind>) -> (r: usize)
        requires
            self.wf(),
            forall|n: NodeId| kind_of.requires((n,)),
        ensures
            exists|seen: Seq<Option<NodeKind>>|
                {
                    &&& seen.len() == self.len + 1
                    &&& forall|i: int| 0 <= i <= self.len ==> kind_of.ensures((self.steps@[i].node,), #[trigger] seen[i])
                    &&& r == seen.filter(is_kind(target)).len()
                },
    {
        let ghost mut seen: Seq<Option<NodeKind>> = Seq::empty();
        let mut count: usize = 0;
        let mut i: usize = 0;
        while i <= self.len
            invariant
                self.wf(),
                forall|n: NodeId| kind_of.requires((n,)),
                i <= self.len + 1,
                seen.len() == i,
                forall|j: int| 0 <= j < i ==> kind_of.ensures((self.steps@[j].node,), #[trigger] seen[j]),
                count == seen.filter(is_kind(target)).len(),
                count <= i,
            decreases self.len + 1 - i,
        {
            let kind = kind_of(self.steps[i].node);
            proof {
                reveal(Seq::filter);
                assert(seen.push(kind).drop_last() =~= seen);
            }
            let matched = match kind {
                Some(k) => k == target,
                None => false,
            };
            if matched {
                count += 1;
            }
            proof { seen = seen.push(kind); }
            i += 1;
        }
        count
    }
}

// ---------------------------------------------------------------------------
// Second-order transition scores
// ---------------------------------------------------------------------------

/// `1 / v` in Q16, clamped to `u32`; zero for zero.
pub open spec fn reciprocal_spec(value_q16: u32) -> u32 {
    if value_q16 == 0 {
        0
    } else {
        let q = 0x1_0000_0000int / (value_q16 as int);
        (if q > u32::MAX {
            u32::MAX as int
        } else {
            q
        }) as u32
    }
}

pub open spec fn bias_spec(prev_is_candidate: bool, candidate_adjacent_to_prev: bool, return_p: u32, inout_q: u32) -> u32 {
    if prev_is_candidate {
        reciprocal_spec(return_p)
    } else if candidate_adjacent_to_prev {
        WEIGHT_ONE
    } else {
        reciprocal_spec(inout_q)
    }
}

/// node2vec bias: stepping back to the previous node is weighted by `1/p`
/// alone and moving outward by `1/q` alone, while a neighbour of the
/// previous node keeps unit weight. With `p > 0` the return bias `b` is
/// `2^32 / p` rounded down (saturating): `b * p <= 2^32 < (b + 1) * p` unless
/// it saturates, and the same holds of the outward bias with `q`.
pub proof fn lemma_bias_roles(adj: bool, adj2: bool, return_p: u32, inout_q: u32, other_p: u32, other_q: u32)
    ensures
        bias_spec(true, adj, return_p, inout_q) == bias_spec(true, adj2, return_p, other_q),
        bias_spec(false, false, return_p, inout_q) == bias_spec(false, false, other_p, inout_q),
        bias_spec(false, true, return_p, inout_q) == WEIGHT_ONE,
        return_p > 0 ==> ({
            let b = bias_spec(true, adj, return_p, inout_q) as int;
            &&& b * return_p <= 0x1_0000_0000
            &&& (b == u32::MAX || 0x1_0000_0000 < (b + 1) * return_p)
        }),
        inout_q > 0 ==> ({
            let b = bias_spec(false, false, return_p, inout_q) as int;
            &&& b * inout_q <= 0x1_0000_0000
            &&& (b == u32::MAX || 0x1_0000_0000 < (b + 1) * inout_q)
        }),
{
    if return_p > 0 {
        let d = 0x1_0000_0000int / (return_p as int);
        assert(d * return_p <= 0x1_0000_0000 < (d + 1) * return_p) by (nonlinear_arith)
            requires d == 0x1_0000_0000int / (return_p as int), return_p > 0;
        let b = bias_spec(true, adj, return_p, inout_q) as int;
        if d > u32::MAX {
            assert(b * return_p <= 0x1_0000_0000) by (nonlinear_arith)
                requires b <= d, d * return_p <= 0x1_0000_0000, return_p > 0, b >= 0;
        }
    }
    if inout_q > 0 {
        let d = 0x1_0000_0000int / (inout_q as int);
        assert(d * inout_q <= 0x1_0000_0000 < (d + 1) * inout_q) by (nonlinear_arith)
            requires d == 0x1_0000_0000int / (inout_q as int), inout_q > 0;
        let b = bias_spec(false, false, return_p, inout_q) as int;
        if d > u32::MAX {
            assert(b * inout_q <= 0x1_0000_0000) by (nonlinear_arith)
                requires b <= d, d * inout_q <= 0x1_0000_0000, inout_q > 0, b >= 0;
        }
    }
}

/// `p < 1` encourages immediate return; `p > 1` discourages it.
/// `q > 1` favors local/BFS-like moves; `q < 1` favors outward/DFS-like moves.
fn reciprocal_q16(value_q16: Weight) -> (r: Weight)
    ensures
        r == reciprocal_spec(value_q16),
{
    if value_q16 == 0 {
        return 0;
    }
    let quotient = 0x1_0000_0000u64 / value_q16 as u64;
    if quotient > u32::MAX as u64 {
        u32::MAX
    } else {
        quotient as Weight
    }
}

/// The second-order bias of a candidate: `1/p` to return to the previous
/// node, one to stay next to it, `1/q` to move outward.
pub fn second_order_bias(prev_is_candidate: bool, candidate_adjacent_to_prev: bool, return_p: Weight, inout_q: Weight) -> (r: Weight)
    ensures
        r == bias_spec(prev_is_candidate, candidate_adjacent_to_prev, return_p, inout_q),
{
    if prev_is_candidate {
        reciprocal_q16(return_p)
    } else if candidate_adjacent_to_prev {
        WEIGHT_ONE
    } else {
        reciprocal_q16(inout_q)
    }
}

pub open spec fn score_spec(decayed_weight: u32, bias: u32) -> u32 {
    let v = decayed_weight * bias / 65536;
    (if v > u32::MAX {
        u32::MAX as int
    } else {
        v
    }) as u32
}

/// Q16 product of a decayed weight and a bias, clamped to `u32`.
pub fn transition_score(decayed_weight: Weight, bias: Weight) -> (r: Weight)
    ensures
        r == score_spec(decayed_weight, bias),
{
    assert(decayed_weight * bias <= 0xffff_ffff * 0xffff_ffff) by (nonlinear_arith);
    let product = decayed_weight as u64 * bias as u64;
    let result = product / 65536;
    if result > u32::MAX as u64 {
        u32::MAX
    } else {
        result as u32
    }
}

#[derive(Clone, Copy, Debug)]
pub struct TransitionCandidate {
    pub node: NodeId,
    pub edge_weight_q16: Weight,
    pub lambda_per_tick_q16: Weight,
    pub elapsed_ticks: u64,
    pub is_previous_node: bool,
    pub is_adjacent_to_previous: bool,
    /// False for stale/deleted/non-neighbor candidates. Such entries receive
    /// exactly zero probability mass.
    pub valid_edge: bool,
}

#[derive(Clone, Copy, Debug, PartialEq, Eq, Structural)]
pub struct TransitionProbability {
    pub node: NodeId,
    pub probability_q16: Weight,
}

/// The unnormalized score of a candidate: decayed edge weight times its
/// bias (unit bias on a first step), zero for an invalid edge.
pub open spec fn raw_score(c: TransitionCandidate, has_previous_node: bool, return_p: u32, inout_q: u32) -> nat {
    if !c.valid_edge {
        0
    } else {
        let decayed = decay_spec(c.edge_weight_q16, c.lambda_per_tick_q16, c.elapsed_ticks) as u32;
        let bias = if has_previous_node {
            bias_spec(c.is_previous_node, c.is_adjacent_to_previous, return_p, inout_q)
        } else {
            WEIGHT_ONE
        };
        score_spec(decayed, bias) as nat
    }
}

pub open spec fn scores(candidates: Seq<TransitionCandidate>, has_previous_node: bool, return_p: u32, inout_q: u32) -> spec_fn(int) -> nat {
    |i: int| raw_score(candidates[i], has_previous_node, return_p, inout_q)
}

/// The score a valid candidate falls back to when every valid score has
/// decayed or been biased to zero: its edge weight.
pub open spec fn weight_scores(candidates: Seq<TransitionCandidate>) -> spec_fn(int) -> nat {
    |i: int| if candidates[i].valid_edge { candidates[i].edge_weight_q16 as nat } else { 0 }
}

/// The scores the first `count` candidates are normalized by: the decayed,
/// biased scores, or the edge weights when those are all zero.
pub open spec fn effective_scores(
    candidates: Seq<TransitionCandidate>,
    has_previous_node: bool,
    return_p: u32,
    inout_q: u32,
    count: int,
) -> spec_fn(int) -> nat {
    if sum_upto(scores(candidates, has_previous_node, return_p, inout_q), count) > 0 {
        scores(candidates, has_previous_node, return_p, inout_q)
    } else {
        weight_scores(candidates)
    }
}

/// A valid candidate of positive weight.
pub open spec fn positive_valid(c: TransitionCandidate) -> bool {
    c.valid_edge && c.edge_weight_q16 > 0
}

pub open spec fn sum_upto(f: spec_fn(int) -> nat, k: int) -> nat
    decreases k,
{
    if k <= 0 {
        0
    } else {
        sum_upto(f, k - 1) + f(k - 1)
    }
}

/// Each score's share of `total` in Q16, rounded down.
pub open spec fn shares(f: spec_fn(int) -> nat, total: nat) -> spec_fn(int) -> nat {
    |i: int| if f(i) == 0 { 0 } else { f(i) * 65536 / total }
}

/// The last of the first `k` positions with a positive score.
pub open spec fn last_positive(f: spec_fn(int) -> nat, k: int) -> Option<int>
    decreases k,
{
    if k <= 0 {
        None
    } else if f(k - 1) > 0 {
        Some(k - 1)
    } else {
        last_positive(f, k - 1)
    }
}

/// The Q16 probability of position `i` among the first `count`: its share,
/// and the rounding remainder on the last positive position.
pub open spec fn probability(f: spec_fn(int) -> nat, count: int, i: int) -> nat {
    let total = sum_upto(f, count);
    if total == 0 {
        0
    } else {
        let base = shares(f, total)(i);
        if last_positive(f, count) == Some(i) {
            (base + (65536 - sum_upto(shares(f, total), count))) as nat
        } else {
            base
        }
    }
}

pub open spec fn min3(a: nat, b: nat, c: nat) -> nat {
    if a <= b && a <= c {
        a
    } else if b <= c {
        b
    } else {
        c
    }
}

proof fn lemma_sum_monotone(f: spec_fn(int) -> nat, i: int, k: int)
    requires
        0 <= i < k,
    ensures
        f(i) <= sum_upto(f, k),
        sum_upto(f, i) <= sum_upto(f, k),
    decreases k,
{
    if i < k - 1 {
        lemma_sum_monotone(f, i, k - 1);
    }
}

/// Shares rounded down never add up to more than the whole.
proof fn lemma_shares_bounded(f: spec_fn(int) -> nat, total: nat, k: int)
    requires
        total > 0,
        0 <= k,
    ensures
        sum_upto(shares(f, total), k) * total <= sum_upto(f, k) * 65536,
    decreases k,
{
    if k > 0 {
        lemma_shares_bounded(f, total, k - 1);
        let a = f(k - 1);
        let s = shares(f, total)(k - 1);
        assert(s * total <= a * 65536) by (nonlinear_arith)
            requires s == (if a == 0 { 0 } else { a * 65536 / total }), total > 0;
        assert(sum_upto(shares(f, total), k) * total == sum_upto(shares(f, total), k - 1) * total + s * total) by (nonlinear_arith)
            requires sum_upto(shares(f, total), k) == sum_upto(shares(f, total), k - 1) + s;
        assert(sum_upto(f, k) * 65536 == sum_upto(f, k - 1) * 65536 + a * 65536) by (nonlinear_arith)
            requires sum_upto(f, k) == sum_upto(f, k - 1) + a;
        let x0 = sum_upto(shares(f, total), k - 1) * total;
        let y0 = sum_upto(f, k - 1) * 65536;
        assert(x0 <= y0);
        assert(sum_upto(shares(f, total), k) * total == x0 + s * total);
        assert(sum_upto(f, k) * 65536 == y0 + a * 65536);
        let xs = sum_upto(shares(f, total), k);
        let ys = sum_upto(f, k);
        assert(xs * total <= ys * 65536) by (nonlinear_arith)
            requires xs * total == x0 + s * total, ys * 65536 == y0 + a * 65536, x0 <= y0, s * total <= a * 65536;
    } else {
        assert(sum_upto(shares(f, total), k) == 0);
        assert(0 * total == 0) by (nonlinear_arith);
    }
}

proof fn lemma_positive_has_last(f: spec_fn(int) -> nat, k: int)
    requires
        sum_upto(f, k) > 0,
    ensures
        last_positive(f, k) matches Some(l) ==> 0 <= l < k && f(l) > 0,
        last_positive(f, k) is Some,
    decreases k,
{
    if k > 0 && f(k - 1) == 0 {
        lemma_positive_has_last(f, k - 1);
    }
}

proof fn lemma_last_positive_range(f: spec_fn(int) -> nat, k: int)
    ensures
        last_positive(f, k) matches Some(l) ==> 0 <= l < k && f(l) > 0,
    decreases k,
{
    if k > 0 && f(k - 1) == 0 {
        lemma_last_positive_range(f, k - 1);
    }
}

proof fn lemma_last_positive_step(f: spec_fn(int) -> nat, k: int)
    requires
        0 <= k,
    ensures
        last_positive(f, k + 1) == (if f(k) > 0 { Some(k) } else { last_positive(f, k) }),
{
}

pub open spec fn probabilities_of(out: Seq<TransitionProbability>) -> spec_fn(int) -> nat {
    |i: int| out[i].probability_q16 as nat
}

/// With a positive total, the probabilities add up to exactly Q16 one.
pub proof fn lemma_distribution_sums_to_one(f: spec_fn(int) -> nat, count: int)
    requires
        0 <= count,
        sum_upto(f, count) > 0,
    ensures
        sum_upto(|i: int| probability(f, count, i), count) == WEIGHT_ONE,
{
    let total = sum_upto(f, count);
    let sh = shares(f, total);
    lemma_shares_bounded(f, total, count);
    assert(sum_upto(sh, count) <= 65536) by (nonlinear_arith)
        requires sum_upto(sh, count) * total <= total * 65536, total > 0;
    lemma_positive_has_last(f, count);
    let l = last_positive(f, count).unwrap();
    lemma_prob_sum(f, count, count, l);
}

proof fn lemma_prob_sum(f: spec_fn(int) -> nat, count: int, k: int, l: int)
    requires
        0 <= k <= count,
        sum_upto(f, count) > 0,
        last_positive(f, count) == Some(l),
        0 <= l < count,
        sum_upto(shares(f, sum_upto(f, count)), count) <= 65536,
    ensures
        sum_upto(|i: int| probability(f, count, i), k) == sum_upto(shares(f, sum_upto(f, count)), k) + (if l < k {
            65536 - sum_upto(shares(f, sum_upto(f, count)), count)
        } else {
            0
        }),
    decreases k,
{
    if k > 0 {
        lemma_prob_sum(f, count, k - 1, l);
    }
}

/// Build the complete normalized second-order transition distribution over
/// the first `min(candidates, output, MAX_WALK_LEN)` candidates, and return
/// that count.
///
/// The first step has no previous node and therefore uses unit bias. The
/// returned probabilities sum to exactly Q16 one whenever at least one valid
/// candidate has positive weight; invalid edges receive no mass. When every
/// valid score has decayed or been biased to zero, the valid candidates
/// share the mass in proportion to their edge weights.
#[verifier::spinoff_prover]
#[verifier::rlimit(40)]
pub fn normalized_transition_distribution(
    candidates: &[TransitionCandidate],
    has_previous_node: bool,
    return_p_q16: Weight,
    inout_q_q16: Weight,
    output: &mut [TransitionProbability],
) -> (r: usize)
    ensures
        r == min3(candidates@.len(), old(output)@.len(), MAX_WALK_LEN as nat),
        final(output)@.len() == old(output)@.len(),
        forall|i: int| r <= i < old(output)@.len() ==> final(output)@[i] == old(output)@[i],
        forall|i: int|
            0 <= i < r ==> final(output)@[i] == (TransitionProbability {
                node: candidates@[i].node,
                probability_q16: probability(
                    effective_scores(candidates@, has_previous_node, return_p_q16, inout_q_q16, r as int),
                    r as int,
                    i,
                ) as u32,
            }),
        (exists|i: int| 0 <= i < r && #[trigger] positive_valid(candidates@[i])) ==> sum_upto(
            probabilities_of(final(output)@),
            r as int,
        ) == WEIGHT_ONE,
{
    let ghost f = scores(candidates@, has_previous_node, return_p_q16, inout_q_q16);
    let mut count = if candidates.len() < output.len() { candidates.len() } else { output.len() };
    if count > MAX_WALK_LEN {
        count = MAX_WALK_LEN;
    }
    let mut raw_scores = [0u64; MAX_WALK_LEN];
    let mut total: u64 = 0;
    let mut index: usize = 0;
    while index < count
        invariant
            count <= MAX_WALK_LEN,
            count <= candidates@.len(),
            count <= output@.len(),
            output@.len() == old(output)@.len(),
            index <= count,
            f == scores(candidates@, has_previous_node, return_p_q16, inout_q_q16),
            total == sum_upto(f, index as int),
            total <= index * 0xffff_ffff,
            forall|j: int| 0 <= j < index ==> raw_scores@[j] == f(j),
            forall|j: int| index <= j < MAX_WALK_LEN ==> raw_scores@[j] == 0,
            forall|j: int|
                0 <= j < index ==> output@[j] == (TransitionProbability { node: candidates@[j].node, probability_q16: 0 }),
            forall|j: int| count <= j < output@.len() ==> output@[j] == old(output)@[j],
        decreases count - index,
    {
        let candidate = candidates[index];
        output[index] = TransitionProbability { node: candidate.node, probability_q16: 0 };
        if candidate.valid_edge {
            let decayed = decay_weight_q16(
                candidate.edge_weight_q16,
                candidate.lambda_per_tick_q16,
                candidate.elapsed_ticks,
            );
            let bias = if has_previous_node {
                second_order_bias(
                    candidate.is_previous_node,
                    candidate.is_adjacent_to_previous,
                    return_p_q16,
                    inout_q_q16,
                )
            } else {
                WEIGHT_ONE
            };
            let score = transition_score(decayed, bias) as u64;
            raw_scores[index] = score;
            total = total + score;
        }
        index += 1;
    }
    let ghost mut g = f;
    if total == 0 {
        // Every valid score decayed or was biased to nothing: the valid
        // candidates share the mass by edge weight instead.
        proof { g = weight_scores(candidates@); }
        let mut index: usize = 0;
        while index < count
            invariant
                count <= MAX_WALK_LEN,
                count <= candidates@.len(),
                index <= count,
                g == weight_scores(candidates@),
                total == sum_upto(g, index as int),
                total <= index * 0xffff_ffff,
                forall|j: int| 0 <= j < index ==> raw_scores@[j] == g(j),
            decreases count - index,
        {
            let candidate = candidates[index];
            if candidate.valid_edge {
                raw_scores[index] = candidate.edge_weight_q16 as u64;
                total = total + candidate.edge_weight_q16 as u64;
            } else {
                raw_scores[index] = 0;
            }
            index += 1;
        }
    }
    proof {
        assert(g == effective_scores(candidates@, has_previous_node, return_p_q16, inout_q_q16, count as int));
        if exists|i: int| 0 <= i < count && #[trigger] positive_valid(candidates@[i]) {
            let i = choose|i: int| 0 <= i < count && #[trigger] positive_valid(candidates@[i]);
            lemma_sum_monotone(weight_scores(candidates@), i, count as int);
            assert(sum_upto(g, count as int) > 0);
        }
    }
    if total == 0 {
        proof {
            assert forall|i: int| 0 <= i < count implies final_entry_zero(output@, candidates@, g, count as int, i) by {}
            lemma_zero_sum(output@, count as int);
        }
        return count;
    }
    let ghost sh = shares(g, total as nat);
    proof {
        lemma_shares_bounded(g, total as nat, count as int);
        assert(sum_upto(sh, count as int) <= 65536) by (nonlinear_arith)
            requires sum_upto(sh, count as int) * total <= total * 65536, total > 0;
    }
    let mut assigned: u64 = 0;
    let mut last_positive_index: Option<usize> = None;
    let mut index: usize = 0;
    while index < count
        invariant
            count <= MAX_WALK_LEN,
            count <= candidates@.len(),
            count <= output@.len(),
            output@.len() == old(output)@.len(),
            index <= count,
            g == effective_scores(candidates@, has_previous_node, return_p_q16, inout_q_q16, count as int),
            total == sum_upto(g, count as int),
            total > 0,
            sh == shares(g, total as nat),
            sum_upto(sh, count as int) <= 65536,
            forall|j: int| 0 <= j < count ==> raw_scores@[j] == g(j),
            assigned == sum_upto(sh, index as int),
            last_positive_index matches Some(l) ==> last_positive(g, index as int) == Some(l as int),
            last_positive_index is None ==> last_positive(g, index as int) is None,
            forall|j: int|
                0 <= j < index ==> output@[j] == (TransitionProbability {
                    node: candidates@[j].node,
                    probability_q16: sh(j) as u32,
                }),
            forall|j: int|
                index <= j < count ==> output@[j] == (TransitionProbability { node: candidates@[j].node, probability_q16: 0 }),
            forall|j: int| count <= j < output@.len() ==> output@[j] == old(output)@[j],
        decreases count - index,
    {
        proof {
            lemma_sum_monotone(sh, index as int, count as int);
            lemma_last_positive_step(g, index as int);
        }
        if raw_scores[index] != 0 {
            assert(raw_scores[index as int] * 65536 <= 0xffff_ffff * 65536) by (nonlinear_arith)
                requires raw_scores[index as int] <= 0xffff_ffff;
            let probability = ((raw_scores[index] as u128 * 65536) / total as u128) as u32;
            let mut entry = output[index];
            entry.probability_q16 = probability;
            output[index] = entry;
            assigned = assigned + probability as u64;
            last_positive_index = Some(index);
        }
        index += 1;
    }
    proof { lemma_last_positive_range(g, count as int); }
    match last_positive_index {
        Some(l) => {
            let mut entry = output[l];
            proof { lemma_sum_monotone(sh, l as int, count as int); }
            entry.probability_q16 = entry.probability_q16 + (WEIGHT_ONE - assigned as u32);
            output[l] = entry;
        },
        None => {
            proof { lemma_positive_has_last(g, count as int); }
        },
    }
    proof {
        lemma_positive_has_last(g, count as int);
        let l = last_positive(g, count as int).unwrap();
        assert forall|i: int| 0 <= i < count implies output@[i] == (TransitionProbability {
            node: candidates@[i].node,
            probability_q16: probability(g, count as int, i) as u32,
        }) && output@[i].probability_q16 == probability(g, count as int, i) by {
            lemma_sum_monotone(sh, i, count as int);
            if i != l {
                assert(probability(g, count as int, i) == sh(i));
            }
        }
        lemma_distribution_sums_to_one(g, count as int);
        lemma_sum_same(probabilities_of(output@), |i: int| probability(g, count as int, i), count as int);
    }
    count
}

pub open spec fn final_entry_zero(
    out: Seq<TransitionProbability>,
    candidates: Seq<TransitionCandidate>,
    f: spec_fn(int) -> nat,
    count: int,
    i: int,
) -> bool {
    out[i] == (TransitionProbability { node: candidates[i].node, probability_q16: probability(f, count, i) as u32 })
}

proof fn lemma_zero_sum(out: Seq<TransitionProbability>, k: int)
    requires
        forall|i: int| 0 <= i < k ==> out[i].probability_q16 == 0,
    ensures
        sum_upto(probabilities_of(out), k) == 0,
    decreases k,
{
    if k > 0 {
        lemma_zero_sum(out, k - 1);
    }
}

/// Sums of two functions that agree on the first `k` positions agree.
proof fn lemma_sum_same(f: spec_fn(int) -> nat, g: spec_fn(int) -> nat, k: int)
    requires
        forall|i: int| 0 <= i < k ==> #[trigger] f(i) == g(i),
    ensures
        sum_upto(f, k) == sum_upto(g, k),
    decreases k,
{
    if k > 0 {
        lemma_sum_same(f, g, k - 1);
    }
}

// ---------------------------------------------------------------------------
// Seeded replay
// ---------------------------------------------------------------------------

/// Small deterministic generator for reproducible kernel walk replay.
#[derive(Clone, Copy, Debug)]
pub struct WalkRng {
    state: u64,
}

impl View for WalkRng {
    type V = u64;

    closed spec fn view(&self) -> u64 {
        self.state
    }
}

pub open spec fn seed_state(seed: u64) -> u64 {
    if seed == 0 {
        0x9e37_79b9_7f4a_7c15
    } else {
        seed
    }
}

impl WalkRng {
    /// A generator seeded with `seed`; zero is replaced by a fixed odd constant.
    pub fn seeded(seed: u64) -> (r: Self)
        ensures
            r@ == seed_state(seed),
    {
        WalkRng {
            state: if seed == 0 {
                0x9e37_79b9_7f4a_7c15
            } else {
                seed
            },
        }
    }

    /// Advance by one xorshift64 step and return the high half.
    pub fn next_u32(&mut self) -> (r: u32)
        ensures
            final(self)@ == xorshift(old(self)@),
            r == (xorshift(old(self)@) >> 32u64) as u32,
    {
        let mut value = self.state;
        value = value ^ (value << 13u64);
        value = value ^ (value >> 7u64);
        value = value ^ (value << 17u64);
        self.state = value;
        (value >> 32u64) as u32
    }
}

pub open spec fn cumulative(probabilities: Seq<TransitionProbability>, k: int) -> u64
    decreases k,
{
    if k <= 0 {
        0
    } else {
        let c = cumulative(probabilities, k - 1) + probabilities[k - 1].probability_q16;
        (if c > u64::MAX {
            u64::MAX as int
        } else {
            c
        }) as u64
    }
}

/// The first position whose running total exceeds `draw`.
pub open spec fn sample_spec(probabilities: Seq<TransitionProbability>, draw: u64) -> Option<NodeId> {
    if exists|i: int| 0 <= i < probabilities.len() && draw < #[trigger] cumulative(probabilities, i + 1) {
        let i = choose|i: int|
            0 <= i < probabilities.len() && draw < #[trigger] cumulative(probabilities, i + 1)
                && forall|j: int| 0 <= j < i ==> draw >= #[trigger] cumulative(probabilities, j + 1);
        Some(probabilities[i].node)
    } else {
        None
    }
}

proof fn lemma_cumulative_monotone(p: Seq<TransitionProbability>, i: int, k: int)
    requires
        0 <= i <= k,
    ensures
        cumulative(p, i) <= cumulative(p, k),
    decreases k - i,
{
    if i < k {
        lemma_cumulative_monotone(p, i, k - 1);
    }
}

/// Draw a Q16 number from `rng` and pick the candidate whose cumulative
/// probability first exceeds it; none when the mass runs out first.
pub fn sample_transition(probabilities: &[TransitionProbability], rng: &mut WalkRng) -> (r: Option<NodeId>)
    ensures
        final(rng)@ == xorshift(old(rng)@),
        r == sample_spec(probabilities@, (((xorshift(old(rng)@) >> 32u64) as u32) & 0xffffu32) as u64),
{
    let draw = rng.next_u32() & (WEIGHT_ONE - 1);
    let ghost d = draw as u64;
    let mut cumulative_mass: u64 = 0;
    let mut i: usize = 0;
    while i < probabilities.len()
        invariant
            i <= probabilities@.len(),
            cumulative_mass == cumulative(probabilities@, i as int),
            d == draw as u64,
            rng@ == xorshift(old(rng)@),
            draw == (((xorshift(old(rng)@) >> 32u64) as u32) & 0xffffu32),
            forall|j: int| 0 <= j < i ==> d >= #[trigger] cumulative(probabilities@, j + 1),
        decreases probabilities@.len() - i,
    {
        cumulative_mass = cumulative_mass.saturating_add(probabilities[i].probability_q16 as u64);
        if (draw as u64) < cumulative_mass {
            proof {
                let w = i as int;
                assert(0 <= w < probabilities@.len() && d < cumulative(probabilities@, w + 1));
                let c = choose|k: int|
                    0 <= k < probabilities@.len() && d < #[trigger] cumulative(probabilities@, k + 1)
                        && forall|j: int| 0 <= j < k ==> d >= #[trigger] cumulative(probabilities@, j + 1);
                assert(0 <= w < probabilities@.len() && d < cumulative(probabilities@, w + 1)
                    && forall|j: int| 0 <= j < w ==> d >= #[trigger] cumulative(probabilities@, j + 1));
                if c < w {
                    assert(d >= cumulative(probabilities@, c + 1));
                } else if c > w {
                    assert(d >= cumulative(probabilities@, w + 1));
                }
            }
            return Some(probabilities[i].node);
        }
        i += 1;
    }
    None
}

} // verus!
