//! Typed temporal graph operators: a dense Q16 type-channel operator and a
//! typed message term. Structural coefficients and temporal decay are kept
//! apart; decay comes from [`crate::temporal`].

use vstd::prelude::*;
use crate::kinds::{EdgeKind, NodeKind, Weight, NODE_KIND_COUNT, WEIGHT_ONE};
use crate::temporal::{decay_spec, decay_weight_q16};

verus! {

/// One Q16 channel per public node kind.
#[derive(Clone, Copy, Debug, PartialEq, Eq)]
pub struct TypeSignal {
    pub data: [Weight; NODE_KIND_COUNT],
}

pub open spec fn saturating_add_u32(a: u32, b: u32) -> u32 {
    if a + b > u32::MAX {
        u32::MAX
    } else {
        (a + b) as u32
    }
}

impl TypeSignal {
    /// The signal with every channel zero.
    pub fn zero() -> (r: Self)
        ensures
            r.data@ == Seq::new(NODE_KIND_COUNT as nat, |i: int| 0u32),
    {
        let r = TypeSignal { data: [0; NODE_KIND_COUNT] };
        assert(r.data@ =~= Seq::new(NODE_KIND_COUNT as nat, |i: int| 0u32));
        r
    }

    /// The signal with every channel one.
    pub fn one() -> (r: Self)
        ensures
            r.data@ == Seq::new(NODE_KIND_COUNT as nat, |i: int| WEIGHT_ONE),
    {
        let r = TypeSignal { data: [WEIGHT_ONE; NODE_KIND_COUNT] };
        assert(r.data@ =~= Seq::new(NODE_KIND_COUNT as nat, |i: int| WEIGHT_ONE));
        r
    }

    /// `weight` on the channel of `kind`, zero elsewhere.
    pub fn impulse(kind: NodeKind, weight: Weight) -> (r: Self)
        ensures
            r.data@ == Seq::new(NODE_KIND_COUNT as nat, |i: int| 0u32).update(kind.id() as int, weight),
    {
        let mut signal = Self::zero();
        signal.set(kind, weight);
        signal
    }

    pub fn get(&self, kind: NodeKind) -> (r: Weight)
        ensures
            r == self.data@[kind.id() as int],
    {
        self.data[kind.index()]
    }

    pub fn set(&mut self, kind: NodeKind, value: Weight)
        ensures
            final(self).data@ == old(self).data@.update(kind.id() as int, value),
    {
        let index = kind.index();
        self.data[index] = value;
    }

    /// Add `delta` to the channel of `kind`, saturating.
    pub fn accumulate(&mut self, kind: NodeKind, delta: Weight)
        ensures
            final(self).data@ == old(self).data@.update(
                kind.id() as int,
                saturating_add_u32(old(self).data@[kind.id() as int], delta),
            ),
    {
        let index = kind.index();
        self.data[index] = self.data[index].saturating_add(delta);
    }
}

/// Dense Q16 type-channel matrix implementing `out[dst] = sum M[src,dst] in[src]`.
#[derive(Clone, Copy, Debug)]
pub struct TypeChannelOperator {
    coefficients: [[Weight; NODE_KIND_COUNT]; NODE_KIND_COUNT],
}

/// `sum_{s < k} input[s] * coefficient(s, destination)`, exactly.
pub open spec fn channel_sum(input: Seq<u32>, coefficient: spec_fn(int, int) -> u32, destination: int, k: int) -> int
    decreases k,
{
    if k <= 0 {
        0
    } else {
        channel_sum(input, coefficient, destination, k - 1) + input[k - 1] * coefficient(k - 1, destination)
    }
}

/// A Q16 channel value: the Q32 sum scaled down and clamped to `u32`.
pub open spec fn channel_out(sum_q32: int) -> u32 {
    let v = sum_q32 / 65536;
    (if v > u32::MAX {
        u32::MAX as int
    } else {
        v
    }) as u32
}

pub open spec fn identity_coefficient() -> spec_fn(int, int) -> u32 {
    |s: int, d: int| if s == d { WEIGHT_ONE } else { 0u32 }
}

proof fn lemma_channel_sum_bound(input: Seq<u32>, coefficient: spec_fn(int, int) -> u32, destination: int, k: int)
    requires
        0 <= k,
    ensures
        0 <= channel_sum(input, coefficient, destination, k) <= k * 0xffff_ffff * 0xffff_ffff,
    decreases k,
{
    if k > 0 {
        lemma_channel_sum_bound(input, coefficient, destination, k - 1);
        let a = input[k - 1];
        let b = coefficient(k - 1, destination);
        assert(0 <= a * b <= 0xffff_ffff * 0xffff_ffff) by (nonlinear_arith)
            requires a <= 0xffff_ffff, b <= 0xffff_ffff, a >= 0, b >= 0;
        assert((k - 1) * 0xffff_ffff * 0xffff_ffff + 0xffff_ffff * 0xffff_ffff == k * 0xffff_ffff * 0xffff_ffff) by (nonlinear_arith);
    }
}

/// Under the identity only the destination's own channel contributes.
proof fn lemma_identity_sum(input: Seq<u32>, destination: int, k: int)
    requires
        0 <= destination,
        0 <= k,
    ensures
        channel_sum(input, identity_coefficient(), destination, k) == (if destination < k {
            input[destination] * 65536
        } else {
            0
        }),
    decreases k,
{
    if k > 0 {
        lemma_identity_sum(input, destination, k - 1);
        let c = identity_coefficient()(k - 1, destination);
        assert(c == (if k - 1 == destination { 65536u32 } else { 0u32 }));
        if k - 1 == destination {
            assert(input[k - 1] * c == input[destination] * 65536);
        } else {
            assert(input[k - 1] * c == 0) by (nonlinear_arith)
                requires c == 0;
        }
    }
}

impl TypeChannelOperator {
    /// The coefficient from channel `s` to channel `d`.
    pub closed spec fn coefficient_at(&self) -> spec_fn(int, int) -> u32 {
        |s: int, d: int| self.coefficients@[s]@[d]
    }

    /// The operator with every coefficient zero.
    pub fn zero() -> (r: Self)
        ensures
            forall|s: int, d: int|
                0 <= s < NODE_KIND_COUNT && 0 <= d < NODE_KIND_COUNT ==> (#[trigger] r.coefficient_at()(s, d)) == 0,
    {
        TypeChannelOperator { coefficients: [[0; NODE_KIND_COUNT]; NODE_KIND_COUNT] }
    }

    /// The operator that passes every channel through unchanged.
    pub fn identity() -> (r: Self)
        ensures
            forall|s: int, d: int|
                0 <= s < NODE_KIND_COUNT && 0 <= d < NODE_KIND_COUNT ==> (#[trigger] r.coefficient_at()(s, d))
                    == identity_coefficient()(s, d),
    {
        let mut result = Self::zero();
        let mut index: usize = 0;
        while index < NODE_KIND_COUNT
            invariant
                index <= NODE_KIND_COUNT,
                forall|s: int, d: int|
                    0 <= s < NODE_KIND_COUNT && 0 <= d < NODE_KIND_COUNT ==> (#[trigger] result.coefficient_at()(s, d))
                        == (if s == d && s < index {
                        WEIGHT_ONE
                    } else {
                        0u32
                    }),
            decreases NODE_KIND_COUNT - index,
        {
            let ghost before = result.coefficients@;
            let ghost old_result = result;
            let mut row = result.coefficients[index];
            row[index] = WEIGHT_ONE;
            result.coefficients[index] = row;
            proof {
                assert forall|s: int, d: int|
                    0 <= s < NODE_KIND_COUNT && 0 <= d < NODE_KIND_COUNT implies (#[trigger] result.coefficient_at()(s, d))
                        == (if s == d && s < index + 1 {
                        WEIGHT_ONE
                    } else {
                        0u32
                    }) by {
                    assert(result.coefficient_at()(s, d) == result.coefficients@[s]@[d]);
                    assert(old_result.coefficient_at()(s, d) == before[s]@[d]);
                    if s == index {
                        assert(result.coefficients@[s]@ == before[s]@.update(index as int, WEIGHT_ONE));
                    } else {
                        assert(result.coefficients@[s] == before[s]);
                    }
                }
            }
            index += 1;
        }
        result
    }

    pub fn coefficient(&self, source: NodeKind, destination: NodeKind) -> (r: Weight)
        ensures
            r == self.coefficient_at()(source.id() as int, destination.id() as int),
    {
        self.coefficients[source.index()][destination.index()]
    }

    pub fn set_coefficient(&mut self, source: NodeKind, destination: NodeKind, coefficient_q16: Weight)
        ensures
            forall|s: int, d: int|
                0 <= s < NODE_KIND_COUNT && 0 <= d < NODE_KIND_COUNT ==> (#[trigger] final(self).coefficient_at()(s, d))
                    == (if s == source.id() && d == destination.id() {
                    coefficient_q16
                } else {
                    old(self).coefficient_at()(s, d)
                }),
    {
        let s = source.index();
        let d = destination.index();
        let mut row = self.coefficients[s];
        row[d] = coefficient_q16;
        self.coefficients[s] = row;
    }

    /// `out[dst] = (sum_src M[src, dst] * in[src]) >> 16`, clamped to `u32`.
    pub fn apply(&self, input: &TypeSignal) -> (r: TypeSignal)
        ensures
            forall|d: int|
                0 <= d < NODE_KIND_COUNT ==> r.data@[d] == channel_out(
                    channel_sum(input.data@, self.coefficient_at(), d, NODE_KIND_COUNT as int),
                ),
    {
        let mut output = TypeSignal::zero();
        let mut destination: usize = 0;
        while destination < NODE_KIND_COUNT
            invariant
                destination <= NODE_KIND_COUNT,
                forall|d: int|
                    0 <= d < destination ==> output.data@[d] == channel_out(
                        channel_sum(input.data@, self.coefficient_at(), d, NODE_KIND_COUNT as int),
                    ),
            decreases NODE_KIND_COUNT - destination,
        {
            let mut sum_q32: u128 = 0;
            let mut source: usize = 0;
            while source < NODE_KIND_COUNT
                invariant
                    source <= NODE_KIND_COUNT,
                    destination < NODE_KIND_COUNT,
                    sum_q32 == channel_sum(input.data@, self.coefficient_at(), destination as int, source as int),
                decreases NODE_KIND_COUNT - source,
            {
                proof {
                    lemma_channel_sum_bound(input.data@, self.coefficient_at(), destination as int, source as int + 1);
                    assert((source + 1) * 0xffff_ffff * 0xffff_ffff <= 38 * 0xffff_ffff * 0xffff_ffff) by (nonlinear_arith)
                        requires source < 38;
                }
                let term = input.data[source] as u128 * self.coefficients[source][destination] as u128;
                sum_q32 = sum_q32 + term;
                source += 1;
            }
            let scaled = sum_q32 / 65536;
            output.data[destination] = if scaled > u32::MAX as u128 { u32::MAX } else { scaled as u32 };
            destination += 1;
        }
        output
    }
}

/// The identity operator leaves every signal unchanged.
pub proof fn lemma_identity_preserves(op: TypeChannelOperator, input: TypeSignal, output: TypeSignal)
    requires
        forall|s: int, d: int|
            0 <= s < NODE_KIND_COUNT && 0 <= d < NODE_KIND_COUNT ==> (#[trigger] op.coefficient_at()(s, d))
                == identity_coefficient()(s, d),
        forall|d: int|
            0 <= d < NODE_KIND_COUNT ==> output.data@[d] == channel_out(
                channel_sum(input.data@, op.coefficient_at(), d, NODE_KIND_COUNT as int),
            ),
    ensures
        output.data@ == input.data@,
{
    assert forall|d: int| 0 <= d < NODE_KIND_COUNT implies output.data@[d] == input.data@[d] by {
        lemma_same_sum(input.data@, op.coefficient_at(), identity_coefficient(), d, NODE_KIND_COUNT as int);
        lemma_identity_sum(input.data@, d, NODE_KIND_COUNT as int);
    }
    assert(output.data@ =~= input.data@);
}

/// Sums over coefficients that agree on the channels agree.
proof fn lemma_same_sum(input: Seq<u32>, a: spec_fn(int, int) -> u32, b: spec_fn(int, int) -> u32, d: int, k: int)
    requires
        0 <= d < NODE_KIND_COUNT,
        0 <= k <= NODE_KIND_COUNT,
        forall|s: int, e: int| 0 <= s < NODE_KIND_COUNT && 0 <= e < NODE_KIND_COUNT ==> (#[trigger] a(s, e)) == b(s, e),
    ensures
        channel_sum(input, a, d, k) == channel_sum(input, b, d, k),
    decreases k,
{
    if k > 0 {
        lemma_same_sum(input, a, b, d, k - 1);
        assert(a(k - 1, d) == b(k - 1, d));
    }
}

/// One incoming graph message. `coefficient_q16` is structural and does not
/// encode a decay rate.
#[derive(Clone, Copy, Debug)]
pub struct TypedMessage {
    pub source_kind: NodeKind,
    pub destination_kind: NodeKind,
    pub edge_kind: EdgeKind,
    pub edge_weight_q16: Weight,
    pub source_value_q16: Weight,
    pub coefficient_q16: Weight,
    pub lambda_per_tick_q16: Weight,
    pub elapsed_ticks: u64,
}

/// Q16 product, clamped to `u32`.
pub open spec fn q16_mul_spec(left: u32, right: u32) -> u32 {
    let v = left * right / 65536;
    (if v > u32::MAX {
        u32::MAX as int
    } else {
        v
    }) as u32
}

/// Q16 product of two Q16 values, clamped to `u32`.
pub fn q16_mul(left: Weight, right: Weight) -> (r: Weight)
    ensures
        r == q16_mul_spec(left, right),
{
    assert(left * right <= 0xffff_ffff * 0xffff_ffff) by (nonlinear_arith);
    let value = (left as u64 * right as u64) / 65536;
    if value > u32::MAX as u64 {
        u32::MAX
    } else {
        value as Weight
    }
}

/// The value one message carries: its decayed edge weight, times its
/// structural coefficient, times the source value, in Q16.
pub open spec fn message_value(m: TypedMessage) -> u32 {
    q16_mul_spec(
        q16_mul_spec(decay_spec(m.edge_weight_q16, m.lambda_per_tick_q16, m.elapsed_ticks) as u32, m.coefficient_q16),
        m.source_value_q16,
    )
}

/// Evaluate one term of typed temporal message passing in Q16.
pub fn evaluate_message(message: &TypedMessage) -> (r: Weight)
    ensures
        r == message_value(*message),
{
    let decayed_edge = decay_weight_q16(message.edge_weight_q16, message.lambda_per_tick_q16, message.elapsed_ticks);
    let structural = q16_mul(decayed_edge, message.coefficient_q16);
    q16_mul(structural, message.source_value_q16)
}

/// Saturating sum of the first `k` message values.
pub open spec fn messages_total(messages: Seq<TypedMessage>, k: int) -> u32
    decreases k,
{
    if k <= 0 {
        0
    } else {
        saturating_add_u32(messages_total(messages, k - 1), message_value(messages[k - 1]))
    }
}

/// Saturating sum of independently evaluated incoming messages.
pub fn aggregate_messages(messages: &[TypedMessage]) -> (r: Weight)
    ensures
        r == messages_total(messages@, messages@.len() as int),
{
    let mut sum: u32 = 0;
    let mut index: usize = 0;
    while index < messages.len()
        invariant
            index <= messages@.len(),
            sum == messages_total(messages@, index as int),
        decreases messages@.len() - index,
    {
        sum = sum.saturating_add(evaluate_message(&messages[index]));
        index += 1;
    }
    sum
}

} // verus!
