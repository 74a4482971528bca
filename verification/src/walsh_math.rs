//! Fixed-point cognition primitives of the SCCE runtime: the CFCB
//! acceptance gate, the subspace-drift-entropy step and the greedy causal
//! minimum-cover selector, over Q16 values.

use vstd::prelude::*;
use crate::kinds::{NodeId, Weight, WEIGHT_ONE};
use crate::temporal::{ln_q16, ln_spec, LN_2_Q16, msb};
use crate::search::{first_index, is_first, lemma_first_found, lemma_first_none};
use vstd::arithmetic::power2::{pow2, lemma_pow2_adds, lemma_pow2_pos, lemma2_to64, lemma_pow2_unfold};

verus! {

pub const MAX_CMC_CANDIDATES: usize = 32;
pub const MAX_CMC_ENTITIES_PER_CANDIDATE: usize = 16;
pub const MAX_CMC_ENTITIES: usize = 128;

pub open spec fn min_int(a: int, b: int) -> int {
    if a <= b {
        a
    } else {
        b
    }
}

/// Q16 product rounded to nearest, clamped to `u32`.
pub open spec fn q16_mul_round(left: u32, right: u32) -> u32 {
    min_int((left * right + 32768) / 65536, u32::MAX as int) as u32
}

/// Q16 quotient, clamped to `u32`; `u32::MAX` for a zero divisor.
pub open spec fn q16_div_spec(left: u32, right: u32) -> u32 {
    if right == 0 {
        u32::MAX
    } else {
        min_int(left * 65536 / (right as int), u32::MAX as int) as u32
    }
}

pub open spec fn unit(value: u32) -> u32 {
    min_int(value as int, WEIGHT_ONE as int) as u32
}

fn q16_mul(left: Weight, right: Weight) -> (r: Weight)
    ensures
        r == q16_mul_round(left, right),
{
    assert(left * right <= 0xffff_ffff * 0xffff_ffff) by (nonlinear_arith);
    let v = (left as u64 * right as u64 + 32768) / 65536;
    if v > u32::MAX as u64 {
        u32::MAX
    } else {
        v as Weight
    }
}

fn q16_div(left: Weight, right: Weight) -> (r: Weight)
    ensures
        r == q16_div_spec(left, right),
{
    if right == 0 {
        u32::MAX
    } else {
        let v = (left as u128 * 65536) / right as u128;
        if v > u32::MAX as u128 {
            u32::MAX
        } else {
            v as Weight
        }
    }
}

fn clamp_unit(value: Weight) -> (r: Weight)
    ensures
        r == unit(value),
{
    if value < WEIGHT_ONE {
        value
    } else {
        WEIGHT_ONE
    }
}

// ---------------------------------------------------------------------------
// Integer square root
// ---------------------------------------------------------------------------

/// The integer square root: the largest `r` with `r * r <= v`.
pub open spec fn isqrt(v: nat) -> nat
    decreases v,
{
    if v == 0 {
        0
    } else {
        let r = isqrt((v - 1) as nat);
        if (r + 1) * (r + 1) <= v {
            r + 1
        } else {
            r
        }
    }
}

pub proof fn lemma_isqrt(v: nat)
    ensures
        isqrt(v) * isqrt(v) <= v < (isqrt(v) + 1) * (isqrt(v) + 1),
    decreases v,
{
    if v > 0 {
        lemma_isqrt((v - 1) as nat);
        let r = isqrt((v - 1) as nat);
        if (r + 1) * (r + 1) <= v {
            assert(v < (r + 2) * (r + 2)) by (nonlinear_arith)
                requires v - 1 < (r + 1) * (r + 1), r >= 0;
            assert(isqrt(v) == r + 1);
        } else {
            assert(isqrt(v) == r);
        }
    } else {
        assert(isqrt(v) == 0);
        assert(0 * 0 <= 0int < (0 + 1) * (0 + 1)) by (nonlinear_arith);
    }
}

/// Any `r` with `r * r <= v < (r + 1) * (r + 1)` is the integer square root.
pub proof fn lemma_isqrt_unique(v: nat, r: nat)
    requires
        r * r <= v < (r + 1) * (r + 1),
    ensures
        r == isqrt(v),
{
    lemma_isqrt(v);
    let s = isqrt(v);
    if r < s {
        assert((r + 1) * (r + 1) <= s * s) by (nonlinear_arith)
            requires r + 1 <= s;
    } else if r > s {
        assert((s + 1) * (s + 1) <= r * r) by (nonlinear_arith)
            requires s + 1 <= r;
    }
}

/// One Newton step never undershoots the square root.
proof fn lemma_newton_step(v: nat, e: nat)
    requires
        e >= 1,
    ensures
        v < ((e + v / e) / 2 + 1) * ((e + v / e) / 2 + 1),
{
    let q = v / e;
    let n = (e + q) / 2;
    assert(e * (q + 1) > v) by (nonlinear_arith)
        requires q == v / e, e >= 1;
    assert(2 * (n + 1) >= e + q + 1) by (nonlinear_arith)
        requires n == (e + q) / 2;
    assert(4 * (n + 1) * (n + 1) >= 4 * e * (q + 1)) by (nonlinear_arith)
        requires 2 * (n + 1) >= e + q + 1, e >= 1, q >= 0;
    assert(v < (n + 1) * (n + 1)) by (nonlinear_arith)
        requires 4 * (n + 1) * (n + 1) >= 4 * e * (q + 1), e * (q + 1) > v;
}

/// Bit length: the number of halvings that reach zero.
fn bit_length(value: u128) -> (r: u32)
    requires
        value >= 1,
    ensures
        r == msb(value as nat) + 1,
        r <= 128,
{
    proof { lemma_msb_upper(value as nat); }
    let mut t = value;
    let mut bits: u32 = 0;
    while t > 0
        invariant
            t >= 1 ==> msb(t as nat) + bits == msb(value as nat),
            t == 0 ==> bits == msb(value as nat) + 1,
            msb(value as nat) < 128,
        decreases t,
    {
        t = t / 2;
        bits = bits + 1;
    }
    bits
}

proof fn lemma_pow2_le(a: nat, b: nat)
    requires
        a <= b,
    ensures
        pow2(a) <= pow2(b),
{
    if a < b {
        vstd::arithmetic::power2::lemma_pow2_strictly_increases(a, b);
    }
}

proof fn lemma_msb_upper(v: nat)
    requires
        1 <= v < 0x1_0000_0000_0000_0000_0000_0000_0000_0000,
    ensures
        msb(v) < 128,
{
    lemma_msb_pow(v);
    if msb(v) >= 128 {
        lemma_pow2_pos(msb(v));
        lemma_pow2_le(128, msb(v));
        assert(pow2(128) == 0x1_0000_0000_0000_0000_0000_0000_0000_0000) by {
            lemma2_to64();
            lemma_pow2_adds(64, 64);
        }
    }
}

proof fn lemma_msb_pow(v: nat)
    requires
        v >= 1,
    ensures
        pow2(msb(v)) <= v < pow2(msb(v) + 1),
    decreases v,
{
    lemma2_to64();
    if v >= 2 {
        lemma_msb_pow(v / 2);
        lemma_pow2_unfold(msb(v));
        lemma_pow2_unfold(msb(v) + 1);
    }
}

/// Newton's method from `2^ceil(bits / 2)`: the floor of `sqrt(value)`.
fn integer_sqrt(value: u128) -> (r: u128)
    ensures
        r == isqrt(value as nat),
{
    if value < 2 {
        proof {
            assert(value * value <= value < (value + 1) * (value + 1)) by (nonlinear_arith)
                requires value < 2;
            lemma_isqrt_unique(value as nat, value as nat);
        }
        return value;
    }
    let bits = bit_length(value);
    let half = (bits + 1) / 2;
    proof {
        lemma_msb_pow(value as nat);
        lemma_pow2_adds(half as nat, half as nat);
        lemma_pow2_le(bits as nat, (2 * half) as nat);
        lemma_pow2_le(half as nat, 64);
        lemma2_to64();
        lemma_pow2_pos(half as nat);
    }
    let mut estimate: u128 = 1;
    let mut doubled: u32 = 0;
    while doubled < half
        invariant
            doubled <= half,
            half <= 64,
            estimate == pow2(doubled as nat),
            pow2(half as nat) <= 0x1_0000_0000_0000_0000,
        decreases half - doubled,
    {
        proof {
            lemma_pow2_unfold((doubled + 1) as nat);
            lemma_pow2_le((doubled + 1) as nat, half as nat);
        }
        estimate = estimate * 2;
        doubled = doubled + 1;
    }
    proof {
        assert(2 * half >= bits);
        assert(pow2((half + half) as nat) == estimate * estimate);
        assert((value as nat) < (estimate + 1) * (estimate + 1)) by (nonlinear_arith)
            requires (value as nat) < estimate * estimate, estimate >= 0;
    }
    loop
        invariant
            estimate >= 1,
            estimate <= 0x1_0000_0000_0000_0000,
            value >= 2,
            (value as nat) < (estimate + 1) * (estimate + 1),
        decreases estimate,
    {
        assert(value / estimate <= estimate + 2) by (nonlinear_arith)
            requires (value as nat) < (estimate + 1) * (estimate + 1), estimate >= 1;
        let next = (estimate + value / estimate) / 2;
        proof { lemma_newton_step(value as nat, estimate as nat); }
        assert(next >= 1) by (nonlinear_arith)
            requires (value as nat) < (next + 1) * (next + 1), value >= 2;
        if next >= estimate {
            proof {
                assert(estimate * estimate <= value) by (nonlinear_arith)
                    requires next == (estimate + value / estimate) / 2, next >= estimate, estimate >= 1;
                lemma_isqrt_unique(value as nat, estimate as nat);
            }
            return estimate;
        }
        estimate = next;
    }
}

pub open spec fn sqrt_q16_spec(value: u32) -> u32 {
    min_int(isqrt((value * 65536) as nat) as int, u32::MAX as int) as u32
}

/// The Q16 square root of a Q16 value, rounded down.
pub fn sqrt_q16(value: Weight) -> (r: Weight)
    ensures
        r == sqrt_q16_spec(value),
{
    let root = integer_sqrt(value as u128 * 65536);
    if root > u32::MAX as u128 {
        u32::MAX
    } else {
        root as Weight
    }
}

pub open spec fn clamp_alpha(alpha: u32) -> u32 {
    if alpha < 1 {
        1
    } else if alpha > WEIGHT_ONE - 1 {
        (WEIGHT_ONE - 1) as u32
    } else {
        alpha
    }
}

pub open spec fn hoeffding_spec(samples: nat, alpha: u32) -> u32 {
    if samples == 0 {
        u32::MAX
    } else {
        let inverse = 0x1_0000_0000int / (clamp_alpha(alpha) as int);
        let logarithm = min_int(ln_spec(inverse as nat), u32::MAX as int);
        sqrt_q16_spec((logarithm / ((2 * samples) as int)) as u32)
    }
}

/// The Hoeffding radius solves `radius^2 * 2M = ln(1/alpha)`: with `L` the
/// Q16 logarithm of `1/alpha` (alpha clamped into `(0, 1)`), the radius `r`
/// satisfies `r^2 * 2M <= L * 2^16 < ((r + 1)^2 + 2^16) * 2M`, so that
/// `r / 2^16` is `sqrt(ln(1/alpha) / (2M))` rounded down.
pub proof fn lemma_hoeffding_radius_squared(samples: nat, alpha: u32)
    requires
        samples > 0,
    ensures
        ({
            let a: int = if alpha < 1 { 1 } else if alpha > 65535 { 65535 } else { alpha as int };
            let l: int = if ln_spec((0x1_0000_0000int / a) as nat) > 0xffff_ffff { 0xffff_ffff } else {
                ln_spec((0x1_0000_0000int / a) as nat) as int
            };
            let r = hoeffding_spec(samples, alpha) as int;
            &&& r * r * (2 * samples) <= l * 65536
            &&& l * 65536 < ((r + 1) * (r + 1) + 65536) * (2 * samples)
        }),
{
    let a: int = if alpha < 1 { 1 } else if alpha > 65535 { 65535 } else { alpha as int };
    assert(a == clamp_alpha(alpha));
    let l: int = min_int(ln_spec((0x1_0000_0000int / a) as nat) as int, u32::MAX as int);
    let m: int = 2 * (samples as int);
    let q = l / m;
    assert(0 <= q <= l) by (nonlinear_arith)
        requires 0 <= l, m >= 2, q == l / m;
    let v = (q * 65536) as nat;
    lemma_isqrt(v);
    let root = isqrt(v);
    assert(root <= 0xffff_ffff) by (nonlinear_arith)
        requires root * root <= v, v <= 0xffff_ffff * 65536;
    assert(hoeffding_spec(samples, alpha) == root);
    assert(q * m <= l < (q + 1) * m) by (nonlinear_arith)
        requires q == l / m, m > 0, l >= 0;
    assert(root * root * m <= l * 65536) by (nonlinear_arith)
        requires root * root <= q * 65536, q * m <= l, m > 0;
    assert(l * 65536 < ((root + 1) * (root + 1) + 65536) * m) by (nonlinear_arith)
        requires q * 65536 < (root + 1) * (root + 1), l < (q + 1) * m, m > 0;
}

/// One-sided Hoeffding radius `sqrt(ln(1/alpha) / (2M))` in Q16, with
/// `alpha` clamped into `(0, 1)`; `u32::MAX` without samples.
pub fn hoeffding_radius_q16(samples: usize, alpha: Weight) -> (r: Weight)
    requires
        samples <= usize::MAX / 2,
    ensures
        r == hoeffding_spec(samples as nat, alpha),
{
    if samples == 0 {
        return u32::MAX;
    }
    let alpha = if alpha < 1 {
        1
    } else if alpha > WEIGHT_ONE - 1 {
        WEIGHT_ONE - 1
    } else {
        alpha
    };
    let inverse = 0x1_0000_0000u64 / alpha as u64;
    let ln = ln_q16(inverse);
    let logarithm = if ln > u32::MAX as u64 { u32::MAX } else { ln as u32 };
    let divisor = (2 * samples) as u64;
    sqrt_q16((logarithm as u64 / divisor) as Weight)
}

pub open spec fn davis_kahan_spec(entity_count: u32, sin_theta: u32) -> u32 {
    if entity_count == 0 {
        u32::MAX
    } else {
        let root = min_int(isqrt((entity_count * 0x1_0000_0000int) as nat) as int, u32::MAX as int) as u32;
        q16_mul_round(root, unit(sin_theta))
    }
}

/// Deterministic Davis-Kahan/Cauchy-Schwarz radius `sqrt(|E_S|) * sin(theta)`
/// in Q16; `u32::MAX` without entities.
pub fn davis_kahan_causal_radius_q16(entity_count: u32, sin_theta: Weight) -> (r: Weight)
    ensures
        r == davis_kahan_spec(entity_count, sin_theta),
{
    if entity_count == 0 {
        return u32::MAX;
    }
    let root = integer_sqrt(entity_count as u128 * 0x1_0000_0000);
    let root_count_q16 = if root > u32::MAX as u128 { u32::MAX } else { root as Weight };
    q16_mul(root_count_q16, clamp_unit(sin_theta))
}

// ---------------------------------------------------------------------------
// The CFCB gate
// ---------------------------------------------------------------------------

#[derive(Clone, Copy, Debug, PartialEq, Eq, Structural)]
pub enum CfcbRejectReason {
    NoFaithWindows,
    InvalidCausalMass,
    FaithLcbBelowFloor,
    CausalLcbBelowFloor,
}

pub struct CfcbInput<'a> {
    pub faithfulness: &'a [Weight],
    pub causal_mass: Weight,
    pub causal_mass_valid: bool,
    pub causal_entity_count: u32,
    pub causal_sin_theta: Weight,
    pub faith_floor: Weight,
    pub causal_floor: Weight,
    pub alpha: Weight,
}

#[derive(Clone, Copy, Debug, PartialEq, Eq, Structural)]
pub struct CfcbReport {
    pub faith_mean: Weight,
    pub sample_count: u32,
    pub faith_radius: Weight,
    pub faith_lcb: Weight,
    pub faith_slack: i64,
    pub faith_pass: bool,
    pub causal_mass: Weight,
    pub causal_entity_count: u32,
    pub causal_sin_theta: Weight,
    pub causal_radius: Weight,
    pub causal_lcb: Weight,
    pub causal_slack: i64,
    pub causal_pass: bool,
    pub joint_false_accept_bound: Weight,
    pub accept: bool,
    pub reject_reason: Option<CfcbRejectReason>,
}

/// Sum of the first `k` values, each clamped to one.
pub open spec fn unit_sum(values: Seq<u32>, k: int) -> nat
    decreases k,
{
    if k <= 0 {
        0
    } else {
        unit_sum(values, k - 1) + unit(values[k - 1]) as nat
    }
}

pub open spec fn sat_sub_u32(a: u32, b: u32) -> u32 {
    if a >= b {
        (a - b) as u32
    } else {
        0
    }
}

/// The report of the CFCB gate: lower confidence bounds on mean
/// faithfulness (Hoeffding) and on causal mass (Davis-Kahan), each held to
/// its floor, accepting only when both pass.
pub open spec fn cfcb_spec(input: CfcbInput) -> CfcbReport {
    let values = input.faithfulness@;
    let count = values.len();
    let faith_mean = if count == 0 {
        0u32
    } else {
        min_int(unit_sum(values, count as int) as int / (count as int), WEIGHT_ONE as int) as u32
    };
    let alpha = clamp_alpha(input.alpha);
    let faith_radius = hoeffding_spec(count, alpha);
    let faith_lcb = sat_sub_u32(faith_mean, faith_radius);
    let faith_floor = unit(input.faith_floor);
    let faith_pass = count > 0 && faith_lcb >= faith_floor;
    let causal_mass = unit(input.causal_mass);
    let causal_entity_count = if input.causal_entity_count < 1 {
        1u32
    } else {
        input.causal_entity_count
    };
    let causal_sin_theta = unit(input.causal_sin_theta);
    let causal_radius = davis_kahan_spec(causal_entity_count, causal_sin_theta);
    let causal_lcb = sat_sub_u32(causal_mass, causal_radius);
    let causal_floor = unit(input.causal_floor);
    let causal_pass = input.causal_mass_valid && causal_lcb >= causal_floor;
    let reject_reason = if count == 0 {
        Some(CfcbRejectReason::NoFaithWindows)
    } else if !input.causal_mass_valid {
        Some(CfcbRejectReason::InvalidCausalMass)
    } else if !faith_pass {
        Some(CfcbRejectReason::FaithLcbBelowFloor)
    } else if !causal_pass {
        Some(CfcbRejectReason::CausalLcbBelowFloor)
    } else {
        None
    };
    CfcbReport {
        faith_mean,
        sample_count: min_int(count as int, u32::MAX as int) as u32,
        faith_radius,
        faith_lcb,
        faith_slack: (faith_lcb - faith_floor) as i64,
        faith_pass,
        causal_mass,
        causal_entity_count,
        causal_sin_theta,
        causal_radius,
        causal_lcb,
        causal_slack: (causal_lcb - causal_floor) as i64,
        causal_pass,
        joint_false_accept_bound: alpha,
        accept: reject_reason is None,
        reject_reason,
    }
}

/// Evaluate the revised CFCB gate without assuming independence between the
/// faithfulness and causal-mass signals.
pub fn cfcb(input: CfcbInput<'_>) -> (r: CfcbReport)
    requires
        input.faithfulness@.len() <= usize::MAX / 2,
    ensures
        r == cfcb_spec(input),
{
    let count = input.faithfulness.len();
    let mut sum: u128 = 0;
    let mut i: usize = 0;
    while i < count
        invariant
            count == input.faithfulness@.len(),
            i <= count,
            sum == unit_sum(input.faithfulness@, i as int),
            sum <= i * 65536,
        decreases count - i,
    {
        sum = sum + clamp_unit(input.faithfulness[i]) as u128;
        i += 1;
    }
    let faith_mean = if count == 0 {
        0
    } else {
        let mean = sum / count as u128;
        if mean < WEIGHT_ONE as u128 {
            mean as Weight
        } else {
            WEIGHT_ONE
        }
    };
    let alpha = if input.alpha < 1 {
        1
    } else if input.alpha > WEIGHT_ONE - 1 {
        WEIGHT_ONE - 1
    } else {
        input.alpha
    };
    let faith_radius = hoeffding_radius_q16(count, alpha);
    let faith_lcb = faith_mean.saturating_sub(faith_radius);
    let faith_floor = clamp_unit(input.faith_floor);
    let faith_slack = faith_lcb as i64 - faith_floor as i64;
    let faith_pass = count > 0 && faith_lcb >= faith_floor;

    let causal_mass = clamp_unit(input.causal_mass);
    let causal_entity_count = if input.causal_entity_count < 1 {
        1
    } else {
        input.causal_entity_count
    };
    let causal_sin_theta = clamp_unit(input.causal_sin_theta);
    let causal_radius = davis_kahan_causal_radius_q16(causal_entity_count, causal_sin_theta);
    let causal_lcb = causal_mass.saturating_sub(causal_radius);
    let causal_floor = clamp_unit(input.causal_floor);
    let causal_slack = causal_lcb as i64 - causal_floor as i64;
    let causal_pass = input.causal_mass_valid && causal_lcb >= causal_floor;

    let reject_reason = if count == 0 {
        Some(CfcbRejectReason::NoFaithWindows)
    } else if !input.causal_mass_valid {
        Some(CfcbRejectReason::InvalidCausalMass)
    } else if !faith_pass {
        Some(CfcbRejectReason::FaithLcbBelowFloor)
    } else if !causal_pass {
        Some(CfcbRejectReason::CausalLcbBelowFloor)
    } else {
        None
    };
    CfcbReport {
        faith_mean,
        sample_count: if count > u32::MAX as usize { u32::MAX } else { count as u32 },
        faith_radius,
        faith_lcb,
        faith_slack,
        faith_pass,
        causal_mass,
        causal_entity_count,
        causal_sin_theta,
        causal_radius,
        causal_lcb,
        causal_slack,
        causal_pass,
        joint_false_accept_bound: alpha,
        accept: reject_reason.is_none(),
        reject_reason,
    }
}

/// CFCB accepts an input if and only if windows were given, the causal mass is
/// valid and both lower confidence bounds reach their thresholds.
pub proof fn lemma_cfcb_accepts_iff(input: CfcbInput)
    ensures
        cfcb_spec(input).accept <==> (cfcb_spec(input).faith_pass && cfcb_spec(input).causal_pass),
        cfcb_spec(input).accept ==> cfcb_spec(input).faith_lcb >= unit(input.faith_floor)
            && cfcb_spec(input).causal_lcb >= unit(input.causal_floor),
{
}

// ---------------------------------------------------------------------------
// Subspace drift entropy
// ---------------------------------------------------------------------------

/// Coordinate `i` of a vector, zero past its end.
pub open spec fn coord(s: Seq<u32>, i: int) -> nat {
    if 0 <= i < s.len() {
        s[i] as nat
    } else {
        0
    }
}

pub open spec fn norm_sq(s: Seq<u32>, k: int) -> nat
    decreases k,
{
    if k <= 0 {
        0
    } else {
        norm_sq(s, k - 1) + coord(s, k - 1) * coord(s, k - 1)
    }
}

pub open spec fn unit_coord(s: Seq<u32>, i: int, norm: nat) -> u32 {
    min_int((coord(s, i) * 65536) as int / (norm as int), u32::MAX as int) as u32
}

/// Squared principal cosine of coordinate `i` between the first `k`
/// coordinates of two vectors; zero when either is the zero vector.
pub open spec fn cosine_sq(previous: Seq<u32>, current: Seq<u32>, k: int, i: int) -> u32 {
    let pn = isqrt(norm_sq(previous, k));
    let cn = isqrt(norm_sq(current, k));
    if pn == 0 || cn == 0 {
        0
    } else {
        let c = q16_mul_round(unit_coord(previous, i, pn), unit_coord(current, i, cn));
        q16_mul_round(c, c)
    }
}

fn coordinate(s: &[Weight], i: usize) -> (r: u128)
    ensures
        r == coord(s@, i as int),
{
    if i < s.len() {
        s[i] as u128
    } else {
        0
    }
}

fn norm_squared(s: &[Weight], k: usize) -> (r: u128)
    ensures
        r == norm_sq(s@, k as int),
{
    let mut sum: u128 = 0;
    let mut i: usize = 0;
    while i < k
        invariant
            i <= k,
            sum == norm_sq(s@, i as int),
            sum <= i * 0xffff_ffff * 0xffff_ffff,
        decreases k - i,
    {
        let v = coordinate(s, i);
        assert(v * v <= 0xffff_ffff * 0xffff_ffff) by (nonlinear_arith)
            requires v <= 0xffff_ffff;
        assert((i + 1) * 0xffff_ffff * 0xffff_ffff <= 0xffff_ffff_ffff_ffff * 0xffff_ffff * 0xffff_ffff) by (nonlinear_arith)
            requires i < k, k <= 0xffff_ffff_ffff_ffff;
        assert(i * 0xffff_ffff * 0xffff_ffff + 0xffff_ffff * 0xffff_ffff == (i + 1) * 0xffff_ffff * 0xffff_ffff) by (nonlinear_arith);
        sum = sum + v * v;
        i += 1;
    }
    sum
}

pub open spec fn cosines_len(previous: Seq<u32>, current: Seq<u32>, output: Seq<u32>) -> nat {
    let longer = if previous.len() >= current.len() {
        previous.len()
    } else {
        current.len()
    };
    if longer <= output.len() {
        longer
    } else {
        output.len()
    }
}

/// Compute squared per-coordinate principal cosines in the entity-axis
/// basis over the longer vector's length (as far as `output` reaches);
/// returns that length.
pub fn principal_cosines_squared_q16(previous: &[Weight], current: &[Weight], output: &mut [Weight]) -> (r: usize)
    ensures
        r == cosines_len(previous@, current@, old(output)@),
        final(output)@.len() == old(output)@.len(),
        forall|i: int| 0 <= i < r ==> final(output)@[i] == cosine_sq(previous@, current@, r as int, i),
        forall|i: int| r <= i < old(output)@.len() ==> final(output)@[i] == old(output)@[i],
{
    let longer = if previous.len() >= current.len() { previous.len() } else { current.len() };
    let k = if longer <= output.len() { longer } else { output.len() };
    if k == 0 {
        return 0;
    }
    let previous_norm = integer_sqrt(norm_squared(previous, k));
    let current_norm = integer_sqrt(norm_squared(current, k));
    let mut index: usize = 0;
    while index < k
        invariant
            k <= output@.len(),
            output@.len() == old(output)@.len(),
            index <= k,
            previous_norm == isqrt(norm_sq(previous@, k as int)),
            current_norm == isqrt(norm_sq(current@, k as int)),
            forall|i: int| 0 <= i < index ==> output@[i] == cosine_sq(previous@, current@, k as int, i),
            forall|i: int| k <= i < output@.len() ==> output@[i] == old(output)@[i],
        decreases k - index,
    {
        if previous_norm == 0 || current_norm == 0 {
            output[index] = 0;
        } else {
            let pu = coordinate(previous, index) * 65536 / previous_norm;
            let previous_unit = if pu > u32::MAX as u128 { u32::MAX } else { pu as Weight };
            let cu = coordinate(current, index) * 65536 / current_norm;
            let current_unit = if cu > u32::MAX as u128 { u32::MAX } else { cu as Weight };
            let coordinate_cosine = q16_mul(previous_unit, current_unit);
            output[index] = q16_mul(coordinate_cosine, coordinate_cosine);
        }
        index += 1;
    }
    k
}

#[derive(Clone, Copy, Debug, PartialEq, Eq, Structural)]
pub struct SdeStep {
    pub entropy: Weight,
    pub delta_entropy: i64,
    pub margin: Weight,
    pub stopped_dropping: bool,
    pub concentrated: bool,
    pub converged: bool,
}

pub open spec fn plain_sum(s: Seq<u32>, k: int) -> nat
    decreases k,
{
    if k <= 0 {
        0
    } else {
        plain_sum(s, k - 1) + s[k - 1] as nat
    }
}

/// The entropy contribution `-p ln p` of one coordinate of mass `c` out of
/// `total`, in Q16; zero for a vanishing share.
pub open spec fn entropy_term(c: u32, total: nat) -> nat {
    if c == 0 {
        0
    } else {
        let p = min_int(c * 65536 / (total as int), WEIGHT_ONE as int) as u32;
        if p == 0 {
            0
        } else {
            let q = q16_div_spec(WEIGHT_ONE, p);
            let inverse = if q < WEIGHT_ONE { WEIGHT_ONE } else { q };
            let negative_log = min_int(ln_spec(inverse as nat), u32::MAX as int) as u32;
            q16_mul_round(p, negative_log) as nat
        }
    }
}

pub open spec fn entropy_sum(s: Seq<u32>, total: nat, k: int) -> nat
    decreases k,
{
    if k <= 0 {
        0
    } else {
        entropy_sum(s, total, k - 1) + entropy_term(s[k - 1], total)
    }
}

/// One Walsh subspace-drift-entropy step: the entropy of the normalized
/// squared cosines, its change, its margin below `ln k`, and whether the
/// drift has both stopped dropping (by less than `epsilon`) and
/// concentrated (margin above `gamma`).
pub open spec fn sde_spec(cos_squared: Seq<u32>, previous_entropy: Option<u32>, epsilon: u32, gamma: u32) -> SdeStep {
    let used = cos_squared.len();
    let total = plain_sum(cos_squared, used as int);
    let entropy = if total > 0 {
        min_int(entropy_sum(cos_squared, total, used as int) as int, u32::MAX as int) as u32
    } else {
        0u32
    };
    let log_k = if used > 1 {
        min_int(ln_spec(((used as u64) << 16u64) as nat), u32::MAX as int) as u32
    } else {
        WEIGHT_ONE
    };
    let margin = sat_sub_u32(log_k, entropy);
    let delta = match previous_entropy {
        Some(prior) => entropy - prior,
        None => 0,
    };
    let drop = if -delta > 0 { -delta } else { 0 };
    let stopped = previous_entropy is Some && drop < epsilon;
    let concentrated = margin > gamma;
    SdeStep {
        entropy,
        delta_entropy: delta as i64,
        margin,
        stopped_dropping: stopped,
        concentrated,
        converged: stopped && concentrated,
    }
}

/// Evaluate one Walsh Subspace Drift Entropy step.
pub fn subspace_drift_step_q16(
    cos_squared: &[Weight],
    previous_entropy: Option<Weight>,
    epsilon: Weight,
    gamma: Weight,
) -> (r: SdeStep)
    ensures
        r == sde_spec(cos_squared@, previous_entropy, epsilon, gamma),
{
    let used = cos_squared.len();
    let mut total: u128 = 0;
    let mut i: usize = 0;
    while i < used
        invariant
            used == cos_squared@.len(),
            i <= used,
            total == plain_sum(cos_squared@, i as int),
            total <= i * 0xffff_ffff,
        decreases used - i,
    {
        total = total + cos_squared[i] as u128;
        i += 1;
    }
    let mut entropy: u128 = 0;
    if total > 0 {
        let mut j: usize = 0;
        while j < used
            invariant
                used == cos_squared@.len(),
                j <= used,
                total == plain_sum(cos_squared@, used as int),
                total > 0,
                entropy == entropy_sum(cos_squared@, total as nat, j as int),
                entropy <= j * 0xffff_ffff,
            decreases used - j,
        {
            let coordinate = cos_squared[j];
            if coordinate != 0 {
                let share = (coordinate as u128 * 65536) / total;
                let probability = if share < WEIGHT_ONE as u128 { share as Weight } else { WEIGHT_ONE };
                if probability != 0 {
                    let q = q16_div(WEIGHT_ONE, probability);
                    let inverse = if q < WEIGHT_ONE { WEIGHT_ONE } else { q };
                    let ln = ln_q16(inverse as u64);
                    let negative_log = if ln > u32::MAX as u64 { u32::MAX } else { ln as Weight };
                    entropy = entropy + q16_mul(probability, negative_log) as u128;
                }
            }
            j += 1;
        }
    }
    let entropy = if entropy > u32::MAX as u128 { u32::MAX } else { entropy as Weight };
    let log_k = if used > 1 {
        let ln = ln_q16((used as u64) << 16u64);
        if ln > u32::MAX as u64 { u32::MAX } else { ln as Weight }
    } else {
        WEIGHT_ONE
    };
    let margin = log_k.saturating_sub(entropy);
    let delta_entropy = match previous_entropy {
        Some(prior) => entropy as i64 - prior as i64,
        None => 0,
    };
    let drop = if -delta_entropy > 0 { -delta_entropy } else { 0 };
    let stopped_dropping = previous_entropy.is_some() && drop < epsilon as i64;
    let concentrated = margin > gamma;
    SdeStep {
        entropy,
        delta_entropy,
        margin,
        stopped_dropping,
        concentrated,
        converged: stopped_dropping && concentrated,
    }
}

// ---------------------------------------------------------------------------
// Greedy causal minimum cover
// ---------------------------------------------------------------------------

#[derive(Clone, Copy, Debug)]
pub struct CmcCandidate {
    pub id: NodeId,
    pub entities: [NodeId; MAX_CMC_ENTITIES_PER_CANDIDATE],
    pub entity_count: u8,
}

impl CmcCandidate {
    /// A candidate covering nothing.
    pub fn empty() -> (r: Self)
        ensures
            r.id == 0,
            r.entity_count == 0,
            r.entities@ == Seq::new(MAX_CMC_ENTITIES_PER_CANDIDATE as nat, |i: int| 0u64),
    {
        let r = CmcCandidate { id: 0, entities: [0; MAX_CMC_ENTITIES_PER_CANDIDATE], entity_count: 0 };
        assert(r.entities@ =~= Seq::new(MAX_CMC_ENTITIES_PER_CANDIDATE as nat, |i: int| 0u64));
        r
    }
}

#[derive(Clone, Copy, Debug, PartialEq, Eq, Structural)]
pub struct CausalMass {
    pub entity: NodeId,
    pub mass: Weight,
}

#[derive(Clone, Copy, Debug, PartialEq, Eq, Structural)]
pub struct CmcConfig {
    pub alpha: Weight,
    pub lambda: Weight,
    pub mu: Weight,
    pub max_spans: u8,
    pub tolerance: Weight,
}

pub open spec fn default_config_spec() -> CmcConfig {
    CmcConfig {
        alpha: WEIGHT_ONE,
        lambda: (8 * WEIGHT_ONE) as u32,
        mu: (WEIGHT_ONE / 2) as u32,
        max_spans: MAX_CMC_CANDIDATES as u8,
        tolerance: 1,
    }
}

impl Default for CmcConfig {
    fn default() -> (r: Self)
        ensures
            r == default_config_spec(),
    {
        CmcConfig {
            alpha: WEIGHT_ONE,
            lambda: 8 * WEIGHT_ONE,
            mu: WEIGHT_ONE / 2,
            max_spans: MAX_CMC_CANDIDATES as u8,
            tolerance: 1,
        }
    }
}

#[derive(Clone, Copy, Debug, PartialEq, Eq, Structural)]
pub struct CmcStep {
    pub picked_id: NodeId,
    pub cost: u64,
    pub cover_mass: Weight,
    pub description_bits: u64,
    pub redundancy: u64,
}

pub open spec fn empty_cmc_step_spec() -> CmcStep {
    CmcStep { picked_id: 0, cost: 0, cover_mass: 0, description_bits: 0, redundancy: 0 }
}

impl CmcStep {
    /// The filler of trajectory positions not reached.
    pub fn empty() -> (r: Self)
        ensures
            r == empty_cmc_step_spec(),
    {
        CmcStep { picked_id: 0, cost: 0, cover_mass: 0, description_bits: 0, redundancy: 0 }
    }
}

#[derive(Clone, Copy, Debug, PartialEq, Eq)]
pub struct CmcReport {
    pub selected: [NodeId; MAX_CMC_CANDIDATES],
    pub selected_count: u8,
    pub final_cost: u64,
    pub trajectory: [CmcStep; MAX_CMC_CANDIDATES],
    pub greedy_slack_bound: u64,
}

pub open spec fn has_entity(entity: NodeId) -> spec_fn(CausalMass) -> bool {
    |m: CausalMass| m.entity == entity
}

/// The entities a candidate lists, at most `MAX_CMC_ENTITIES_PER_CANDIDATE`.
pub open spec fn listed(c: CmcCandidate) -> Seq<NodeId> {
    c.entities@.subrange(
        0,
        min_int(c.entity_count as int, MAX_CMC_ENTITIES_PER_CANDIDATE as int),
    )
}

/// Degrees after covering the first `o` listed entities of `c`: each
/// distinct entity that has a mass bumps its (first) mass entry by one.
pub open spec fn covered_upto(degrees: Seq<u8>, c: CmcCandidate, ms: Seq<CausalMass>, o: int) -> Seq<u8>
    decreases o,
{
    if o <= 0 {
        degrees
    } else {
        let d = covered_upto(degrees, c, ms, o - 1);
        let e = listed(c)[o - 1];
        if listed(c).subrange(0, o - 1).contains(e) {
            d
        } else {
            match first_index(ms, has_entity(e)) {
                Some(m) => d.update(m, if d[m] == u8::MAX { u8::MAX } else { (d[m] + 1) as u8 }),
                None => d,
            }
        }
    }
}

pub open spec fn with_candidate(degrees: Seq<u8>, c: CmcCandidate, ms: Seq<CausalMass>) -> Seq<u8> {
    covered_upto(degrees, c, ms, listed(c).len() as int)
}

/// Mass of the entities covered at least once, over the first `k` entries.
pub open spec fn cover_upto(degrees: Seq<u8>, ms: Seq<CausalMass>, k: int) -> nat
    decreases k,
{
    if k <= 0 {
        0
    } else {
        cover_upto(degrees, ms, k - 1) + if degrees[k - 1] > 0 { unit(ms[k - 1].mass) as nat } else { 0 }
    }
}

/// Mass covered more than once, counted once per extra cover.
pub open spec fn redundancy_upto(degrees: Seq<u8>, ms: Seq<CausalMass>, k: int) -> nat
    decreases k,
{
    if k <= 0 {
        0
    } else {
        redundancy_upto(degrees, ms, k - 1) + if degrees[k - 1] > 1 {
            ((degrees[k - 1] - 1) * unit(ms[k - 1].mass)) as nat
        } else {
            0
        }
    }
}

/// Cost of a selection of `selected` candidates with the given degrees:
/// description bits, plus `lambda` times the uncovered mass, plus `mu` times
/// the redundancy; with the cover, the description and the redundancy.
pub open spec fn components_spec(
    selected: nat,
    degrees: Seq<u8>,
    ms: Seq<CausalMass>,
    config: CmcConfig,
    log2_n: u32,
    total_mass: u32,
) -> (u64, u32, u64, u64) {
    let cover = min_int(cover_upto(degrees, ms, ms.len() as int) as int, WEIGHT_ONE as int) as u32;
    let redundancy_raw = redundancy_upto(degrees, ms, ms.len() as int);
    let description = q16_mul_round(config.alpha, log2_n) * selected;
    let gap_cost = q16_mul_round(config.lambda, sat_sub_u32(total_mass, cover)) as int;
    let redundancy = redundancy_raw * config.mu / 65536;
    ((description + gap_cost + redundancy) as u64, cover, description as u64, redundancy as u64)
}

/// Whether some of the first `n` candidates lists `entity`.
pub open spec fn listed_by_any(candidates: Seq<CmcCandidate>, n: int, entity: NodeId) -> bool {
    exists|i: int| 0 <= i < n && #[trigger] listed(candidates[i]).contains(entity)
}

/// Mass of the distinct entities, among the first `k` entries, that some
/// candidate can cover.
pub open spec fn coverable_upto(candidates: Seq<CmcCandidate>, n: int, ms: Seq<CausalMass>, k: int) -> nat
    decreases k,
{
    if k <= 0 {
        0
    } else {
        coverable_upto(candidates, n, ms, k - 1) + if !ms.subrange(0, k - 1).map_values(|m: CausalMass| m.entity).contains(
            ms[k - 1].entity,
        ) && listed_by_any(candidates, n, ms[k - 1].entity) {
            unit(ms[k - 1].mass) as nat
        } else {
            0
        }
    }
}

/// The search state of the greedy selector.
#[verifier::ext_equal]
pub struct CmcState {
    pub chosen: Seq<bool>,
    pub degrees: Seq<u8>,
    pub selected: Seq<NodeId>,
    pub trajectory: Seq<CmcStep>,
    pub count: nat,
    pub final_cost: u64,
}

/// The fixed data of one selection.
pub struct CmcProblem {
    pub candidates: Seq<CmcCandidate>,
    pub n: int,
    pub ms: Seq<CausalMass>,
    pub config: CmcConfig,
    pub log2_n: u32,
    pub total_mass: u32,
    pub limit: nat,
}

/// The scan over the first `k` candidates for the next pick: a candidate
/// replaces the best so far when its cost plus the tolerance is still below
/// the best cost; ties keep the earlier candidate.
pub open spec fn scan_spec(p: CmcProblem, st: CmcState, k: int) -> (Option<int>, u64, Seq<u8>, u32, u64, u64)
    decreases k,
{
    if k <= 0 {
        (None, st.final_cost, st.degrees, 0, 0, 0)
    } else {
        let prev = scan_spec(p, st, k - 1);
        if st.chosen[k - 1] {
            prev
        } else {
            let trial = with_candidate(st.degrees, p.candidates[k - 1], p.ms);
            let (cost, cover, description, redundancy) = components_spec(
                st.count + 1,
                trial,
                p.ms,
                p.config,
                p.log2_n,
                p.total_mass,
            );
            if cost + p.config.tolerance < prev.1 {
                (Some(k - 1), cost, trial, cover, description, redundancy)
            } else {
                prev
            }
        }
    }
}

/// Greedy selection: pick while under the limit and some candidate lowers
/// the cost by more than the tolerance.
pub open spec fn greedy_spec(p: CmcProblem, st: CmcState) -> CmcState
    decreases p.limit - st.count,
{
    if st.count >= p.limit {
        st
    } else {
        let (best, cost, degrees, cover, description, redundancy) = scan_spec(p, st, p.n);
        match best {
            None => st,
            Some(i) => greedy_spec(
                p,
                CmcState {
                    chosen: st.chosen.update(i, true),
                    degrees,
                    selected: st.selected.update(st.count as int, p.candidates[i].id),
                    trajectory: st.trajectory.update(
                        st.count as int,
                        CmcStep {
                            picked_id: p.candidates[i].id,
                            cost,
                            cover_mass: cover,
                            description_bits: description,
                            redundancy,
                        },
                    ),
                    count: st.count + 1,
                    final_cost: cost,
                },
            ),
        }
    }
}

pub open spec fn max_redundancy(trajectory: Seq<CmcStep>, k: int) -> u64
    decreases k,
{
    if k <= 0 {
        0
    } else {
        let m = max_redundancy(trajectory, k - 1);
        if trajectory[k - 1].redundancy > m {
            trajectory[k - 1].redundancy
        } else {
            m
        }
    }
}

pub open spec fn cmc_problem(candidates: Seq<CmcCandidate>, masses: Seq<CausalMass>, config: CmcConfig) -> CmcProblem {
    let n = min_int(candidates.len() as int, MAX_CMC_CANDIDATES as int);
    let ms = masses.subrange(0, min_int(masses.len() as int, MAX_CMC_ENTITIES as int));
    let ln_n = ln_spec((if n < 1 { 1 } else { n }) as nat * 65536);
    let log2_n = min_int(ln_n * 65536 / (LN_2_Q16 as int), u32::MAX as int) as u32;
    let total_mass = min_int(coverable_upto(candidates, n, ms, ms.len() as int) as int, WEIGHT_ONE as int) as u32;
    CmcProblem {
        candidates,
        n,
        ms,
        config,
        log2_n,
        total_mass,
        limit: min_int(config.max_spans as int, n) as nat,
    }
}

pub open spec fn cmc_start(p: CmcProblem) -> CmcState {
    CmcState {
        chosen: Seq::new(MAX_CMC_CANDIDATES as nat, |i: int| false),
        degrees: Seq::new(MAX_CMC_ENTITIES as nat, |i: int| 0u8),
        selected: Seq::new(MAX_CMC_CANDIDATES as nat, |i: int| 0u64),
        trajectory: Seq::new(MAX_CMC_CANDIDATES as nat, |i: int| empty_cmc_step_spec()),
        count: 0,
        final_cost: q16_mul_round(p.config.lambda, p.total_mass) as u64,
    }
}

fn mass_index(masses: &[CausalMass], n: usize, entity: NodeId) -> (r: Option<usize>)
    requires
        n <= masses@.len(),
    ensures
        match r {
            Some(i) => first_index(masses@.subrange(0, n as int), has_entity(entity)) == Some(i as int),
            None => first_index(masses@.subrange(0, n as int), has_entity(entity)) == None::<int>,
        },
{
    let ghost ms = masses@.subrange(0, n as int);
    let mut i: usize = 0;
    while i < n
        invariant
            n <= masses@.len(),
            ms == masses@.subrange(0, n as int),
            i <= n,
            forall|j: int| 0 <= j < i ==> !(#[trigger] has_entity(entity)(ms[j])),
        decreases n - i,
    {
        if masses[i].entity == entity {
            proof { lemma_first_found(ms, has_entity(entity), i as int); }
            return Some(i);
        }
        i += 1;
    }
    proof { lemma_first_none(ms, has_entity(entity)); }
    None
}

fn listed_count(c: &CmcCandidate) -> (r: usize)
    ensures
        r == listed(*c).len(),
        r <= MAX_CMC_ENTITIES_PER_CANDIDATE,
{
    if (c.entity_count as usize) < MAX_CMC_ENTITIES_PER_CANDIDATE {
        c.entity_count as usize
    } else {
        MAX_CMC_ENTITIES_PER_CANDIDATE
    }
}

/// Whether `entity` is among the first `upto` entities `c` lists.
fn listed_before(c: &CmcCandidate, upto: usize, entity: NodeId) -> (r: bool)
    requires
        upto <= listed(*c).len(),
    ensures
        r == listed(*c).subrange(0, upto as int).contains(entity),
{
    let ghost pre = listed(*c).subrange(0, upto as int);
    let mut j: usize = 0;
    while j < upto
        invariant
            upto <= listed(*c).len(),
            pre == listed(*c).subrange(0, upto as int),
            j <= upto,
            forall|i: int| 0 <= i < j ==> pre[i] != entity,
        decreases upto - j,
    {
        if c.entities[j] == entity {
            assert(pre[j as int] == entity);
            return true;
        }
        j += 1;
    }
    false
}

/// Whether `c` lists `entity`.
fn candidate_contains(c: &CmcCandidate, entity: NodeId) -> (r: bool)
    ensures
        r == listed(*c).contains(entity),
{
    let count = listed_count(c);
    proof { assert(listed(*c).subrange(0, count as int) =~= listed(*c)); }
    listed_before(c, count, entity)
}

/// Bump the degrees of the distinct entities `c` covers.
fn add_candidate(degrees: &mut [u8; MAX_CMC_ENTITIES], c: &CmcCandidate, masses: &[CausalMass], n: usize)
    requires
        n <= masses@.len(),
        n <= MAX_CMC_ENTITIES,
    ensures
        final(degrees)@ == with_candidate(old(degrees)@, *c, masses@.subrange(0, n as int)),
{
    let ghost ms = masses@.subrange(0, n as int);
    let count = listed_count(c);
    let mut offset: usize = 0;
    while offset < count
        invariant
            n <= masses@.len(),
            n <= MAX_CMC_ENTITIES,
            ms == masses@.subrange(0, n as int),
            count == listed(*c).len(),
            offset <= count,
            degrees@ == covered_upto(old(degrees)@, *c, ms, offset as int),
            degrees@.len() == MAX_CMC_ENTITIES,
        decreases count - offset,
    {
        let entity = c.entities[offset];
        assert(listed(*c)[offset as int] == entity);
        if !listed_before(c, offset, entity) {
            match mass_index(masses, n, entity) {
                Some(m) => {
                    proof {
                        assert(is_first(ms, has_entity(entity), m as int));
                    }
                    degrees[m] = degrees[m].saturating_add(1);
                },
                None => {},
            }
        }
        offset += 1;
    }
}

fn cmc_components(
    selected: usize,
    degrees: &[u8; MAX_CMC_ENTITIES],
    masses: &[CausalMass],
    n: usize,
    config: CmcConfig,
    log2_n: Weight,
    total_mass: Weight,
) -> (r: (u64, Weight, u64, u64))
    requires
        n <= masses@.len(),
        n <= MAX_CMC_ENTITIES,
        selected <= MAX_CMC_CANDIDATES + 1,
    ensures
        r == components_spec(selected as nat, degrees@, masses@.subrange(0, n as int), config, log2_n, total_mass),
        r.0 < 0x1_0000_0000_0000,
        r.3 <= 128 * 255 * 0x1_0000_0000,
{
    let ghost ms = masses@.subrange(0, n as int);
    let mut cover_sum: u64 = 0;
    let mut redundancy_raw: u128 = 0;
    let mut i: usize = 0;
    while i < n
        invariant
            n <= masses@.len(),
            n <= MAX_CMC_ENTITIES,
            ms == masses@.subrange(0, n as int),
            i <= n,
            cover_sum == cover_upto(degrees@, ms, i as int),
            cover_sum <= i * 65536,
            redundancy_raw == redundancy_upto(degrees@, ms, i as int),
            redundancy_raw <= i * 255 * 65536,
        decreases n - i,
    {
        let degree = degrees[i];
        let mass = clamp_unit(masses[i].mass);
        if degree > 0 {
            cover_sum = cover_sum + mass as u64;
        }
        if degree > 1 {
            assert((degree - 1) * mass <= 255 * 65536) by (nonlinear_arith)
                requires degree <= 255, mass <= 65536, degree > 1;
            redundancy_raw = redundancy_raw + (degree as u128 - 1) * mass as u128;
        }
        i += 1;
    }
    let cover = if cover_sum < WEIGHT_ONE as u64 { cover_sum as Weight } else { WEIGHT_ONE };
    let unit_description = q16_mul(config.alpha, log2_n);
    assert(unit_description * selected <= 0xffff_ffff * 33) by (nonlinear_arith)
        requires selected <= 33;
    let description = unit_description as u64 * selected as u64;
    let gap_cost = q16_mul(config.lambda, total_mass.saturating_sub(cover)) as u64;
    assert(redundancy_raw * config.mu <= 128 * 255 * 65536 * 0xffff_ffff) by (nonlinear_arith)
        requires redundancy_raw <= 128 * 255 * 65536;
    assert(redundancy_raw * config.mu / 65536 <= 128 * 255 * 0x1_0000_0000) by (nonlinear_arith)
        requires redundancy_raw * config.mu <= 128 * 255 * 65536 * 0xffff_ffff;
    let redundancy = ((redundancy_raw * config.mu as u128) / 65536) as u64;
    (description + gap_cost + redundancy, cover, description, redundancy)
}

/// Mass of the distinct entities that some of the first `n` candidates covers.
fn coverable_mass(candidates: &[CmcCandidate], n: usize, masses: &[CausalMass], count: usize) -> (r: u64)
    requires
        n <= candidates@.len(),
        count <= masses@.len(),
        count <= MAX_CMC_ENTITIES,
    ensures
        r == coverable_upto(candidates@, n as int, masses@.subrange(0, count as int), count as int),
{
    let ghost ms = masses@.subrange(0, count as int);
    let mut sum: u64 = 0;
    let mut i: usize = 0;
    while i < count
        invariant
            n <= candidates@.len(),
            count <= masses@.len(),
            count <= MAX_CMC_ENTITIES,
            ms == masses@.subrange(0, count as int),
            i <= count,
            sum == coverable_upto(candidates@, n as int, ms, i as int),
            sum <= i * 65536,
        decreases count - i,
    {
        let entity = masses[i].entity;
        let ghost prior = ms.subrange(0, i as int).map_values(|m: CausalMass| m.entity);
        let mut seen = false;
        let mut j: usize = 0;
        while j < i
            invariant
                i < count,
                count <= masses@.len(),
                ms == masses@.subrange(0, count as int),
                entity == ms[i as int].entity,
                prior == ms.subrange(0, i as int).map_values(|m: CausalMass| m.entity),
                j <= i,
                seen == exists|t: int| 0 <= t < j && prior[t] == entity,
            decreases i - j,
        {
            if masses[j].entity == entity {
                assert(prior[j as int] == entity);
                seen = true;
            }
            j += 1;
        }
        proof {
            if seen {
                let t = choose|t: int| 0 <= t < i && prior[t] == entity;
                assert(prior.contains(entity));
            } else {
                if prior.contains(entity) {
                    let t = choose|t: int| 0 <= t < prior.len() && prior[t] == entity;
                    assert(false);
                }
            }
        }
        let mut any = false;
        if !seen {
            let mut k: usize = 0;
            while k < n
                invariant
                    n <= candidates@.len(),
                    k <= n,
                    any == exists|t: int| 0 <= t < k && #[trigger] listed(candidates@[t]).contains(entity),
                decreases n - k,
            {
                if candidate_contains(&candidates[k], entity) {
                    any = true;
                }
                k += 1;
            }
        }
        if !seen && any {
            sum = sum + clamp_unit(masses[i].mass) as u64;
        }
        i += 1;
    }
    sum
}

pub open spec fn state_of(
    chosen: [bool; MAX_CMC_CANDIDATES],
    degrees: [u8; MAX_CMC_ENTITIES],
    report: CmcReport,
) -> CmcState {
    CmcState {
        chosen: chosen@,
        degrees: degrees@,
        selected: report.selected@,
        trajectory: report.trajectory@,
        count: report.selected_count as nat,
        final_cost: report.final_cost,
    }
}

/// Deterministic greedy C-MC2 selector over the first `MAX_CMC_CANDIDATES`
/// candidates and `MAX_CMC_ENTITIES` masses. Equal-cost ties retain
/// candidate order.
pub fn causal_min_cover_q16(candidates: &[CmcCandidate], causal_masses: &[CausalMass], config: CmcConfig) -> (r: CmcReport)
    ensures
        ({
            let p = cmc_problem(candidates@, causal_masses@, config);
            let fin = greedy_spec(p, cmc_start(p));
            &&& r.selected@ == fin.selected
            &&& r.selected_count == fin.count
            &&& r.final_cost == fin.final_cost
            &&& r.trajectory@ == fin.trajectory
            &&& r.greedy_slack_bound == max_redundancy(fin.trajectory, fin.count as int) * fin.count
        }),
{
    let ghost p = cmc_problem(candidates@, causal_masses@, config);
    let candidate_count = if candidates.len() < MAX_CMC_CANDIDATES { candidates.len() } else { MAX_CMC_CANDIDATES };
    let mass_count = if causal_masses.len() < MAX_CMC_ENTITIES { causal_masses.len() } else { MAX_CMC_ENTITIES };
    let ln_n = ln_q16((if candidate_count < 1 { 1 } else { candidate_count }) as u64 * 65536);
    assert(ln_n < 0x1_0000_0000) by {
        crate::temporal::lemma_ln_bounded((if candidate_count < 1 { 1 } else { candidate_count }) as nat * 65536);
    }
    let scaled = (ln_n as u128 * 65536) / LN_2_Q16 as u128;
    let log2_n = if scaled > u32::MAX as u128 { u32::MAX } else { scaled as Weight };
    let coverable = coverable_mass(candidates, candidate_count, causal_masses, mass_count);
    let total_mass = if coverable < WEIGHT_ONE as u64 { coverable as Weight } else { WEIGHT_ONE };
    let mut report = CmcReport {
        selected: [0; MAX_CMC_CANDIDATES],
        selected_count: 0,
        final_cost: q16_mul(config.lambda, total_mass) as u64,
        trajectory: [CmcStep::empty(); MAX_CMC_CANDIDATES],
        greedy_slack_bound: 0,
    };
    let mut degrees = [0u8; MAX_CMC_ENTITIES];
    let mut chosen = [false; MAX_CMC_CANDIDATES];
    let limit = if (config.max_spans as usize) < candidate_count { config.max_spans as usize } else { candidate_count };
    proof {
        assert(p.n == candidate_count);
        assert(p.ms == causal_masses@.subrange(0, mass_count as int));
        assert(p.log2_n == log2_n);
        assert(p.total_mass == total_mass);
        assert(p.limit == limit);
        assert(chosen@ =~= cmc_start(p).chosen);
        assert(degrees@ =~= cmc_start(p).degrees);
        assert(report.selected@ =~= cmc_start(p).selected);
        assert(report.trajectory@ =~= cmc_start(p).trajectory);
        assert(state_of(chosen, degrees, report) =~= cmc_start(p));
    }
    let ghost fin = greedy_spec(p, cmc_start(p));
    while (report.selected_count as usize) < limit
        invariant
            candidate_count <= candidates@.len(),
            candidate_count <= MAX_CMC_CANDIDATES,
            mass_count <= causal_masses@.len(),
            mass_count <= MAX_CMC_ENTITIES,
            limit <= candidate_count,
            p == cmc_problem(candidates@, causal_masses@, config),
            p.n == candidate_count,
            p.ms == causal_masses@.subrange(0, mass_count as int),
            p.log2_n == log2_n,
            p.total_mass == total_mass,
            p.limit == limit,
            report.selected_count <= limit,
            greedy_spec(p, state_of(chosen, degrees, report)) == fin,
            forall|t: int| 0 <= t < report.selected_count ==> #[trigger] report.trajectory@[t].redundancy <= 128 * 255 * 0x1_0000_0000,
        ensures
            report.selected_count <= limit,
            limit <= MAX_CMC_CANDIDATES,
            greedy_spec(p, state_of(chosen, degrees, report)) == fin,
            greedy_spec(p, state_of(chosen, degrees, report)) == state_of(chosen, degrees, report),
            forall|t: int| 0 <= t < report.selected_count ==> #[trigger] report.trajectory@[t].redundancy <= 128 * 255 * 0x1_0000_0000,
        decreases limit - report.selected_count,
    {
        let ghost st = state_of(chosen, degrees, report);
        let mut best_index: Option<usize> = None;
        let mut best_cost = report.final_cost;
        let mut best_degrees = degrees;
        let mut best_cover: Weight = 0;
        let mut best_description: u64 = 0;
        let mut best_redundancy: u64 = 0;
        let mut index: usize = 0;
        while index < candidate_count
            invariant
                candidate_count <= candidates@.len(),
                candidate_count <= MAX_CMC_CANDIDATES,
                mass_count <= causal_masses@.len(),
                mass_count <= MAX_CMC_ENTITIES,
                report.selected_count < limit,
                limit <= candidate_count,
                p.ms == causal_masses@.subrange(0, mass_count as int),
                p.log2_n == log2_n,
                p.total_mass == total_mass,
                p.config == config,
                p.candidates == candidates@,
                st == state_of(chosen, degrees, report),
                index <= candidate_count,
                (match best_index {
                    Some(b) => Some(b as int),
                    None => None::<int>,
                }, best_cost, best_degrees@, best_cover, best_description, best_redundancy) == scan_spec(p, st, index as int),
                best_index matches Some(b) ==> b < candidate_count && best_cost < 0x1_0000_0000_0000
                    && best_redundancy <= 128 * 255 * 0x1_0000_0000,
            decreases candidate_count - index,
        {
            if !chosen[index] {
                let mut trial_degrees = degrees;
                add_candidate(&mut trial_degrees, &candidates[index], causal_masses, mass_count);
                let (cost, cover, description, redundancy) = cmc_components(
                    report.selected_count as usize + 1,
                    &trial_degrees,
                    causal_masses,
                    mass_count,
                    config,
                    log2_n,
                    total_mass,
                );
                if cost + (config.tolerance as u64) < best_cost {
                    best_index = Some(index);
                    best_cost = cost;
                    best_degrees = trial_degrees;
                    best_cover = cover;
                    best_description = description;
                    best_redundancy = redundancy;
                }
            }
            index += 1;
        }
        let index = match best_index {
            Some(i) => i,
            None => break,
        };
        chosen[index] = true;
        degrees = best_degrees;
        let step_index = report.selected_count as usize;
        report.selected[step_index] = candidates[index].id;
        report.trajectory[step_index] = CmcStep {
            picked_id: candidates[index].id,
            cost: best_cost,
            cover_mass: best_cover,
            description_bits: best_description,
            redundancy: best_redundancy,
        };
        report.selected_count = report.selected_count + 1;
        report.final_cost = best_cost;
    }
    let count = report.selected_count as usize;
    let mut max_redundancy_value: u64 = 0;
    let mut t: usize = 0;
    while t < count
        invariant
            count == report.selected_count,
            count <= MAX_CMC_CANDIDATES,
            t <= count,
            max_redundancy_value == max_redundancy(report.trajectory@, t as int),
            max_redundancy_value <= 128 * 255 * 0x1_0000_0000,
            forall|k: int| 0 <= k < count ==> #[trigger] report.trajectory@[k].redundancy <= 128 * 255 * 0x1_0000_0000,
        decreases count - t,
    {
        if report.trajectory[t].redundancy > max_redundancy_value {
            max_redundancy_value = report.trajectory[t].redundancy;
        }
        t += 1;
    }
    assert(max_redundancy_value * count <= 128 * 255 * 0x1_0000_0000 * 32) by (nonlinear_arith)
        requires max_redundancy_value <= 128 * 255 * 0x1_0000_0000, count <= 32;
    report.greedy_slack_bound = max_redundancy_value * count as u64;
    report
}

} // verus!
