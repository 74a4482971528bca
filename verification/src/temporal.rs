//! Temporal graph primitives in one explicit unit, integer ticks: Q16
//! exponential decay, half-life and rate conversion, a fixed-point natural
//! logarithm, and the per-type-pair decay parameters and transition
//! statistics that adapt them.

use vstd::prelude::*;
use vstd::arithmetic::power2::{pow2, lemma_pow2_pos, lemma2_to64, lemma_pow2_adds, lemma_pow2_strictly_increases};
use vstd::arithmetic::div_mod::{lemma_div_is_ordered, lemma_div_denominator, lemma_fundamental_div_mod, lemma_div_pos_is_pos};
use vstd::arithmetic::mul::{lemma_mul_inequality, lemma_mul_upper_bound};
use vstd::bits::{lemma_u64_shr_is_div, lemma_u64_shl_is_mul};
use vstd::std_specs::bits::u64_leading_zeros;
use crate::kinds::{NodeKind, Weight, Timestamp, WEIGHT_ONE, NODE_KIND_COUNT};
use crate::search::lemma_filter_step;

verus! {

/// ln(2) in Q16.
pub const LN_2_Q16: u32 = 45426;

pub const SECONDS_PER_DAY: u64 = 86400;

// ---------------------------------------------------------------------------
// Exponential decay
// ---------------------------------------------------------------------------

/// exp(-k/16 ln 2) in Q16 for k = 0..16: the interpolation table of
/// [`exp_neg_q16`].
pub open spec fn exp_table() -> Seq<int> {
    seq![
        65536int, 62757, 60097, 57549, 55109, 52772, 50535, 48392, 46341, 44376, 42495, 40693, 38968,
        37316, 35734, 34219, 32768,
    ]
}

/// Linear interpolation of the table at `r / ln 2`, for `0 <= r < ln 2`.
pub open spec fn table_interp(r: int) -> int {
    let position = r * 16;
    let segment = position / (LN_2_Q16 as int);
    let fraction = position % (LN_2_Q16 as int);
    let span = exp_table()[segment] - exp_table()[segment + 1];
    exp_table()[segment] - span * fraction / (LN_2_Q16 as int)
}

/// The Q16 value of exp(-x) for a Q16 `x`: `x = n ln 2 + r` with the
/// remainder interpolated from the table and the exact binary scale `2^-n`;
/// zero from `n = 32` on.
pub open spec fn exp_neg_spec(x: nat) -> int {
    let n = x / (LN_2_Q16 as nat);
    if n >= 32 {
        0
    } else {
        table_interp((x % (LN_2_Q16 as nat)) as int) / (pow2(n) as int)
    }
}

proof fn lemma_table_facts()
    ensures
        exp_table().len() == 17,
        exp_table()[0] == 65536,
        exp_table()[16] == 32768,
        forall|i: int, j: int| 0 <= i <= j < 17 ==> exp_table()[j] <= exp_table()[i],
        forall|i: int| 0 <= i < 16 ==> 0 < #[trigger] exp_table()[i] - exp_table()[i + 1] <= 2779,
{
}

/// The interpolation stays between the table entries around `r`.
proof fn lemma_interp_bounds(r: int)
    requires
        0 <= r < LN_2_Q16,
    ensures
        0 <= (r * 16) / (LN_2_Q16 as int) < 16,
        exp_table()[(r * 16) / (LN_2_Q16 as int) + 1] <= table_interp(r) <= exp_table()[(r * 16) / (LN_2_Q16 as int)],
        32768 <= table_interp(r) <= 65536,
{
    lemma_table_facts();
    let l = LN_2_Q16 as int;
    let position = r * 16;
    let segment = position / l;
    let fraction = position % l;
    lemma_fundamental_div_mod(position, l);
    assert(0 <= segment < 16) by (nonlinear_arith)
        requires position == r * 16, 0 <= r < l, l == 45426, position == l * segment + fraction, 0 <= fraction < l;
    let span = exp_table()[segment] - exp_table()[segment + 1];
    assert(0 <= span * fraction / l <= span) by (nonlinear_arith)
        requires 0 < span, 0 <= fraction < l, l == 45426;
}

/// The interpolation never increases along the remainder.
proof fn lemma_interp_monotone(r1: int, r2: int)
    requires
        0 <= r1 <= r2 < LN_2_Q16,
    ensures
        table_interp(r2) <= table_interp(r1),
{
    lemma_table_facts();
    lemma_interp_bounds(r1);
    lemma_interp_bounds(r2);
    let l = LN_2_Q16 as int;
    let p1 = r1 * 16;
    let p2 = r2 * 16;
    lemma_div_is_ordered(p1, p2, l);
    let s1 = p1 / l;
    let s2 = p2 / l;
    if s1 == s2 {
        lemma_fundamental_div_mod(p1, l);
        lemma_fundamental_div_mod(p2, l);
        let f1 = p1 % l;
        let f2 = p2 % l;
        assert(f1 <= f2) by (nonlinear_arith)
            requires p1 <= p2, p1 == l * s1 + f1, p2 == l * s1 + f2, 0 <= f1 < l, 0 <= f2 < l, s1 == s2, s2 == p2 / l, l > 0;
        let span = exp_table()[s1] - exp_table()[s1 + 1];
        lemma_mul_inequality(f1, f2, span);
        assert(f1 * span == span * f1 && f2 * span == span * f2) by (nonlinear_arith);
        lemma_div_is_ordered(span * f1, span * f2, l);
    } else {
        assert(exp_table()[s2] <= exp_table()[s1 + 1]);
    }
}

/// `exp_neg_spec` stays within Q16 `[0, 1]`.
pub proof fn lemma_exp_neg_bounded(x: nat)
    ensures
        0 <= exp_neg_spec(x) <= WEIGHT_ONE,
{
    let n = x / (LN_2_Q16 as nat);
    if n < 32 {
        let r = (x % (LN_2_Q16 as nat)) as int;
        lemma_interp_bounds(r);
        lemma_pow2_pos(n);
        lemma_div_is_ordered(table_interp(r), 65536, pow2(n) as int);
        assert(65536int / (pow2(n) as int) <= 65536) by (nonlinear_arith)
            requires pow2(n) >= 1;
        lemma_div_pos_is_pos(table_interp(r), pow2(n) as int);
    }
}

/// exp(-x) is approximated monotonically: a larger argument never gives a
/// larger value.
pub proof fn lemma_exp_neg_monotone(x: nat, y: nat)
    requires
        x <= y,
    ensures
        exp_neg_spec(y) <= exp_neg_spec(x),
{
    let l = LN_2_Q16 as nat;
    let nx = x / l;
    let ny = y / l;
    lemma_div_is_ordered(x as int, y as int, l as int);
    lemma_exp_neg_bounded(x);
    lemma_exp_neg_bounded(y);
    if ny >= 32 {
    } else {
        let rx = (x % l) as int;
        let ry = (y % l) as int;
        lemma_interp_bounds(rx);
        lemma_interp_bounds(ry);
        lemma_pow2_pos(nx);
        lemma_pow2_pos(ny);
        if nx == ny {
            lemma_fundamental_div_mod(x as int, l as int);
            lemma_fundamental_div_mod(y as int, l as int);
            assert(rx <= ry) by (nonlinear_arith)
                requires x <= y, x == l * nx + rx, y == l * ny + ry, nx == ny, 0 <= rx < l, 0 <= ry < l;
            lemma_interp_monotone(rx, ry);
            lemma_div_is_ordered(table_interp(ry), table_interp(rx), pow2(nx) as int);
        } else {
            // ny > nx: the extra halvings outweigh the table's factor of two.
            let d = (ny - nx) as nat;
            lemma_pow2_adds(d, nx);
            lemma_pow2_pos(d);
            lemma_pow2_strictly_increases(0, d);
            lemma2_to64();
            let ay = table_interp(ry);
            let ax = table_interp(rx);
            lemma_div_denominator(ay, pow2(d) as int, pow2(nx) as int);
            assert(ay / (pow2(d) as int) <= ax) by (nonlinear_arith)
                requires ay <= 65536, ax >= 32768, pow2(d) >= 2;
            lemma_div_is_ordered(ay / (pow2(d) as int), ax, pow2(nx) as int);
            assert(pow2(d) * pow2(nx) == pow2(ny));
        }
    }
}

/// Monotone Q16 approximation of `exp(-x)` for a nonnegative Q16 input.
///
/// Range reduction uses `x = n ln(2) + r`; a 16-segment table interpolates
/// `exp(-r)` on `[0, ln(2)]`, followed by the exact binary scale `2^-n`.
pub fn exp_neg_q16(x_q16: u64) -> (r: Weight)
    ensures
        r == exp_neg_spec(x_q16 as nat),
        r <= WEIGHT_ONE,
{
    let table: [u32; 17] = [
        65536, 62757, 60097, 57549, 55109, 52772, 50535, 48392, 46341, 44376, 42495, 40693, 38968,
        37316, 35734, 34219, 32768,
    ];
    proof {
        lemma_table_facts();
        assert forall|i: int| 0 <= i < 17 implies table@[i] == exp_table()[i] by {}
    }
    let binary_exponent = x_q16 / LN_2_Q16 as u64;
    if binary_exponent >= 32 {
        return 0;
    }
    let remainder = x_q16 % LN_2_Q16 as u64;
    proof { lemma_interp_bounds(remainder as int); }
    let position = remainder * 16;
    let segment = (position / LN_2_Q16 as u64) as usize;
    let fraction = position % LN_2_Q16 as u64;
    let upper = segment + 1;
    let span = (table[segment] - table[upper]) as u64;
    assert(span * fraction <= 2779 * 45426) by (nonlinear_arith)
        requires span <= 2779, fraction < 45426;
    let interpolated = table[segment] as u64 - span * fraction / LN_2_Q16 as u64;
    proof {
        lemma_u64_shr_is_div(interpolated, binary_exponent);
        lemma_exp_neg_bounded(x_q16 as nat);
    }
    (interpolated >> binary_exponent) as Weight
}

pub open spec fn decay_spec(weight_q16: u32, lambda_per_tick_q16: u32, elapsed_ticks: u64) -> int {
    let x = if lambda_per_tick_q16 * elapsed_ticks > u64::MAX {
        u64::MAX as nat
    } else {
        (lambda_per_tick_q16 * elapsed_ticks) as nat
    };
    weight_q16 * exp_neg_spec(x) / 65536
}

/// Apply `weight * exp(-lambda * elapsed_ticks)` in Q16; the exponent
/// saturates at `u64::MAX`.
pub fn decay_weight_q16(weight_q16: Weight, lambda_per_tick_q16: Weight, elapsed_ticks: u64) -> (r: Weight)
    ensures
        r == decay_spec(weight_q16, lambda_per_tick_q16, elapsed_ticks),
        r <= weight_q16,
{
    let x_q16 = match (lambda_per_tick_q16 as u64).checked_mul(elapsed_ticks) {
        Some(x) => x,
        None => u64::MAX,
    };
    let factor_q16 = exp_neg_q16(x_q16);
    assert(weight_q16 * factor_q16 <= 0xffff_ffff * 65536) by (nonlinear_arith)
        requires factor_q16 <= 65536;
    let product = weight_q16 as u64 * factor_q16 as u64;
    proof {
        lemma_u64_shr_is_div(product, 16);
        lemma2_to64();
        assert(product / 65536 <= weight_q16) by (nonlinear_arith)
            requires product == weight_q16 * factor_q16, factor_q16 <= 65536;
    }
    (product >> 16) as Weight
}

/// Decay never increases a weight, and a longer wait never leaves more of it.
pub proof fn lemma_decay_monotone(weight_q16: u32, lambda_per_tick_q16: u32, t1: u64, t2: u64)
    requires
        t1 <= t2,
    ensures
        decay_spec(weight_q16, lambda_per_tick_q16, t2) <= decay_spec(weight_q16, lambda_per_tick_q16, t1),
        decay_spec(weight_q16, lambda_per_tick_q16, t1) <= weight_q16,
{
    lemma_mul_inequality(t1 as int, t2 as int, lambda_per_tick_q16 as int);
    assert(t1 * lambda_per_tick_q16 == lambda_per_tick_q16 * t1 && t2 * lambda_per_tick_q16 == lambda_per_tick_q16 * t2) by (nonlinear_arith);
    let x1 = if lambda_per_tick_q16 * t1 > u64::MAX { u64::MAX as nat } else { (lambda_per_tick_q16 * t1) as nat };
    let x2 = if lambda_per_tick_q16 * t2 > u64::MAX { u64::MAX as nat } else { (lambda_per_tick_q16 * t2) as nat };
    lemma_exp_neg_monotone(x1, x2);
    lemma_exp_neg_bounded(x1);
    lemma_exp_neg_bounded(x2);
    lemma_mul_inequality(exp_neg_spec(x2), exp_neg_spec(x1), weight_q16 as int);
    assert(exp_neg_spec(x2) * weight_q16 == weight_q16 * exp_neg_spec(x2)
        && exp_neg_spec(x1) * weight_q16 == weight_q16 * exp_neg_spec(x1)) by (nonlinear_arith);
    lemma_div_is_ordered(weight_q16 * exp_neg_spec(x2), weight_q16 * exp_neg_spec(x1), 65536);
    assert(weight_q16 * exp_neg_spec(x1) / 65536 <= weight_q16) by (nonlinear_arith)
        requires 0 <= exp_neg_spec(x1) <= 65536;
}

/// Ticks elapsed since `edge_tick`, zero for an edge from the future.
pub fn delta_t(now_tick: Timestamp, edge_tick: Timestamp) -> (r: u64)
    ensures
        r == (if now_tick >= edge_tick { now_tick - edge_tick } else { 0 }),
{
    now_tick.saturating_sub(edge_tick)
}

/// Convert a Q16 rate per day to a Q16 rate per integer tick.
pub fn rate_per_day_to_rate_per_tick_q16(rate_per_day_q16: Weight, seconds_per_tick: u64) -> (r: Weight)
    ensures
        r == (if rate_per_day_q16 * seconds_per_tick / (SECONDS_PER_DAY as int) > u32::MAX {
            u32::MAX as int
        } else {
            rate_per_day_q16 * seconds_per_tick / (SECONDS_PER_DAY as int)
        }),
{
    assert(rate_per_day_q16 * seconds_per_tick <= 0xffff_ffff * 0xffff_ffff_ffff_ffff) by (nonlinear_arith);
    let scaled = rate_per_day_q16 as u128 * seconds_per_tick as u128;
    let per_tick = scaled / SECONDS_PER_DAY as u128;
    if per_tick > u32::MAX as u128 {
        u32::MAX
    } else {
        per_tick as Weight
    }
}

/// Q16 decay rate corresponding to the requested half-life in ticks:
/// `ln 2 / half_life`, rounded to nearest; none for a zero half-life.
pub fn lambda_for_half_life_ticks(half_life_ticks: u64) -> (r: Option<Weight>)
    ensures
        half_life_ticks == 0 ==> r is None,
        half_life_ticks > 0 ==> r == Some(((LN_2_Q16 + half_life_ticks / 2) / (half_life_ticks as int)) as u32),
{
    if half_life_ticks == 0 {
        return None;
    }
    let value = (LN_2_Q16 as u64 + half_life_ticks / 2) / half_life_ticks;
    assert(value <= LN_2_Q16) by (nonlinear_arith)
        requires value == (LN_2_Q16 + half_life_ticks / 2) / (half_life_ticks as int), half_life_ticks >= 1;
    Some(value as Weight)
}


// ---------------------------------------------------------------------------
// Fixed-point logarithm and mixing-time bound
// ---------------------------------------------------------------------------

/// Position of the highest set bit of a positive number.
pub open spec fn msb(v: nat) -> nat
    decreases v,
{
    if v < 2 {
        0
    } else {
        1 + msb(v / 2)
    }
}

pub open spec fn q31() -> nat {
    0x8000_0000
}

/// `v` scaled by a power of two into `[2^31, 2^32)`.
pub open spec fn normalize_q31(v: nat) -> nat {
    let k = msb(v);
    if k <= 31 {
        v * pow2((31 - k) as nat)
    } else {
        v / pow2((k - 31) as nat)
    }
}

/// ln(m / 2^31) in Q16 for `m` in `[2^31, 2^32)`, by the atanh series
/// `2 (z + z^3/3 + ... + z^11/11)` with `z = (m - 1) / (m + 1)` in Q31.
pub open spec fn ln_mantissa(m: nat) -> nat {
    let z = ((m - q31()) * q31() / ((m + q31()) as int)) as nat;
    let z2 = z * z / q31();
    let t1 = z * z2 / q31();
    let t2 = t1 * z2 / q31();
    let t3 = t2 * z2 / q31();
    let t4 = t3 * z2 / q31();
    let t5 = t4 * z2 / q31();
    let sum = z + t1 / 3 + t2 / 5 + t3 / 7 + t4 / 9 + t5 / 11;
    sum * 2 / 32768
}

/// The Q16 natural logarithm of a Q16 value: mantissa from the series and
/// the binary exponent times ln 2, clamped at zero below one; zero for zero.
pub open spec fn ln_spec(v: nat) -> int {
    if v == 0 {
        0
    } else {
        let e = msb(v) - 16;
        let mantissa = ln_mantissa(normalize_q31(v));
        if e >= 0 {
            mantissa + e * LN_2_Q16
        } else if mantissa >= (-e) * LN_2_Q16 {
            mantissa - (-e) * LN_2_Q16
        } else {
            0
        }
    }
}

proof fn lemma_msb_bounds(v: nat)
    requires
        v >= 1,
    ensures
        pow2(msb(v)) <= v < pow2(msb(v) + 1),
    decreases v,
{
    lemma2_to64();
    if v >= 2 {
        lemma_msb_bounds(v / 2);
        vstd::arithmetic::power2::lemma_pow2_unfold(msb(v));
        vstd::arithmetic::power2::lemma_pow2_unfold(msb(v) + 1);
    }
}

proof fn lemma_leading_zeros_msb(v: u64)
    requires
        v > 0,
    ensures
        u64_leading_zeros(v) == 63 - msb(v as nat),
        msb(v as nat) <= 63,
    decreases v,
{
    reveal(u64_leading_zeros);
    if v >= 2 {
        lemma_leading_zeros_msb(v / 2);
    } else {
        reveal_with_fuel(u64_leading_zeros, 2);
    }
}

proof fn lemma_normalize_range(v: nat)
    requires
        1 <= v < 0x1_0000_0000_0000_0000,
    ensures
        q31() <= normalize_q31(v) < 2 * q31(),
{
    lemma_msb_bounds(v);
    lemma2_to64();
    let k = msb(v);
    if k > 64 {
        lemma_pow2_strictly_increases(64, k);
    }
    if k <= 31 {
        let s = (31 - k) as nat;
        lemma_pow2_adds(k, s);
        lemma_pow2_adds(k + 1, s);
        lemma_mul_inequality(pow2(k) as int, v as int, pow2(s) as int);
        lemma_mul_inequality(v as int, (pow2(k + 1) - 1) as int, pow2(s) as int);
        assert((pow2(k + 1) - 1) * pow2(s) < pow2(k + 1) * pow2(s)) by (nonlinear_arith)
            requires pow2(s) > 0;
    } else {
        let s = (k - 31) as nat;
        lemma_pow2_adds(31, s);
        lemma_pow2_adds(32, s);
        lemma_pow2_pos(s);
        lemma_div_is_ordered(pow2(k) as int, v as int, pow2(s) as int);
        lemma_div_is_ordered(v as int, (pow2(k + 1) - 1) as int, pow2(s) as int);
        assert((pow2(31) * pow2(s)) as int / (pow2(s) as int) == pow2(31)) by (nonlinear_arith)
            requires pow2(s) > 0;
        assert(((pow2(32) * pow2(s)) as int - 1) / (pow2(s) as int) < pow2(32)) by (nonlinear_arith)
            requires pow2(s) > 0;
    }
}

/// Natural logarithm for a positive Q16 input, returned in Q16.
pub fn ln_q16(value_q16: u64) -> (r: u64)
    ensures
        r == ln_spec(value_q16 as nat),
{
    if value_q16 == 0 {
        return 0;
    }
    proof {
        lemma_leading_zeros_msb(value_q16);
        lemma_normalize_range(value_q16 as nat);
        lemma_msb_bounds(value_q16 as nat);
        lemma2_to64();
    }
    let most_significant: u32 = 63 - value_q16.leading_zeros();
    let normalized_q31: u64 = if most_significant <= 31 {
        let shift = (31 - most_significant) as u64;
        proof {
            lemma_pow2_adds(most_significant as nat, shift as nat);
            if most_significant < 31 {
                lemma_pow2_strictly_increases(most_significant as nat + 1, 32);
            }
            lemma_mul_inequality(value_q16 as int, pow2(most_significant as nat + 1) as int, pow2(shift as nat) as int);
            lemma_pow2_adds(most_significant as nat + 1, shift as nat);
            lemma_u64_shl_is_mul(value_q16, shift);
        }
        value_q16 << shift
    } else {
        let shift = (most_significant - 31) as u64;
        proof { lemma_u64_shr_is_div(value_q16, shift); }
        value_q16 >> shift
    };
    let one: u64 = 0x8000_0000;
    let m = normalized_q31;
    assert((m - one) * one / ((m + one) as int) < one) by (nonlinear_arith)
        requires one <= m < 2 * one, one == 0x8000_0000;
    let z: u64 = (((m - one) as u128 * one as u128) / ((m + one) as u128)) as u64;
    assert(z * z / (one as int) < one) by (nonlinear_arith)
        requires z < one, one == 0x8000_0000;
    let z2: u64 = ((z as u128 * z as u128) / one as u128) as u64;
    assert(forall|t: u64| t < one ==> #[trigger] (t * z2) / (one as int) <= t) by (nonlinear_arith)
        requires z2 < one, one == 0x8000_0000;
    let t1: u64 = ((z as u128 * z2 as u128) / one as u128) as u64;
    let t2: u64 = ((t1 as u128 * z2 as u128) / one as u128) as u64;
    let t3: u64 = ((t2 as u128 * z2 as u128) / one as u128) as u64;
    let t4: u64 = ((t3 as u128 * z2 as u128) / one as u128) as u64;
    let t5: u64 = ((t4 as u128 * z2 as u128) / one as u128) as u64;
    let sum: u64 = z + t1 / 3 + t2 / 5 + t3 / 7 + t4 / 9 + t5 / 11;
    let mantissa: u64 = sum * 2 / 32768;
    assert(mantissa <= 0x1_0000_0000);
    if most_significant >= 16 {
        let rise = (most_significant - 16) as u64;
        assert(rise <= 47);
        assert(rise * 45426 <= 47 * 45426) by (nonlinear_arith)
            requires rise <= 47;
        mantissa + rise * LN_2_Q16 as u64
    } else {
        let drop = (16 - most_significant) as u64 * LN_2_Q16 as u64;
        if mantissa >= drop {
            mantissa - drop
        } else {
            0
        }
    }
}

/// The Q16 logarithm of a `u64` stays below `2^32`.
pub proof fn lemma_ln_bounded(v: nat)
    requires
        v < 0x1_0000_0000_0000_0000,
    ensures
        0 <= ln_spec(v) < 0x1_0000_0000,
{
    if v > 0 {
        lemma_leading_zeros_msb(v as u64);
        lemma_normalize_range(v);
        let m = normalize_q31(v);
        let one = q31();
        assert((m - one) * one / ((m + one) as int) < one) by (nonlinear_arith)
            requires one <= m < 2 * one, one == 0x8000_0000;
        let z = ((m - one) * one / ((m + one) as int)) as nat;
        assert(z * z / one < one) by (nonlinear_arith)
            requires z < one, one == 0x8000_0000;
        let z2 = z * z / one;
        assert(forall|t: nat| t < one ==> #[trigger] (t * z2) / one <= t) by (nonlinear_arith)
            requires z2 < one, one == 0x8000_0000;
        let t1 = z * z2 / one;
        let t2 = t1 * z2 / one;
        let t3 = t2 * z2 / one;
        let t4 = t3 * z2 / one;
        let t5 = t4 * z2 / one;
        assert(t1 < one && t2 < one && t3 < one && t4 < one && t5 < one);
        assert(ln_mantissa(m) <= 0x10_0000);
    }
}

pub open spec fn ceil_div(a: int, b: int) -> int {
    (a + b - 1) / b
}

/// The mixing-time bound of a validated chain, or none when a prerequisite
/// or an input is missing.
pub open spec fn walk_bound_spec(gap: u32, epsilon: u32, min_mass: u32, validated: bool) -> Option<u32> {
    if !validated || gap == 0 || epsilon == 0 || min_mass == 0 {
        None
    } else {
        let p = epsilon * min_mass / 65536;
        let product = if p < 1 { 1 } else { p };
        let inverse = 0x1_0000_0000int / product;
        let logarithm = ln_spec((if inverse < 65536 { 65536 } else { inverse }) as nat);
        let steps = ceil_div(logarithm * 65536, gap as int);
        Some((if steps > u32::MAX { u32::MAX as int } else { steps }) as u32)
    }
}

/// A mixing-time upper bound only for a validated lazy, reversible,
/// irreducible chain: `ceil(ln(1 / (epsilon * pi_min)) / gap)` steps.
/// Returns `None` when any prerequisite or input is absent.
pub fn reversible_lazy_walk_bound(
    spectral_gap_q16: Weight,
    epsilon_q16: Weight,
    minimum_stationary_mass_q16: Weight,
    prerequisites_validated: bool,
) -> (r: Option<u32>)
    ensures
        r == walk_bound_spec(spectral_gap_q16, epsilon_q16, minimum_stationary_mass_q16, prerequisites_validated),
{
    if !prerequisites_validated || spectral_gap_q16 == 0 || epsilon_q16 == 0 || minimum_stationary_mass_q16 == 0 {
        return None;
    }
    assert(epsilon_q16 * minimum_stationary_mass_q16 <= 0xffff_ffff * 0xffff_ffff) by (nonlinear_arith);
    let p = (epsilon_q16 as u64 * minimum_stationary_mass_q16 as u64) / 65536;
    let product = if p < 1 { 1 } else { p };
    let inverse = 0x1_0000_0000u64 / product;
    let logarithm = ln_q16(if inverse < 65536 { 65536 } else { inverse });
    let steps = ((logarithm as u128) * 65536 + spectral_gap_q16 as u128 - 1) / spectral_gap_q16 as u128;
    if steps > u32::MAX as u128 {
        Some(u32::MAX)
    } else {
        Some(steps as u32)
    }
}

// ---------------------------------------------------------------------------
// Per-type-pair parameters and transition statistics
// ---------------------------------------------------------------------------

/// One entry per ordered pair of node kinds.
pub const PAIR_COUNT: usize = NODE_KIND_COUNT * NODE_KIND_COUNT;

/// Observations a pair needs before its decay rate is adapted.
pub const MIN_ADAPTATION_SAMPLES: u64 = 8;

#[derive(Clone, Copy, Debug, PartialEq, Eq, Structural)]
pub struct TypePairEntry {
    /// Exponential decay rate in Q16 per tick.
    pub lambda_per_tick_q16: Weight,
    /// Node2vec return parameter `p` in Q16.
    pub return_p: Weight,
    /// Node2vec in/out parameter `q` in Q16.
    pub inout_q: Weight,
}

pub open spec fn default_entry_spec() -> TypePairEntry {
    TypePairEntry { lambda_per_tick_q16: 0, return_p: WEIGHT_ONE, inout_q: WEIGHT_ONE }
}

/// The static entry every pair starts with: no decay, unbiased walks.
#[verifier::when_used_as_spec(default_entry_spec)]
pub fn default_entry() -> (r: TypePairEntry)
    ensures
        r == default_entry_spec(),
{
    TypePairEntry { lambda_per_tick_q16: 0, return_p: WEIGHT_ONE, inout_q: WEIGHT_ONE }
}

#[derive(Clone, Copy, Debug, PartialEq, Eq, Structural)]
pub struct TypePairStats {
    pub transitions: u64,
    pub sum_elapsed_ticks: u64,
    pub return_count: u64,
    pub outward_count: u64,
}

pub open spec fn zero_stats_spec() -> TypePairStats {
    TypePairStats { transitions: 0, sum_elapsed_ticks: 0, return_count: 0, outward_count: 0 }
}

/// Statistics of a pair with no observation.
#[verifier::when_used_as_spec(zero_stats_spec)]
pub fn zero_stats() -> (r: TypePairStats)
    ensures
        r == zero_stats_spec(),
{
    TypePairStats { transitions: 0, sum_elapsed_ticks: 0, return_count: 0, outward_count: 0 }
}

pub open spec fn ready() -> spec_fn(TypePairStats) -> bool {
    |s: TypePairStats| s.transitions >= MIN_ADAPTATION_SAMPLES && s.sum_elapsed_ticks > 0
}

impl TypePairStats {
    /// Enough observations, over a positive total wait, to adapt the pair.
    pub fn is_ready(&self) -> (r: bool)
        ensures
            r == ready()(*self),
    {
        self.transitions >= MIN_ADAPTATION_SAMPLES && self.sum_elapsed_ticks > 0
    }
}

pub open spec fn sat_add_u64(a: u64, b: u64) -> u64 {
    if a + b > u64::MAX {
        u64::MAX
    } else {
        (a + b) as u64
    }
}

/// The statistics of a pair after one more observed transition; a return
/// to the kind walked from, or an outward move when there was a previous
/// kind, is counted too.
pub open spec fn observe_spec(
    s: TypePairStats,
    previous_kind: Option<NodeKind>,
    destination_kind: NodeKind,
    elapsed_ticks: u64,
) -> TypePairStats {
    TypePairStats {
        transitions: sat_add_u64(s.transitions, 1),
        sum_elapsed_ticks: sat_add_u64(s.sum_elapsed_ticks, elapsed_ticks),
        return_count: if previous_kind == Some(destination_kind) {
            sat_add_u64(s.return_count, 1)
        } else {
            s.return_count
        },
        outward_count: if previous_kind is Some && previous_kind != Some(destination_kind) {
            sat_add_u64(s.outward_count, 1)
        } else {
            s.outward_count
        },
    }
}

/// The maximum-likelihood waiting-time rate `n / sum(dt)` in Q16.
pub open spec fn adapted_rate(s: TypePairStats) -> u32 {
    let rate = s.transitions * 65536 / (s.sum_elapsed_ticks as int);
    (if rate > u32::MAX { u32::MAX as int } else { rate }) as u32
}

#[verifier::ext_equal]
pub struct TemporalModel {
    pub params: Seq<TypePairEntry>,
    pub stats: Seq<TypePairStats>,
}

/// The per-pair decay parameters and the transition statistics they are
/// adapted from.
pub struct TemporalState {
    params: [TypePairEntry; PAIR_COUNT],
    stats: [TypePairStats; PAIR_COUNT],
}

impl View for TemporalState {
    type V = TemporalModel;

    closed spec fn view(&self) -> TemporalModel {
        TemporalModel { params: self.params@, stats: self.stats@ }
    }
}

pub open spec fn pair_index(source: NodeKind, destination: NodeKind) -> int {
    source.id() * NODE_KIND_COUNT + destination.id()
}

fn pair_slot(source: NodeKind, destination: NodeKind) -> (r: usize)
    ensures
        r == pair_index(source, destination),
        r < PAIR_COUNT,
{
    let s = source.index();
    let d = destination.index();
    assert(s * NODE_KIND_COUNT + d < PAIR_COUNT) by (nonlinear_arith)
        requires s < NODE_KIND_COUNT, d < NODE_KIND_COUNT;
    s * NODE_KIND_COUNT + d
}

pub open spec fn initial_temporal() -> TemporalModel {
    TemporalModel {
        params: Seq::new(PAIR_COUNT as nat, |i: int| default_entry_spec()),
        stats: Seq::new(PAIR_COUNT as nat, |i: int| zero_stats_spec()),
    }
}

impl TemporalState {
    /// Every pair static, with no observation.
    pub fn new() -> (r: Self)
        ensures
            r@ == initial_temporal(),
    {
        let r = TemporalState { params: [default_entry(); PAIR_COUNT], stats: [zero_stats(); PAIR_COUNT] };
        assert(r@.params =~= initial_temporal().params);
        assert(r@.stats =~= initial_temporal().stats);
        r
    }

    pub proof fn lemma_lengths(&self)
        ensures
            self@.params.len() == PAIR_COUNT,
            self@.stats.len() == PAIR_COUNT,
    {
    }
}

/// Reset every pair to static parameters and no observations.
pub fn init(state: &mut TemporalState)
    ensures
        final(state)@ == initial_temporal(),
{
    *state = TemporalState::new();
}

/// The parameters of the pair `source -> destination`.
pub fn get_params(state: &TemporalState, source: NodeKind, destination: NodeKind) -> (r: TypePairEntry)
    ensures
        r == state@.params[pair_index(source, destination)],
{
    state.params[pair_slot(source, destination)]
}

/// The decay rate of the pair `source -> destination`.
pub fn get_decay(state: &TemporalState, source: NodeKind, destination: NodeKind) -> (r: Weight)
    ensures
        r == state@.params[pair_index(source, destination)].lambda_per_tick_q16,
{
    get_params(state, source, destination).lambda_per_tick_q16
}

/// Replace the parameters of the pair `source -> destination`.
pub fn set_params(state: &mut TemporalState, source: NodeKind, destination: NodeKind, entry: TypePairEntry)
    ensures
        final(state)@ == (TemporalModel {
            params: old(state)@.params.update(pair_index(source, destination), entry),
            ..old(state)@
        }),
{
    let slot = pair_slot(source, destination);
    state.params[slot] = entry;
}

/// Count one walk transition `source -> destination` after `elapsed_ticks`.
pub fn accumulate_transition(
    state: &mut TemporalState,
    previous_kind: Option<NodeKind>,
    source_kind: NodeKind,
    destination_kind: NodeKind,
    elapsed_ticks: u64,
)
    ensures
        final(state)@ == (TemporalModel {
            stats: old(state)@.stats.update(
                pair_index(source_kind, destination_kind),
                observe_spec(
                    old(state)@.stats[pair_index(source_kind, destination_kind)],
                    previous_kind,
                    destination_kind,
                    elapsed_ticks,
                ),
            ),
            ..old(state)@
        }),
{
    let slot = pair_slot(source_kind, destination_kind);
    let mut pair = state.stats[slot];
    pair.transitions = pair.transitions.saturating_add(1);
    pair.sum_elapsed_ticks = pair.sum_elapsed_ticks.saturating_add(elapsed_ticks);
    match previous_kind {
        Some(kind) => {
            if kind == destination_kind {
                pair.return_count = pair.return_count.saturating_add(1);
            } else {
                pair.outward_count = pair.outward_count.saturating_add(1);
            }
        },
        None => {},
    }
    state.stats[slot] = pair;
}

/// Copy the statistics of the first pairs into `out`, as many as fit.
pub fn snapshot_stats(state: &TemporalState, out: &mut [TypePairStats]) -> (r: u32)
    ensures
        r == (if old(out)@.len() < PAIR_COUNT { old(out)@.len() } else { PAIR_COUNT as nat }),
        final(out)@.len() == old(out)@.len(),
        final(out)@ == state@.stats.subrange(0, r as int) + old(out)@.subrange(r as int, old(out)@.len() as int),
{
    let count = if out.len() < PAIR_COUNT { out.len() } else { PAIR_COUNT };
    let mut i: usize = 0;
    while i < count
        invariant
            count <= PAIR_COUNT,
            count <= out@.len(),
            out@.len() == old(out)@.len(),
            i <= count,
            forall|j: int| 0 <= j < i ==> out@[j] == state@.stats[j],
            forall|j: int| i <= j < out@.len() ==> out@[j] == old(out)@[j],
        decreases count - i,
    {
        out[i] = state.stats[i];
        i += 1;
    }
    assert(out@ =~= state@.stats.subrange(0, count as int) + old(out)@.subrange(count as int, old(out)@.len() as int));
    count as u32
}

/// Copy the statistics of one pair, named by wire numbers, into the first
/// position of `out`; 1 if it was copied, 0 for an unknown kind or no room.
pub fn snapshot_stats_pair(
    state: &TemporalState,
    source_kind: u16,
    destination_kind: u16,
    out: &mut [TypePairStats],
) -> (r: u32)
    ensures
        r == (if source_kind < NODE_KIND_COUNT && destination_kind < NODE_KIND_COUNT && old(out)@.len() > 0 {
            1int
        } else {
            0int
        }),
        r == 1 ==> final(out)@ == old(out)@.update(
            0,
            state@.stats[source_kind * NODE_KIND_COUNT + destination_kind],
        ),
        r == 0 ==> final(out)@ == old(out)@,
{
    let source = match NodeKind::from_u16(source_kind) {
        Some(k) => k,
        None => return 0,
    };
    let destination = match NodeKind::from_u16(destination_kind) {
        Some(k) => k,
        None => return 0,
    };
    if out.len() == 0 {
        return 0;
    }
    out[0] = state.stats[pair_slot(source, destination)];
    1
}

/// Heuristic adaptation of type-pair decay rates from accumulated
/// observations: each ready pair gets the waiting-time rate `n / sum(dt)`.
/// Returns the number of pairs adapted.
pub fn heuristic_type_pair_adaptation(state: &mut TemporalState) -> (r: u32)
    ensures
        r == old(state)@.stats.filter(ready()).len(),
        final(state)@.stats == old(state)@.stats,
        final(state)@.params == Seq::new(
            PAIR_COUNT as nat,
            |i: int|
                if ready()(old(state)@.stats[i]) {
                    TypePairEntry { lambda_per_tick_q16: adapted_rate(old(state)@.stats[i]), ..old(state)@.params[i] }
                } else {
                    old(state)@.params[i]
                },
        ),
{
    let ghost stats0 = state@.stats;
    let ghost params0 = state@.params;
    let mut updated: u32 = 0;
    let mut index: usize = 0;
    while index < PAIR_COUNT
        invariant
            index <= PAIR_COUNT,
            state@.stats == stats0,
            stats0.len() == PAIR_COUNT,
            params0.len() == PAIR_COUNT,
            state@.params.len() == PAIR_COUNT,
            updated == stats0.subrange(0, index as int).filter(ready()).len(),
            updated <= index,
            forall|j: int| index <= j < PAIR_COUNT ==> state@.params[j] == params0[j],
            forall|j: int|
                0 <= j < index ==> state@.params[j] == (if ready()(stats0[j]) {
                    TypePairEntry { lambda_per_tick_q16: adapted_rate(stats0[j]), ..params0[j] }
                } else {
                    params0[j]
                }),
        decreases PAIR_COUNT - index,
    {
        proof { lemma_filter_step(stats0, ready(), index as int); }
        let stats = state.stats[index];
        if stats.is_ready() {
            assert(stats.transitions * 65536 <= 0xffff_ffff_ffff_ffff * 65536) by (nonlinear_arith);
            let rate = ((stats.transitions as u128) * 65536) / stats.sum_elapsed_ticks as u128;
            let lambda = if rate > u32::MAX as u128 { u32::MAX } else { rate as u32 };
            let mut entry = state.params[index];
            entry.lambda_per_tick_q16 = lambda;
            state.params[index] = entry;
            updated = updated + 1;
        }
        index += 1;
    }
    assert(stats0.subrange(0, PAIR_COUNT as int) =~= stats0);
    assert(state@.params =~= Seq::new(
        PAIR_COUNT as nat,
        |i: int|
            if ready()(stats0[i]) {
                TypePairEntry { lambda_per_tick_q16: adapted_rate(stats0[i]), ..params0[i] }
            } else {
                params0[i]
            },
    ));
    updated
}

/// How many pairs have enough observations to be adapted.
pub fn adaptation_ready_count(state: &TemporalState) -> (r: usize)
    ensures
        r == state@.stats.filter(ready()).len(),
{
    let ghost stats0 = state@.stats;
    let mut count: usize = 0;
    let mut index: usize = 0;
    while index < PAIR_COUNT
        invariant
            index <= PAIR_COUNT,
            stats0 == state@.stats,
            stats0.len() == PAIR_COUNT,
            count == stats0.subrange(0, index as int).filter(ready()).len(),
            count <= index,
        decreases PAIR_COUNT - index,
    {
        proof { lemma_filter_step(stats0, ready(), index as int); }
        if state.stats[index].is_ready() {
            count += 1;
        }
        index += 1;
    }
    assert(stats0.subrange(0, PAIR_COUNT as int) =~= stats0);
    count
}


} // verus!
