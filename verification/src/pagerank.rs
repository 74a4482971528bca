//! Weighted PageRank and query-personalized PageRank in Q16, over a bounded
//! node and edge table.

use vstd::prelude::*;
use crate::kinds::{Weight, WEIGHT_ONE};
use crate::search::{first_index, is_first, lemma_first_found, lemma_first_none};

verus! {

pub const MAX_RANK_NODES: usize = 4096;
pub const MAX_RANK_EDGES: usize = 16384;
/// Damping factor 0.85 in Q16.
pub const DAMPING_Q16: u64 = 55706;
/// Restart probability 0.15 in Q16.
pub const RESTART_Q16: u64 = 9830;
/// Convergence threshold on the L1 change, about 0.001 in Q16.
pub const EPSILON_Q16: u64 = 66;
pub const MAX_ITERATIONS: usize = 64;

#[derive(Clone, Copy, PartialEq, Eq, Structural)]
pub struct RankEdge {
    pub from: u16,
    pub to: u16,
    pub weight_q16: Weight,
}

pub open spec fn min_u64(x: int) -> u64 {
    (if x > u64::MAX {
        u64::MAX as int
    } else {
        x
    }) as u64
}

pub open spec fn mul_q16(left: u64, right: u64) -> u64 {
    min_u64(left * right / 65536)
}

/// Q16 quotient; zero for a zero divisor.
pub open spec fn div_q16(numerator: u64, denominator: u64) -> u64 {
    if denominator == 0 {
        0
    } else {
        min_u64(numerator * 65536 / (denominator as int))
    }
}

pub open spec fn sat_add64(a: u64, b: u64) -> u64 {
    min_u64(a + b)
}

pub open spec fn sat_add32(a: u32, b: u32) -> u32 {
    (if a + b > u32::MAX {
        u32::MAX as int
    } else {
        a + b
    }) as u32
}

fn q16_mul(left: u64, right: u64) -> (r: u64)
    ensures
        r == mul_q16(left, right),
{
    assert(left * right <= 0xffff_ffff_ffff_ffff * 0xffff_ffff_ffff_ffff) by (nonlinear_arith);
    let v = (left as u128 * right as u128) / 65536;
    if v > u64::MAX as u128 {
        u64::MAX
    } else {
        v as u64
    }
}

fn q16_div(numerator_q16: u64, denominator_q16: u64) -> (r: u64)
    ensures
        r == div_q16(numerator_q16, denominator_q16),
{
    if denominator_q16 == 0 {
        0
    } else {
        let v = (numerator_q16 as u128 * 65536) / denominator_q16 as u128;
        if v > u64::MAX as u128 {
            u64::MAX
        } else {
            v as u64
        }
    }
}

// ---------------------------------------------------------------------------
// Normalization
// ---------------------------------------------------------------------------

pub open spec fn sum32(s: Seq<u32>, k: int) -> nat
    decreases k,
{
    if k <= 0 {
        0
    } else {
        sum32(s, k - 1) + s[k - 1] as nat
    }
}

pub open spec fn sum64(s: Seq<u64>, k: int) -> nat
    decreases k,
{
    if k <= 0 {
        0
    } else {
        sum64(s, k - 1) + s[k - 1] as nat
    }
}

/// The last of the first `k` positions holding a positive value.
pub open spec fn last_positive32(s: Seq<u32>, k: int) -> Option<int>
    decreases k,
{
    if k <= 0 {
        None
    } else if s[k - 1] > 0 {
        Some(k - 1)
    } else {
        last_positive32(s, k - 1)
    }
}

pub open spec fn last_positive64(s: Seq<u64>, k: int) -> Option<int>
    decreases k,
{
    if k <= 0 {
        None
    } else if s[k - 1] > 0 {
        Some(k - 1)
    } else {
        last_positive64(s, k - 1)
    }
}

/// The first `n` values scaled to Q16 shares of their sum, the rounding
/// remainder added to the last positive share; unchanged when they sum to 0.
pub open spec fn normalize32(s: Seq<u32>, n: int) -> Seq<u32> {
    let total = sum32(s, n);
    if total == 0 {
        s
    } else {
        let scaled = Seq::new(s.len(), |i: int| if i < n { (s[i] * 65536 / (total as int)) as u32 } else { s[i] });
        let assigned = sum32(scaled, n);
        match last_positive32(scaled, n) {
            None => scaled,
            Some(l) => scaled.update(
                l,
                sat_add32(scaled[l], (65536 - (if assigned < 65536 { assigned } else { 65536 })) as u32),
            ),
        }
    }
}

pub open spec fn normalize64(s: Seq<u64>, n: int) -> Seq<u64> {
    let total = sum64(s, n);
    if total == 0 {
        s
    } else {
        let scaled = Seq::new(
            s.len(),
            |i: int|
                if i < n {
                    (if s[i] * 65536 / (total as int) < 65536 {
                        s[i] * 65536 / (total as int)
                    } else {
                        65536
                    }) as u64
                } else {
                    s[i]
                },
        );
        let assigned = sum64(scaled, n);
        match last_positive64(scaled, n) {
            None => scaled,
            Some(l) => scaled.update(l, (scaled[l] + 65536 - (if assigned < 65536 { assigned } else { 65536 })) as u64),
        }
    }
}

proof fn lemma_sum32_bound(s: Seq<u32>, k: int)
    requires
        0 <= k <= s.len(),
    ensures
        sum32(s, k) <= k * 0xffff_ffff,
    decreases k,
{
    if k > 0 {
        lemma_sum32_bound(s, k - 1);
    }
}

proof fn lemma_sum64_bound(s: Seq<u64>, k: int, b: nat)
    requires
        0 <= k <= s.len(),
        forall|i: int| 0 <= i < k ==> s[i] <= b,
    ensures
        sum64(s, k) <= k * b,
    decreases k,
{
    if k > 0 {
        lemma_sum64_bound(s, k - 1, b);
        assert((k - 1) * b + b == k * b) by (nonlinear_arith);
    }
}

proof fn lemma_last_positive32(s: Seq<u32>, k: int)
    ensures
        last_positive32(s, k) matches Some(l) ==> 0 <= l < k && s[l] > 0,
        last_positive32(s, k) is None ==> forall|i: int| 0 <= i < k ==> s[i] == 0,
    decreases k,
{
    if k > 0 {
        lemma_last_positive32(s, k - 1);
    }
}

proof fn lemma_last_positive64(s: Seq<u64>, k: int)
    ensures
        last_positive64(s, k) matches Some(l) ==> 0 <= l < k && s[l] > 0,
        last_positive64(s, k) is None ==> forall|i: int| 0 <= i < k ==> s[i] == 0,
    decreases k,
{
    if k > 0 {
        lemma_last_positive64(s, k - 1);
    }
}

proof fn lemma_sum32_update(s: Seq<u32>, k: int, l: int, v: u32)
    requires
        0 <= l < k <= s.len(),
    ensures
        sum32(s.update(l, v), k) == sum32(s, k) - s[l] + v,
    decreases k,
{
    if k - 1 > l {
        lemma_sum32_update(s, k - 1, l, v);
    } else {
        assert(s.update(l, v).subrange(0, l) =~= s.subrange(0, l));
        lemma_sum32_prefix(s, s.update(l, v), l);
    }
}

proof fn lemma_sum32_prefix(s: Seq<u32>, t: Seq<u32>, k: int)
    requires
        0 <= k <= s.len(),
        k <= t.len(),
        forall|i: int| 0 <= i < k ==> s[i] == t[i],
    ensures
        sum32(s, k) == sum32(t, k),
    decreases k,
{
    if k > 0 {
        lemma_sum32_prefix(s, t, k - 1);
    }
}

proof fn lemma_sum32_member(s: Seq<u32>, k: int, i: int)
    requires
        0 <= i < k <= s.len(),
    ensures
        s[i] <= sum32(s, k),
    decreases k,
{
    if k - 1 > i {
        lemma_sum32_member(s, k - 1, i);
    }
}

/// The scaled shares, truncated, add up to at most one.
proof fn lemma_floor_shares32(s: Seq<u32>, scaled: Seq<u32>, total: nat, k: int)
    requires
        0 <= k <= s.len(),
        k <= scaled.len(),
        total > 0,
        forall|i: int| 0 <= i < k ==> #[trigger] scaled[i] == s[i] * 65536 / (total as int),
    ensures
        total * sum32(scaled, k) <= 65536 * sum32(s, k),
    decreases k,
{
    if k > 0 {
        lemma_floor_shares32(s, scaled, total, k - 1);
        let a = s[k - 1] as int;
        let f = scaled[k - 1] as int;
        assert(total * f <= 65536 * a) by (nonlinear_arith)
            requires
                f == a * 65536 / (total as int),
                total > 0,
                a >= 0,
        ;
        assert(sum32(scaled, k) == sum32(scaled, k - 1) + f);
        assert(sum32(s, k) == sum32(s, k - 1) + a);
        assert(total * sum32(scaled, k) <= 65536 * sum32(s, k)) by (nonlinear_arith)
            requires
                sum32(scaled, k) == sum32(scaled, k - 1) + f,
                sum32(s, k) == sum32(s, k - 1) + a,
                total * sum32(scaled, k - 1) <= 65536 * sum32(s, k - 1),
                total * f <= 65536 * a,
        ;
    } else {
        assert(sum32(scaled, k) == 0 && sum32(s, k) == 0);
        assert(total * 0 <= 65536 * 0) by (nonlinear_arith);
    }
}

/// When every truncated share is zero, every value is below a 65536th of the total.
proof fn lemma_zero_shares32(s: Seq<u32>, scaled: Seq<u32>, total: nat, k: int)
    requires
        0 <= k <= s.len(),
        k <= scaled.len(),
        total > 0,
        forall|i: int| 0 <= i < k ==> #[trigger] scaled[i] == s[i] * 65536 / (total as int),
        forall|i: int| 0 <= i < k ==> scaled[i] == 0,
    ensures
        65536 * sum32(s, k) <= k * (total - 1),
    decreases k,
{
    if k > 0 {
        lemma_zero_shares32(s, scaled, total, k - 1);
        let a = s[k - 1] as int;
        assert(scaled[k - 1] == 0);
        assert(65536 * a <= total - 1) by (nonlinear_arith)
            requires
                a * 65536 / (total as int) == 0,
                total > 0,
                a >= 0,
        ;
        assert(sum32(s, k) == sum32(s, k - 1) + a);
        assert(65536 * sum32(s, k) <= k * (total - 1)) by (nonlinear_arith)
            requires
                sum32(s, k) == sum32(s, k - 1) + a,
                65536 * sum32(s, k - 1) <= (k - 1) * (total - 1),
                65536 * a <= total - 1,
        ;
    } else {
        assert(sum32(s, k) == 0);
        assert(k * (total - 1) >= 0) by (nonlinear_arith)
            requires
                k >= 0,
                total > 0,
        ;
    }
}

/// Normalizing at most 65536 values with a positive sum gives Q16 shares
/// that add up to exactly one.
pub proof fn lemma_normalize32_sums_to_one(s: Seq<u32>, n: int)
    requires
        0 < n <= s.len(),
        n <= 65536,
        sum32(s, n) > 0,
    ensures
        sum32(normalize32(s, n), n) == 65536,
{
    let total = sum32(s, n);
    let scaled = Seq::new(s.len(), |i: int| if i < n { (s[i] * 65536 / (total as int)) as u32 } else { s[i] });
    assert forall|i: int| 0 <= i < n implies #[trigger] scaled[i] == s[i] * 65536 / (total as int) by {
        lemma_sum32_member(s, n, i);
        assert(s[i] * 65536 / (total as int) <= 65536) by (nonlinear_arith)
            requires
                s[i] <= total,
                total > 0,
        ;
    }
    lemma_floor_shares32(s, scaled, total, n);
    let assigned = sum32(scaled, n);
    assert(assigned <= 65536) by (nonlinear_arith)
        requires
            total * assigned <= 65536 * total,
            total > 0,
    ;
    lemma_last_positive32(scaled, n);
    match last_positive32(scaled, n) {
        None => {
            lemma_zero_shares32(s, scaled, total, n);
            assert(false) by (nonlinear_arith)
                requires
                    65536 * total <= n * (total - 1),
                    n <= 65536,
                    total > 0,
            ;
        },
        Some(l) => {
            lemma_sum32_member(scaled, n, l);
            let v = sat_add32(scaled[l], (65536 - assigned) as u32);
            assert(v == scaled[l] + 65536 - assigned);
            lemma_sum32_update(scaled, n, l, v);
        },
    }
}

proof fn lemma_sum64_update(s: Seq<u64>, k: int, l: int, v: u64)
    requires
        0 <= l < k <= s.len(),
    ensures
        sum64(s.update(l, v), k) == sum64(s, k) - s[l] + v,
    decreases k,
{
    if k - 1 > l {
        lemma_sum64_update(s, k - 1, l, v);
    } else {
        assert(s.update(l, v).subrange(0, l) =~= s.subrange(0, l));
        lemma_sum64_prefix(s, s.update(l, v), l);
    }
}

proof fn lemma_sum64_prefix(s: Seq<u64>, t: Seq<u64>, k: int)
    requires
        0 <= k <= s.len(),
        k <= t.len(),
        forall|i: int| 0 <= i < k ==> s[i] == t[i],
    ensures
        sum64(s, k) == sum64(t, k),
    decreases k,
{
    if k > 0 {
        lemma_sum64_prefix(s, t, k - 1);
    }
}

proof fn lemma_sum64_member(s: Seq<u64>, k: int, i: int)
    requires
        0 <= i < k <= s.len(),
    ensures
        s[i] <= sum64(s, k),
    decreases k,
{
    if k - 1 > i {
        lemma_sum64_member(s, k - 1, i);
    }
}

/// The scaled shares, truncated, add up to at most one.
proof fn lemma_floor_shares64(s: Seq<u64>, scaled: Seq<u64>, total: nat, k: int)
    requires
        0 <= k <= s.len(),
        k <= scaled.len(),
        total > 0,
        forall|i: int| 0 <= i < k ==> #[trigger] scaled[i] == s[i] * 65536 / (total as int),
    ensures
        total * sum64(scaled, k) <= 65536 * sum64(s, k),
    decreases k,
{
    if k > 0 {
        lemma_floor_shares64(s, scaled, total, k - 1);
        let a = s[k - 1] as int;
        let f = scaled[k - 1] as int;
        assert(total * f <= 65536 * a) by (nonlinear_arith)
            requires
                f == a * 65536 / (total as int),
                total > 0,
                a >= 0,
        ;
        assert(sum64(scaled, k) == sum64(scaled, k - 1) + f);
        assert(sum64(s, k) == sum64(s, k - 1) + a);
        assert(total * sum64(scaled, k) <= 65536 * sum64(s, k)) by (nonlinear_arith)
            requires
                sum64(scaled, k) == sum64(scaled, k - 1) + f,
                sum64(s, k) == sum64(s, k - 1) + a,
                total * sum64(scaled, k - 1) <= 65536 * sum64(s, k - 1),
                total * f <= 65536 * a,
        ;
    } else {
        assert(sum64(scaled, k) == 0 && sum64(s, k) == 0);
        assert(total * 0 <= 65536 * 0) by (nonlinear_arith);
    }
}

/// When every truncated share is zero, every value is below a 65536th of the total.
proof fn lemma_zero_shares64(s: Seq<u64>, scaled: Seq<u64>, total: nat, k: int)
    requires
        0 <= k <= s.len(),
        k <= scaled.len(),
        total > 0,
        forall|i: int| 0 <= i < k ==> #[trigger] scaled[i] == s[i] * 65536 / (total as int),
        forall|i: int| 0 <= i < k ==> scaled[i] == 0,
    ensures
        65536 * sum64(s, k) <= k * (total - 1),
    decreases k,
{
    if k > 0 {
        lemma_zero_shares64(s, scaled, total, k - 1);
        let a = s[k - 1] as int;
        assert(scaled[k - 1] == 0);
        assert(65536 * a <= total - 1) by (nonlinear_arith)
            requires
                a * 65536 / (total as int) == 0,
                total > 0,
                a >= 0,
        ;
        assert(sum64(s, k) == sum64(s, k - 1) + a);
        assert(65536 * sum64(s, k) <= k * (total - 1)) by (nonlinear_arith)
            requires
                sum64(s, k) == sum64(s, k - 1) + a,
                65536 * sum64(s, k - 1) <= (k - 1) * (total - 1),
                65536 * a <= total - 1,
        ;
    } else {
        assert(sum64(s, k) == 0);
        assert(k * (total - 1) >= 0) by (nonlinear_arith)
            requires
                k >= 0,
                total > 0,
        ;
    }
}


/// Normalizing at most 65536 values with a positive sum gives Q16 shares
/// that add up to exactly one: each power-iteration step hands on a
/// probability distribution.
pub proof fn lemma_normalize64_sums_to_one(s: Seq<u64>, n: int)
    requires
        0 < n <= s.len(),
        n <= 65536,
        sum64(s, n) > 0,
    ensures
        sum64(normalize64(s, n), n) == 65536,
        normalize64(s, n).len() == s.len(),
        forall|i: int| 0 <= i < n ==> #[trigger] normalize64(s, n)[i] <= 65536,
{
    let total = sum64(s, n);
    let scaled = Seq::new(
        s.len(),
        |i: int|
            if i < n {
                (if s[i] * 65536 / (total as int) < 65536 {
                    s[i] * 65536 / (total as int)
                } else {
                    65536
                }) as u64
            } else {
                s[i]
            },
    );
    assert forall|i: int| 0 <= i < n implies #[trigger] scaled[i] == s[i] * 65536 / (total as int) by {
        lemma_sum64_member(s, n, i);
        assert(s[i] * 65536 / (total as int) <= 65536) by (nonlinear_arith)
            requires
                s[i] <= total,
                total > 0,
        ;
    }
    lemma_floor_shares64(s, scaled, total, n);
    let assigned = sum64(scaled, n);
    assert(assigned <= 65536) by (nonlinear_arith)
        requires
            total * assigned <= 65536 * total,
            total > 0,
    ;
    lemma_last_positive64(scaled, n);
    match last_positive64(scaled, n) {
        None => {
            lemma_zero_shares64(s, scaled, total, n);
            assert(false) by (nonlinear_arith)
                requires
                    65536 * total <= n * (total - 1),
                    n <= 65536,
                    total > 0,
            ;
        },
        Some(l) => {
            lemma_sum64_member(scaled, n, l);
            let v = (scaled[l] + 65536 - assigned) as u64;
            assert(v == scaled[l] + 65536 - assigned);
            lemma_sum64_update(scaled, n, l, v);
            assert(normalize64(s, n) == scaled.update(l, v));
            assert forall|i: int| 0 <= i < n implies #[trigger] normalize64(s, n)[i] <= 65536 by {
                if i != l {
                    assert(normalize64(s, n)[i] == scaled[i]);
                }
            }
        },
    }
}

proof fn lemma_sum32_below(s: Seq<u32>, k: int, b: nat)
    requires
        0 <= k <= s.len(),
        forall|i: int| 0 <= i < k ==> s[i] <= b,
    ensures
        sum32(s, k) <= k * b,
    decreases k,
{
    if k > 0 {
        lemma_sum32_below(s, k - 1, b);
        assert((k - 1) * b + b == k * b) by (nonlinear_arith);
    }
}

proof fn lemma_sum32_as_64(a: Seq<u32>, b: Seq<u64>, k: int)
    requires
        0 <= k <= a.len(),
        k <= b.len(),
        forall|i: int| 0 <= i < k ==> a[i] == b[i],
    ensures
        sum32(a, k) == sum64(b, k),
    decreases k,
{
    if k > 0 {
        lemma_sum32_as_64(a, b, k - 1);
    }
}

/// Mass propagated along edges only ever adds to a node's score.
proof fn lemma_edge_pass_grows(next: Seq<u64>, m: RankModel, scores: Seq<u32>, k: int)
    requires
        m.wf(),
        0 <= k <= m.edge_count,
        m.node_count <= next.len(),
    ensures
        edge_pass(next, m, scores, k).len() == next.len(),
        forall|i: int| 0 <= i < next.len() ==> #[trigger] edge_pass(next, m, scores, k)[i] >= next[i],
    decreases k,
{
    if k > 0 {
        lemma_edge_pass_grows(next, m, scores, k - 1);
        let nx = edge_pass(next, m, scores, k - 1);
        let e = m.edges[k - 1];
        assert(e.to < m.node_count);
        let transition = div_q16(e.weight_q16 as u64, m.out_weight[e.from as int]);
        let c = mul_q16(mul_q16(DAMPING_Q16, scores[e.from as int] as u64), transition);
        let after = nx.update(e.to as int, sat_add64(nx[e.to as int], c));
        assert(edge_pass(next, m, scores, k) == after);
        assert forall|i: int| 0 <= i < next.len() implies #[trigger] edge_pass(next, m, scores, k)[i] >= next[i] by {
            assert(nx[i] >= next[i]);
        }
    }
}

/// Restart weights summing to one over at most 4096 nodes leave some node
/// with at least 16/65536 of the mass.
proof fn lemma_restart_has_heavy_node(restart: Seq<u32>, n: int)
    requires
        0 < n <= MAX_RANK_NODES,
        n <= restart.len(),
        sum32(restart, n) == 65536,
    ensures
        exists|i: int| 0 <= i < n && #[trigger] restart[i] >= 16,
{
    if forall|i: int| 0 <= i < n ==> #[trigger] restart[i] < 16 {
        assert forall|i: int| 0 <= i < n implies restart[i] <= 15 by {}
        lemma_sum32_below(restart, n, 15);
        assert(n * 15 <= 4096 * 15) by (nonlinear_arith)
            requires n <= 4096;
    }
}

/// One power-iteration step over a non-empty engine, restarting by a
/// distribution, hands on a distribution: its Q16 scores add up to exactly
/// one and none exceeds one.
proof fn lemma_step_distribution(m: RankModel, restart: Seq<u32>, scores: Seq<u32>, next: Seq<u64>)
    requires
        m.wf(),
        m.node_count > 0,
        m.node_count <= restart.len(),
        sum32(restart, m.node_count as int) == 65536,
        next.len() == MAX_RANK_NODES,
    ensures
        step_next(m, restart, scores, next).len() == next.len(),
        sum64(step_next(m, restart, scores, next), m.node_count as int) == 65536,
        forall|i: int| 0 <= i < m.node_count ==> #[trigger] step_next(m, restart, scores, next)[i] <= 65536,
{
    let n = m.node_count as int;
    let base = Seq::new(next.len(), |i: int| if i < n { (RESTART_Q16 * restart[i] / 65536) as u64 } else { next[i] });
    let after_edges = edge_pass(base, m, scores, m.edge_count as int);
    let damped = mul_q16(DAMPING_Q16, dangling(scores, m.out_weight, n) as u64);
    let with_dangling = Seq::new(
        next.len(),
        |i: int| if i < n { sat_add64(after_edges[i], mul_q16(damped, restart[i] as u64)) } else { after_edges[i] },
    );
    lemma_edge_pass_grows(base, m, scores, m.edge_count as int);
    lemma_restart_has_heavy_node(restart, n);
    let i0 = choose|i: int| 0 <= i < n && #[trigger] restart[i] >= 16;
    let r0 = restart[i0];
    assert(RESTART_Q16 * r0 / 65536 >= 2) by (nonlinear_arith)
        requires r0 >= 16;
    assert(RESTART_Q16 * r0 / 65536 <= 0xffff_ffff) by (nonlinear_arith)
        requires r0 <= 0xffff_ffff;
    assert(base[i0] >= 2);
    assert(after_edges[i0] >= base[i0]);
    assert(with_dangling[i0] >= 2);
    lemma_sum64_member(with_dangling, n, i0);
    lemma_normalize64_sums_to_one(with_dangling, n);
}

proof fn lemma_iterate_distribution(m: RankModel, restart: Seq<u32>, scores: Seq<u32>, next: Seq<u64>, it: nat, ld: u32)
    requires
        m.wf(),
        m.node_count > 0,
        m.node_count <= restart.len(),
        sum32(restart, m.node_count as int) == 65536,
        next.len() == MAX_RANK_NODES,
        scores.len() == MAX_RANK_NODES,
        it < MAX_ITERATIONS,
    ensures
        sum32(iterate(m, restart, scores, next, it, ld).0, m.node_count as int) == 65536,
    decreases MAX_ITERATIONS - it,
{
    let n = m.node_count as int;
    let nx = step_next(m, restart, scores, next);
    lemma_step_distribution(m, restart, scores, next);
    let sc = Seq::new(scores.len(), |i: int| if i < n { clamp32(nx[i]) } else { scores[i] });
    assert forall|i: int| 0 <= i < n implies sc[i] == nx[i] by {
        assert(nx[i] <= 65536);
    }
    lemma_sum32_as_64(sc, nx, n);
    let d = delta_sum(nx, scores, n);
    let l = (if d > u32::MAX { u32::MAX as nat } else { d }) as u32;
    assert(iterate(m, restart, scores, next, it, ld) == (if d < EPSILON_Q16 {
        (sc, nx, it + 1, l)
    } else {
        iterate(m, restart, sc, nx, it + 1, l)
    }));
    if d >= EPSILON_Q16 {
        if it + 1 < MAX_ITERATIONS {
            lemma_iterate_distribution(m, restart, sc, nx, (it + 1) as nat, l);
        } else {
            assert(iterate(m, restart, sc, nx, (it + 1) as nat, l) == (sc, nx, (it + 1) as nat, l));
        }
    }
}

/// After a run on a non-empty engine, with or without seeds, the scores are
/// a Q16 probability distribution over the nodes: they add up to exactly one.
pub proof fn lemma_compute_sums_to_one(m: RankModel, seeds: Seq<(u64, u32)>)
    requires
        m.wf(),
        m.node_count > 0,
    ensures
        sum32(compute_spec(m, seeds).scores, m.node_count as int) == 65536,
{
    let n = m.node_count as int;
    let r = restart_spec(m, seeds);
    lemma_restart_sums_to_one(m, seeds);
    lemma_restart_len(m, seeds);
    let start = Seq::new(m.scores.len(), |i: int| if i < n { r[i] } else { m.scores[i] });
    lemma_iterate_distribution(m, r, start, m.next_scores, 0, m.last_delta);
}

proof fn lemma_restart_len(m: RankModel, seeds: Seq<(u64, u32)>)
    requires
        m.wf(),
        m.node_count > 0,
    ensures
        restart_spec(m, seeds).len() == MAX_RANK_NODES,
{
    let n = m.node_count as int;
    let zeroed = Seq::new(m.restart.len(), |i: int| if i < n { 0u32 } else { m.restart[i] });
    let r = seeded(zeroed, m.node_ids, n, seeds, seeds.len() as int);
    lemma_seeded_len(zeroed, m.node_ids, n, seeds, seeds.len() as int);
    if !(forall|i: int| 0 <= i < n ==> r[i] == 0) {
        let total = sum32(r, n);
        if total > 0 {
            let scaled = Seq::new(r.len(), |i: int| if i < n { (r[i] * 65536 / (total as int)) as u32 } else { r[i] });
            lemma_last_positive32(scaled, n);
        }
    }
}

/// The restart distribution of a non-empty engine is a Q16 probability
/// distribution: its shares over the nodes add up to exactly one.
pub proof fn lemma_restart_sums_to_one(m: RankModel, seeds: Seq<(u64, u32)>)
    requires
        m.wf(),
        m.node_count > 0,
    ensures
        sum32(restart_spec(m, seeds), m.node_count as int) == 65536,
{
    let n = m.node_count as int;
    let zeroed = Seq::new(m.restart.len(), |i: int| if i < n { 0u32 } else { m.restart[i] });
    let r = seeded(zeroed, m.node_ids, n, seeds, seeds.len() as int);
    lemma_seeded_len(zeroed, m.node_ids, n, seeds, seeds.len() as int);
    if forall|i: int| 0 <= i < n ==> r[i] == 0 {
        let u = (65536int / n) as u32;
        let filled = Seq::new(r.len(), |i: int| if i < n { u } else { r[i] });
        assert(u * n <= 65536) by (nonlinear_arith)
            requires
                0 < n,
                u == 65536int / n,
        ;
        lemma_sum32_constant(filled, n, u);
        let v = sat_add32(u, (65536 - u * n) as u32);
        assert(v == u + 65536 - u * n);
        lemma_sum32_update(filled, n, n - 1, v);
    } else {
        let i = choose|i: int| 0 <= i < n && r[i] != 0;
        lemma_sum32_member(r, n, i);
        lemma_normalize32_sums_to_one(r, n);
    }
}

proof fn lemma_seeded_len(r: Seq<u32>, ids: Seq<u64>, n: int, seeds: Seq<(u64, u32)>, k: int)
    requires
        0 <= n <= r.len(),
        n <= ids.len(),
    ensures
        seeded(r, ids, n, seeds, k).len() == r.len(),
    decreases k,
{
    if k > 0 {
        lemma_seeded_len(r, ids, n, seeds, k - 1);
        let r1 = seeded(r, ids, n, seeds, k - 1);
        match first_index(ids.subrange(0, n), same_id(seeds[k - 1].0)) {
            Some(i) => {
                assert(crate::search::is_first(ids.subrange(0, n), same_id(seeds[k - 1].0), i));
                assert(seeded(r, ids, n, seeds, k) == r1.update(i, sat_add32(r1[i], seeds[k - 1].1)));
            },
            None => {
                assert(seeded(r, ids, n, seeds, k) == r1);
            },
        }
    }
}

proof fn lemma_sum32_constant(s: Seq<u32>, k: int, u: u32)
    requires
        0 <= k <= s.len(),
        forall|i: int| 0 <= i < k ==> s[i] == u,
    ensures
        sum32(s, k) == k * u,
    decreases k,
{
    if k > 0 {
        lemma_sum32_constant(s, k - 1, u);
        assert(sum32(s, k) == sum32(s, k - 1) + s[k - 1]);
        assert((k - 1) * u + u == k * u) by (nonlinear_arith);
    } else {
        assert(k == 0);
        assert(sum32(s, k) == 0);
        assert(k * u == 0) by (nonlinear_arith)
            requires
                k == 0,
        ;
    }
}

/// Scale the first `n` weights into Q16 shares of their sum.
fn normalize_q16(values: &mut [Weight; MAX_RANK_NODES], n: usize)
    requires
        n <= MAX_RANK_NODES,
    ensures
        final(values)@ == normalize32(old(values)@, n as int),
{
    let ghost s = values@;
    let mut sum: u64 = 0;
    let mut i: usize = 0;
    while i < n
        invariant
            n <= MAX_RANK_NODES,
            s == values@,
            i <= n,
            sum == sum32(s, i as int),
            sum <= i * 0xffff_ffff,
        decreases n - i,
    {
        sum = sum + values[i] as u64;
        i += 1;
    }
    if sum == 0 {
        return;
    }
    let ghost scaled = Seq::new(s.len(), |j: int| if j < n { (s[j] * 65536 / (sum as int)) as u32 } else { s[j] });
    let mut assigned: u64 = 0;
    let mut last: Option<usize> = None;
    let mut k: usize = 0;
    while k < n
        invariant
            n <= MAX_RANK_NODES,
            sum == sum32(s, n as int),
            sum > 0,
            k <= n,
            scaled == Seq::new(s.len(), |j: int| if j < n { (s[j] * 65536 / (sum as int)) as u32 } else { s[j] }),
            values@.len() == s.len(),
            forall|j: int| 0 <= j < k ==> values@[j] == scaled[j],
            forall|j: int| k <= j < s.len() ==> values@[j] == s[j],
            assigned == sum32(scaled, k as int),
            assigned <= k * 0xffff_ffff,
            last matches Some(l) ==> last_positive32(scaled, k as int) == Some(l as int),
            last is None ==> last_positive32(scaled, k as int) is None,
        decreases n - k,
    {
        proof {
            lemma_sum_prefix_le(s, k as int, n as int);
        }
        assert(s[k as int] * 65536 / (sum as int) <= 65536) by (nonlinear_arith)
            requires s[k as int] <= sum, sum > 0;
        let v = ((values[k] as u128 * 65536) / sum as u128) as u32;
        values[k] = v;
        assigned = assigned + v as u64;
        if v > 0 {
            last = Some(k);
        }
        k += 1;
    }
    assert(values@ =~= scaled);
    proof { lemma_last_positive32(scaled, n as int); }
    match last {
        Some(l) => {
            let fill = (WEIGHT_ONE as u64 - if assigned < WEIGHT_ONE as u64 { assigned } else { WEIGHT_ONE as u64 }) as u32;
            values[l] = values[l].saturating_add(fill);
        },
        None => {},
    }
}

proof fn lemma_sum_prefix_le(s: Seq<u32>, k: int, n: int)
    requires
        0 <= k < n <= s.len(),
    ensures
        s[k] <= sum32(s, n),
    decreases n,
{
    if k < n - 1 {
        lemma_sum_prefix_le(s, k, n - 1);
    }
}

/// Scale the first `n` accumulated scores into Q16 shares of their sum.
fn normalize_u64_q16(values: &mut [u64; MAX_RANK_NODES], n: usize)
    requires
        n <= MAX_RANK_NODES,
    ensures
        final(values)@ == normalize64(old(values)@, n as int),
{
    let ghost s = values@;
    proof { lemma_sum64_bound(s, n as int, 0xffff_ffff_ffff_ffff); }
    let mut sum: u128 = 0;
    let mut i: usize = 0;
    while i < n
        invariant
            n <= MAX_RANK_NODES,
            s == values@,
            i <= n,
            sum == sum64(s, i as int),
        decreases n - i,
    {
        proof { lemma_sum64_bound(s, i as int + 1, 0xffff_ffff_ffff_ffff); }
        sum = sum + values[i] as u128;
        i += 1;
    }
    if sum == 0 {
        return;
    }
    let ghost scaled = Seq::new(
        s.len(),
        |j: int|
            if j < n {
                (if s[j] * 65536 / (sum as int) < 65536 {
                    s[j] * 65536 / (sum as int)
                } else {
                    65536
                }) as u64
            } else {
                s[j]
            },
    );
    let mut assigned: u64 = 0;
    let mut last: Option<usize> = None;
    let mut k: usize = 0;
    while k < n
        invariant
            n <= MAX_RANK_NODES,
            sum == sum64(s, n as int),
            sum > 0,
            k <= n,
            scaled == Seq::new(
                s.len(),
                |j: int|
                    if j < n {
                        (if s[j] * 65536 / (sum as int) < 65536 {
                            s[j] * 65536 / (sum as int)
                        } else {
                            65536
                        }) as u64
                    } else {
                        s[j]
                    },
            ),
            values@.len() == s.len(),
            forall|j: int| 0 <= j < k ==> values@[j] == scaled[j],
            forall|j: int| k <= j < s.len() ==> values@[j] == s[j],
            assigned == sum64(scaled, k as int),
            assigned <= k * 65536,
            last matches Some(l) ==> last_positive64(scaled, k as int) == Some(l as int),
            last is None ==> last_positive64(scaled, k as int) is None,
        decreases n - k,
    {
        assert(s[k as int] * 65536 <= 0xffff_ffff_ffff_ffff * 65536) by (nonlinear_arith)
            requires s[k as int] <= 0xffff_ffff_ffff_ffff;
        let share = (values[k] as u128 * 65536) / sum;
        let v = if share < 65536 { share as u64 } else { 65536 };
        values[k] = v;
        assigned = assigned + v;
        if v > 0 {
            last = Some(k);
        }
        k += 1;
    }
    assert(values@ =~= scaled);
    proof { lemma_last_positive64(scaled, n as int); }
    match last {
        Some(l) => {
            let fill = WEIGHT_ONE as u64 - if assigned < WEIGHT_ONE as u64 { assigned } else { WEIGHT_ONE as u64 };
            values[l] = values[l] + fill;
        },
        None => {},
    }
}

// ---------------------------------------------------------------------------
// The engine
// ---------------------------------------------------------------------------

/// Abstract state of a [`PageRankEngine`].
pub struct RankModel {
    pub edges: Seq<RankEdge>,
    pub edge_count: nat,
    pub out_weight: Seq<u64>,
    pub node_ids: Seq<u64>,
    pub node_count: nat,
    pub scores: Seq<u32>,
    pub next_scores: Seq<u64>,
    pub restart: Seq<u32>,
    pub last_iterations: u32,
    pub last_delta: u32,
}

impl RankModel {
    pub open spec fn wf(self) -> bool {
        &&& self.edges.len() == MAX_RANK_EDGES
        &&& self.out_weight.len() == MAX_RANK_NODES
        &&& self.node_ids.len() == MAX_RANK_NODES
        &&& self.scores.len() == MAX_RANK_NODES
        &&& self.next_scores.len() == MAX_RANK_NODES
        &&& self.restart.len() == MAX_RANK_NODES
        &&& self.edge_count <= MAX_RANK_EDGES
        &&& self.node_count <= MAX_RANK_NODES
        &&& forall|e: int|
            0 <= e < self.edge_count ==> (#[trigger] self.edges[e]).from < self.node_count && self.edges[e].to
                < self.node_count
    }
}

pub open spec fn same_id(id: u64) -> spec_fn(u64) -> bool {
    |x: u64| x == id
}

/// The restart weights after adding each seed's weight to its node.
pub open spec fn seeded(r: Seq<u32>, ids: Seq<u64>, n: int, seeds: Seq<(u64, u32)>, k: int) -> Seq<u32>
    decreases k,
{
    if k <= 0 {
        r
    } else {
        let r1 = seeded(r, ids, n, seeds, k - 1);
        match first_index(ids.subrange(0, n), same_id(seeds[k - 1].0)) {
            Some(i) => r1.update(i, sat_add32(r1[i], seeds[k - 1].1)),
            None => r1,
        }
    }
}

/// The restart distribution: the seeds normalized to Q16 shares, or the
/// uniform distribution (remainder on the last node) when no seed applies.
pub open spec fn restart_spec(m: RankModel, seeds: Seq<(u64, u32)>) -> Seq<u32> {
    let n = m.node_count as int;
    let zeroed = Seq::new(m.restart.len(), |i: int| if i < n { 0u32 } else { m.restart[i] });
    let r = seeded(zeroed, m.node_ids, n, seeds, seeds.len() as int);
    if forall|i: int| 0 <= i < n ==> r[i] == 0 {
        let u = (65536int / n) as u32;
        let filled = Seq::new(r.len(), |i: int| if i < n { u } else { r[i] });
        filled.update(n - 1, sat_add32(u, (65536 - u * n) as u32))
    } else {
        normalize32(r, n)
    }
}

/// The accumulated scores after propagating mass along the first `k` edges.
pub open spec fn edge_pass(next: Seq<u64>, m: RankModel, scores: Seq<u32>, k: int) -> Seq<u64>
    decreases k,
{
    if k <= 0 {
        next
    } else {
        let nx = edge_pass(next, m, scores, k - 1);
        let e = m.edges[k - 1];
        let transition = div_q16(e.weight_q16 as u64, m.out_weight[e.from as int]);
        let contribution = mul_q16(mul_q16(DAMPING_Q16, scores[e.from as int] as u64), transition);
        nx.update(e.to as int, sat_add64(nx[e.to as int], contribution))
    }
}

/// Score held by the first `k` nodes without out-edges.
pub open spec fn dangling(scores: Seq<u32>, out_weight: Seq<u64>, k: int) -> nat
    decreases k,
{
    if k <= 0 {
        0
    } else {
        dangling(scores, out_weight, k - 1) + if out_weight[k - 1] == 0 { scores[k - 1] as nat } else { 0 }
    }
}

/// One power-iteration step: restart mass, damped mass along the edges,
/// dangling mass redistributed by the restart distribution, normalized.
pub open spec fn step_next(m: RankModel, restart: Seq<u32>, scores: Seq<u32>, next: Seq<u64>) -> Seq<u64> {
    let n = m.node_count as int;
    let base = Seq::new(next.len(), |i: int| if i < n { (RESTART_Q16 * restart[i] / 65536) as u64 } else { next[i] });
    let after_edges = edge_pass(base, m, scores, m.edge_count as int);
    let damped = mul_q16(DAMPING_Q16, dangling(scores, m.out_weight, n) as u64);
    let with_dangling = Seq::new(
        next.len(),
        |i: int| if i < n { sat_add64(after_edges[i], mul_q16(damped, restart[i] as u64)) } else { after_edges[i] },
    );
    normalize64(with_dangling, n)
}

pub open spec fn clamp32(x: u64) -> u32 {
    (if x > u32::MAX {
        u32::MAX as u64
    } else {
        x
    }) as u32
}

pub open spec fn abs_diff(a: u32, b: u32) -> nat {
    (if a >= b {
        a - b
    } else {
        b - a
    }) as nat
}

pub open spec fn delta_sum(next: Seq<u64>, scores: Seq<u32>, k: int) -> nat
    decreases k,
{
    if k <= 0 {
        0
    } else {
        delta_sum(next, scores, k - 1) + abs_diff(clamp32(next[k - 1]), scores[k - 1])
    }
}

/// Iterate from step `it` until the L1 change drops below epsilon or the
/// step budget runs out: the scores, the accumulator, the number of steps
/// and the last change.
pub open spec fn iterate(m: RankModel, restart: Seq<u32>, scores: Seq<u32>, next: Seq<u64>, it: nat, last_delta: u32) -> (
    Seq<u32>,
    Seq<u64>,
    nat,
    u32,
)
    decreases MAX_ITERATIONS - it,
{
    if it >= MAX_ITERATIONS {
        (scores, next, it, last_delta)
    } else {
        let n = m.node_count as int;
        let nx = step_next(m, restart, scores, next);
        let sc = Seq::new(scores.len(), |i: int| if i < n { clamp32(nx[i]) } else { scores[i] });
        let d = delta_sum(nx, scores, n);
        let ld = (if d > u32::MAX { u32::MAX as nat } else { d }) as u32;
        if d < EPSILON_Q16 {
            (sc, nx, it + 1, ld)
        } else {
            iterate(m, restart, sc, nx, it + 1, ld)
        }
    }
}

/// The model after a personalized run with `seeds`.
pub open spec fn compute_spec(m: RankModel, seeds: Seq<(u64, u32)>) -> RankModel {
    let n = m.node_count as int;
    let r = restart_spec(m, seeds);
    let start = Seq::new(m.scores.len(), |i: int| if i < n { r[i] } else { m.scores[i] });
    let (scores, next, it, ld) = iterate(m, r, start, m.next_scores, 0, m.last_delta);
    RankModel { restart: r, scores, next_scores: next, last_iterations: it as u32, last_delta: ld, ..m }
}

/// The best unused positive score among the first `k` nodes; ties go to
/// the later node.
pub open spec fn best_last(scores: Seq<u32>, used: Seq<bool>, k: int) -> (Option<int>, u32)
    decreases k,
{
    if k <= 0 {
        (None, 0)
    } else {
        let prev = best_last(scores, used, k - 1);
        if !used[k - 1] && scores[k - 1] > 0 && scores[k - 1] >= prev.1 {
            (Some(k - 1), scores[k - 1])
        } else {
            prev
        }
    }
}

pub open spec fn rank_order(scores: Seq<u32>, used: Seq<bool>, n: int, remaining: nat) -> Seq<int>
    decreases remaining,
{
    if remaining == 0 {
        Seq::empty()
    } else {
        match best_last(scores, used, n).0 {
            None => Seq::empty(),
            Some(d) => seq![d] + rank_order(scores, used.update(d, true), n, (remaining - 1) as nat),
        }
    }
}

proof fn lemma_best_last(scores: Seq<u32>, used: Seq<bool>, k: int)
    ensures
        best_last(scores, used, k).0 matches Some(d) ==> 0 <= d < k && !used[d] && scores[d] == best_last(scores, used, k).1,
    decreases k,
{
    if k > 0 {
        lemma_best_last(scores, used, k - 1);
    }
}

/// The (external id, score) pairs [`PageRankEngine::top_k`] writes for
/// `capacity` slots.
pub open spec fn top_pairs(m: RankModel, capacity: nat) -> Seq<(u64, u32)> {
    rank_order(m.scores, Seq::new(MAX_RANK_NODES as nat, |i: int| false), m.node_count as int, capacity).map_values(
        |d: int| (m.node_ids[d], m.scores[d]),
    )
}

proof fn lemma_rank_order_len(scores: Seq<u32>, used: Seq<bool>, n: int, remaining: nat)
    ensures
        rank_order(scores, used, n, remaining).len() <= remaining,
    decreases remaining,
{
    if remaining > 0 {
        if let Some(d) = best_last(scores, used, n).0 {
            lemma_rank_order_len(scores, used.update(d, true), n, (remaining - 1) as nat);
        }
    }
}

/// Ranking never writes more pairs than there are slots.
pub proof fn lemma_top_count(m: RankModel, capacity: nat)
    ensures
        top_pairs(m, capacity).len() <= capacity,
{
    lemma_rank_order_len(m.scores, Seq::new(MAX_RANK_NODES as nat, |i: int| false), m.node_count as int, capacity);
}

pub struct PageRankEngine {
    edges: [RankEdge; MAX_RANK_EDGES],
    edge_count: usize,
    out_weight_q16: [u64; MAX_RANK_NODES],
    node_ids: [u64; MAX_RANK_NODES],
    node_count: usize,
    scores: [Weight; MAX_RANK_NODES],
    next_scores: [u64; MAX_RANK_NODES],
    restart: [Weight; MAX_RANK_NODES],
    pub last_iterations: u32,
    pub last_delta: Weight,
}

impl View for PageRankEngine {
    type V = RankModel;

    closed spec fn view(&self) -> RankModel {
        RankModel {
            edges: self.edges@,
            edge_count: self.edge_count as nat,
            out_weight: self.out_weight_q16@,
            node_ids: self.node_ids@,
            node_count: self.node_count as nat,
            scores: self.scores@,
            next_scores: self.next_scores@,
            restart: self.restart@,
            last_iterations: self.last_iterations,
            last_delta: self.last_delta,
        }
    }
}

pub open spec fn empty_rank_spec() -> RankModel {
    RankModel {
        edges: Seq::new(MAX_RANK_EDGES as nat, |i: int| RankEdge { from: 0, to: 0, weight_q16: 0 }),
        edge_count: 0,
        out_weight: Seq::new(MAX_RANK_NODES as nat, |i: int| 0u64),
        node_ids: Seq::new(MAX_RANK_NODES as nat, |i: int| 0u64),
        node_count: 0,
        scores: Seq::new(MAX_RANK_NODES as nat, |i: int| 0u32),
        next_scores: Seq::new(MAX_RANK_NODES as nat, |i: int| 0u64),
        restart: Seq::new(MAX_RANK_NODES as nat, |i: int| 0u32),
        last_iterations: 0,
        last_delta: 0,
    }
}

impl PageRankEngine {
    pub open spec fn wf(&self) -> bool {
        self@.wf()
    }

    /// An engine with no nodes or edges.
    pub fn new() -> (r: Self)
        ensures
            r.wf(),
            r@ == empty_rank_spec(),
    {
        let r = PageRankEngine {
            edges: [RankEdge { from: 0, to: 0, weight_q16: 0 }; MAX_RANK_EDGES],
            edge_count: 0,
            out_weight_q16: [0; MAX_RANK_NODES],
            node_ids: [0; MAX_RANK_NODES],
            node_count: 0,
            scores: [0; MAX_RANK_NODES],
            next_scores: [0; MAX_RANK_NODES],
            restart: [0; MAX_RANK_NODES],
            last_iterations: 0,
            last_delta: 0,
        };
        assert(r@.edges =~= empty_rank_spec().edges);
        assert(r@.out_weight =~= empty_rank_spec().out_weight);
        assert(r@.node_ids =~= empty_rank_spec().node_ids);
        assert(r@.scores =~= empty_rank_spec().scores);
        assert(r@.next_scores =~= empty_rank_spec().next_scores);
        assert(r@.restart =~= empty_rank_spec().restart);
        r
    }

    /// Forget every node and edge.
    pub fn clear(&mut self)
        ensures
            final(self).wf(),
            final(self)@ == empty_rank_spec(),
    {
        *self = Self::new();
    }

    fn find_node(&self, external_id: u64) -> (r: Option<usize>)
        requires
            self.wf(),
        ensures
            match r {
                Some(i) => first_index(self@.node_ids.subrange(0, self@.node_count as int), same_id(external_id))
                    == Some(i as int),
                None => first_index(self@.node_ids.subrange(0, self@.node_count as int), same_id(external_id))
                    == None::<int>,
            },
    {
        let ghost known = self@.node_ids.subrange(0, self@.node_count as int);
        let mut index: usize = 0;
        while index < self.node_count
            invariant
                self.wf(),
                known == self@.node_ids.subrange(0, self@.node_count as int),
                index <= self@.node_count,
                forall|j: int| 0 <= j < index ==> !(#[trigger] same_id(external_id)(known[j])),
            decreases self@.node_count - index,
        {
            if self.node_ids[index] == external_id {
                proof { lemma_first_found(known, same_id(external_id), index as int); }
                return Some(index);
            }
            index += 1;
        }
        proof { lemma_first_none(known, same_id(external_id)); }
        None
    }

    /// The internal number of `external_id`, registering it when new; none
    /// when the table is full.
    pub fn add_node(&mut self, external_id: u64) -> (r: Option<u16>)
        requires
            old(self).wf(),
        ensures
            final(self).wf(),
            match first_index(old(self)@.node_ids.subrange(0, old(self)@.node_count as int), same_id(external_id)) {
                Some(i) => r == Some(i as u16) && final(self)@ == old(self)@,
                None => if old(self)@.node_count >= MAX_RANK_NODES {
                    r is None && final(self)@ == old(self)@
                } else {
                    r == Some(old(self)@.node_count as u16) && final(self)@ == (RankModel {
                        node_ids: old(self)@.node_ids.update(old(self)@.node_count as int, external_id),
                        node_count: old(self)@.node_count + 1,
                        ..old(self)@
                    })
                },
            },
    {
        if let Some(index) = self.find_node(external_id) {
            proof { assert(is_first(self@.node_ids.subrange(0, self@.node_count as int), same_id(external_id), index as int)); }
            return Some(index as u16);
        }
        if self.node_count >= MAX_RANK_NODES {
            return None;
        }
        let index = self.node_count;
        self.node_ids[index] = external_id;
        self.node_count += 1;
        Some(index as u16)
    }

    /// Add a weighted edge between known nodes; false when full, for an
    /// unknown node or a zero weight.
    pub fn add_edge(&mut self, from: u16, to: u16, weight_q16: Weight) -> (r: bool)
        requires
            old(self).wf(),
        ensures
            final(self).wf(),
            r == (old(self)@.edge_count < MAX_RANK_EDGES && from < old(self)@.node_count && to < old(self)@.node_count
                && weight_q16 != 0),
            !r ==> final(self)@ == old(self)@,
            r ==> final(self)@ == (RankModel {
                edges: old(self)@.edges.update(old(self)@.edge_count as int, RankEdge { from, to, weight_q16 }),
                edge_count: old(self)@.edge_count + 1,
                out_weight: old(self)@.out_weight.update(
                    from as int,
                    sat_add64(old(self)@.out_weight[from as int], weight_q16 as u64),
                ),
                ..old(self)@
            }),
    {
        if self.edge_count >= MAX_RANK_EDGES || from as usize >= self.node_count || to as usize >= self.node_count
            || weight_q16 == 0 {
            return false;
        }
        self.edges[self.edge_count] = RankEdge { from, to, weight_q16 };
        self.edge_count += 1;
        self.out_weight_q16[from as usize] = self.out_weight_q16[from as usize].saturating_add(weight_q16 as u64);
        true
    }

    /// Plain weighted PageRank: a personalized run without seeds.
    pub fn compute(&mut self) -> (r: u32)
        requires
            old(self).wf(),
        ensures
            final(self).wf(),
            old(self)@.node_count == 0 ==> r == 0 && final(self)@ == old(self)@,
            old(self)@.node_count > 0 ==> final(self)@ == compute_spec(old(self)@, Seq::empty()) && r
                == final(self)@.last_iterations,
    {
        let seeds: [(u64, Weight); 0] = [];
        self.compute_personalized(&seeds)
    }

    /// The score of node `index`; zero past the table.
    pub fn score(&self, index: usize) -> (r: Weight)
        ensures
            r == (if index < MAX_RANK_NODES { self@.scores[index as int] } else { 0 }),
    {
        if index < MAX_RANK_NODES {
            self.scores[index]
        } else {
            0
        }
    }

    /// The external identifier of node `index`; zero past the table.
    pub fn external_id(&self, index: usize) -> (r: u64)
        ensures
            r == (if index < MAX_RANK_NODES { self@.node_ids[index as int] } else { 0 }),
    {
        if index < MAX_RANK_NODES {
            self.node_ids[index]
        } else {
            0
        }
    }

    pub fn node_count(&self) -> (r: usize)
        ensures
            r == self@.node_count,
    {
        self.node_count
    }

    pub fn edge_count(&self) -> (r: usize)
        ensures
            r == self@.edge_count,
    {
        self.edge_count
    }

    /// Write the positively scored nodes, best first (ties to the later
    /// node), as (external id, score); returns how many.
    pub fn top_k(&self, output: &mut [(u64, Weight)]) -> (r: usize)
        requires
            self.wf(),
        ensures
            ({
                let picked = rank_order(
                    self@.scores,
                    Seq::new(MAX_RANK_NODES as nat, |i: int| false),
                    self@.node_count as int,
                    old(output)@.len(),
                );
                &&& r == picked.len()
                &&& final(output)@.len() == old(output)@.len()
                &&& forall|w: int|
                    0 <= w < r ==> final(output)@[w] == (self@.node_ids[picked[w]], self@.scores[picked[w]])
                &&& forall|w: int| r <= w < old(output)@.len() ==> final(output)@[w] == old(output)@[w]
            }),
            final(output)@.subrange(0, r as int) == top_pairs(self@, old(output)@.len()),
    {
        let ghost picked = rank_order(
            self@.scores,
            Seq::new(MAX_RANK_NODES as nat, |i: int| false),
            self@.node_count as int,
            output@.len(),
        );
        let ghost mut done: Seq<int> = Seq::empty();
        let mut used = [false; MAX_RANK_NODES];
        proof { assert(used@ =~= Seq::new(MAX_RANK_NODES as nat, |i: int| false)); }
        let mut written: usize = 0;
        while written < output.len()
            invariant
                self.wf(),
                output@.len() == old(output)@.len(),
                written <= output@.len(),
                done.len() == written,
                picked == done + rank_order(self@.scores, used@, self@.node_count as int, (output@.len() - written) as nat),
                forall|w: int| 0 <= w < written ==> output@[w] == (self@.node_ids[done[w]], self@.scores[done[w]]),
                forall|w: int| written <= w < output@.len() ==> output@[w] == old(output)@[w],
            ensures
                picked == done,
                written == done.len(),
                output@.len() == old(output)@.len(),
                forall|w: int| 0 <= w < written ==> output@[w] == (self@.node_ids[done[w]], self@.scores[done[w]]),
                forall|w: int| written <= w < output@.len() ==> output@[w] == old(output)@[w],
            decreases output@.len() - written,
        {
            let mut best: Option<usize> = None;
            let mut best_score: u32 = 0;
            let mut index: usize = 0;
            while index < self.node_count
                invariant
                    self.wf(),
                    index <= self@.node_count,
                    (match best {
                        Some(b) => Some(b as int),
                        None => None::<int>,
                    }, best_score) == best_last(self@.scores, used@, index as int),
                decreases self@.node_count - index,
            {
                if !used[index] && self.scores[index] > 0 && self.scores[index] >= best_score {
                    best_score = self.scores[index];
                    best = Some(index);
                }
                index += 1;
            }
            proof { lemma_best_last(self@.scores, used@, self@.node_count as int); }
            let b = match best {
                Some(b) => b,
                None => {
                    proof { assert(done + Seq::<int>::empty() =~= done); }
                    break;
                },
            };
            used[b] = true;
            output[written] = (self.node_ids[b], self.scores[b]);
            proof {
                assert(picked == done.push(b as int) + rank_order(
                    self@.scores,
                    used@,
                    self@.node_count as int,
                    (output@.len() - written - 1) as nat,
                ));
                done = done.push(b as int);
            }
            written += 1;
        }
        proof {
            if written == output@.len() {
                assert(picked == done);
            }
            assert(output@.subrange(0, written as int) =~= top_pairs(self@, old(output)@.len()));
        }
        written
    }
}

proof fn lemma_edge_pass_same(next: Seq<u64>, a: RankModel, b: RankModel, scores: Seq<u32>, k: int)
    requires
        a.edges == b.edges,
        a.out_weight == b.out_weight,
    ensures
        edge_pass(next, a, scores, k) == edge_pass(next, b, scores, k),
    decreases k,
{
    if k > 0 {
        lemma_edge_pass_same(next, a, b, scores, k - 1);
    }
}

/// A step reads only the graph: node and edge tables and out-weights.
proof fn lemma_step_same(a: RankModel, b: RankModel, restart: Seq<u32>, scores: Seq<u32>, next: Seq<u64>)
    requires
        a.edges == b.edges,
        a.edge_count == b.edge_count,
        a.out_weight == b.out_weight,
        a.node_count == b.node_count,
    ensures
        step_next(a, restart, scores, next) == step_next(b, restart, scores, next),
{
    let n = a.node_count as int;
    let base = Seq::new(next.len(), |i: int| if i < n { (RESTART_Q16 * restart[i] / 65536) as u64 } else { next[i] });
    lemma_edge_pass_same(base, a, b, scores, a.edge_count as int);
}

impl PageRankEngine {
    /// One power-iteration step into the accumulator, then the scores
    /// become the clamped accumulator; returns the L1 change.
    fn power_step(&mut self) -> (delta: u64)
        requires
            old(self).wf(),
            old(self)@.node_count > 0,
        ensures
            final(self).wf(),
            final(self)@ == (RankModel {
                next_scores: step_next(old(self)@, old(self)@.restart, old(self)@.scores, old(self)@.next_scores),
                scores: Seq::new(
                    old(self)@.scores.len(),
                    |i: int|
                        if i < old(self)@.node_count {
                            clamp32(step_next(old(self)@, old(self)@.restart, old(self)@.scores, old(self)@.next_scores)[i])
                        } else {
                            old(self)@.scores[i]
                        },
                ),
                ..old(self)@
            }),
            delta == delta_sum(
                step_next(old(self)@, old(self)@.restart, old(self)@.scores, old(self)@.next_scores),
                old(self)@.scores,
                old(self)@.node_count as int,
            ),
    {
        let ghost m = self@;
        let n = self.node_count;
        let ghost base = Seq::new(
            m.next_scores.len(),
            |i: int| if i < n { (RESTART_Q16 * m.restart[i] / 65536) as u64 } else { m.next_scores[i] },
        );
        let mut i: usize = 0;
        while i < n
            invariant
                self.wf(),
                n == self@.node_count,
                self@ == (RankModel { next_scores: self@.next_scores, ..m }),
                i <= n,
                m.wf(),
                base == Seq::new(
                    m.next_scores.len(),
                    |i: int| if i < n { (RESTART_Q16 * m.restart[i] / 65536) as u64 } else { m.next_scores[i] },
                ),
                forall|j: int| 0 <= j < i ==> self@.next_scores[j] == base[j],
                forall|j: int| i <= j < MAX_RANK_NODES ==> self@.next_scores[j] == m.next_scores[j],
            decreases n - i,
        {
            assert(RESTART_Q16 * self.restart[i as int] <= 9830 * 0xffff_ffff) by (nonlinear_arith)
                requires self.restart[i as int] <= 0xffff_ffff;
            self.next_scores[i] = (RESTART_Q16 * self.restart[i] as u64) / 65536;
            i += 1;
        }
        assert(self@.next_scores =~= base);
        let mut e: usize = 0;
        while e < self.edge_count
            invariant
                self.wf(),
                n == self@.node_count,
                self@ == (RankModel { next_scores: self@.next_scores, ..m }),
                e <= self@.edge_count,
                self@.next_scores == edge_pass(base, m, m.scores, e as int),
            decreases self@.edge_count - e,
        {
            let edge = self.edges[e];
            let from = edge.from as usize;
            let to = edge.to as usize;
            let transition_q16 = q16_div(edge.weight_q16 as u64, self.out_weight_q16[from]);
            let damped_source = q16_mul(DAMPING_Q16, self.scores[from] as u64);
            let contribution = q16_mul(damped_source, transition_q16);
            self.next_scores[to] = self.next_scores[to].saturating_add(contribution);
            e += 1;
        }
        let ghost after_edges = self@.next_scores;
        let mut dangling_mass: u64 = 0;
        let mut k: usize = 0;
        while k < n
            invariant
                self.wf(),
                n == self@.node_count,
                self@ == (RankModel { next_scores: after_edges, ..m }),
                k <= n,
                dangling_mass == dangling(m.scores, m.out_weight, k as int),
                dangling_mass <= k * 0xffff_ffff,
            decreases n - k,
        {
            if self.out_weight_q16[k] == 0 {
                dangling_mass = dangling_mass + self.scores[k] as u64;
            }
            k += 1;
        }
        let damped_dangling = q16_mul(DAMPING_Q16, dangling_mass);
        let ghost with_dangling = Seq::new(
            m.next_scores.len(),
            |j: int| if j < n { sat_add64(after_edges[j], mul_q16(damped_dangling, m.restart[j] as u64)) } else { after_edges[j] },
        );
        let mut d: usize = 0;
        while d < n
            invariant
                self.wf(),
                n == self@.node_count,
                self@ == (RankModel { next_scores: self@.next_scores, ..m }),
                d <= n,
                m.wf(),
                after_edges.len() == MAX_RANK_NODES,
                with_dangling == Seq::new(
                    m.next_scores.len(),
                    |j: int| if j < n { sat_add64(after_edges[j], mul_q16(damped_dangling, m.restart[j] as u64)) } else { after_edges[j] },
                ),
                forall|j: int| 0 <= j < d ==> self@.next_scores[j] == with_dangling[j],
                forall|j: int| d <= j < MAX_RANK_NODES ==> self@.next_scores[j] == after_edges[j],
            decreases n - d,
        {
            let add = q16_mul(damped_dangling, self.restart[d] as u64);
            self.next_scores[d] = self.next_scores[d].saturating_add(add);
            d += 1;
        }
        assert(self@.next_scores =~= with_dangling);
        normalize_u64_q16(&mut self.next_scores, n);
        let ghost nx = self@.next_scores;
        assert(nx == step_next(m, m.restart, m.scores, m.next_scores));
        let mut delta: u64 = 0;
        let mut t: usize = 0;
        while t < n
            invariant
                self.wf(),
                n == self@.node_count,
                self@ == (RankModel { scores: self@.scores, next_scores: nx, ..m }),
                t <= n,
                m.wf(),
                forall|j: int| 0 <= j < t ==> self@.scores[j] == clamp32(nx[j]),
                forall|j: int| t <= j < MAX_RANK_NODES ==> self@.scores[j] == m.scores[j],
                delta == delta_sum(nx, m.scores, t as int),
                delta <= t * 0xffff_ffff,
            decreases n - t,
        {
            let next = if self.next_scores[t] > u32::MAX as u64 { u32::MAX } else { self.next_scores[t] as u32 };
            let current = self.scores[t];
            let diff = if next >= current { next - current } else { current - next };
            delta = delta + diff as u64;
            self.scores[t] = next;
            t += 1;
        }
        assert(self@.scores =~= Seq::new(
            m.scores.len(),
            |i: int| if i < m.node_count { clamp32(nx[i]) } else { m.scores[i] },
        ));
        delta
    }

    /// Run personalized PageRank. Seed weights are keyed by external node
    /// ID; dangling mass is redistributed into this same restart
    /// distribution. Returns the number of iterations.
    pub fn compute_personalized(&mut self, seeds: &[(u64, Weight)]) -> (r: u32)
        requires
            old(self).wf(),
        ensures
            final(self).wf(),
            old(self)@.node_count == 0 ==> r == 0 && final(self)@ == old(self)@,
            old(self)@.node_count > 0 ==> final(self)@ == compute_spec(old(self)@, seeds@) && r
                == final(self)@.last_iterations,
    {
        let n = self.node_count;
        if n == 0 {
            return 0;
        }
        let ghost m = self@;
        let ghost zeroed = Seq::new(m.restart.len(), |i: int| if i < n { 0u32 } else { m.restart[i] });
        let mut i: usize = 0;
        while i < n
            invariant
                self.wf(),
                n == self@.node_count,
                self@ == (RankModel { restart: self@.restart, ..m }),
                i <= n,
                forall|j: int| 0 <= j < i ==> self@.restart[j] == 0,
                forall|j: int| i <= j < MAX_RANK_NODES ==> self@.restart[j] == m.restart[j],
            decreases n - i,
        {
            self.restart[i] = 0;
            i += 1;
        }
        assert(self@.restart =~= zeroed);
        let mut k: usize = 0;
        while k < seeds.len()
            invariant
                self.wf(),
                n == self@.node_count,
                self@ == (RankModel { restart: self@.restart, ..m }),
                k <= seeds@.len(),
                self@.restart == seeded(zeroed, m.node_ids, n as int, seeds@, k as int),
            decreases seeds@.len() - k,
        {
            let (external_id, weight) = seeds[k];
            match self.find_node(external_id) {
                Some(index) => {
                    proof {
                        assert(is_first(m.node_ids.subrange(0, n as int), same_id(external_id), index as int));
                    }
                    self.restart[index] = self.restart[index].saturating_add(weight);
                },
                None => {},
            }
            k += 1;
        }
        let ghost seeded_restart = self@.restart;
        let mut all_zero = true;
        let mut z: usize = 0;
        while z < n
            invariant
                self.wf(),
                n == self@.node_count,
                self@.restart == seeded_restart,
                z <= n,
                all_zero == forall|j: int| 0 <= j < z ==> seeded_restart[j] == 0,
            decreases n - z,
        {
            if self.restart[z] != 0 {
                all_zero = false;
            }
            z += 1;
        }
        if all_zero {
            let uniform = (WEIGHT_ONE as u64 / n as u64) as u32;
            let mut f: usize = 0;
            while f < n
                invariant
                    self.wf(),
                    n == self@.node_count,
                    self@ == (RankModel { restart: self@.restart, ..m }),
                    f <= n,
                    forall|j: int| 0 <= j < f ==> self@.restart[j] == uniform,
                    forall|j: int| f <= j < MAX_RANK_NODES ==> self@.restart[j] == seeded_restart[j],
                decreases n - f,
            {
                self.restart[f] = uniform;
                f += 1;
            }
            assert(uniform * n <= 65536) by (nonlinear_arith)
                requires uniform == 65536int / (n as int), n >= 1;
            let assigned = uniform as u64 * n as u64;
            self.restart[n - 1] = self.restart[n - 1].saturating_add((WEIGHT_ONE as u64 - assigned) as u32);
            proof {
                let u = (65536int / (n as int)) as u32;
                let filled = Seq::new(seeded_restart.len(), |i: int| if i < n { u } else { seeded_restart[i] });
                assert(self@.restart =~= filled.update(n - 1, sat_add32(u, (65536 - u * n) as u32)));
            }
        } else {
            normalize_q16(&mut self.restart, n);
        }
        let ghost r = self@.restart;
        assert(r == restart_spec(m, seeds@));
        let mut c: usize = 0;
        while c < n
            invariant
                self.wf(),
                n == self@.node_count,
                self@ == (RankModel { scores: self@.scores, restart: r, ..m }),
                c <= n,
                forall|j: int| 0 <= j < c ==> self@.scores[j] == r[j],
                forall|j: int| c <= j < MAX_RANK_NODES ==> self@.scores[j] == m.scores[j],
            decreases n - c,
        {
            self.scores[c] = self.restart[c];
            c += 1;
        }
        let ghost start = Seq::new(m.scores.len(), |i: int| if i < n { r[i] } else { m.scores[i] });
        assert(self@.scores =~= start);
        let ghost target = iterate(m, r, start, m.next_scores, 0, m.last_delta);
        let mut iteration: u32 = 0;
        while (iteration as usize) < MAX_ITERATIONS
            invariant_except_break
                iterate(m, r, self@.scores, self@.next_scores, iteration as nat, self@.last_delta) == target,
            invariant
                self.wf(),
                n == self@.node_count,
                n > 0,
                iteration <= MAX_ITERATIONS,
                self@ == (RankModel {
                    scores: self@.scores,
                    next_scores: self@.next_scores,
                    last_delta: self@.last_delta,
                    restart: r,
                    ..m
                }),
            ensures
                self.wf(),
                self@ == (RankModel {
                    scores: self@.scores,
                    next_scores: self@.next_scores,
                    last_delta: self@.last_delta,
                    restart: r,
                    ..m
                }),
                (self@.scores, self@.next_scores, iteration as nat, self@.last_delta) == target,
            decreases MAX_ITERATIONS - iteration,
        {
            let ghost before = self@;
            let delta = self.power_step();
            proof { lemma_step_same(before, m, r, before.scores, before.next_scores); }
            iteration += 1;
            self.last_delta = if delta > u32::MAX as u64 { u32::MAX } else { delta as u32 };
            if delta < EPSILON_Q16 {
                break;
            }
        }
        self.last_iterations = iteration;
        iteration
    }
}

} // verus!
