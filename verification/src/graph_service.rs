//! The graph service around the journaled graph runtime: the mutation and
//! query wire formats, the logical clock that stamps each request, the
//! subscriber table, and the drift baseline taken when the state is restored.

use vstd::prelude::*;
use crate::bytes::{
    get_u16, get_u64, get_u32, le_u16_at, le_u16_bytes, le_u32_at, le_u32_bytes, le_u64_at, le_u64_bytes, put_bytes,
    put_u16, put_u32, put_u64,
};
use crate::graph_runtime::{
    active_edge, active_node, empty_scored_node, empty_scored_node_spec, kind_upto, min_nat, neighborhood_upto,
    provenance_upto, spec_node, spec_spectral_snapshot, DriftReport, GraphError, GraphModel, GraphRuntime, Mutation,
    Node, QueryResult, ScoredNode, SpectralSnapshot, MAX_EDGES, MAX_NODES, MAX_RESULTS, SNAPSHOT_CAP, spec_apply,
};
use crate::trainer_core::GraphWork;

verus! {

pub const TAG_QUERY: u8 = 0x10;
pub const TAG_QUERY_RESULT: u8 = 0x11;
pub const TAG_MUTATE: u8 = 0x12;
pub const TAG_MUTATE_ACK: u8 = 0x13;
pub const TAG_SUBSCRIBE: u8 = 0x14;
pub const TAG_GRAPH_EVENT: u8 = 0x15;
pub const MAX_SUBSCRIBERS: usize = 16;
pub const MUTATION_REQUEST_SIZE: usize = 48;
pub const QUERY_REQUEST_SIZE: usize = 32;
pub const QUERY_RESPONSE_CAP: usize = 160;

pub open spec fn zeros(n: nat) -> Seq<u8> {
    Seq::new(n, |i: int| 0u8)
}

// ---------------------------------------------------------------------------
// Mutation requests
// ---------------------------------------------------------------------------

/// The mutation a 48-byte request describes, stamped `now`, with its
/// provenance; error 2 for an unknown operation.
pub open spec fn mutation_spec(p: Seq<u8>, now: u64) -> Result<(Mutation, u64), u8> {
    let weight = le_u32_at(p, 4) as i32;
    let from = le_u64_at(p, 8);
    let to = le_u64_at(p, 16);
    let target = le_u64_at(p, 24);
    let flags = le_u16_at(p, 32);
    let m = if p[0] == 0 {
        Some(Mutation::AddNode { kind: p[1] as u16, flags, weight, parent: to, now })
    } else if p[0] == 1 {
        Some(Mutation::AddEdge { kind: p[2] as u16, flags, weight, from, to, now })
    } else if p[0] == 2 {
        Some(Mutation::UpdateNode { id: target, flags, weight, now })
    } else if p[0] == 3 {
        Some(Mutation::UpdateEdge { id: target, weight, now })
    } else if p[0] == 4 {
        Some(Mutation::DeactivateNode { id: target, now })
    } else if p[0] == 5 {
        Some(Mutation::DeactivateEdge { id: target, now })
    } else {
        None
    };
    match m {
        Some(m) => Ok((m, from)),
        None => Err(2),
    }
}

/// Read a mutation request.
pub fn decode_mutation(payload: &[u8], now: u64) -> (r: Result<(Mutation, u64), u8>)
    requires
        payload.len() >= MUTATION_REQUEST_SIZE,
    ensures
        r == mutation_spec(payload@, now),
{
    let weight = get_u32(payload, 4) as i32;
    let from = get_u64(payload, 8);
    let to = get_u64(payload, 16);
    let target = get_u64(payload, 24);
    let flags = get_u16(payload, 32);
    let mutation = if payload[0] == 0 {
        Mutation::AddNode { kind: payload[1] as u16, flags, weight, parent: to, now }
    } else if payload[0] == 1 {
        Mutation::AddEdge { kind: payload[2] as u16, flags, weight, from, to, now }
    } else if payload[0] == 2 {
        Mutation::UpdateNode { id: target, flags, weight, now }
    } else if payload[0] == 3 {
        Mutation::UpdateEdge { id: target, weight, now }
    } else if payload[0] == 4 {
        Mutation::DeactivateNode { id: target, now }
    } else if payload[0] == 5 {
        Mutation::DeactivateEdge { id: target, now }
    } else {
        return Err(2);
    };
    Ok((mutation, from))
}

/// A kind as the one-byte field of a request carries it: clamped to 255.
pub open spec fn kind_byte(kind: u16) -> u8 {
    if kind > 255 {
        255
    } else {
        kind as u8
    }
}

/// The mutation request that asks the graph service to perform a unit of
/// trainer work.
pub open spec fn work_request_bytes(work: GraphWork) -> Seq<u8> {
    match work {
        GraphWork::AddNode { kind, flags, weight, parent, provenance } => seq![0u8, kind_byte(kind), 0, 0]
            + le_u32_bytes(weight as u32) + le_u64_bytes(provenance) + le_u64_bytes(parent) + zeros(8)
            + le_u16_bytes(flags) + zeros(14),
        GraphWork::AddEdge { kind, weight, from, to, provenance } => seq![1u8, 0, kind_byte(kind), 0]
            + le_u32_bytes(weight as u32) + le_u64_bytes(from) + le_u64_bytes(to) + le_u64_bytes(provenance)
            + zeros(16),
    }
}

/// Encode a unit of trainer work as a mutation request.
pub fn encode_work_request(work: GraphWork) -> (r: [u8; 48])
    ensures
        r@ == work_request_bytes(work),
{
    let mut out = [0u8; 48];
    let ghost z = out@;
    match work {
        GraphWork::AddNode { kind, flags, weight, parent, provenance } => {
            out[1] = if kind > 255 { 255 } else { kind as u8 };
            put_u32(&mut out, 4, weight as u32);
            put_u64(&mut out, 8, provenance);
            put_u64(&mut out, 16, parent);
            put_u16(&mut out, 32, flags);
        },
        GraphWork::AddEdge { kind, weight, from, to, provenance } => {
            out[0] = 1;
            out[2] = if kind > 255 { 255 } else { kind as u8 };
            put_u32(&mut out, 4, weight as u32);
            put_u64(&mut out, 8, from);
            put_u64(&mut out, 16, to);
            put_u64(&mut out, 24, provenance);
        },
    }
    assert(out@ =~= work_request_bytes(work));
    out
}

/// The graph mutation a unit of trainer work becomes at the graph service.
pub open spec fn work_mutation(work: GraphWork, now: u64) -> (Mutation, u64) {
    match work {
        GraphWork::AddNode { kind, flags, weight, parent, provenance } => (
            Mutation::AddNode { kind: kind_byte(kind) as u16, flags, weight, parent, now },
            provenance,
        ),
        GraphWork::AddEdge { kind, weight, from, to, provenance } => (
            Mutation::AddEdge { kind: kind_byte(kind) as u16, flags: 0, weight, from, to, now },
            from,
        ),
    }
}

/// What the trainer sends is what the graph service applies: the request
/// for a unit of work decodes to that work's mutation, the kind clamped to
/// a byte.
pub proof fn lemma_work_request_roundtrip(work: GraphWork, now: u64)
    ensures
        mutation_spec(work_request_bytes(work), now) == Ok::<(Mutation, u64), u8>(work_mutation(work, now)),
{
    let p = work_request_bytes(work);
    match work {
        GraphWork::AddNode { kind, flags, weight, parent, provenance } => {
            crate::bytes::lemma_le_u32_at_eq(p, 4, le_u32_bytes(weight as u32));
            crate::bytes::lemma_le_u32_roundtrip(weight as u32);
            crate::bytes::lemma_i32_bits_roundtrip(weight);
            crate::bytes::lemma_le_u64_at_eq(p, 16, le_u64_bytes(parent));
            crate::bytes::lemma_le_u64_roundtrip(parent);
            crate::bytes::lemma_le_u64_at_eq(p, 8, le_u64_bytes(provenance));
            crate::bytes::lemma_le_u64_roundtrip(provenance);
            crate::bytes::lemma_le_u16_at_eq(p, 32, le_u16_bytes(flags));
            crate::bytes::lemma_le_u16_roundtrip(flags);
        },
        GraphWork::AddEdge { kind, weight, from, to, provenance } => {
            crate::bytes::lemma_le_u32_at_eq(p, 4, le_u32_bytes(weight as u32));
            crate::bytes::lemma_le_u32_roundtrip(weight as u32);
            crate::bytes::lemma_i32_bits_roundtrip(weight);
            crate::bytes::lemma_le_u64_at_eq(p, 8, le_u64_bytes(from));
            crate::bytes::lemma_le_u64_roundtrip(from);
            crate::bytes::lemma_le_u64_at_eq(p, 16, le_u64_bytes(to));
            crate::bytes::lemma_le_u64_roundtrip(to);
            crate::bytes::lemma_le_u16_at_eq(p, 32, zeros(2));
            assert(le_u16_at(zeros(2), 0) == 0) by {
                assert(zeros(2)[0] == 0u8 && zeros(2)[1] == 0u8);
                assert((0u8 as u16) | ((0u8 as u16) << 8u16) == 0u16) by (bit_vector);
            }
        },
    }
}

/// The event a subscriber receives for an applied mutation.
pub open spec fn graph_event_bytes(mutation_kind: u8, generation: u64, object_id: u64) -> Seq<u8> {
    seq![mutation_kind] + zeros(7) + le_u64_bytes(generation) + le_u64_bytes(object_id)
}

pub fn encode_graph_event(mutation_kind: u8, generation: u64, object_id: u64) -> (r: [u8; 24])
    ensures
        r@ == graph_event_bytes(mutation_kind, generation, object_id),
{
    let mut out = [0u8; 24];
    out[0] = mutation_kind;
    put_u64(&mut out, 8, generation);
    put_u64(&mut out, 16, object_id);
    assert(out@ =~= graph_event_bytes(mutation_kind, generation, object_id));
    out
}

// ---------------------------------------------------------------------------
// Query responses
// ---------------------------------------------------------------------------

/// One answered node: identifier, kind, flags, score.
pub open spec fn scored_bytes(s: ScoredNode) -> Seq<u8> {
    le_u64_bytes(s.node.id) + le_u16_bytes(s.node.kind) + le_u16_bytes(s.node.flags) + le_u32_bytes(s.score as u32)
}

/// The byte at `k` of the node table of an answer holding `count` nodes.
pub open spec fn table_byte(nodes: Seq<ScoredNode>, count: nat, k: int) -> u8 {
    if k / 16 < count {
        scored_bytes(nodes[k / 16])[k % 16]
    } else {
        0
    }
}

/// A 144-byte query answer: count, generation and up to eight nodes.
pub open spec fn result_bytes(generation: u64, nodes: Seq<ScoredNode>, count: nat) -> Seq<u8> {
    seq![0u8, count as u8] + zeros(6) + le_u64_bytes(generation) + Seq::new(128, |k: int| table_byte(nodes, count, k))
}

proof fn lemma_entry_index(i: int, c: int)
    requires
        0 <= i,
        0 <= c < 16,
    ensures
        (i * 16 + c) / 16 == i,
        (i * 16 + c) % 16 == c,
{
    assert((i * 16 + c) / 16 == i && (i * 16 + c) % 16 == c) by (nonlinear_arith)
        requires
            0 <= i,
            0 <= c < 16,
    ;
}

/// Write a query answer into the start of `out`.
pub fn encode_query_result(result: &QueryResult, out: &mut [u8]) -> (r: usize)
    requires
        old(out)@.len() >= 144,
    ensures
        r == 144,
        final(out)@ == put_bytes(
            old(out)@,
            0,
            result_bytes(result.generation, result.nodes@, result.count as nat),
        ),
{
    let ghost start = out@;
    let count = if result.count < MAX_RESULTS { result.count } else { MAX_RESULTS };
    let ghost want = result_bytes(result.generation, result.nodes@, result.count as nat);
    let mut k: usize = 0;
    while k < 144
        invariant
            k <= 144,
            out@.len() == start.len(),
            start.len() >= 144,
            forall|j: int| 0 <= j < k ==> #[trigger] out@[j] == 0u8,
            forall|j: int| k <= j < out@.len() ==> #[trigger] out@[j] == start[j],
        decreases 144 - k,
    {
        out[k] = 0;
        k += 1;
    }
    out[1] = result.count as u8;
    put_u64(out, 8, result.generation);
    assert forall|j: int| 0 <= j < 16 implies #[trigger] out@[j] == want[j] by {}
    let mut i: usize = 0;
    while i < count
        invariant
            i <= count <= MAX_RESULTS,
            count == min_nat(result.count as nat, MAX_RESULTS as nat),
            want == result_bytes(result.generation, result.nodes@, result.count as nat),
            out@.len() == start.len(),
            start.len() >= 144,
            forall|j: int| 0 <= j < 16 + i * 16 ==> #[trigger] out@[j] == want[j],
            forall|j: int| 16 + i * 16 <= j < 144 ==> #[trigger] out@[j] == 0u8,
            forall|j: int| 144 <= j < out@.len() ==> #[trigger] out@[j] == start[j],
        decreases count - i,
    {
        let o = 16 + i * 16;
        let scored = result.nodes[i];
        put_u64(out, o, scored.node.id);
        put_u16(out, o + 8, scored.node.kind);
        put_u16(out, o + 10, scored.node.flags);
        put_u32(out, o + 12, scored.score as u32);
        proof {
            assert forall|j: int| 0 <= j < 16 + (i + 1) * 16 implies #[trigger] out@[j] == want[j] by {
                if j >= 16 + i * 16 {
                    lemma_entry_index(i as int, j - 16 - i * 16);
                    assert(j - 16 == i * 16 + (j - 16 - i * 16));
                }
            }
        }
        i += 1;
    }
    proof {
        assert forall|j: int| 16 + count * 16 <= j < 144 implies out@[j] == want[j] by {
            let c = (j - 16) % 16;
            let q = (j - 16) / 16;
            assert(q >= count && 0 <= c < 16) by (nonlinear_arith)
                requires
                    16 + count * 16 <= j < 144,
                    q == (j - 16) / 16,
                    c == (j - 16) % 16,
            ;
        }
    }
    assert(out@ =~= put_bytes(start, 0, want));
    144
}

/// The classes of node kind, by kind modulo 64, present among `nodes`.
pub open spec fn kind_class_present(nodes: Seq<Node>, class: int) -> bool {
    exists|i: int| 0 <= i < nodes.len() && #[trigger] nodes[i].kind % 64 == class
}

/// How many of the classes below `n` are present.
pub open spec fn kind_classes_upto(nodes: Seq<Node>, n: int) -> nat
    decreases n,
{
    if n <= 0 {
        0
    } else {
        kind_classes_upto(nodes, n - 1) + if kind_class_present(nodes, n - 1) { 1nat } else { 0nat }
    }
}

proof fn lemma_classes_bound(nodes: Seq<Node>, n: int)
    requires
        0 <= n,
    ensures
        kind_classes_upto(nodes, n) <= n,
    decreases n,
{
    if n > 0 {
        lemma_classes_bound(nodes, n - 1);
    }
}

/// How many kind classes the active nodes fall in.
pub fn kind_class_count(nodes: &Vec<Node>) -> (r: u8)
    ensures
        r == kind_classes_upto(nodes@, 64),
{
    let mut seen = [false; 64];
    let mut i: usize = 0;
    while i < nodes.len()
        invariant
            i <= nodes.len(),
            forall|c: int| 0 <= c < 64 ==> #[trigger] seen@[c] == exists|k: int| 0 <= k < i && #[trigger] nodes@[k].kind % 64 == c,
        decreases nodes.len() - i,
    {
        let class = (nodes[i].kind % 64) as usize;
        seen[class] = true;
        proof {
            assert forall|c: int| 0 <= c < 64 implies #[trigger] seen@[c] == exists|k: int| 0 <= k < i + 1 && #[trigger] nodes@[k].kind % 64 == c by {
                if seen@[c] && c != class {
                    let k = choose|k: int| 0 <= k < i && #[trigger] nodes@[k].kind % 64 == c;
                    assert(0 <= k < i + 1);
                }
                if c == class {
                    assert(nodes@[i as int].kind % 64 == c);
                }
            }
        }
        i += 1;
    }
    let mut count: u8 = 0;
    let mut c: usize = 0;
    while c < 64
        invariant
            c <= 64,
            count == kind_classes_upto(nodes@, c as int),
            forall|d: int| 0 <= d < 64 ==> #[trigger] seen@[d] == kind_class_present(nodes@, d),
        decreases 64 - c,
    {
        proof {
            lemma_classes_bound(nodes@, c as int);
        }
        if seen[c] {
            count += 1;
        }
        c += 1;
    }
    count
}

/// The structural answer: sizes, kind classes, whether the graph is
/// populated, the largest degree (capped at 255), the edge density in Q16
/// and the spectral estimate.
pub open spec fn structural_bytes(s: SpectralSnapshot, classes: u8) -> Seq<u8> {
    let density: i32 = if s.active_nodes > 1 {
        ((s.active_edges * 65536) / (s.active_nodes * (s.active_nodes - 1))) as i32
    } else {
        0
    };
    le_u32_bytes(s.active_nodes) + le_u32_bytes(s.active_edges) + seq![
        classes,
        if s.active_nodes > 0 { 1u8 } else { 0u8 },
        if s.max_degree > 255 { 255u8 } else { s.max_degree as u8 },
    ] + zeros(5) + le_u32_bytes(density as u32) + zeros(4) + le_u64_bytes(s.generation) + le_u64_bytes(s.checksum)
        + le_u32_bytes(s.dominant_eigen_q16 as u32) + zeros(4) + le_u64_bytes(s.spectral_energy)
}

fn fill_zeros(out: &mut [u8], n: usize)
    requires
        n <= old(out)@.len(),
    ensures
        final(out)@ == put_bytes(old(out)@, 0, zeros(n as nat)),
{
    let ghost start = out@;
    let mut k: usize = 0;
    while k < n
        invariant
            k <= n <= out@.len(),
            out@.len() == start.len(),
            forall|j: int| 0 <= j < k ==> #[trigger] out@[j] == 0u8,
            forall|j: int| k <= j < out@.len() ==> #[trigger] out@[j] == start[j],
        decreases n - k,
    {
        out[k] = 0;
        k += 1;
    }
    assert(out@ =~= put_bytes(start, 0, zeros(n as nat)));
}

/// Write the structural answer into the start of `out`.
pub fn encode_structural(snapshot: &SpectralSnapshot, classes: u8, out: &mut [u8]) -> (r: usize)
    requires
        old(out)@.len() >= 56,
    ensures
        r == 56,
        final(out)@ == put_bytes(old(out)@, 0, structural_bytes(*snapshot, classes)),
{
    let ghost start = out@;
    fill_zeros(out, 56);
    put_u32(out, 0, snapshot.active_nodes);
    put_u32(out, 4, snapshot.active_edges);
    out[8] = classes;
    out[9] = if snapshot.active_nodes > 0 { 1 } else { 0 };
    out[10] = if snapshot.max_degree > 255 { 255 } else { snapshot.max_degree as u8 };
    let density: i32 = if snapshot.active_nodes > 1 {
        let n = snapshot.active_nodes as u64;
        assert(n * (n - 1) > 0) by (nonlinear_arith)
            requires
                n > 1,
        ;
        assert(n * (n - 1) <= 0xffff_ffff * 0xffff_ffff) by (nonlinear_arith)
            requires
                1 < n <= 0xffff_ffff,
        ;
        ((snapshot.active_edges as u64 * 65536) / (n * (n - 1))) as i32
    } else {
        0
    };
    put_u32(out, 16, density as u32);
    put_u64(out, 24, snapshot.generation);
    put_u64(out, 32, snapshot.checksum);
    put_u32(out, 40, snapshot.dominant_eigen_q16 as u32);
    put_u64(out, 48, snapshot.spectral_energy);
    assert(out@ =~= put_bytes(start, 0, structural_bytes(*snapshot, classes)));
    56
}

/// Which way a drift metric moved: 1 up, 2 down, 0 unchanged.
pub open spec fn direction(delta: i32) -> u8 {
    if delta > 0 {
        1
    } else if delta < 0 {
        2
    } else {
        0
    }
}

/// One 24-byte drift entry.
pub open spec fn drift_entry_bytes(metric: u8, current: i32, delta: i32) -> Seq<u8> {
    zeros(8) + seq![metric, direction(delta), 0u8, 0u8] + le_u32_bytes(current as u32) + le_u32_bytes(delta as u32)
        + zeros(4)
}

/// The drift answer: three entries for mutations, nodes and edges.
pub open spec fn drift_bytes(d: DriftReport) -> Seq<u8> {
    seq![3u8, if d.journal_truncated || d.mutation_count > 64 { 1u8 } else { 0u8 }] + zeros(6) + le_u64_bytes(
        d.to_generation,
    ) + drift_entry_bytes(2, d.mutation_count as i32, d.mutation_count as i32) + drift_entry_bytes(
        3,
        d.node_delta,
        d.node_delta,
    ) + drift_entry_bytes(4, d.edge_delta, d.edge_delta) + zeros(24)
}

fn write_drift_entry(out: &mut [u8], offset: usize, metric: u8, current: i32, delta: i32)
    requires
        offset + 24 <= old(out)@.len(),
        forall|j: int| offset <= j < offset + 24 ==> #[trigger] old(out)@[j] == 0u8,
    ensures
        final(out)@ == put_bytes(old(out)@, offset as int, drift_entry_bytes(metric, current, delta)),
{
    let ghost start = out@;
    out[offset + 8] = metric;
    out[offset + 9] = if delta > 0 {
        1
    } else if delta < 0 {
        2
    } else {
        0
    };
    put_u32(out, offset + 12, current as u32);
    put_u32(out, offset + 16, delta as u32);
    assert(out@ =~= put_bytes(start, offset as int, drift_entry_bytes(metric, current, delta)));
}

/// Write the drift answer into the start of `out`.
pub fn encode_drift(drift: &DriftReport, out: &mut [u8]) -> (r: usize)
    requires
        old(out)@.len() >= 112,
    ensures
        r == 112,
        final(out)@ == put_bytes(old(out)@, 0, drift_bytes(*drift)),
{
    let ghost start = out@;
    fill_zeros(out, 112);
    out[0] = 3;
    out[1] = if drift.journal_truncated || drift.mutation_count > 64 { 1 } else { 0 };
    put_u64(out, 8, drift.to_generation);
    write_drift_entry(out, 16, 2, drift.mutation_count as i32, drift.mutation_count as i32);
    write_drift_entry(out, 40, 3, drift.node_delta, drift.node_delta);
    write_drift_entry(out, 64, 4, drift.edge_delta, drift.edge_delta);
    assert(out@ =~= put_bytes(start, 0, drift_bytes(*drift)));
    112
}

/// The statistics answer: generation, sizes, checksum.
pub open spec fn stats_bytes(s: SpectralSnapshot) -> Seq<u8> {
    le_u64_bytes(s.generation) + le_u32_bytes(s.active_nodes) + le_u32_bytes(s.active_edges) + le_u64_bytes(
        s.checksum,
    ) + zeros(8)
}

/// Write the statistics answer into the start of `out`.
pub fn encode_stats(snapshot: &SpectralSnapshot, out: &mut [u8]) -> (r: usize)
    requires
        old(out)@.len() >= 32,
    ensures
        r == 32,
        final(out)@ == put_bytes(old(out)@, 0, stats_bytes(*snapshot)),
{
    let ghost start = out@;
    fill_zeros(out, 32);
    put_u64(out, 0, snapshot.generation);
    put_u32(out, 8, snapshot.active_nodes);
    put_u32(out, 12, snapshot.active_edges);
    put_u64(out, 16, snapshot.checksum);
    assert(out@ =~= put_bytes(start, 0, stats_bytes(*snapshot)));
    32
}

// ---------------------------------------------------------------------------
// The service
// ---------------------------------------------------------------------------

pub struct GraphService {
    graph: GraphRuntime,
    subscribers: [u32; MAX_SUBSCRIBERS],
    logical_clock: u64,
    baseline_generation: u64,
    baseline_nodes: u32,
    baseline_edges: u32,
}

pub struct ServiceModel {
    pub graph: GraphModel,
    pub subscribers: Seq<u32>,
    pub logical_clock: u64,
    pub baseline_generation: u64,
    pub baseline_nodes: u32,
    pub baseline_edges: u32,
}

impl View for GraphService {
    type V = ServiceModel;

    closed spec fn view(&self) -> ServiceModel {
        ServiceModel {
            graph: self.graph@,
            subscribers: self.subscribers@,
            logical_clock: self.logical_clock,
            baseline_generation: self.baseline_generation,
            baseline_nodes: self.baseline_nodes,
            baseline_edges: self.baseline_edges,
        }
    }
}

pub open spec fn tick_spec(clock: u64) -> u64 {
    if clock == u64::MAX {
        u64::MAX
    } else {
        (clock + 1) as u64
    }
}

/// The error code a failed mutation answers with: 1 short request, 2
/// unknown operation, 3 refused by the graph.
pub open spec fn mutate_spec(m: ServiceModel, payload: Seq<u8>) -> (ServiceModel, Result<u64, u8>) {
    if payload.len() < MUTATION_REQUEST_SIZE {
        (m, Err(1))
    } else {
        let now = tick_spec(m.logical_clock);
        let ticked = ServiceModel { logical_clock: now, ..m };
        match mutation_spec(payload, now) {
            Err(code) => (ticked, Err(code)),
            Ok((mutation, provenance)) => {
                let (r, g) = spec_apply(m.graph, mutation, provenance);
                match r {
                    Ok(id) => (ServiceModel { graph: g, ..ticked }, Ok(id)),
                    Err(_) => (ServiceModel { graph: g, ..ticked }, Err(3)),
                }
            },
        }
    }
}

/// The subscriber table after `endpoint` subscribes, and whether it is subscribed.
pub open spec fn subscribe_spec(subscribers: Seq<u32>, endpoint: u32) -> (Seq<u32>, bool) {
    if endpoint == 0 {
        (subscribers, false)
    } else if subscribers.contains(endpoint) {
        (subscribers, true)
    } else {
        match first_zero(subscribers, 0) {
            Some(i) => (subscribers.update(i, endpoint), true),
            None => (subscribers, false),
        }
    }
}

/// The first free subscriber slot at or after `i`.
pub open spec fn first_zero(s: Seq<u32>, i: int) -> Option<int>
    decreases s.len() - i,
{
    if i < 0 || i >= s.len() {
        None
    } else if s[i] == 0 {
        Some(i)
    } else {
        first_zero(s, i + 1)
    }
}

/// The answer to a query request, as (bytes written from the start of the
/// answer buffer, length reported), for a request of at least 32 bytes
/// stamped `now`.
pub open spec fn query_spec(m: ServiceModel, p: Seq<u8>, now: u64, classes: u8) -> (Seq<u8>, usize) {
    let kind = p[0];
    let max_results: nat = if p[4] == 0 { 1 } else { p[4] as nat };
    let target = le_u64_at(p, 8);
    let since = le_u64_at(p, 16);
    let g = m.graph;
    let s = spec_spectral_snapshot(g);
    if kind == 6 {
        (structural_bytes(s, classes), 56)
    } else if kind == 7 {
        (drift_bytes(drift_spec(g, if since == 0 { m.baseline_generation } else { since }, m.baseline_nodes, m.baseline_edges)), 112)
    } else if kind == 10 {
        (stats_bytes(s), 32)
    } else if kind == 0 {
        match spec_node(g, target) {
            Some(node) => (result_bytes(g.generation, seq![ScoredNode { node, score: node.weight }], 1), 144),
            None => (result_bytes(g.generation, Seq::empty(), 0), 144),
        }
    } else if kind == 3 {
        let (nodes, count) = kind_upto(g, p[1] as u16, min_nat(max_results, MAX_RESULTS as nat), MAX_NODES as int);
        (result_bytes(g.generation, nodes, count), 144)
    } else if kind == 8 {
        let (nodes, count) = provenance_upto(g, target, MAX_NODES as int);
        (result_bytes(g.generation, nodes, count), 144)
    } else if kind == 9 {
        (result_bytes(g.generation, Seq::empty(), 0), 144)
    } else {
        let (nodes, count) = neighborhood_upto(g, target, now, min_nat(max_results, MAX_RESULTS as nat), MAX_EDGES as int);
        (result_bytes(g.generation, nodes, count), 144)
    }
}

/// The drift report the graph runtime gives for a baseline.
pub open spec fn drift_spec(g: GraphModel, from_generation: u64, baseline_nodes: u32, baseline_edges: u32) -> DriftReport {
    DriftReport {
        from_generation,
        to_generation: g.generation,
        mutation_count: g.journal.filter(crate::graph_runtime::after_generation(from_generation)).len() as u32,
        node_delta: (g.nodes.filter(active_node()).len() - (baseline_nodes as i32)) as i32,
        edge_delta: (g.edges.filter(active_edge()).len() - (baseline_edges as i32)) as i32,
        journal_truncated: g.journal.len() == crate::graph_runtime::MAX_JOURNAL && from_generation < (if g.journal.len()
            > 0 {
            g.journal[0].generation
        } else {
            0
        }),
    }
}

impl GraphService {
    pub closed spec fn wf(&self) -> bool {
        &&& self.graph.wf()
        &&& self.baseline_nodes <= MAX_NODES
        &&& self.baseline_edges <= MAX_EDGES
    }

    pub fn new() -> (r: Self)
        ensures
            r.wf(),
            r@.graph.nodes == Seq::new(MAX_NODES as nat, |i: int| crate::graph_runtime::empty_node_spec()),
            r@.graph.edges == Seq::new(MAX_EDGES as nat, |i: int| crate::graph_runtime::empty_edge_spec()),
            r@.graph.journal == Seq::<crate::graph_runtime::JournalEntry>::empty(),
            r@.graph.generation == 0,
            r@.graph.next_id == 1,
            r@.subscribers == Seq::new(MAX_SUBSCRIBERS as nat, |i: int| 0u32),
            r@.logical_clock == 0,
            r@.baseline_generation == 0,
            r@.baseline_nodes == 0,
            r@.baseline_edges == 0,
    {
        let r = GraphService {
            graph: GraphRuntime::new(),
            subscribers: [0; MAX_SUBSCRIBERS],
            logical_clock: 0,
            baseline_generation: 0,
            baseline_nodes: 0,
            baseline_edges: 0,
        };
        assert(r@.subscribers =~= Seq::new(MAX_SUBSCRIBERS as nat, |i: int| 0u32));
        r
    }

    /// The graph, to persist or inspect.
    pub fn graph(&self) -> (r: &GraphRuntime)
        ensures
            r@ == self@.graph,
            self.wf() ==> r.wf(),
    {
        &self.graph
    }

    /// Advance the logical clock and return the new time.
    pub fn tick(&mut self) -> (r: u64)
        requires
            old(self).wf(),
        ensures
            final(self).wf(),
            r == tick_spec(old(self)@.logical_clock),
            final(self)@ == (ServiceModel { logical_clock: r, ..old(self)@ }),
    {
        self.logical_clock = self.logical_clock.saturating_add(1);
        self.logical_clock
    }

    /// Take the state a snapshot holds: the graph, a clock at its
    /// generation, and the drift baseline at its current size; false,
    /// changing nothing, when the snapshot is not a valid one of full size.
    pub fn restore(&mut self, snapshot: &[u8]) -> (r: bool)
        requires
            old(self).wf(),
        ensures
            final(self).wf(),
            r == (snapshot@.len() == SNAPSHOT_CAP && crate::graph_runtime::snapshot_valid(snapshot@)),
            !r ==> final(self)@ == old(self)@,
            r ==> final(self)@.graph == crate::graph_runtime::decode_model(snapshot@),
            r ==> final(self)@.logical_clock == final(self)@.graph.generation,
            r ==> final(self)@.baseline_generation == spec_spectral_snapshot(final(self)@.graph).generation,
            r ==> final(self)@.baseline_nodes == spec_spectral_snapshot(final(self)@.graph).active_nodes,
            r ==> final(self)@.baseline_edges == spec_spectral_snapshot(final(self)@.graph).active_edges,
            r ==> final(self)@.subscribers == old(self)@.subscribers,
    {
        if snapshot.len() != SNAPSHOT_CAP {
            return false;
        }
        if self.graph.decode_snapshot(snapshot).is_err() {
            return false;
        }
        let spectral = self.graph.spectral_snapshot();
        proof {
            self.graph@.nodes.lemma_filter_len(active_node());
            self.graph@.edges.lemma_filter_len(active_edge());
            self.graph.lemma_wf_model();
        }
        self.logical_clock = self.graph.generation();
        self.baseline_generation = spectral.generation;
        self.baseline_nodes = spectral.active_nodes;
        self.baseline_edges = spectral.active_edges;
        true
    }

    /// Apply a mutation request, stamped with the next logical time.
    pub fn mutate(&mut self, payload: &[u8]) -> (r: Result<u64, u8>)
        requires
            old(self).wf(),
        ensures
            final(self).wf(),
            (final(self)@, r) == mutate_spec(old(self)@, payload@),
    {
        if payload.len() < MUTATION_REQUEST_SIZE {
            return Err(1);
        }
        let now = self.tick();
        let (mutation, provenance) = match decode_mutation(payload, now) {
            Ok(decoded) => decoded,
            Err(code) => return Err(code),
        };
        match self.graph.apply(mutation, provenance) {
            Ok(id) => Ok(id),
            Err(_) => Err(3),
        }
    }

    /// Add a subscriber for graph events.
    pub fn subscribe(&mut self, endpoint: u32) -> (r: bool)
        requires
            old(self).wf(),
        ensures
            final(self).wf(),
            (final(self)@.subscribers, r) == subscribe_spec(old(self)@.subscribers, endpoint),
            final(self)@ == (ServiceModel { subscribers: final(self)@.subscribers, ..old(self)@ }),
    {
        if endpoint == 0 {
            return false;
        }
        let ghost m0 = self@;
        let mut i: usize = 0;
        while i < MAX_SUBSCRIBERS
            invariant
                i <= MAX_SUBSCRIBERS,
                self@ == m0,
                self.wf(),
                endpoint != 0,
                forall|k: int| 0 <= k < i ==> self.subscribers@[k] != endpoint,
            decreases MAX_SUBSCRIBERS - i,
        {
            if self.subscribers[i] == endpoint {
                assert(self.subscribers@[i as int] == endpoint);
                assert(m0.subscribers.contains(endpoint));
                return true;
            }
            i += 1;
        }
        assert(!self.subscribers@.contains(endpoint));
        let mut j: usize = 0;
        while j < MAX_SUBSCRIBERS
            invariant
                j <= MAX_SUBSCRIBERS,
                self@ == m0,
                old(self)@ == m0,
                self.wf(),
                endpoint != 0,
                !m0.subscribers.contains(endpoint),
                first_zero(self.subscribers@, 0) == first_zero(self.subscribers@, j as int),
            decreases MAX_SUBSCRIBERS - j,
        {
            if self.subscribers[j] == 0 {
                assert(first_zero(m0.subscribers, j as int) == Some(j as int));
                self.subscribers[j] = endpoint;
                assert(self@.subscribers == m0.subscribers.update(j as int, endpoint));
                assert(self@ == (ServiceModel { subscribers: self@.subscribers, ..m0 }));
                return true;
            }
            j += 1;
        }
        false
    }

    /// The subscribers to tell about an applied mutation.
    pub fn subscribers(&self) -> (r: Vec<u32>)
        ensures
            r@ == self@.subscribers.filter(|e: u32| e != 0),
    {
        let mut out: Vec<u32> = Vec::new();
        let mut i: usize = 0;
        while i < MAX_SUBSCRIBERS
            invariant
                i <= MAX_SUBSCRIBERS,
                out@ == self@.subscribers.subrange(0, i as int).filter(|e: u32| e != 0),
            decreases MAX_SUBSCRIBERS - i,
        {
            let e = self.subscribers[i];
            proof {
                let p = |e: u32| e != 0;
                assert(self@.subscribers.subrange(0, i + 1) == self@.subscribers.subrange(0, i as int).push(e));
                self@.subscribers.subrange(0, i as int).lemma_filter_push(e, p);
            }
            if e != 0 {
                out.push(e);
            }
            i += 1;
        }
        assert(self@.subscribers.subrange(0, MAX_SUBSCRIBERS as int) == self@.subscribers);
        out
    }

    /// Answer a query request into `out`, returning the answer's length.
    pub fn query(&mut self, payload: &[u8], out: &mut [u8; 160]) -> (r: usize)
        requires
            old(self).wf(),
        ensures
            final(self).wf(),
            payload@.len() < QUERY_REQUEST_SIZE ==> r == 16 && final(self)@ == old(self)@ && final(out)@ == old(
                out,
            )@.update(0, 1u8),
            payload@.len() >= QUERY_REQUEST_SIZE ==> ({
                let now = tick_spec(old(self)@.logical_clock);
                let classes = kind_classes_upto(old(self)@.graph.nodes.filter(active_node()), 64) as u8;
                let (bytes, len) = query_spec(old(self)@, payload@, now, classes);
                &&& final(self)@ == (ServiceModel { logical_clock: now, ..old(self)@ })
                &&& r == len
                &&& final(out)@ == put_bytes(old(out)@, 0, bytes)
            }),
    {
        if payload.len() < QUERY_REQUEST_SIZE {
            out[0] = 1;
            return 16;
        }
        let kind = payload[0];
        let max_results: usize = if payload[4] == 0 { 1 } else { payload[4] as usize };
        let target = get_u64(payload, 8);
        let since = get_u64(payload, 16);
        let now = self.tick();
        let generation = self.graph.generation();
        if kind == 6 {
            let nodes = self.graph.nodes();
            let classes = kind_class_count(&nodes);
            let snapshot = self.graph.spectral_snapshot();
            return encode_structural(&snapshot, classes, out);
        }
        if kind == 7 {
            let from = if since == 0 { self.baseline_generation } else { since };
            proof {
                self.graph@.nodes.lemma_filter_len(active_node());
                self.graph@.edges.lemma_filter_len(active_edge());
                self.graph.lemma_wf_model();
            }
            let drift = self.graph.drift_report(from, self.baseline_nodes, self.baseline_edges);
            return encode_drift(&drift, out);
        }
        if kind == 10 {
            let snapshot = self.graph.spectral_snapshot();
            return encode_stats(&snapshot, out);
        }
        let result = if kind == 0 {
            let mut result = QueryResult { generation, count: 0, nodes: [empty_scored_node(); MAX_RESULTS] };
            if let Some(node) = self.graph.node(target) {
                result.nodes[0] = ScoredNode { node, score: node.weight };
                result.count = 1;
            }
            result
        } else if kind == 3 {
            self.graph.nodes_by_kind(payload[1] as u16, max_results)
        } else if kind == 8 {
            self.graph.provenance(target)
        } else if kind == 9 {
            QueryResult { generation, count: 0, nodes: [empty_scored_node(); MAX_RESULTS] }
        } else {
            self.graph.scored_neighborhood(target, now, max_results)
        };
        encode_query_result(&result, out)
    }
}

} // verus!
