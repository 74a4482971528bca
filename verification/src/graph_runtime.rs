//! Bounded, journaled, typed temporal graph used by the ring-3 graph service.
//!
//! The runtime holds a fixed number of node and edge slots, a ring journal of
//! the most recent mutations, a saturating generation counter and an identifier
//! allocator.  Its abstract state is [`GraphModel`]; every operation is
//! specified over that model.

use vstd::prelude::*;
use crate::bytes::{le_u16_bytes, le_u32_bytes, le_u64_bytes, le_u16_at, le_u32_at, le_u64_at, put_bytes, put_u16, put_u32, put_u64, get_u16, get_u32, get_u64, lemma_le_u16_roundtrip, lemma_le_u32_roundtrip, lemma_le_u64_roundtrip, lemma_i32_bits_roundtrip, lemma_le_u16_at_eq, lemma_le_u32_at_eq, lemma_le_u64_at_eq};
use crate::search::{first_index, is_first, lemma_first_found, lemma_first_none, lemma_first_none_all, lemma_filter_step, lemma_filter_prefix};

verus! {

pub const MAX_NODES: usize = 128;
pub const MAX_EDGES: usize = 256;
pub const MAX_JOURNAL: usize = 256;
pub const MAX_RESULTS: usize = 8;
pub const SNAPSHOT_VERSION: u32 = 2;
pub const NODE_RECORD: usize = 56;
pub const EDGE_RECORD: usize = 56;
pub const JOURNAL_RECORD: usize = 40;
pub const NODES_OFFSET: usize = 32;
pub const EDGES_OFFSET: usize = 7200;
pub const JOURNAL_OFFSET: usize = 21536;
pub const SNAPSHOT_CAP: usize = 31776;

#[derive(Clone, Copy, Debug, PartialEq, Eq, Structural)]
pub struct Node {
    pub id: u64,
    pub kind: u16,
    pub flags: u16,
    pub weight: i32,
    pub created_at: u64,
    pub updated_at: u64,
    pub provenance: u64,
    pub parent: u64,
    pub active: bool,
}

pub open spec fn empty_node_spec() -> Node {
    Node {
        id: 0,
        kind: 0,
        flags: 0,
        weight: 0,
        created_at: 0,
        updated_at: 0,
        provenance: 0,
        parent: 0,
        active: false,
    }
}

/// The unoccupied node slot.
#[verifier::when_used_as_spec(empty_node_spec)]
pub fn empty_node() -> (r: Node)
    ensures
        r == empty_node_spec(),
{
    Node {
        id: 0,
        kind: 0,
        flags: 0,
        weight: 0,
        created_at: 0,
        updated_at: 0,
        provenance: 0,
        parent: 0,
        active: false,
    }
}

#[derive(Clone, Copy, Debug, PartialEq, Eq, Structural)]
pub struct Edge {
    pub id: u64,
    pub from: u64,
    pub to: u64,
    pub kind: u16,
    pub flags: u16,
    pub weight: i32,
    pub created_at: u64,
    pub provenance: u64,
    pub active: bool,
}

pub open spec fn empty_edge_spec() -> Edge {
    Edge {
        id: 0,
        from: 0,
        to: 0,
        kind: 0,
        flags: 0,
        weight: 0,
        created_at: 0,
        provenance: 0,
        active: false,
    }
}

/// The unoccupied edge slot.
#[verifier::when_used_as_spec(empty_edge_spec)]
pub fn empty_edge() -> (r: Edge)
    ensures
        r == empty_edge_spec(),
{
    Edge {
        id: 0,
        from: 0,
        to: 0,
        kind: 0,
        flags: 0,
        weight: 0,
        created_at: 0,
        provenance: 0,
        active: false,
    }
}

#[derive(Clone, Copy, Debug, PartialEq, Eq, Structural)]
pub enum Mutation {
    AddNode { kind: u16, flags: u16, weight: i32, parent: u64, now: u64 },
    AddEdge { kind: u16, flags: u16, weight: i32, from: u64, to: u64, now: u64 },
    UpdateNode { id: u64, flags: u16, weight: i32, now: u64 },
    UpdateEdge { id: u64, weight: i32, now: u64 },
    DeactivateNode { id: u64, now: u64 },
    DeactivateEdge { id: u64, now: u64 },
}

#[derive(Clone, Copy, Debug, PartialEq, Eq, Structural)]
pub enum GraphError {
    Capacity,
    MissingNode,
    MissingEdge,
    InvalidEdge,
    InvalidSnapshot,
}

#[derive(Clone, Copy, Debug, PartialEq, Eq, Structural)]
pub struct JournalEntry {
    pub generation: u64,
    pub timestamp: u64,
    pub mutation_kind: u8,
    pub object_id: u64,
    pub provenance: u64,
}

pub open spec fn empty_journal_spec() -> JournalEntry {
    JournalEntry { generation: 0, timestamp: 0, mutation_kind: 0, object_id: 0, provenance: 0 }
}

#[verifier::when_used_as_spec(empty_journal_spec)]
fn empty_journal() -> (r: JournalEntry)
    ensures
        r == empty_journal_spec(),
{
    JournalEntry { generation: 0, timestamp: 0, mutation_kind: 0, object_id: 0, provenance: 0 }
}

#[derive(Clone, Copy, Debug, PartialEq, Eq, Structural)]
pub struct ScoredNode {
    pub node: Node,
    pub score: i32,
}

pub open spec fn empty_scored_node_spec() -> ScoredNode {
    ScoredNode { node: empty_node_spec(), score: i32::MIN }
}

/// The filler of unused result positions: an empty node scored `i32::MIN`.
#[verifier::when_used_as_spec(empty_scored_node_spec)]
pub fn empty_scored_node() -> (r: ScoredNode)
    ensures
        r == empty_scored_node_spec(),
{
    ScoredNode { node: empty_node(), score: i32::MIN }
}

#[derive(Clone, Copy, Debug, PartialEq, Eq)]
pub struct QueryResult {
    pub generation: u64,
    pub count: usize,
    pub nodes: [ScoredNode; MAX_RESULTS],
}

#[derive(Clone, Copy, Debug, PartialEq, Eq, Structural)]
pub struct SpectralSnapshot {
    pub generation: u64,
    pub active_nodes: u32,
    pub active_edges: u32,
    pub laplacian_trace: u64,
    pub max_degree: u32,
    /// Dominant graph-Laplacian eigenvalue in signed Q16 fixed point.
    pub dominant_eigen_q16: i32,
    /// Squared residual energy from the final bounded power iteration.
    pub spectral_energy: u64,
    pub checksum: u64,
}

#[derive(Clone, Copy, Debug, PartialEq, Eq, Structural)]
pub struct DriftReport {
    pub from_generation: u64,
    pub to_generation: u64,
    pub mutation_count: u32,
    pub node_delta: i32,
    pub edge_delta: i32,
    pub journal_truncated: bool,
}

/// Abstract state of a [`GraphRuntime`]: the node and edge slots, the journal
/// entries from oldest to newest, the generation and the next identifier.
#[verifier::ext_equal]
pub struct GraphModel {
    pub nodes: Seq<Node>,
    pub edges: Seq<Edge>,
    pub journal: Seq<JournalEntry>,
    pub generation: u64,
    pub next_id: u64,
}

impl GraphModel {
    pub open spec fn wf(self) -> bool {
        &&& self.nodes.len() == MAX_NODES
        &&& self.edges.len() == MAX_EDGES
        &&& self.journal.len() <= MAX_JOURNAL
        &&& self.next_id >= 1
    }
}

// ---------------------------------------------------------------------------
// Predicates and the mutation semantics
// ---------------------------------------------------------------------------

pub open spec fn live_node(id: u64) -> spec_fn(Node) -> bool {
    |n: Node| n.active && n.id == id
}

pub open spec fn live_edge(id: u64) -> spec_fn(Edge) -> bool {
    |e: Edge| e.active && e.id == id
}

pub open spec fn active_node() -> spec_fn(Node) -> bool {
    |n: Node| n.active
}

pub open spec fn active_edge() -> spec_fn(Edge) -> bool {
    |e: Edge| e.active
}

pub open spec fn free_node() -> spec_fn(Node) -> bool {
    |n: Node| !n.active
}

pub open spec fn free_edge() -> spec_fn(Edge) -> bool {
    |e: Edge| !e.active
}

pub open spec fn duplicate_node(provenance: u64, kind: u16) -> spec_fn(Node) -> bool {
    |n: Node| n.active && n.provenance == provenance && n.kind == kind
}

pub open spec fn duplicate_edge(provenance: u64, kind: u16, from: u64, to: u64) -> spec_fn(
    Edge,
) -> bool {
    |e: Edge| e.active && e.provenance == provenance && e.kind == kind && e.from == from && e.to == to
}

pub open spec fn sat_inc(x: u64) -> u64 {
    if x == u64::MAX {
        x
    } else {
        (x + 1) as u64
    }
}

/// The first active node with identifier `id`.
pub open spec fn spec_node(m: GraphModel, id: u64) -> Option<Node> {
    match first_index(m.nodes, live_node(id)) {
        Some(i) => Some(m.nodes[i]),
        None => None,
    }
}

/// The first active edge with identifier `id`.
pub open spec fn spec_edge(m: GraphModel, id: u64) -> Option<Edge> {
    match first_index(m.edges, live_edge(id)) {
        Some(i) => Some(m.edges[i]),
        None => None,
    }
}

/// Append to the bounded journal: once full, the oldest entry is dropped.
pub open spec fn journal_append(j: Seq<JournalEntry>, e: JournalEntry) -> Seq<JournalEntry> {
    if j.len() < MAX_JOURNAL {
        j.push(e)
    } else {
        j.drop_first().push(e)
    }
}

/// A successful mutation bumps the generation and journals itself.
pub open spec fn commit(m: GraphModel, kind: u8, object_id: u64, timestamp: u64, provenance: u64) -> GraphModel {
    let g = sat_inc(m.generation);
    GraphModel {
        generation: g,
        journal: journal_append(
            m.journal,
            JournalEntry { generation: g, timestamp, mutation_kind: kind, object_id, provenance },
        ),
        ..m
    }
}

pub open spec fn detach_edge(id: u64) -> spec_fn(Edge) -> Edge {
    |e: Edge|
        if e.active && (e.from == id || e.to == id) {
            Edge { active: false, ..e }
        } else {
            e
        }
}

/// What [`GraphRuntime::apply`] returns and leaves behind.
pub open spec fn spec_apply(m: GraphModel, mutation: Mutation, provenance: u64) -> (
    Result<u64, GraphError>,
    GraphModel,
) {
    match mutation {
        Mutation::AddNode { kind, flags, weight, parent, now } => {
            if parent != 0 && first_index(m.nodes, live_node(parent)) is None {
                (Err(GraphError::MissingNode), m)
            } else if provenance != 0 && first_index(m.nodes, duplicate_node(provenance, kind)) is Some {
                (Ok(m.nodes[first_index(m.nodes, duplicate_node(provenance, kind)).unwrap()].id), m)
            } else {
                let id = m.next_id;
                let m1 = GraphModel { next_id: sat_inc(m.next_id), ..m };
                match first_index(m.nodes, free_node()) {
                    None => (Err(GraphError::Capacity), m1),
                    Some(s) => {
                        let node = Node {
                            id,
                            kind,
                            flags,
                            weight,
                            created_at: now,
                            updated_at: now,
                            provenance,
                            parent,
                            active: true,
                        };
                        (Ok(id), commit(GraphModel { nodes: m.nodes.update(s, node), ..m1 }, 0, id, now, provenance))
                    },
                }
            }
        },
        Mutation::AddEdge { kind, flags, weight, from, to, now } => {
            if first_index(m.nodes, live_node(from)) is None || first_index(m.nodes, live_node(to)) is None {
                (Err(GraphError::InvalidEdge), m)
            } else if provenance != 0 && first_index(m.edges, duplicate_edge(provenance, kind, from, to)) is Some {
                (Ok(m.edges[first_index(m.edges, duplicate_edge(provenance, kind, from, to)).unwrap()].id), m)
            } else {
                let id = m.next_id;
                let m1 = GraphModel { next_id: sat_inc(m.next_id), ..m };
                match first_index(m.edges, free_edge()) {
                    None => (Err(GraphError::Capacity), m1),
                    Some(s) => {
                        let edge = Edge {
                            id,
                            from,
                            to,
                            kind,
                            flags,
                            weight,
                            created_at: now,
                            provenance,
                            active: true,
                        };
                        (Ok(id), commit(GraphModel { edges: m.edges.update(s, edge), ..m1 }, 1, id, now, provenance))
                    },
                }
            }
        },
        Mutation::UpdateNode { id, flags, weight, now } => {
            match first_index(m.nodes, live_node(id)) {
                None => (Err(GraphError::MissingNode), m),
                Some(i) => {
                    let node = Node { flags, weight, updated_at: now, ..m.nodes[i] };
                    (Ok(id), commit(GraphModel { nodes: m.nodes.update(i, node), ..m }, 2, id, now, provenance))
                },
            }
        },
        Mutation::UpdateEdge { id, weight, now } => {
            match first_index(m.edges, live_edge(id)) {
                None => (Err(GraphError::MissingEdge), m),
                Some(i) => {
                    let edge = Edge { weight, ..m.edges[i] };
                    (Ok(id), commit(GraphModel { edges: m.edges.update(i, edge), ..m }, 3, id, now, provenance))
                },
            }
        },
        Mutation::DeactivateNode { id, now } => {
            match first_index(m.nodes, live_node(id)) {
                None => (Err(GraphError::MissingNode), m),
                Some(i) => {
                    let node = Node { active: false, updated_at: now, ..m.nodes[i] };
                    let m1 = GraphModel {
                        nodes: m.nodes.update(i, node),
                        edges: m.edges.map_values(detach_edge(id)),
                        ..m
                    };
                    (Ok(id), commit(m1, 4, id, now, provenance))
                },
            }
        },
        Mutation::DeactivateEdge { id, now } => {
            match first_index(m.edges, live_edge(id)) {
                None => (Err(GraphError::MissingEdge), m),
                Some(i) => {
                    let edge = Edge { active: false, ..m.edges[i] };
                    (Ok(id), commit(GraphModel { edges: m.edges.update(i, edge), ..m }, 5, id, now, provenance))
                },
            }
        },
    }
}


// ---------------------------------------------------------------------------
// Ranked queries
// ---------------------------------------------------------------------------

pub open spec fn beats(score: i32) -> spec_fn(ScoredNode) -> bool {
    |s: ScoredNode| score > s.score
}

pub open spec fn min_nat(a: nat, b: nat) -> nat {
    if a <= b {
        a
    } else {
        b
    }
}

/// Insert `cand` into the ranked prefix `nodes[..count]`, keeping at most
/// `limit` entries: it goes before the first entry it strictly outscores,
/// later entries shift down and the last one falls off when full.
pub open spec fn insert_ranked_spec(nodes: Seq<ScoredNode>, count: nat, cand: ScoredNode, limit: nat) -> (
    Seq<ScoredNode>,
    nat,
) {
    if limit == 0 {
        (nodes, count)
    } else {
        let bound = min_nat(count, limit);
        let pos = match first_index(nodes.subrange(0, bound as int), beats(cand.score)) {
            Some(i) => i,
            None => bound as int,
        };
        if pos >= limit {
            (nodes, count)
        } else {
            let upper = min_nat(count, (limit - 1) as nat);
            (
                Seq::new(
                    nodes.len(),
                    |j: int|
                        if j == pos {
                            cand
                        } else if pos < j <= upper {
                            nodes[j - 1]
                        } else {
                            nodes[j]
                        },
                ),
                min_nat(count + 1, limit),
            )
        }
    }
}

/// Scores never increase along the first `count` entries.
pub open spec fn is_ranked(nodes: Seq<ScoredNode>, count: nat) -> bool {
    forall|i: int, j: int| 0 <= i < j < count ==> nodes[i].score >= nodes[j].score
}

pub open spec fn empty_results() -> Seq<ScoredNode> {
    Seq::new(MAX_RESULTS as nat, |i: int| empty_scored_node_spec())
}

pub open spec fn clamp_i32(x: int) -> i32 {
    if x > i32::MAX {
        i32::MAX
    } else if x < i32::MIN {
        i32::MIN
    } else {
        x as i32
    }
}

/// Neighbour score: node weight plus edge weight plus a recency bonus that
/// falls linearly from 65536 to 1 over a day, clamped to `i32`.
pub open spec fn neighbor_score(node: Node, edge: Edge, now: u64) -> i32 {
    let elapsed = if now >= node.updated_at { now - node.updated_at } else { 0 };
    let age = if elapsed > 86_400 { 86_400 } else { elapsed };
    let recency = 65_536 - (age * 65_536) / 86_401;
    clamp_i32(node.weight + edge.weight + recency)
}

pub open spec fn touches(target: u64) -> spec_fn(Edge) -> bool {
    |e: Edge| e.active && (e.from == target || e.to == target)
}

pub open spec fn neighborhood_upto(m: GraphModel, target: u64, now: u64, limit: nat, k: int) -> (
    Seq<ScoredNode>,
    nat,
)
    decreases k,
{
    if k <= 0 {
        (empty_results(), 0)
    } else {
        let acc = neighborhood_upto(m, target, now, limit, k - 1);
        let e = m.edges[k - 1];
        if touches(target)(e) {
            let peer = if e.from == target {
                e.to
            } else {
                e.from
            };
            match spec_node(m, peer) {
                None => acc,
                Some(node) => insert_ranked_spec(
                    acc.0,
                    acc.1,
                    ScoredNode { node, score: neighbor_score(node, e, now) },
                    limit,
                ),
            }
        } else {
            acc
        }
    }
}

pub open spec fn of_kind(kind: u16) -> spec_fn(Node) -> bool {
    |n: Node| n.active && n.kind == kind
}

pub open spec fn kind_upto(m: GraphModel, kind: u16, limit: nat, k: int) -> (Seq<ScoredNode>, nat)
    decreases k,
{
    if k <= 0 {
        (empty_results(), 0)
    } else {
        let acc = kind_upto(m, kind, limit, k - 1);
        let n = m.nodes[k - 1];
        if of_kind(kind)(n) {
            insert_ranked_spec(acc.0, acc.1, ScoredNode { node: n, score: n.weight }, limit)
        } else {
            acc
        }
    }
}

/// How many of the first `k` node slots hold an active node of `kind`.
pub open spec fn kind_count(nodes: Seq<Node>, kind: u16, k: int) -> nat
    decreases k,
{
    if k <= 0 {
        0
    } else {
        kind_count(nodes, kind, k - 1) + if of_kind(kind)(nodes[k - 1]) { 1nat } else { 0nat }
    }
}

/// Inserting into a ranked list of `count <= limit` entries leaves
/// `min(count + 1, limit)` entries.
proof fn lemma_insert_ranked_count(nodes: Seq<ScoredNode>, count: nat, cand: ScoredNode, limit: nat)
    requires
        nodes.len() == MAX_RESULTS,
        count <= limit <= MAX_RESULTS,
    ensures
        insert_ranked_spec(nodes, count, cand, limit).1 == min_nat(count + 1, limit),
{
    if limit > 0 {
        let bound = min_nat(count, limit);
        let pre = nodes.subrange(0, bound as int);
        match first_index(pre, beats(cand.score)) {
            Some(i) => {
                assert(is_first(pre, beats(cand.score), i));
            },
            None => {},
        }
    }
}

/// Insertion only ever lists the candidate or entries already listed.
proof fn lemma_insert_ranked_keeps(
    nodes: Seq<ScoredNode>,
    count: nat,
    cand: ScoredNode,
    limit: nat,
    p: spec_fn(ScoredNode) -> bool,
)
    requires
        nodes.len() == MAX_RESULTS,
        count <= limit <= MAX_RESULTS,
        p(cand),
        forall|w: int| 0 <= w < count ==> #[trigger] p(nodes[w]),
    ensures
        forall|w: int|
            0 <= w < insert_ranked_spec(nodes, count, cand, limit).1 ==> #[trigger] p(
                insert_ranked_spec(nodes, count, cand, limit).0[w],
            ),
{
    if limit > 0 {
        let bound = min_nat(count, limit);
        let pre = nodes.subrange(0, bound as int);
        match first_index(pre, beats(cand.score)) {
            Some(i) => {
                assert(is_first(pre, beats(cand.score), i));
            },
            None => {},
        }
        let r = insert_ranked_spec(nodes, count, cand, limit);
        assert forall|w: int| 0 <= w < r.1 implies #[trigger] p(r.0[w]) by {
            let pos = match first_index(pre, beats(cand.score)) {
                Some(i) => i,
                None => bound as int,
            };
            let upper = min_nat(count, (limit - 1) as nat);
            if pos < limit && w != pos && pos < w && w <= upper {
                assert(p(nodes[w - 1]));
            }
        }
    }
}

/// `x` is among the first `count` entries, or the list is full and `x`
/// scores no higher than its last entry.
pub open spec fn covered(nodes: Seq<ScoredNode>, count: nat, limit: nat, x: ScoredNode) -> bool {
    (exists|w: int| 0 <= w < count && #[trigger] nodes[w] == x) || (count == limit && (limit == 0 || x.score
        <= nodes[count - 1].score))
}

proof fn lemma_insert_ranked_covers(nodes: Seq<ScoredNode>, count: nat, cand: ScoredNode, limit: nat, x: ScoredNode)
    requires
        nodes.len() == MAX_RESULTS,
        count <= limit <= MAX_RESULTS,
        is_ranked(nodes, count),
    ensures
        covered(insert_ranked_spec(nodes, count, cand, limit).0, insert_ranked_spec(nodes, count, cand, limit).1, limit, cand),
        covered(nodes, count, limit, x) ==> covered(
            insert_ranked_spec(nodes, count, cand, limit).0,
            insert_ranked_spec(nodes, count, cand, limit).1,
            limit,
            x,
        ),
{
    if limit > 0 {
        let bound = min_nat(count, limit);
        let pre = nodes.subrange(0, bound as int);
        let found = first_index(pre, beats(cand.score));
        match found {
            Some(i) => {
                assert(is_first(pre, beats(cand.score), i));
            },
            None => {
                lemma_first_none_all(pre, beats(cand.score));
            },
        }
        let pos = match found {
            Some(i) => i,
            None => bound as int,
        };
        let r = insert_ranked_spec(nodes, count, cand, limit);
        if pos >= limit {
            assert(pre[limit - 1] == nodes[limit - 1]);
            assert(!beats(cand.score)(pre[limit - 1]));
        } else {
            let upper = min_nat(count, (limit - 1) as nat);
            assert(r.0[pos] == cand);
            assert(r.0[pos] == cand && 0 <= pos < r.1);
            if count == limit {
                assert(r.1 == limit);
                if pos == limit - 1 {
                    assert(pre[pos] == nodes[pos]);
                    assert(r.0[limit - 1].score >= nodes[limit - 1].score);
                } else {
                    assert(r.0[limit - 1] == nodes[limit - 2]);
                    assert(r.0[limit - 1].score >= nodes[limit - 1].score);
                }
            }
            if covered(nodes, count, limit, x) {
                if exists|w: int| 0 <= w < count && #[trigger] nodes[w] == x {
                    let w = choose|w: int| 0 <= w < count && #[trigger] nodes[w] == x;
                    if w < pos {
                        assert(r.0[w] == x);
                    } else if w + 1 <= upper {
                        assert(r.0[w + 1] == x);
                    } else {
                        assert(w == limit - 1 && count == limit);
                    }
                }
            }
        }
    }
}

/// A kind query misses no heavier node: every active node of that kind in
/// the first `k` slots is listed, or the list is full and the node weighs no
/// more than the last listed score.
pub proof fn lemma_kind_query_complete(m: GraphModel, kind: u16, limit: nat, k: int)
    requires
        0 <= k <= m.nodes.len(),
        limit <= MAX_RESULTS,
    ensures
        forall|j: int|
            0 <= j < k && of_kind(kind)(#[trigger] m.nodes[j]) ==> covered(
                kind_upto(m, kind, limit, k).0,
                kind_upto(m, kind, limit, k).1,
                limit,
                ScoredNode { node: m.nodes[j], score: m.nodes[j].weight },
            ),
    decreases k,
{
    if k > 0 {
        lemma_kind_query_complete(m, kind, limit, k - 1);
        lemma_kind_query_count(m, kind, limit, k - 1);
        let acc = kind_upto(m, kind, limit, k - 1);
        let n = m.nodes[k - 1];
        if of_kind(kind)(n) {
            let cand = ScoredNode { node: n, score: n.weight };
            assert forall|j: int| 0 <= j < k && of_kind(kind)(#[trigger] m.nodes[j]) implies covered(
                kind_upto(m, kind, limit, k).0,
                kind_upto(m, kind, limit, k).1,
                limit,
                ScoredNode { node: m.nodes[j], score: m.nodes[j].weight },
            ) by {
                lemma_insert_ranked_covers(acc.0, acc.1, cand, limit, ScoredNode { node: m.nodes[j], score: m.nodes[j].weight });
            }
        }
    }
}

/// Every entry a kind query lists is an active node of that kind from one of
/// the first `k` slots, scored by its weight.
pub proof fn lemma_kind_query_sound(m: GraphModel, kind: u16, limit: nat, k: int)
    requires
        0 <= k <= m.nodes.len(),
        limit <= MAX_RESULTS,
    ensures
        forall|w: int|
            0 <= w < kind_upto(m, kind, limit, k).1 ==> {
                let e = #[trigger] kind_upto(m, kind, limit, k).0[w];
                &&& of_kind(kind)(e.node)
                &&& e.score == e.node.weight
                &&& exists|j: int| 0 <= j < k && m.nodes[j] == e.node
            },
    decreases k,
{
    lemma_kind_query_count(m, kind, limit, k);
    if k > 0 {
        lemma_kind_query_sound(m, kind, limit, k - 1);
        lemma_kind_query_count(m, kind, limit, k - 1);
        let acc = kind_upto(m, kind, limit, k - 1);
        let n = m.nodes[k - 1];
        let p = |e: ScoredNode| of_kind(kind)(e.node) && e.score == e.node.weight && exists|j: int|
            0 <= j < k && m.nodes[j] == e.node;
        assert forall|w: int| 0 <= w < acc.1 implies #[trigger] p(acc.0[w]) by {
            let e = acc.0[w];
            let j = choose|j: int| 0 <= j < k - 1 && m.nodes[j] == e.node;
            assert(0 <= j < k && m.nodes[j] == e.node);
        }
        if of_kind(kind)(n) {
            let cand = ScoredNode { node: n, score: n.weight };
            assert(m.nodes[k - 1] == cand.node);
            assert(p(cand));
            lemma_insert_ranked_keeps(acc.0, acc.1, cand, limit, p);
        }
        let r = kind_upto(m, kind, limit, k);
        assert forall|w: int| 0 <= w < r.1 implies p(#[trigger] r.0[w]) by {}
    }
}

/// A kind query over the first `k` slots lists `min(limit, n)` nodes, where
/// `n` is the number of active nodes of that kind among them, in ranked order.
pub proof fn lemma_kind_query_count(m: GraphModel, kind: u16, limit: nat, k: int)
    requires
        0 <= k <= m.nodes.len(),
        limit <= MAX_RESULTS,
    ensures
        kind_upto(m, kind, limit, k).1 == min_nat(limit, kind_count(m.nodes, kind, k)),
        kind_upto(m, kind, limit, k).0.len() == MAX_RESULTS,
        is_ranked(kind_upto(m, kind, limit, k).0, kind_upto(m, kind, limit, k).1),
    decreases k,
{
    if k > 0 {
        lemma_kind_query_count(m, kind, limit, k - 1);
        let acc = kind_upto(m, kind, limit, k - 1);
        let n = m.nodes[k - 1];
        if of_kind(kind)(n) {
            let cand = ScoredNode { node: n, score: n.weight };
            lemma_insert_ranked(acc.0, acc.1, cand, limit);
            lemma_insert_ranked_count(acc.0, acc.1, cand, limit);
        }
    } else {
        assert(empty_results().len() == MAX_RESULTS);
    }
}

pub open spec fn from_provenance(provenance: u64) -> spec_fn(Node) -> bool {
    |n: Node| n.active && (n.provenance == provenance || n.id == provenance)
}

pub open spec fn provenance_upto(m: GraphModel, provenance: u64, k: int) -> (Seq<ScoredNode>, nat)
    decreases k,
{
    if k <= 0 {
        (empty_results(), 0)
    } else {
        let acc = provenance_upto(m, provenance, k - 1);
        let n = m.nodes[k - 1];
        if from_provenance(provenance)(n) {
            insert_ranked_spec(acc.0, acc.1, ScoredNode { node: n, score: n.weight }, MAX_RESULTS as nat)
        } else {
            acc
        }
    }
}

pub proof fn lemma_insert_ranked(nodes: Seq<ScoredNode>, count: nat, cand: ScoredNode, limit: nat)
    requires
        nodes.len() == MAX_RESULTS,
        count <= limit <= MAX_RESULTS,
        is_ranked(nodes, count),
    ensures
        insert_ranked_spec(nodes, count, cand, limit).0.len() == MAX_RESULTS,
        insert_ranked_spec(nodes, count, cand, limit).1 <= limit,
        is_ranked(insert_ranked_spec(nodes, count, cand, limit).0, insert_ranked_spec(nodes, count, cand, limit).1),
{
    if limit > 0 {
        let bound = min_nat(count, limit);
        let pre = nodes.subrange(0, bound as int);
        let pos = match first_index(pre, beats(cand.score)) {
            Some(i) => i,
            None => bound as int,
        };
        if pos < limit {
            let r = insert_ranked_spec(nodes, count, cand, limit);
            let upper = min_nat(count, (limit - 1) as nat);
            match first_index(pre, beats(cand.score)) {
                Some(i) => {
                    assert(is_first(pre, beats(cand.score), i));
                },
                None => {
                    if exists|j: int| 0 <= j < bound && beats(cand.score)(#[trigger] pre[j]) {
                        crate::search::lemma_first_exists(pre, beats(cand.score));
                    }
                },
            }
            assert forall|j: int| 0 <= j < pos implies !(cand.score > #[trigger] nodes[j].score) by {
                assert(pre[j] == nodes[j]);
            }
            assert forall|i: int, j: int| 0 <= i < j < r.1 implies r.0[i].score >= r.0[j].score by {
                if i == pos {
                    if pos < bound {
                        assert(cand.score > nodes[pos].score) by { assert(pre[pos] == nodes[pos]); }
                    }
                } else if j == pos {
                } else {
                }
            }
        }
    }
}


fn first_beaten(nodes: &[ScoredNode; MAX_RESULTS], bound: usize, score: i32) -> (r: usize)
    requires
        bound <= MAX_RESULTS,
    ensures
        r == match first_index(nodes@.subrange(0, bound as int), beats(score)) {
            Some(i) => i,
            None => bound as int,
        },
{
    let ghost pre = nodes@.subrange(0, bound as int);
    let mut index: usize = 0;
    while index < bound
        invariant
            index <= bound <= MAX_RESULTS,
            pre == nodes@.subrange(0, bound as int),
            forall|j: int| 0 <= j < index ==> !(#[trigger] beats(score)(pre[j])),
        decreases bound - index,
    {
        if score > nodes[index].score {
            proof { lemma_first_found(pre, beats(score), index as int); }
            return index;
        }
        index += 1;
    }
    proof { lemma_first_none(pre, beats(score)); }
    bound
}

fn insert_ranked(result: &mut QueryResult, candidate: ScoredNode, limit: usize)
    requires
        old(result).count <= limit <= MAX_RESULTS,
    ensures
        final(result).generation == old(result).generation,
        final(result).nodes@ == insert_ranked_spec(old(result).nodes@, old(result).count as nat, candidate, limit as nat).0,
        final(result).count as nat == insert_ranked_spec(old(result).nodes@, old(result).count as nat, candidate, limit as nat).1,
{
    if limit == 0 {
        return;
    }
    let bound = if result.count < limit {
        result.count
    } else {
        limit
    };
    let pos = first_beaten(&result.nodes, bound, candidate.score);
    if pos >= limit {
        return;
    }
    let upper = if result.count < limit - 1 {
        result.count
    } else {
        limit - 1
    };
    let ghost before = result.nodes@;
    let mut index = upper;
    while index > pos
        invariant
            pos <= index <= upper < MAX_RESULTS,
            result.count == old(result).count,
            result.generation == old(result).generation,
            before == old(result).nodes@,
            forall|j: int| index < j <= upper ==> result.nodes@[j] == before[j - 1],
            forall|j: int| 0 <= j < MAX_RESULTS && (j <= index || j > upper) ==> result.nodes@[j] == before[j],
        decreases index - pos,
    {
        result.nodes[index] = result.nodes[index - 1];
        index -= 1;
    }
    result.nodes[pos] = candidate;
    result.count = if result.count + 1 < limit {
        result.count + 1
    } else {
        limit
    };
    assert(result.nodes@ =~= insert_ranked_spec(before, old(result).count as nat, candidate, limit as nat).0);
}

fn neighbor_score_exec(node: Node, edge: Edge, now: u64) -> (r: i32)
    ensures
        r == neighbor_score(node, edge, now),
{
    let elapsed = now.saturating_sub(node.updated_at);
    let age: u64 = if elapsed > 86_400 {
        86_400
    } else {
        elapsed
    };
    let recency: i64 = 65_536 - (age as i64 * 65_536) / 86_401;
    let total: i64 = node.weight as i64 + edge.weight as i64 + recency;
    if total > i32::MAX as i64 {
        i32::MAX
    } else if total < i32::MIN as i64 {
        i32::MIN
    } else {
        total as i32
    }
}

fn empty_query(generation: u64) -> (r: QueryResult)
    ensures
        r.generation == generation,
        r.count == 0,
        r.nodes@ == empty_results(),
{
    let r = QueryResult { generation, count: 0, nodes: [empty_scored_node(); MAX_RESULTS] };
    assert(r.nodes@ =~= empty_results());
    r
}


// ---------------------------------------------------------------------------
// Walks, structure and spectrum
// ---------------------------------------------------------------------------

pub open spec fn out_of(current: u64) -> spec_fn(Edge) -> bool {
    |e: Edge| e.active && e.from == current
}

/// One step of the xorshift64 generator.
pub open spec fn xorshift(x: u64) -> u64 {
    let a = x ^ (x << 13u64);
    let b = a ^ (a >> 7u64);
    b ^ (b << 17u64)
}

/// The nodes visited by a seeded walk of at most `remaining` positions: each
/// step follows the out-edge picked by the generator, in slot order; a node
/// without out-edges ends the walk.
pub open spec fn walk_from(m: GraphModel, current: u64, rng: u64, remaining: nat) -> Seq<u64>
    decreases remaining,
{
    if remaining == 0 {
        Seq::empty()
    } else {
        let outs = m.edges.filter(out_of(current));
        if outs.len() == 0 {
            seq![current]
        } else {
            let r = xorshift(rng);
            seq![current] + walk_from(m, outs[(r as int) % (outs.len() as int)].to, r, (remaining - 1) as nat)
        }
    }
}

pub open spec fn degree_of(m: GraphModel, id: u64) -> nat {
    m.edges.filter(touches(id)).len()
}

/// Running maximum degree and FNV-style checksum over the first `k` slots.
pub open spec fn structure_upto(m: GraphModel, k: int) -> (nat, u64)
    decreases k,
{
    if k <= 0 {
        (0, 0xcbf29ce484222325u64)
    } else {
        let acc = structure_upto(m, k - 1);
        let n = m.nodes[k - 1];
        if n.active {
            let d = degree_of(m, n.id);
            let mixed = acc.1 ^ n.id ^ ((d as u64) << 32u64) ^ (n.weight as u32 as u64);
            (if d > acc.0 { d } else { acc.0 }, mixed.wrapping_mul(0x100000001b3u64))
        } else {
            acc
        }
    }
}

pub open spec fn peer_of(e: Edge, id: u64) -> u64 {
    if e.from == id {
        e.to
    } else {
        e.from
    }
}

/// Degree and neighbour sum of node `id` over the first `k` edge slots, as
/// seen by the Laplacian: only edges whose other end is an active node count.
pub open spec fn row_terms(m: GraphModel, v: Seq<int>, id: u64, k: int) -> (int, int)
    decreases k,
{
    if k <= 0 {
        (0, 0)
    } else {
        let acc = row_terms(m, v, id, k - 1);
        let e = m.edges[k - 1];
        if touches(id)(e) {
            match first_index(m.nodes, live_node(peer_of(e, id))) {
                Some(p) => (acc.0 + 1, acc.1 + v[p]),
                None => acc,
            }
        } else {
            acc
        }
    }
}

/// Row `i` of the unweighted graph Laplacian applied to `v`.
pub open spec fn laplacian_row(m: GraphModel, v: Seq<int>, i: int) -> int {
    if m.nodes[i].active {
        let t = row_terms(m, v, m.nodes[i].id, MAX_EDGES as int);
        t.0 * v[i] - t.1
    } else {
        0
    }
}

pub open spec fn laplacian_image(m: GraphModel, v: Seq<int>) -> Seq<int> {
    Seq::new(MAX_NODES as nat, |i: int| laplacian_row(m, v, i))
}

pub open spec fn abs_int(x: int) -> int {
    if x < 0 {
        -x
    } else {
        x
    }
}

pub open spec fn max_abs_upto(s: Seq<int>, k: int) -> int
    decreases k,
{
    if k <= 0 {
        0
    } else {
        let a = max_abs_upto(s, k - 1);
        if abs_int(s[k - 1]) > a {
            abs_int(s[k - 1])
        } else {
            a
        }
    }
}

/// Division rounding toward zero, as Rust's `/` on signed integers.
pub open spec fn trunc_div(a: int, b: int) -> int {
    if a >= 0 {
        a / b
    } else {
        -((-a) / b)
    }
}

pub open spec fn power_scale(img: Seq<int>) -> int {
    let a = max_abs_upto(img, MAX_NODES as int);
    if a < 1 {
        1
    } else {
        a
    }
}

pub open spec fn normalized(img: Seq<int>) -> Seq<int> {
    Seq::new(MAX_NODES as nat, |i: int| trunc_div(img[i] * 65_536, power_scale(img)))
}

/// Start vector: +1 on even active slots, -1 on odd active slots (Q16).
pub open spec fn power_start(m: GraphModel) -> Seq<int> {
    Seq::new(
        MAX_NODES as nat,
        |i: int|
            if m.nodes[i].active {
                if i % 2 == 0 {
                    65_536int
                } else {
                    -65_536int
                }
            } else {
                0int
            },
    )
}

/// The vector after `n` normalized power iterations.
pub open spec fn power_vector(m: GraphModel, n: nat) -> Seq<int>
    decreases n,
{
    if n == 0 {
        power_start(m)
    } else {
        normalized(laplacian_image(m, power_vector(m, (n - 1) as nat)))
    }
}

/// Rayleigh numerator, denominator and residual energy over the first `k`
/// slots.
pub open spec fn rayleigh_upto(m: GraphModel, v: Seq<int>, img: Seq<int>, k: int) -> (int, int, int)
    decreases k,
{
    if k <= 0 {
        (0, 0, 0)
    } else {
        let a = rayleigh_upto(m, v, img, k - 1);
        if m.nodes[k - 1].active {
            (a.0 + v[k - 1] * img[k - 1], a.1 + v[k - 1] * v[k - 1], a.2 + img[k - 1] * img[k - 1])
        } else {
            a
        }
    }
}

pub const POWER_ITERATIONS: usize = 12;

/// Dominant-eigenvalue estimate (Q16) and residual energy after the
/// bounded power iteration.
pub open spec fn spectral_estimate(m: GraphModel) -> (i32, u64) {
    let v = power_vector(m, POWER_ITERATIONS as nat);
    let img = laplacian_image(m, v);
    let r = rayleigh_upto(m, v, img, MAX_NODES as int);
    (if r.1 == 0 {
        0
    } else {
        clamp_i32(trunc_div(r.0 * 65_536, r.1))
    }, r.2 as u64)
}

pub open spec fn spec_spectral_snapshot(m: GraphModel) -> SpectralSnapshot {
    let active_edges = m.edges.filter(active_edge()).len();
    let st = structure_upto(m, MAX_NODES as int);
    SpectralSnapshot {
        generation: m.generation,
        active_nodes: m.nodes.filter(active_node()).len() as u32,
        active_edges: active_edges as u32,
        laplacian_trace: (active_edges * 2) as u64,
        max_degree: st.0 as u32,
        dominant_eigen_q16: spectral_estimate(m).0,
        spectral_energy: spectral_estimate(m).1,
        checksum: st.1,
    }
}

pub proof fn lemma_walk_len(m: GraphModel, current: u64, rng: u64, remaining: nat)
    ensures
        walk_from(m, current, rng, remaining).len() <= remaining,
    decreases remaining,
{
    if remaining > 0 {
        let outs = m.edges.filter(out_of(current));
        if outs.len() > 0 {
            let r = xorshift(rng);
            lemma_walk_len(m, outs[(r as int) % (outs.len() as int)].to, r, (remaining - 1) as nat);
        }
    }
}

pub open spec fn ints(s: Seq<i64>) -> Seq<int> {
    s.map_values(|x: i64| x as int)
}

pub open spec fn bounded_by(s: Seq<int>, b: int) -> bool {
    forall|i: int| 0 <= i < s.len() ==> -b <= #[trigger] s[i] <= b
}

proof fn lemma_max_abs_bound(s: Seq<int>, k: int, j: int)
    requires
        0 <= j < k <= s.len(),
    ensures
        abs_int(s[j]) <= max_abs_upto(s, k),
        max_abs_upto(s, k) >= 0,
    decreases k,
{
    if j < k - 1 {
        lemma_max_abs_bound(s, k - 1, j);
    } else if k > 1 {
        lemma_max_abs_bound(s, k - 1, 0);
    }
}

proof fn lemma_max_abs_le(s: Seq<int>, k: int, b: int)
    requires
        0 <= k <= s.len(),
        b >= 0,
        bounded_by(s, b),
    ensures
        0 <= max_abs_upto(s, k) <= b,
    decreases k,
{
    if k > 0 {
        lemma_max_abs_le(s, k - 1, b);
        assert(-b <= s[k - 1] <= b);
    }
}

proof fn lemma_normalize_bound(a: int, sc: int)
    requires
        sc >= 1,
        abs_int(a) <= sc,
    ensures
        -65_536 <= trunc_div(a * 65_536, sc) <= 65_536,
{
    if a >= 0 {
        assert((a * 65_536) / sc <= 65_536) by (nonlinear_arith)
            requires
                0 <= a <= sc,
                sc >= 1,
        ;
        assert((a * 65_536) / sc >= 0) by (nonlinear_arith)
            requires
                0 <= a,
                sc >= 1,
        ;
    } else {
        assert(-(a * 65_536) == (-a) * 65_536);
        assert(((-a) * 65_536) / sc <= 65_536) by (nonlinear_arith)
            requires
                0 <= -a <= sc,
                sc >= 1,
        ;
        assert(((-a) * 65_536) / sc >= 0) by (nonlinear_arith)
            requires
                0 <= -a,
                sc >= 1,
        ;
    }
}

proof fn lemma_power_bound(m: GraphModel, n: nat)
    requires
        m.wf(),
    ensures
        power_vector(m, n).len() == MAX_NODES,
        bounded_by(power_vector(m, n), 65_536),
    decreases n,
{
    if n > 0 {
        lemma_power_bound(m, (n - 1) as nat);
        let img = laplacian_image(m, power_vector(m, (n - 1) as nat));
        let sc = power_scale(img);
        assert forall|i: int| 0 <= i < MAX_NODES implies -65_536 <= #[trigger] normalized(img)[i] <= 65_536 by {
            lemma_max_abs_bound(img, MAX_NODES as int, i);
            lemma_normalize_bound(img[i], sc);
        }
    }
}

fn trunc_div_i64(a: i64, b: i64) -> (r: i64)
    requires
        b > 0,
        a > i64::MIN,
    ensures
        r == trunc_div(a as int, b as int),
{
    if a >= 0 {
        a / b
    } else {
        let q = (-a) / b;
        -q
    }
}

fn trunc_div_i128(a: i128, b: i128) -> (r: i128)
    requires
        b > 0,
        a > i128::MIN,
    ensures
        r == trunc_div(a as int, b as int),
{
    if a >= 0 {
        a / b
    } else {
        let q = (-a) / b;
        -q
    }
}

pub open spec fn after_generation(g: u64) -> spec_fn(JournalEntry) -> bool {
    |e: JournalEntry| e.generation > g
}


// ---------------------------------------------------------------------------
// Snapshot format
// ---------------------------------------------------------------------------

pub open spec fn bool_byte(b: bool) -> u8 {
    if b {
        1
    } else {
        0
    }
}

/// Byte `c` of the 56-byte record of a node.
pub open spec fn node_record_byte(n: Node, c: int) -> u8 {
    if c == 0 {
        bool_byte(n.active)
    } else if 2 <= c < 4 {
        le_u16_bytes(n.kind)[c - 2]
    } else if 4 <= c < 6 {
        le_u16_bytes(n.flags)[c - 4]
    } else if 8 <= c < 16 {
        le_u64_bytes(n.id)[c - 8]
    } else if 16 <= c < 20 {
        le_u32_bytes(n.weight as u32)[c - 16]
    } else if 24 <= c < 32 {
        le_u64_bytes(n.created_at)[c - 24]
    } else if 32 <= c < 40 {
        le_u64_bytes(n.updated_at)[c - 32]
    } else if 40 <= c < 48 {
        le_u64_bytes(n.provenance)[c - 40]
    } else if 48 <= c < 56 {
        le_u64_bytes(n.parent)[c - 48]
    } else {
        0
    }
}

/// Byte `c` of the 56-byte record of an edge.
pub open spec fn edge_record_byte(e: Edge, c: int) -> u8 {
    if c == 0 {
        bool_byte(e.active)
    } else if 2 <= c < 4 {
        le_u16_bytes(e.kind)[c - 2]
    } else if 4 <= c < 6 {
        le_u16_bytes(e.flags)[c - 4]
    } else if 8 <= c < 16 {
        le_u64_bytes(e.id)[c - 8]
    } else if 16 <= c < 24 {
        le_u64_bytes(e.from)[c - 16]
    } else if 24 <= c < 32 {
        le_u64_bytes(e.to)[c - 24]
    } else if 32 <= c < 36 {
        le_u32_bytes(e.weight as u32)[c - 32]
    } else if 40 <= c < 48 {
        le_u64_bytes(e.created_at)[c - 40]
    } else if 48 <= c < 56 {
        le_u64_bytes(e.provenance)[c - 48]
    } else {
        0
    }
}

/// Byte `c` of the 40-byte record of a journal entry.
pub open spec fn journal_record_byte(j: JournalEntry, c: int) -> u8 {
    if 0 <= c < 8 {
        le_u64_bytes(j.generation)[c]
    } else if 8 <= c < 16 {
        le_u64_bytes(j.timestamp)[c - 8]
    } else if c == 16 {
        j.mutation_kind
    } else if 24 <= c < 32 {
        le_u64_bytes(j.object_id)[c - 24]
    } else if 32 <= c < 40 {
        le_u64_bytes(j.provenance)[c - 32]
    } else {
        0
    }
}

/// Byte `c` of the 32-byte snapshot header.
pub open spec fn header_byte(m: GraphModel, c: int) -> u8 {
    if 0 <= c < 4 {
        le_u32_bytes(SNAPSHOT_VERSION)[c]
    } else if 8 <= c < 16 {
        le_u64_bytes(m.generation)[c - 8]
    } else if 16 <= c < 24 {
        le_u64_bytes(m.next_id)[c - 16]
    } else if 24 <= c < 28 {
        le_u32_bytes(m.journal.len() as u32)[c - 24]
    } else {
        0
    }
}

/// Byte `k` of the snapshot of `m`: the header, every node slot, every edge
/// slot, the journal from oldest to newest, then zeros.
#[verifier::opaque]
pub open spec fn snapshot_byte(m: GraphModel, k: int) -> u8 {
    if k < NODES_OFFSET {
        header_byte(m, k)
    } else if k < EDGES_OFFSET {
        node_record_byte(m.nodes[(k - NODES_OFFSET) / 56], (k - NODES_OFFSET) % 56)
    } else if k < JOURNAL_OFFSET {
        edge_record_byte(m.edges[(k - EDGES_OFFSET) / 56], (k - EDGES_OFFSET) % 56)
    } else if k < JOURNAL_OFFSET + JOURNAL_RECORD * m.journal.len() {
        journal_record_byte(m.journal[(k - JOURNAL_OFFSET) / 40], (k - JOURNAL_OFFSET) % 40)
    } else {
        0
    }
}

pub open spec fn snapshot_bytes(m: GraphModel) -> Seq<u8> {
    Seq::new(SNAPSHOT_CAP as nat, |k: int| snapshot_byte(m, k))
}

pub open spec fn node_at(s: Seq<u8>, o: int) -> Node {
    Node {
        active: s[o] != 0,
        kind: le_u16_at(s, o + 2),
        flags: le_u16_at(s, o + 4),
        id: le_u64_at(s, o + 8),
        weight: le_u32_at(s, o + 16) as i32,
        created_at: le_u64_at(s, o + 24),
        updated_at: le_u64_at(s, o + 32),
        provenance: le_u64_at(s, o + 40),
        parent: le_u64_at(s, o + 48),
    }
}

pub open spec fn edge_at(s: Seq<u8>, o: int) -> Edge {
    Edge {
        active: s[o] != 0,
        kind: le_u16_at(s, o + 2),
        flags: le_u16_at(s, o + 4),
        id: le_u64_at(s, o + 8),
        from: le_u64_at(s, o + 16),
        to: le_u64_at(s, o + 24),
        weight: le_u32_at(s, o + 32) as i32,
        created_at: le_u64_at(s, o + 40),
        provenance: le_u64_at(s, o + 48),
    }
}

pub open spec fn journal_at(s: Seq<u8>, o: int) -> JournalEntry {
    JournalEntry {
        generation: le_u64_at(s, o),
        timestamp: le_u64_at(s, o + 8),
        mutation_kind: s[o + 16],
        object_id: le_u64_at(s, o + 24),
        provenance: le_u64_at(s, o + 32),
    }
}

/// A buffer a snapshot can be restored from: long enough, right version.
pub open spec fn snapshot_valid(s: Seq<u8>) -> bool {
    s.len() >= SNAPSHOT_CAP && le_u32_at(s, 0) == SNAPSHOT_VERSION
}

pub open spec fn decoded_journal_len(s: Seq<u8>) -> nat {
    let n = le_u32_at(s, 24) as nat;
    if n < MAX_JOURNAL {
        n
    } else {
        MAX_JOURNAL as nat
    }
}

/// The state a valid snapshot restores.
pub open spec fn decode_model(s: Seq<u8>) -> GraphModel {
    GraphModel {
        nodes: Seq::new(MAX_NODES as nat, |i: int| node_at(s, NODES_OFFSET + NODE_RECORD * i)),
        edges: Seq::new(MAX_EDGES as nat, |i: int| edge_at(s, EDGES_OFFSET + EDGE_RECORD * i)),
        journal: Seq::new(decoded_journal_len(s), |i: int| journal_at(s, JOURNAL_OFFSET + JOURNAL_RECORD * i)),
        generation: le_u64_at(s, 8),
        next_id: if le_u64_at(s, 16) < 1 {
            1
        } else {
            le_u64_at(s, 16)
        },
    }
}

proof fn lemma_record_index(size: int, i: int, c: int)
    requires
        size > 0,
        0 <= c < size,
        0 <= i,
    ensures
        (size * i + c) / size == i,
        (size * i + c) % size == c,
{
    assert(size * i == i * size) by (nonlinear_arith);
    vstd::arithmetic::div_mod::lemma_fundamental_div_mod_converse(size * i + c, size, i, c);
}

proof fn lemma_node_bytes(m: GraphModel, i: int)
    requires
        m.wf(),
        0 <= i < MAX_NODES,
    ensures
        forall|k: int|
            NODES_OFFSET + NODE_RECORD * i <= k < NODES_OFFSET + NODE_RECORD * i + 56 ==> #[trigger] snapshot_bytes(m)[k]
                == node_record_byte(m.nodes[i], k - (NODES_OFFSET + NODE_RECORD * i)),
{
    reveal(snapshot_byte);
    assert forall|k: int| NODES_OFFSET + NODE_RECORD * i <= k < NODES_OFFSET + NODE_RECORD * i + 56 implies #[trigger] snapshot_bytes(m)[k]
        == node_record_byte(m.nodes[i], k - (NODES_OFFSET + NODE_RECORD * i)) by {
        let c = k - (NODES_OFFSET + NODE_RECORD * i);
        lemma_record_index(56, i, c);
        assert(NODES_OFFSET + NODE_RECORD * i + c - NODES_OFFSET == 56 * i + c);
    }
}

proof fn lemma_edge_bytes(m: GraphModel, i: int)
    requires
        m.wf(),
        0 <= i < MAX_EDGES,
    ensures
        forall|k: int|
            EDGES_OFFSET + EDGE_RECORD * i <= k < EDGES_OFFSET + EDGE_RECORD * i + 56 ==> #[trigger] snapshot_bytes(m)[k]
                == edge_record_byte(m.edges[i], k - (EDGES_OFFSET + EDGE_RECORD * i)),
{
    reveal(snapshot_byte);
    assert forall|k: int| EDGES_OFFSET + EDGE_RECORD * i <= k < EDGES_OFFSET + EDGE_RECORD * i + 56 implies #[trigger] snapshot_bytes(m)[k]
        == edge_record_byte(m.edges[i], k - (EDGES_OFFSET + EDGE_RECORD * i)) by {
        let c = k - (EDGES_OFFSET + EDGE_RECORD * i);
        lemma_record_index(56, i, c);
        assert(EDGES_OFFSET + EDGE_RECORD * i + c - EDGES_OFFSET == 56 * i + c);
    }
}

proof fn lemma_journal_bytes(m: GraphModel, i: int)
    requires
        m.wf(),
        0 <= i < m.journal.len(),
    ensures
        forall|k: int|
            JOURNAL_OFFSET + JOURNAL_RECORD * i <= k < JOURNAL_OFFSET + JOURNAL_RECORD * i + 40 ==> #[trigger] snapshot_bytes(m)[k]
                == journal_record_byte(m.journal[i], k - (JOURNAL_OFFSET + JOURNAL_RECORD * i)),
{
    reveal(snapshot_byte);
    assert(JOURNAL_RECORD * i + 40 <= JOURNAL_RECORD * m.journal.len()) by (nonlinear_arith)
        requires
            0 <= i < m.journal.len(),
    ;
    assert forall|k: int| JOURNAL_OFFSET + JOURNAL_RECORD * i <= k < JOURNAL_OFFSET + JOURNAL_RECORD * i + 40 implies #[trigger] snapshot_bytes(m)[k]
        == journal_record_byte(m.journal[i], k - (JOURNAL_OFFSET + JOURNAL_RECORD * i)) by {
        let c = k - (JOURNAL_OFFSET + JOURNAL_RECORD * i);
        lemma_record_index(40, i, c);
        assert(JOURNAL_OFFSET + JOURNAL_RECORD * i + c - JOURNAL_OFFSET == 40 * i + c);
    }
}

proof fn lemma_header_bytes(m: GraphModel)
    ensures
        forall|c: int| 0 <= c < 32 ==> #[trigger] snapshot_bytes(m)[c] == header_byte(m, c),
{
    reveal(snapshot_byte);
}

proof fn lemma_read_node(m: GraphModel, i: int)
    requires
        m.wf(),
        0 <= i < MAX_NODES,
    ensures
        node_at(snapshot_bytes(m), NODES_OFFSET + NODE_RECORD * i) == m.nodes[i],
{
    let s = snapshot_bytes(m);
    let o = NODES_OFFSET + NODE_RECORD * i;
    let n = m.nodes[i];
    lemma_node_bytes(m, i);
    assert(s[o] == node_record_byte(n, 0));
    assert forall|c: int| 0 <= c < 2 implies #[trigger] s[o + 2 + c] == le_u16_bytes(n.kind)[c] by {
        assert(s[o + 2 + c] == node_record_byte(n, 2 + c));
    }
    lemma_le_u16_at_eq(s, o + 2, le_u16_bytes(n.kind));
    lemma_le_u16_roundtrip(n.kind);
    assert forall|c: int| 0 <= c < 2 implies #[trigger] s[o + 4 + c] == le_u16_bytes(n.flags)[c] by {
        assert(s[o + 4 + c] == node_record_byte(n, 4 + c));
    }
    lemma_le_u16_at_eq(s, o + 4, le_u16_bytes(n.flags));
    lemma_le_u16_roundtrip(n.flags);
    assert forall|c: int| 0 <= c < 8 implies #[trigger] s[o + 8 + c] == le_u64_bytes(n.id)[c] by {
        assert(s[o + 8 + c] == node_record_byte(n, 8 + c));
    }
    lemma_le_u64_at_eq(s, o + 8, le_u64_bytes(n.id));
    lemma_le_u64_roundtrip(n.id);
    assert forall|c: int| 0 <= c < 4 implies #[trigger] s[o + 16 + c] == le_u32_bytes(n.weight as u32)[c] by {
        assert(s[o + 16 + c] == node_record_byte(n, 16 + c));
    }
    lemma_le_u32_at_eq(s, o + 16, le_u32_bytes(n.weight as u32));
    lemma_le_u32_roundtrip(n.weight as u32);
    lemma_i32_bits_roundtrip(n.weight);
    assert forall|c: int| 0 <= c < 8 implies #[trigger] s[o + 24 + c] == le_u64_bytes(n.created_at)[c] by {
        assert(s[o + 24 + c] == node_record_byte(n, 24 + c));
    }
    lemma_le_u64_at_eq(s, o + 24, le_u64_bytes(n.created_at));
    lemma_le_u64_roundtrip(n.created_at);
    assert forall|c: int| 0 <= c < 8 implies #[trigger] s[o + 32 + c] == le_u64_bytes(n.updated_at)[c] by {
        assert(s[o + 32 + c] == node_record_byte(n, 32 + c));
    }
    lemma_le_u64_at_eq(s, o + 32, le_u64_bytes(n.updated_at));
    lemma_le_u64_roundtrip(n.updated_at);
    assert forall|c: int| 0 <= c < 8 implies #[trigger] s[o + 40 + c] == le_u64_bytes(n.provenance)[c] by {
        assert(s[o + 40 + c] == node_record_byte(n, 40 + c));
    }
    lemma_le_u64_at_eq(s, o + 40, le_u64_bytes(n.provenance));
    lemma_le_u64_roundtrip(n.provenance);
    assert forall|c: int| 0 <= c < 8 implies #[trigger] s[o + 48 + c] == le_u64_bytes(n.parent)[c] by {
        assert(s[o + 48 + c] == node_record_byte(n, 48 + c));
    }
    lemma_le_u64_at_eq(s, o + 48, le_u64_bytes(n.parent));
    lemma_le_u64_roundtrip(n.parent);
}

proof fn lemma_read_edge(m: GraphModel, i: int)
    requires
        m.wf(),
        0 <= i < MAX_EDGES,
    ensures
        edge_at(snapshot_bytes(m), EDGES_OFFSET + EDGE_RECORD * i) == m.edges[i],
{
    let s = snapshot_bytes(m);
    let o = EDGES_OFFSET + EDGE_RECORD * i;
    let e = m.edges[i];
    lemma_edge_bytes(m, i);
    assert(s[o] == edge_record_byte(e, 0));
    assert forall|c: int| 0 <= c < 2 implies #[trigger] s[o + 2 + c] == le_u16_bytes(e.kind)[c] by {
        assert(s[o + 2 + c] == edge_record_byte(e, 2 + c));
    }
    lemma_le_u16_at_eq(s, o + 2, le_u16_bytes(e.kind));
    lemma_le_u16_roundtrip(e.kind);
    assert forall|c: int| 0 <= c < 2 implies #[trigger] s[o + 4 + c] == le_u16_bytes(e.flags)[c] by {
        assert(s[o + 4 + c] == edge_record_byte(e, 4 + c));
    }
    lemma_le_u16_at_eq(s, o + 4, le_u16_bytes(e.flags));
    lemma_le_u16_roundtrip(e.flags);
    assert forall|c: int| 0 <= c < 8 implies #[trigger] s[o + 8 + c] == le_u64_bytes(e.id)[c] by {
        assert(s[o + 8 + c] == edge_record_byte(e, 8 + c));
    }
    lemma_le_u64_at_eq(s, o + 8, le_u64_bytes(e.id));
    lemma_le_u64_roundtrip(e.id);
    assert forall|c: int| 0 <= c < 8 implies #[trigger] s[o + 16 + c] == le_u64_bytes(e.from)[c] by {
        assert(s[o + 16 + c] == edge_record_byte(e, 16 + c));
    }
    lemma_le_u64_at_eq(s, o + 16, le_u64_bytes(e.from));
    lemma_le_u64_roundtrip(e.from);
    assert forall|c: int| 0 <= c < 8 implies #[trigger] s[o + 24 + c] == le_u64_bytes(e.to)[c] by {
        assert(s[o + 24 + c] == edge_record_byte(e, 24 + c));
    }
    lemma_le_u64_at_eq(s, o + 24, le_u64_bytes(e.to));
    lemma_le_u64_roundtrip(e.to);
    assert forall|c: int| 0 <= c < 4 implies #[trigger] s[o + 32 + c] == le_u32_bytes(e.weight as u32)[c] by {
        assert(s[o + 32 + c] == edge_record_byte(e, 32 + c));
    }
    lemma_le_u32_at_eq(s, o + 32, le_u32_bytes(e.weight as u32));
    lemma_le_u32_roundtrip(e.weight as u32);
    lemma_i32_bits_roundtrip(e.weight);
    assert forall|c: int| 0 <= c < 8 implies #[trigger] s[o + 40 + c] == le_u64_bytes(e.created_at)[c] by {
        assert(s[o + 40 + c] == edge_record_byte(e, 40 + c));
    }
    lemma_le_u64_at_eq(s, o + 40, le_u64_bytes(e.created_at));
    lemma_le_u64_roundtrip(e.created_at);
    assert forall|c: int| 0 <= c < 8 implies #[trigger] s[o + 48 + c] == le_u64_bytes(e.provenance)[c] by {
        assert(s[o + 48 + c] == edge_record_byte(e, 48 + c));
    }
    lemma_le_u64_at_eq(s, o + 48, le_u64_bytes(e.provenance));
    lemma_le_u64_roundtrip(e.provenance);
}

proof fn lemma_read_journal(m: GraphModel, i: int)
    requires
        m.wf(),
        0 <= i < m.journal.len(),
    ensures
        journal_at(snapshot_bytes(m), JOURNAL_OFFSET + JOURNAL_RECORD * i) == m.journal[i],
{
    let s = snapshot_bytes(m);
    let o = JOURNAL_OFFSET + JOURNAL_RECORD * i;
    let j = m.journal[i];
    lemma_journal_bytes(m, i);
    assert(s[o + 16] == journal_record_byte(j, 16));
    assert forall|c: int| 0 <= c < 8 implies #[trigger] s[o + 0 + c] == le_u64_bytes(j.generation)[c] by {
        assert(s[o + 0 + c] == journal_record_byte(j, 0 + c));
    }
    lemma_le_u64_at_eq(s, o + 0, le_u64_bytes(j.generation));
    lemma_le_u64_roundtrip(j.generation);
    assert forall|c: int| 0 <= c < 8 implies #[trigger] s[o + 8 + c] == le_u64_bytes(j.timestamp)[c] by {
        assert(s[o + 8 + c] == journal_record_byte(j, 8 + c));
    }
    lemma_le_u64_at_eq(s, o + 8, le_u64_bytes(j.timestamp));
    lemma_le_u64_roundtrip(j.timestamp);
    assert forall|c: int| 0 <= c < 8 implies #[trigger] s[o + 24 + c] == le_u64_bytes(j.object_id)[c] by {
        assert(s[o + 24 + c] == journal_record_byte(j, 24 + c));
    }
    lemma_le_u64_at_eq(s, o + 24, le_u64_bytes(j.object_id));
    lemma_le_u64_roundtrip(j.object_id);
    assert forall|c: int| 0 <= c < 8 implies #[trigger] s[o + 32 + c] == le_u64_bytes(j.provenance)[c] by {
        assert(s[o + 32 + c] == journal_record_byte(j, 32 + c));
    }
    lemma_le_u64_at_eq(s, o + 32, le_u64_bytes(j.provenance));
    lemma_le_u64_roundtrip(j.provenance);
}

/// Restoring a snapshot gives back exactly the state that was encoded:
/// every node and edge slot, the journal, the generation and the identifier
/// allocator.
pub proof fn lemma_snapshot_roundtrip(m: GraphModel)
    requires
        m.wf(),
    ensures
        snapshot_valid(snapshot_bytes(m)),
        decode_model(snapshot_bytes(m)) == m,
{
    let s = snapshot_bytes(m);
    lemma_header_bytes(m);
    assert forall|c: int| 0 <= c < 4 implies #[trigger] s[0 + c] == le_u32_bytes(SNAPSHOT_VERSION)[c] by {
        assert(s[0 + c] == header_byte(m, c));
    }
    lemma_le_u32_at_eq(s, 0, le_u32_bytes(SNAPSHOT_VERSION));
    lemma_le_u32_roundtrip(SNAPSHOT_VERSION);
    assert forall|c: int| 0 <= c < 8 implies #[trigger] s[8 + c] == le_u64_bytes(m.generation)[c] by {
        assert(s[8 + c] == header_byte(m, 8 + c));
    }
    lemma_le_u64_at_eq(s, 8, le_u64_bytes(m.generation));
    lemma_le_u64_roundtrip(m.generation);
    assert forall|c: int| 0 <= c < 8 implies #[trigger] s[16 + c] == le_u64_bytes(m.next_id)[c] by {
        assert(s[16 + c] == header_byte(m, 16 + c));
    }
    lemma_le_u64_at_eq(s, 16, le_u64_bytes(m.next_id));
    lemma_le_u64_roundtrip(m.next_id);
    assert forall|c: int| 0 <= c < 4 implies #[trigger] s[24 + c] == le_u32_bytes(m.journal.len() as u32)[c] by {
        assert(s[24 + c] == header_byte(m, 24 + c));
    }
    lemma_le_u32_at_eq(s, 24, le_u32_bytes(m.journal.len() as u32));
    lemma_le_u32_roundtrip(m.journal.len() as u32);
    let d = decode_model(s);
    assert forall|i: int| 0 <= i < MAX_NODES implies #[trigger] d.nodes[i] == m.nodes[i] by {
        lemma_read_node(m, i);
    }
    assert forall|i: int| 0 <= i < MAX_EDGES implies #[trigger] d.edges[i] == m.edges[i] by {
        lemma_read_edge(m, i);
    }
    assert forall|i: int| 0 <= i < m.journal.len() implies #[trigger] d.journal[i] == m.journal[i] by {
        lemma_read_journal(m, i);
    }
    assert(d.nodes =~= m.nodes);
    assert(d.edges =~= m.edges);
    assert(d.journal =~= m.journal);
}


fn put_node_record(out: &mut [u8], o: usize, n: Node)
    requires
        o + 56 <= old(out)@.len(),
        forall|k: int| o <= k < o + 56 ==> old(out)@[k] == 0,
    ensures
        final(out)@.len() == old(out)@.len(),
        forall|k: int| o <= k < o + 56 ==> #[trigger] final(out)@[k] == node_record_byte(n, k - o),
        forall|k: int| 0 <= k < old(out)@.len() && !(o <= k < o + 56) ==> #[trigger] final(out)@[k] == old(out)@[k],
{
    let _len = out.len();
    out[o] = if n.active {
        1
    } else {
        0
    };
    put_u16(out, o + 2, n.kind);
    put_u16(out, o + 4, n.flags);
    put_u64(out, o + 8, n.id);
    put_u32(out, o + 16, n.weight as u32);
    put_u64(out, o + 24, n.created_at);
    put_u64(out, o + 32, n.updated_at);
    put_u64(out, o + 40, n.provenance);
    put_u64(out, o + 48, n.parent);
}

fn put_edge_record(out: &mut [u8], o: usize, e: Edge)
    requires
        o + 56 <= old(out)@.len(),
        forall|k: int| o <= k < o + 56 ==> old(out)@[k] == 0,
    ensures
        final(out)@.len() == old(out)@.len(),
        forall|k: int| o <= k < o + 56 ==> #[trigger] final(out)@[k] == edge_record_byte(e, k - o),
        forall|k: int| 0 <= k < old(out)@.len() && !(o <= k < o + 56) ==> #[trigger] final(out)@[k] == old(out)@[k],
{
    let _len = out.len();
    out[o] = if e.active {
        1
    } else {
        0
    };
    put_u16(out, o + 2, e.kind);
    put_u16(out, o + 4, e.flags);
    put_u64(out, o + 8, e.id);
    put_u64(out, o + 16, e.from);
    put_u64(out, o + 24, e.to);
    put_u32(out, o + 32, e.weight as u32);
    put_u64(out, o + 40, e.created_at);
    put_u64(out, o + 48, e.provenance);
}

fn put_journal_record(out: &mut [u8], o: usize, j: JournalEntry)
    requires
        o + 40 <= old(out)@.len(),
        forall|k: int| o <= k < o + 40 ==> old(out)@[k] == 0,
    ensures
        final(out)@.len() == old(out)@.len(),
        forall|k: int| o <= k < o + 40 ==> #[trigger] final(out)@[k] == journal_record_byte(j, k - o),
        forall|k: int| 0 <= k < old(out)@.len() && !(o <= k < o + 40) ==> #[trigger] final(out)@[k] == old(out)@[k],
{
    let _len = out.len();
    put_u64(out, o, j.generation);
    put_u64(out, o + 8, j.timestamp);
    out[o + 16] = j.mutation_kind;
    put_u64(out, o + 24, j.object_id);
    put_u64(out, o + 32, j.provenance);
}

fn read_node_record(input: &[u8], o: usize) -> (n: Node)
    requires
        o + 56 <= input@.len(),
    ensures
        n == node_at(input@, o as int),
{
    let _len = input.len();
    Node {
        active: input[o] != 0,
        kind: get_u16(input, o + 2),
        flags: get_u16(input, o + 4),
        id: get_u64(input, o + 8),
        weight: get_u32(input, o + 16) as i32,
        created_at: get_u64(input, o + 24),
        updated_at: get_u64(input, o + 32),
        provenance: get_u64(input, o + 40),
        parent: get_u64(input, o + 48),
    }
}

fn read_edge_record(input: &[u8], o: usize) -> (e: Edge)
    requires
        o + 56 <= input@.len(),
    ensures
        e == edge_at(input@, o as int),
{
    let _len = input.len();
    Edge {
        active: input[o] != 0,
        kind: get_u16(input, o + 2),
        flags: get_u16(input, o + 4),
        id: get_u64(input, o + 8),
        from: get_u64(input, o + 16),
        to: get_u64(input, o + 24),
        weight: get_u32(input, o + 32) as i32,
        created_at: get_u64(input, o + 40),
        provenance: get_u64(input, o + 48),
    }
}

fn read_journal_record(input: &[u8], o: usize) -> (j: JournalEntry)
    requires
        o + 40 <= input@.len(),
    ensures
        j == journal_at(input@, o as int),
{
    let _len = input.len();
    JournalEntry {
        generation: get_u64(input, o),
        timestamp: get_u64(input, o + 8),
        mutation_kind: input[o + 16],
        object_id: get_u64(input, o + 24),
        provenance: get_u64(input, o + 32),
    }
}

proof fn lemma_snapshot_tail(m: GraphModel, k: int)
    requires
        m.wf(),
        JOURNAL_OFFSET + JOURNAL_RECORD * m.journal.len() <= k < SNAPSHOT_CAP,
    ensures
        snapshot_bytes(m)[k] == 0,
{
    reveal(snapshot_byte);
}


/// Adding a node again under the same non-zero provenance is idempotent:
/// the second application returns the identifier the first one returned and
/// changes nothing.
pub proof fn lemma_add_node_idempotent(m: GraphModel, kind: u16, flags: u16, weight: i32, parent: u64, now: u64, provenance: u64)
    requires
        m.wf(),
        provenance != 0,
        spec_apply(m, Mutation::AddNode { kind, flags, weight, parent, now }, provenance).0 is Ok,
    ensures
        ({
            let mutation = Mutation::AddNode { kind, flags, weight, parent, now };
            let first = spec_apply(m, mutation, provenance);
            spec_apply(first.1, mutation, provenance) == first
        }),
{
    let mutation = Mutation::AddNode { kind, flags, weight, parent, now };
    let first = spec_apply(m, mutation, provenance);
    let m1 = first.1;
    if first_index(m.nodes, duplicate_node(provenance, kind)) is None {
        let s = first_index(m.nodes, free_node()).unwrap();
        assert(is_first(m.nodes, free_node(), s));
        if parent != 0 {
            let p = first_index(m.nodes, live_node(parent)).unwrap();
            assert(is_first(m.nodes, live_node(parent), p));
            assert(m1.nodes[p] == m.nodes[p]);
            assert(live_node(parent)(m1.nodes[p]));
            crate::search::lemma_first_exists(m1.nodes, live_node(parent));
        }
        assert(duplicate_node(provenance, kind)(m1.nodes[s]));
        assert forall|j: int| 0 <= j < s implies !(#[trigger] duplicate_node(provenance, kind)(m1.nodes[j])) by {
            assert(m1.nodes[j] == m.nodes[j]);
            if duplicate_node(provenance, kind)(m.nodes[j]) {
                crate::search::lemma_first_exists(m.nodes, duplicate_node(provenance, kind));
            }
        }
        lemma_first_found(m1.nodes, duplicate_node(provenance, kind), s);
    } else {
        assert(m1 == m);
    }
}

/// Adding an edge again under the same non-zero provenance is idempotent.
pub proof fn lemma_add_edge_idempotent(m: GraphModel, kind: u16, flags: u16, weight: i32, from: u64, to: u64, now: u64, provenance: u64)
    requires
        m.wf(),
        provenance != 0,
        spec_apply(m, Mutation::AddEdge { kind, flags, weight, from, to, now }, provenance).0 is Ok,
    ensures
        ({
            let mutation = Mutation::AddEdge { kind, flags, weight, from, to, now };
            let first = spec_apply(m, mutation, provenance);
            spec_apply(first.1, mutation, provenance) == first
        }),
{
    let mutation = Mutation::AddEdge { kind, flags, weight, from, to, now };
    let first = spec_apply(m, mutation, provenance);
    let m1 = first.1;
    if first_index(m.edges, duplicate_edge(provenance, kind, from, to)) is None {
        let s = first_index(m.edges, free_edge()).unwrap();
        assert(is_first(m.edges, free_edge(), s));
        assert(m1.nodes == m.nodes);
        assert(duplicate_edge(provenance, kind, from, to)(m1.edges[s]));
        assert forall|j: int| 0 <= j < s implies !(#[trigger] duplicate_edge(provenance, kind, from, to)(m1.edges[j])) by {
            assert(m1.edges[j] == m.edges[j]);
            if duplicate_edge(provenance, kind, from, to)(m.edges[j]) {
                crate::search::lemma_first_exists(m.edges, duplicate_edge(provenance, kind, from, to));
            }
        }
        lemma_first_found(m1.edges, duplicate_edge(provenance, kind, from, to), s);
    } else {
        assert(m1 == m);
    }
}

/// Once a node is deactivated no active edge touches it.
pub proof fn lemma_deactivate_detaches(m: GraphModel, id: u64, now: u64, provenance: u64)
    requires
        m.wf(),
        spec_apply(m, Mutation::DeactivateNode { id, now }, provenance).0 is Ok,
    ensures
        forall|j: int|
            0 <= j < MAX_EDGES ==> !touches(id)(
                #[trigger] spec_apply(m, Mutation::DeactivateNode { id, now }, provenance).1.edges[j],
            ),
{
}

/// Node `n` is the live node `id`.
pub open spec fn is_live(n: Node, id: u64) -> bool {
    n.active && n.id == id
}

/// Some active node carries `id`.
pub open spec fn holds_node(nodes: Seq<Node>, id: u64) -> bool {
    exists|j: int| 0 <= j < nodes.len() && #[trigger] is_live(nodes[j], id)
}

/// Referential integrity: active identifiers are non-zero, below the next
/// identifier to hand out and pairwise distinct across nodes and edges, and
/// every active edge joins two active nodes.
pub open spec fn integrity(m: GraphModel) -> bool {
    &&& forall|i: int| 0 <= i < m.nodes.len() && (#[trigger] m.nodes[i]).active ==> 0 < m.nodes[i].id < m.next_id
    &&& forall|i: int| 0 <= i < m.edges.len() && (#[trigger] m.edges[i]).active ==> 0 < m.edges[i].id < m.next_id
    &&& forall|i: int, j: int|
        0 <= i < m.nodes.len() && 0 <= j < m.nodes.len() && i != j && (#[trigger] m.nodes[i]).active
            && (#[trigger] m.nodes[j]).active ==> m.nodes[i].id != m.nodes[j].id
    &&& forall|i: int, j: int|
        0 <= i < m.edges.len() && 0 <= j < m.edges.len() && i != j && (#[trigger] m.edges[i]).active
            && (#[trigger] m.edges[j]).active ==> m.edges[i].id != m.edges[j].id
    &&& forall|i: int, j: int|
        0 <= i < m.nodes.len() && 0 <= j < m.edges.len() && (#[trigger] m.nodes[i]).active
            && (#[trigger] m.edges[j]).active ==> m.nodes[i].id != m.edges[j].id
    &&& forall|k: int|
        0 <= k < m.edges.len() && (#[trigger] m.edges[k]).active ==> holds_node(m.nodes, m.edges[k].from)
            && holds_node(m.nodes, m.edges[k].to)
}

/// A fresh graph, with no active node or edge, has referential integrity.
pub proof fn lemma_empty_integrity(m: GraphModel)
    requires
        m.next_id >= 1,
        forall|i: int| 0 <= i < m.nodes.len() ==> !(#[trigger] m.nodes[i]).active,
        forall|i: int| 0 <= i < m.edges.len() ==> !(#[trigger] m.edges[i]).active,
    ensures
        integrity(m),
{
}

proof fn lemma_first_is_first<T>(s: Seq<T>, p: spec_fn(T) -> bool)
    ensures
        first_index(s, p) matches Some(i) ==> is_first(s, p, i),
{
}

/// Node slots that stay active keep their identifiers, so edges keep their ends.
proof fn lemma_holds_node_kept(nodes: Seq<Node>, nodes2: Seq<Node>, id: u64)
    requires
        nodes.len() == nodes2.len(),
        holds_node(nodes, id),
        forall|j: int| 0 <= j < nodes.len() && #[trigger] is_live(nodes[j], id) ==> is_live(nodes2[j], id),
    ensures
        holds_node(nodes2, id),
{
    let j = choose|j: int| 0 <= j < nodes.len() && #[trigger] is_live(nodes[j], id);
    assert(is_live(nodes2[j], id));
}

/// Every mutation keeps referential integrity, as long as identifiers have
/// not run out.
pub proof fn lemma_apply_keeps_integrity(m: GraphModel, mutation: Mutation, provenance: u64)
    requires
        m.wf(),
        integrity(m),
        m.next_id < u64::MAX,
    ensures
        integrity(spec_apply(m, mutation, provenance).1),
        spec_apply(m, mutation, provenance).1.next_id >= m.next_id,
{
    let m2 = spec_apply(m, mutation, provenance).1;
    match mutation {
        Mutation::AddNode { kind, flags, weight, parent, now } => {
            lemma_first_is_first(m.nodes, free_node());
            if !(parent != 0 && first_index(m.nodes, live_node(parent)) is None) && !(provenance != 0 && first_index(
                m.nodes,
                duplicate_node(provenance, kind),
            ) is Some) {
                if let Some(s) = first_index(m.nodes, free_node()) {
                    assert(!m.nodes[s].active);
                    let id = m.next_id;
                    assert forall|k: int| 0 <= k < m2.edges.len() && (#[trigger] m2.edges[k]).active implies holds_node(
                        m2.nodes,
                        m2.edges[k].from,
                    ) && holds_node(m2.nodes, m2.edges[k].to) by {
                        assert(m2.edges[k] == m.edges[k]);
                        assert forall|j: int| 0 <= j < m.nodes.len() && #[trigger] is_live(m.nodes[j], m.edges[k].from) implies is_live(
                            m2.nodes[j],
                            m.edges[k].from,
                        ) by {
                            assert(j != s);
                        }
                        assert forall|j: int| 0 <= j < m.nodes.len() && #[trigger] is_live(m.nodes[j], m.edges[k].to) implies is_live(
                            m2.nodes[j],
                            m.edges[k].to,
                        ) by {
                            assert(j != s);
                        }
                        lemma_holds_node_kept(m.nodes, m2.nodes, m.edges[k].from);
                        lemma_holds_node_kept(m.nodes, m2.nodes, m.edges[k].to);
                    }
                    assert(integrity(m2));
                }
            }
        },
        Mutation::AddEdge { kind, flags, weight, from, to, now } => {
            lemma_first_is_first(m.edges, free_edge());
            lemma_first_is_first(m.nodes, live_node(from));
            lemma_first_is_first(m.nodes, live_node(to));
            if !(first_index(m.nodes, live_node(from)) is None || first_index(m.nodes, live_node(to)) is None) && !(
            provenance != 0 && first_index(m.edges, duplicate_edge(provenance, kind, from, to)) is Some) {
                if let Some(s) = first_index(m.edges, free_edge()) {
                    let a = first_index(m.nodes, live_node(from)).unwrap();
                    let b = first_index(m.nodes, live_node(to)).unwrap();
                    assert(is_live(m.nodes[a], from));
                    assert(is_live(m.nodes[b], to));
                    assert(m2.nodes == m.nodes);
                    assert forall|k: int| 0 <= k < m2.edges.len() && (#[trigger] m2.edges[k]).active implies holds_node(
                        m2.nodes,
                        m2.edges[k].from,
                    ) && holds_node(m2.nodes, m2.edges[k].to) by {
                        if k != s {
                            assert(m2.edges[k] == m.edges[k]);
                        }
                    }
                    assert(integrity(m2));
                }
            }
        },
        Mutation::UpdateNode { id, flags, weight, now } => {
            lemma_first_is_first(m.nodes, live_node(id));
            if let Some(i) = first_index(m.nodes, live_node(id)) {
                assert forall|k: int| 0 <= k < m2.edges.len() && (#[trigger] m2.edges[k]).active implies holds_node(
                    m2.nodes,
                    m2.edges[k].from,
                ) && holds_node(m2.nodes, m2.edges[k].to) by {
                    lemma_holds_node_kept(m.nodes, m2.nodes, m.edges[k].from);
                    lemma_holds_node_kept(m.nodes, m2.nodes, m.edges[k].to);
                }
                assert(integrity(m2));
            }
        },
        Mutation::UpdateEdge { id, weight, now } => {
            lemma_first_is_first(m.edges, live_edge(id));
            if let Some(i) = first_index(m.edges, live_edge(id)) {
                assert forall|k: int| 0 <= k < m2.edges.len() && (#[trigger] m2.edges[k]).active implies holds_node(
                    m2.nodes,
                    m2.edges[k].from,
                ) && holds_node(m2.nodes, m2.edges[k].to) by {
                    if k != i {
                        assert(m2.edges[k] == m.edges[k]);
                    }
                }
                assert(integrity(m2));
            }
        },
        Mutation::DeactivateNode { id, now } => {
            lemma_first_is_first(m.nodes, live_node(id));
            if let Some(i) = first_index(m.nodes, live_node(id)) {
                assert(m.nodes[i].id == id && m.nodes[i].active);
                assert forall|k: int| 0 <= k < m2.edges.len() && (#[trigger] m2.edges[k]).active implies holds_node(
                    m2.nodes,
                    m2.edges[k].from,
                ) && holds_node(m2.nodes, m2.edges[k].to) by {
                    assert(m2.edges[k] == detach_edge(id)(m.edges[k]));
                    assert(m.edges[k].active && m.edges[k].from != id && m.edges[k].to != id);
                    assert(m2.edges[k] == m.edges[k]);
                    assert forall|j: int| 0 <= j < m.nodes.len() && #[trigger] is_live(m.nodes[j], m.edges[k].from) implies is_live(
                        m2.nodes[j],
                        m.edges[k].from,
                    ) by {
                        assert(j != i);
                    }
                    assert forall|j: int| 0 <= j < m.nodes.len() && #[trigger] is_live(m.nodes[j], m.edges[k].to) implies is_live(
                        m2.nodes[j],
                        m.edges[k].to,
                    ) by {
                        assert(j != i);
                    }
                    lemma_holds_node_kept(m.nodes, m2.nodes, m.edges[k].from);
                    lemma_holds_node_kept(m.nodes, m2.nodes, m.edges[k].to);
                }
                assert forall|a: int| 0 <= a < m2.edges.len() && (#[trigger] m2.edges[a]).active implies m2.edges[a]
                    == m.edges[a] by {
                    assert(m2.edges[a] == detach_edge(id)(m.edges[a]));
                }
                assert(integrity(m2));
            }
        },
        Mutation::DeactivateEdge { id, now } => {
            lemma_first_is_first(m.edges, live_edge(id));
            if let Some(i) = first_index(m.edges, live_edge(id)) {
                assert forall|k: int| 0 <= k < m2.edges.len() && (#[trigger] m2.edges[k]).active implies holds_node(
                    m2.nodes,
                    m2.edges[k].from,
                ) && holds_node(m2.nodes, m2.edges[k].to) by {
                    assert(k != i);
                    assert(m2.edges[k] == m.edges[k]);
                }
                assert(integrity(m2));
            }
        },
    }
}

/// With referential integrity, a deactivated node is gone: no active node
/// carries its identifier any more and no active edge touches it.
pub proof fn lemma_deactivated_node_gone(m: GraphModel, id: u64, now: u64, provenance: u64)
    requires
        m.wf(),
        integrity(m),
        spec_apply(m, Mutation::DeactivateNode { id, now }, provenance).0 is Ok,
    ensures
        spec_node(spec_apply(m, Mutation::DeactivateNode { id, now }, provenance).1, id) is None,
        forall|j: int|
            0 <= j < MAX_EDGES ==> !touches(id)(
                #[trigger] spec_apply(m, Mutation::DeactivateNode { id, now }, provenance).1.edges[j],
            ),
{
    let m2 = spec_apply(m, Mutation::DeactivateNode { id, now }, provenance).1;
    lemma_first_is_first(m.nodes, live_node(id));
    let i = first_index(m.nodes, live_node(id)).unwrap();
    assert forall|j: int| 0 <= j < m2.nodes.len() implies !live_node(id)(#[trigger] m2.nodes[j]) by {
        if j != i && m.nodes[j].active {
            assert(m.nodes[j].id != m.nodes[i].id);
        }
    }
    lemma_first_none(m2.nodes, live_node(id));
}

/// Every successful mutation advances the generation (until it saturates),
/// keeps the journal bounded and journals itself as the newest entry.
pub proof fn lemma_mutation_journaled(m: GraphModel, mutation: Mutation, provenance: u64)
    requires
        m.wf(),
        spec_apply(m, mutation, provenance).0 is Ok,
        !(spec_apply(m, mutation, provenance).1 == m),
    ensures
        ({
            let after = spec_apply(m, mutation, provenance).1;
            &&& after.wf()
            &&& after.generation == sat_inc(m.generation)
            &&& after.journal.len() == (if m.journal.len() < MAX_JOURNAL { m.journal.len() + 1 } else { MAX_JOURNAL as nat })
            &&& after.journal.last().generation == after.generation
            &&& after.journal.last().object_id == spec_apply(m, mutation, provenance).0->Ok_0
            &&& after.journal.last().provenance == provenance
        }),
{
}

// ---------------------------------------------------------------------------
// The runtime
// ---------------------------------------------------------------------------

pub struct GraphRuntime {
    nodes: Vec<Node>,
    edges: Vec<Edge>,
    journal: Vec<JournalEntry>,
    journal_head: usize,
    journal_len: usize,
    generation: u64,
    next_id: u64,
}

impl View for GraphRuntime {
    type V = GraphModel;

    closed spec fn view(&self) -> GraphModel {
        GraphModel {
            nodes: self.nodes@,
            edges: self.edges@,
            journal: Seq::new(
                self.journal_len as nat,
                |o: int| self.journal@[(self.journal_head + o) % (MAX_JOURNAL as int)],
            ),
            generation: self.generation,
            next_id: self.next_id,
        }
    }
}

impl GraphRuntime {
    /// Slot counts are fixed, the journal ring is consistent and identifiers
    /// are positive.
    pub closed spec fn wf(&self) -> bool {
        &&& self.nodes@.len() == MAX_NODES
        &&& self.edges@.len() == MAX_EDGES
        &&& self.journal@.len() == MAX_JOURNAL
        &&& self.journal_head < MAX_JOURNAL
        &&& self.journal_len <= MAX_JOURNAL
        &&& self.next_id >= 1
    }

    /// A well-formed runtime has a well-formed model.
    pub proof fn lemma_wf_model(&self)
        requires
            self.wf(),
        ensures
            self@.wf(),
    {
    }

    pub fn new() -> (r: Self)
        ensures
            r.wf(),
            r@.nodes == Seq::new(MAX_NODES as nat, |i: int| empty_node_spec()),
            r@.edges == Seq::new(MAX_EDGES as nat, |i: int| empty_edge_spec()),
            r@.journal == Seq::<JournalEntry>::empty(),
            r@.generation == 0,
            r@.next_id == 1,
            integrity(r@),
    {
        let mut nodes: Vec<Node> = Vec::new();
        let mut i: usize = 0;
        while i < MAX_NODES
            invariant
                i <= MAX_NODES,
                nodes@.len() == i,
                forall|k: int| 0 <= k < i ==> nodes@[k] == empty_node_spec(),
            decreases MAX_NODES - i,
        {
            nodes.push(empty_node());
            i += 1;
        }
        let mut edges: Vec<Edge> = Vec::new();
        let mut i: usize = 0;
        while i < MAX_EDGES
            invariant
                i <= MAX_EDGES,
                edges@.len() == i,
                forall|k: int| 0 <= k < i ==> edges@[k] == empty_edge_spec(),
            decreases MAX_EDGES - i,
        {
            edges.push(empty_edge());
            i += 1;
        }
        let mut journal: Vec<JournalEntry> = Vec::new();
        let mut i: usize = 0;
        while i < MAX_JOURNAL
            invariant
                i <= MAX_JOURNAL,
                journal@.len() == i,
                forall|k: int| 0 <= k < i ==> journal@[k] == empty_journal_spec(),
            decreases MAX_JOURNAL - i,
        {
            journal.push(empty_journal());
            i += 1;
        }
        let r = GraphRuntime {
            nodes,
            edges,
            journal,
            journal_head: 0,
            journal_len: 0,
            generation: 0,
            next_id: 1,
        };
        assert(r@.nodes =~= Seq::new(MAX_NODES as nat, |i: int| empty_node_spec()));
        assert(r@.edges =~= Seq::new(MAX_EDGES as nat, |i: int| empty_edge_spec()));
        assert(r@.journal =~= Seq::<JournalEntry>::empty());
        proof { lemma_empty_integrity(r@); }
        r
    }

    pub fn generation(&self) -> (r: u64)
        ensures
            r == self@.generation,
    {
        self.generation
    }

    /// The active nodes, in slot order.
    pub fn nodes(&self) -> (r: Vec<Node>)
        requires
            self.wf(),
        ensures
            r@ == self@.nodes.filter(active_node()),
    {
        let mut out: Vec<Node> = Vec::new();
        let mut i: usize = 0;
        while i < self.nodes.len()
            invariant
                self.wf(),
                i <= MAX_NODES,
                out@ == self@.nodes.subrange(0, i as int).filter(active_node()),
            decreases MAX_NODES - i,
        {
            let n = self.nodes[i];
            proof { lemma_filter_step(self@.nodes, active_node(), i as int); }
            if n.active {
                out.push(n);
            }
            i += 1;
        }
        assert(self@.nodes.subrange(0, MAX_NODES as int) =~= self@.nodes);
        out
    }

    /// The active edges, in slot order.
    pub fn edges(&self) -> (r: Vec<Edge>)
        requires
            self.wf(),
        ensures
            r@ == self@.edges.filter(active_edge()),
    {
        let mut out: Vec<Edge> = Vec::new();
        let mut i: usize = 0;
        while i < self.edges.len()
            invariant
                self.wf(),
                i <= MAX_EDGES,
                out@ == self@.edges.subrange(0, i as int).filter(active_edge()),
            decreases MAX_EDGES - i,
        {
            let e = self.edges[i];
            proof { lemma_filter_step(self@.edges, active_edge(), i as int); }
            if e.active {
                out.push(e);
            }
            i += 1;
        }
        assert(self@.edges.subrange(0, MAX_EDGES as int) =~= self@.edges);
        out
    }

    fn find_node(&self, id: u64) -> (r: Option<usize>)
        requires
            self.wf(),
        ensures
            match r {
                Some(i) => first_index(self@.nodes, live_node(id)) == Some(i as int),
                None => first_index(self@.nodes, live_node(id)) == None::<int>,
            },
    {
        let mut i: usize = 0;
        while i < self.nodes.len()
            invariant
                self.wf(),
                i <= MAX_NODES,
                forall|j: int| 0 <= j < i ==> !(#[trigger] live_node(id)(self@.nodes[j])),
            decreases MAX_NODES - i,
        {
            if self.nodes[i].active && self.nodes[i].id == id {
                proof { lemma_first_found(self@.nodes, live_node(id), i as int); }
                return Some(i);
            }
            i += 1;
        }
        proof { lemma_first_none(self@.nodes, live_node(id)); }
        None
    }

    fn find_edge(&self, id: u64) -> (r: Option<usize>)
        requires
            self.wf(),
        ensures
            match r {
                Some(i) => first_index(self@.edges, live_edge(id)) == Some(i as int),
                None => first_index(self@.edges, live_edge(id)) == None::<int>,
            },
    {
        let mut i: usize = 0;
        while i < self.edges.len()
            invariant
                self.wf(),
                i <= MAX_EDGES,
                forall|j: int| 0 <= j < i ==> !(#[trigger] live_edge(id)(self@.edges[j])),
            decreases MAX_EDGES - i,
        {
            if self.edges[i].active && self.edges[i].id == id {
                proof { lemma_first_found(self@.edges, live_edge(id), i as int); }
                return Some(i);
            }
            i += 1;
        }
        proof { lemma_first_none(self@.edges, live_edge(id)); }
        None
    }

    fn find_free_node(&self) -> (r: Option<usize>)
        requires
            self.wf(),
        ensures
            match r {
                Some(i) => first_index(self@.nodes, free_node()) == Some(i as int),
                None => first_index(self@.nodes, free_node()) == None::<int>,
            },
    {
        let mut i: usize = 0;
        while i < self.nodes.len()
            invariant
                self.wf(),
                i <= MAX_NODES,
                forall|j: int| 0 <= j < i ==> !(#[trigger] free_node()(self@.nodes[j])),
            decreases MAX_NODES - i,
        {
            if !self.nodes[i].active {
                proof { lemma_first_found(self@.nodes, free_node(), i as int); }
                return Some(i);
            }
            i += 1;
        }
        proof { lemma_first_none(self@.nodes, free_node()); }
        None
    }

    fn find_free_edge(&self) -> (r: Option<usize>)
        requires
            self.wf(),
        ensures
            match r {
                Some(i) => first_index(self@.edges, free_edge()) == Some(i as int),
                None => first_index(self@.edges, free_edge()) == None::<int>,
            },
    {
        let mut i: usize = 0;
        while i < self.edges.len()
            invariant
                self.wf(),
                i <= MAX_EDGES,
                forall|j: int| 0 <= j < i ==> !(#[trigger] free_edge()(self@.edges[j])),
            decreases MAX_EDGES - i,
        {
            if !self.edges[i].active {
                proof { lemma_first_found(self@.edges, free_edge(), i as int); }
                return Some(i);
            }
            i += 1;
        }
        proof { lemma_first_none(self@.edges, free_edge()); }
        None
    }

    fn find_duplicate_node(&self, provenance: u64, kind: u16) -> (r: Option<usize>)
        requires
            self.wf(),
        ensures
            match r {
                Some(i) => first_index(self@.nodes, duplicate_node(provenance, kind)) == Some(i as int),
                None => first_index(self@.nodes, duplicate_node(provenance, kind)) == None::<int>,
            },
    {
        let mut i: usize = 0;
        while i < self.nodes.len()
            invariant
                self.wf(),
                i <= MAX_NODES,
                forall|j: int|
                    0 <= j < i ==> !(#[trigger] duplicate_node(provenance, kind)(self@.nodes[j])),
            decreases MAX_NODES - i,
        {
            let n = self.nodes[i];
            if n.active && n.provenance == provenance && n.kind == kind {
                proof { lemma_first_found(self@.nodes, duplicate_node(provenance, kind), i as int); }
                return Some(i);
            }
            i += 1;
        }
        proof { lemma_first_none(self@.nodes, duplicate_node(provenance, kind)); }
        None
    }

    fn find_duplicate_edge(&self, provenance: u64, kind: u16, from: u64, to: u64) -> (r: Option<usize>)
        requires
            self.wf(),
        ensures
            match r {
                Some(i) => first_index(self@.edges, duplicate_edge(provenance, kind, from, to)) == Some(i as int),
                None => first_index(self@.edges, duplicate_edge(provenance, kind, from, to)) == None::<int>,
            },
    {
        let mut i: usize = 0;
        while i < self.edges.len()
            invariant
                self.wf(),
                i <= MAX_EDGES,
                forall|j: int|
                    0 <= j < i ==> !(#[trigger] duplicate_edge(provenance, kind, from, to)(self@.edges[j])),
            decreases MAX_EDGES - i,
        {
            let e = self.edges[i];
            if e.active && e.provenance == provenance && e.kind == kind && e.from == from && e.to == to {
                proof { lemma_first_found(self@.edges, duplicate_edge(provenance, kind, from, to), i as int); }
                return Some(i);
            }
            i += 1;
        }
        proof { lemma_first_none(self@.edges, duplicate_edge(provenance, kind, from, to)); }
        None
    }

    /// The first active node with identifier `id`.
    pub fn node(&self, id: u64) -> (r: Option<Node>)
        requires
            self.wf(),
        ensures
            r == spec_node(self@, id),
    {
        match self.find_node(id) {
            Some(i) => Some(self.nodes[i]),
            None => None,
        }
    }

    /// The first active edge with identifier `id`.
    pub fn edge(&self, id: u64) -> (r: Option<Edge>)
        requires
            self.wf(),
        ensures
            r == spec_edge(self@, id),
    {
        match self.find_edge(id) {
            Some(i) => Some(self.edges[i]),
            None => None,
        }
    }

    fn allocate_id(&mut self) -> (r: u64)
        requires
            old(self).wf(),
        ensures
            final(self).wf(),
            r == old(self)@.next_id,
            final(self)@ == (GraphModel { next_id: sat_inc(old(self)@.next_id), ..old(self)@ }),
    {
        let id = self.next_id;
        self.next_id = self.next_id.saturating_add(1);
        id
    }

    fn append_journal(&mut self, entry: JournalEntry)
        requires
            old(self).wf(),
        ensures
            final(self).wf(),
            final(self)@ == (GraphModel {
                journal: journal_append(old(self)@.journal, entry),
                ..old(self)@
            }),
    {
        let ghost old_journal = self@.journal;
        let h = self.journal_head;
        let l = self.journal_len;
        let index = (self.journal_head + self.journal_len) % MAX_JOURNAL;
        self.journal.set(index, entry);
        if self.journal_len < MAX_JOURNAL {
            self.journal_len = self.journal_len + 1;
            proof {
                assert forall|o: int| 0 <= o < l implies #[trigger] self@.journal[o] == old_journal[o] by {
                    assert((h + o) % 256 != index as int);
                }
                assert(self@.journal[l as int] == entry);
                assert(self@.journal =~= old_journal.push(entry));
            }
        } else {
            self.journal_head = (self.journal_head + 1) % MAX_JOURNAL;
            proof {
                let nh = self.journal_head;
                assert forall|o: int| 0 <= o < 255 implies #[trigger] self@.journal[o] == old_journal[o + 1] by {
                    assert((nh + o) % 256 == (h + 1 + o) % 256);
                    assert((h + 1 + o) % 256 != index as int);
                }
                assert(self@.journal[255] == entry) by {
                    assert((nh + 255) % 256 == index as int);
                }
                assert(self@.journal =~= old_journal.drop_first().push(entry));
            }
        }
    }

    fn commit_mutation(&mut self, kind: u8, object_id: u64, timestamp: u64, provenance: u64)
        requires
            old(self).wf(),
        ensures
            final(self).wf(),
            final(self)@ == commit(old(self)@, kind, object_id, timestamp, provenance),
    {
        self.generation = self.generation.saturating_add(1);
        self.append_journal(JournalEntry {
            generation: self.generation,
            timestamp,
            mutation_kind: kind,
            object_id,
            provenance,
        });
    }

    fn add_node(&mut self, kind: u16, flags: u16, weight: i32, parent: u64, now: u64, provenance: u64) -> (r: Result<u64, GraphError>)
        requires
            old(self).wf(),
        ensures
            final(self).wf(),
            r == spec_apply(old(self)@, Mutation::AddNode { kind, flags, weight, parent, now }, provenance).0,
            final(self)@ == spec_apply(old(self)@, Mutation::AddNode { kind, flags, weight, parent, now }, provenance).1,
    {
        if parent != 0 && self.find_node(parent).is_none() {
            return Err(GraphError::MissingNode);
        }
        if provenance != 0 {
            if let Some(i) = self.find_duplicate_node(provenance, kind) {
                return Ok(self.nodes[i].id);
            }
        }
        let id = self.allocate_id();
        match self.find_free_node() {
            None => Err(GraphError::Capacity),
            Some(slot) => {
                self.nodes.set(slot, Node {
                    id,
                    kind,
                    flags,
                    weight,
                    created_at: now,
                    updated_at: now,
                    provenance,
                    parent,
                    active: true,
                });
                self.commit_mutation(0, id, now, provenance);
                Ok(id)
            },
        }
    }

    /// Active neighbours of `target`, each scored by its weight, the weight
    /// of the connecting edge and its recency, best first, at most
    /// `min(max_results, MAX_RESULTS)` of them.
    pub fn scored_neighborhood(&self, target: u64, now: u64, max_results: usize) -> (r: QueryResult)
        requires
            self.wf(),
        ensures
            r.generation == self@.generation,
            (r.nodes@, r.count as nat) == neighborhood_upto(
                self@,
                target,
                now,
                min_nat(max_results as nat, MAX_RESULTS as nat),
                MAX_EDGES as int,
            ),
            r.count <= min_nat(max_results as nat, MAX_RESULTS as nat),
            is_ranked(r.nodes@, r.count as nat),
    {
        let mut result = empty_query(self.generation);
        let limit = if max_results < MAX_RESULTS {
            max_results
        } else {
            MAX_RESULTS
        };
        let ghost m = self@;
        let mut k: usize = 0;
        while k < self.edges.len()
            invariant
                self.wf(),
                m == self@,
                k <= MAX_EDGES,
                limit == min_nat(max_results as nat, MAX_RESULTS as nat),
                result.generation == self@.generation,
                (result.nodes@, result.count as nat) == neighborhood_upto(m, target, now, limit as nat, k as int),
                result.count <= limit,
                is_ranked(result.nodes@, result.count as nat),
            decreases MAX_EDGES - k,
        {
            let edge = self.edges[k];
            if edge.active && (edge.from == target || edge.to == target) {
                let peer = if edge.from == target {
                    edge.to
                } else {
                    edge.from
                };
                if let Some(node) = self.node(peer) {
                    let score = neighbor_score_exec(node, edge, now);
                    proof {
                        lemma_insert_ranked(result.nodes@, result.count as nat, ScoredNode { node, score }, limit as nat);
                    }
                    insert_ranked(&mut result, ScoredNode { node, score }, limit);
                }
            }
            k += 1;
        }
        result
    }

    /// Active nodes of `kind`, heaviest first, at most
    /// `min(max_results, MAX_RESULTS)` of them.
    pub fn nodes_by_kind(&self, kind: u16, max_results: usize) -> (r: QueryResult)
        requires
            self.wf(),
        ensures
            r.generation == self@.generation,
            (r.nodes@, r.count as nat) == kind_upto(
                self@,
                kind,
                min_nat(max_results as nat, MAX_RESULTS as nat),
                MAX_NODES as int,
            ),
            r.count <= min_nat(max_results as nat, MAX_RESULTS as nat),
            is_ranked(r.nodes@, r.count as nat),
            r.count == min_nat(min_nat(max_results as nat, MAX_RESULTS as nat), kind_count(self@.nodes, kind, MAX_NODES as int)),
    {
        let mut result = empty_query(self.generation);
        let limit = if max_results < MAX_RESULTS {
            max_results
        } else {
            MAX_RESULTS
        };
        let ghost m = self@;
        let mut k: usize = 0;
        while k < self.nodes.len()
            invariant
                self.wf(),
                m == self@,
                k <= MAX_NODES,
                limit == min_nat(max_results as nat, MAX_RESULTS as nat),
                result.generation == self@.generation,
                (result.nodes@, result.count as nat) == kind_upto(m, kind, limit as nat, k as int),
                result.count <= limit,
                is_ranked(result.nodes@, result.count as nat),
            decreases MAX_NODES - k,
        {
            let node = self.nodes[k];
            if node.active && node.kind == kind {
                proof {
                    lemma_insert_ranked(result.nodes@, result.count as nat, ScoredNode { node, score: node.weight }, limit as nat);
                }
                insert_ranked(&mut result, ScoredNode { node, score: node.weight }, limit);
            }
            k += 1;
        }
        proof { lemma_kind_query_count(m, kind, limit as nat, MAX_NODES as int); }
        result
    }

    /// Active nodes recorded with `provenance`, or whose identifier is
    /// `provenance`, heaviest first, at most `MAX_RESULTS` of them.
    pub fn provenance(&self, provenance: u64) -> (r: QueryResult)
        requires
            self.wf(),
        ensures
            r.generation == self@.generation,
            (r.nodes@, r.count as nat) == provenance_upto(self@, provenance, MAX_NODES as int),
            r.count <= MAX_RESULTS,
            is_ranked(r.nodes@, r.count as nat),
    {
        let mut result = empty_query(self.generation);
        let ghost m = self@;
        let mut k: usize = 0;
        while k < self.nodes.len()
            invariant
                self.wf(),
                m == self@,
                k <= MAX_NODES,
                result.generation == self@.generation,
                (result.nodes@, result.count as nat) == provenance_upto(m, provenance, k as int),
                result.count <= MAX_RESULTS,
                is_ranked(result.nodes@, result.count as nat),
            decreases MAX_NODES - k,
        {
            let node = self.nodes[k];
            if node.active && (node.provenance == provenance || node.id == provenance) {
                proof {
                    lemma_insert_ranked(result.nodes@, result.count as nat, ScoredNode { node, score: node.weight }, MAX_RESULTS as nat);
                }
                insert_ranked(&mut result, ScoredNode { node, score: node.weight }, MAX_RESULTS);
            }
            k += 1;
        }
        result
    }

    /// Number of active edges leaving `current`.
    fn out_degree(&self, current: u64) -> (r: usize)
        requires
            self.wf(),
        ensures
            r == self@.edges.filter(out_of(current)).len(),
    {
        let mut count: usize = 0;
        let mut k: usize = 0;
        while k < self.edges.len()
            invariant
                self.wf(),
                k <= MAX_EDGES,
                count == self@.edges.subrange(0, k as int).filter(out_of(current)).len(),
                count <= k,
            decreases MAX_EDGES - k,
        {
            proof { lemma_filter_step(self@.edges, out_of(current), k as int); }
            if self.edges[k].active && self.edges[k].from == current {
                count += 1;
            }
            k += 1;
        }
        assert(self@.edges.subrange(0, MAX_EDGES as int) =~= self@.edges);
        count
    }

    /// The `pick`-th active edge leaving `current`, in slot order.
    fn nth_out_edge(&self, current: u64, pick: usize) -> (r: Edge)
        requires
            self.wf(),
            pick < self@.edges.filter(out_of(current)).len(),
        ensures
            r == self@.edges.filter(out_of(current))[pick as int],
    {
        let ghost s = self@.edges;
        let ghost full = s.filter(out_of(current));
        let mut count: usize = 0;
        let mut k: usize = 0;
        proof { assert(s.subrange(0, MAX_EDGES as int) =~= s); }
        while k < self.edges.len()
            invariant
                self.wf(),
                s == self@.edges,
                full == s.filter(out_of(current)),
                s.subrange(0, MAX_EDGES as int) == s,
                pick < full.len(),
                k <= MAX_EDGES,
                count == s.subrange(0, k as int).filter(out_of(current)).len(),
                count <= pick,
            decreases MAX_EDGES - k,
        {
            proof {
                lemma_filter_step(s, out_of(current), k as int);
                lemma_filter_prefix(s, out_of(current), k + 1, MAX_EDGES as int);
            }
            let e = self.edges[k];
            if e.active && e.from == current {
                if count == pick {
                    assert(s.subrange(0, k + 1).filter(out_of(current))[pick as int] == e);
                    return e;
                }
                count += 1;
            }
            k += 1;
        }
        proof { lemma_filter_prefix(s, out_of(current), MAX_EDGES as int, MAX_EDGES as int); }
        assert(false);
        self.edges[0]
    }

    /// A reproducible walk of at most `min(steps, MAX_RESULTS)` positions from
    /// `start`, driven by xorshift64 seeded with `seed ^ start ^ generation`;
    /// unused positions are zero.
    pub fn deterministic_walk(&self, start: u64, seed: u64, steps: usize) -> (r: [u64; MAX_RESULTS])
        requires
            self.wf(),
        ensures
            ({
                let w = walk_from(
                    self@,
                    start,
                    seed ^ start ^ self@.generation,
                    min_nat(steps as nat, MAX_RESULTS as nat),
                );
                &&& w.len() <= MAX_RESULTS
                &&& forall|i: int|
                    0 <= i < MAX_RESULTS ==> r@[i] == (if i < w.len() {
                        w[i]
                    } else {
                        0u64
                    })
            }),
    {
        let mut out = [0u64; MAX_RESULTS];
        let mut current = start;
        let mut rng = seed ^ start ^ self.generation;
        let count = if steps < MAX_RESULTS {
            steps
        } else {
            MAX_RESULTS
        };
        let ghost m = self@;
        let ghost w = walk_from(m, start, rng, count as nat);
        assert(count as nat == min_nat(steps as nat, MAX_RESULTS as nat));
        assert(w == walk_from(self@, start, seed ^ start ^ self@.generation, min_nat(steps as nat, MAX_RESULTS as nat)));
        proof {
            lemma_walk_len(m, start, rng, count as nat);
            assert(out@.subrange(0, 0) + walk_from(m, current, rng, count as nat) =~= w);
        }
        let mut slot: usize = 0;
        while slot < count
            invariant
                self.wf(),
                m == self@,
                count <= MAX_RESULTS,
                slot <= count,
                w.len() <= count,
                w == walk_from(m, start, seed ^ start ^ m.generation, min_nat(steps as nat, MAX_RESULTS as nat)),
                w == out@.subrange(0, slot as int) + walk_from(m, current, rng, (count - slot) as nat),
                forall|j: int| slot <= j < MAX_RESULTS ==> out@[j] == 0,
            decreases count - slot,
        {
            out[slot] = current;
            let degree = self.out_degree(current);
            if degree == 0 {
                proof {
                    assert(walk_from(m, current, rng, (count - slot) as nat) == seq![current]);
                    assert(w =~= out@.subrange(0, slot + 1));
                    assert forall|i: int| 0 <= i < MAX_RESULTS implies out@[i] == (if i < w.len() {
                        w[i]
                    } else {
                        0u64
                    }) by {
                        if i < slot + 1 {
                            assert(w[i] == out@.subrange(0, slot + 1)[i]);
                        }
                    }
                }
                return out;
            }
            rng = rng ^ (rng << 13u64);
            rng = rng ^ (rng >> 7u64);
            rng = rng ^ (rng << 17u64);
            let pick = (rng % (degree as u64)) as usize;
            let edge = self.nth_out_edge(current, pick);
            proof {
                assert(out@.subrange(0, slot + 1) =~= out@.subrange(0, slot as int).push(current));
                assert(w =~= out@.subrange(0, slot + 1) + walk_from(m, edge.to, rng, (count - slot - 1) as nat));
            }
            current = edge.to;
            slot += 1;
        }
        assert(w =~= out@.subrange(0, count as int));
        assert forall|i: int| 0 <= i < MAX_RESULTS implies out@[i] == (if i < w.len() {
            w[i]
        } else {
            0u64
        }) by {
            if i < count {
                assert(w[i] == out@.subrange(0, count as int)[i]);
            }
        }
        out
    }

    /// Counts of active nodes and edges, the largest active degree, a
    /// checksum of the active structure and the power-iteration estimate of
    /// the dominant Laplacian eigenvalue.
    pub fn spectral_snapshot(&self) -> (r: SpectralSnapshot)
        requires
            self.wf(),
        ensures
            r == spec_spectral_snapshot(self@),
    {
        let nodes = self.nodes();
        let edges = self.edges();
        proof {
            self@.nodes.lemma_filter_len(active_node());
            self@.edges.lemma_filter_len(active_edge());
        }
        let active_nodes = nodes.len() as u32;
        let active_edges = edges.len() as u32;
        let mut max_degree: u32 = 0;
        let mut checksum: u64 = 0xcbf29ce484222325u64;
        let ghost m = self@;
        let mut k: usize = 0;
        while k < self.nodes.len()
            invariant
                self.wf(),
                m == self@,
                k <= MAX_NODES,
                (max_degree as nat, checksum) == structure_upto(m, k as int),
                max_degree <= MAX_EDGES,
            decreases MAX_NODES - k,
        {
            let node = self.nodes[k];
            if node.active {
                let degree = self.touch_degree(node.id) as u32;
                if degree > max_degree {
                    max_degree = degree;
                }
                checksum = checksum ^ node.id ^ ((degree as u64) << 32u64) ^ (node.weight as u32 as u64);
                checksum = checksum.wrapping_mul(0x100000001b3u64);
            }
            k += 1;
        }
        let (dominant_eigen_q16, spectral_energy) = self.laplacian_power_iteration();
        SpectralSnapshot {
            generation: self.generation,
            active_nodes,
            active_edges,
            laplacian_trace: active_edges as u64 * 2,
            max_degree,
            dominant_eigen_q16,
            spectral_energy,
            checksum,
        }
    }

    /// Number of active edges touching `id`.
    fn touch_degree(&self, id: u64) -> (r: usize)
        requires
            self.wf(),
        ensures
            r == degree_of(self@, id),
            r <= MAX_EDGES,
    {
        let mut count: usize = 0;
        let mut k: usize = 0;
        while k < self.edges.len()
            invariant
                self.wf(),
                k <= MAX_EDGES,
                count == self@.edges.subrange(0, k as int).filter(touches(id)).len(),
                count <= k,
            decreases MAX_EDGES - k,
        {
            proof { lemma_filter_step(self@.edges, touches(id), k as int); }
            let e = self.edges[k];
            if e.active && (e.from == id || e.to == id) {
                count += 1;
            }
            k += 1;
        }
        assert(self@.edges.subrange(0, MAX_EDGES as int) =~= self@.edges);
        count
    }

    /// Row `i` of the Laplacian applied to `vector`.
    fn laplacian_row_exec(&self, vector: &Vec<i64>, i: usize) -> (r: i64)
        requires
            self.wf(),
            vector@.len() == MAX_NODES,
            i < MAX_NODES,
            bounded_by(ints(vector@), 65_536),
        ensures
            r == laplacian_row(self@, ints(vector@), i as int),
            -33_554_432 <= r <= 33_554_432,
    {
        let node = self.nodes[i];
        if !node.active {
            return 0;
        }
        let ghost v = ints(vector@);
        let id = node.id;
        let mut degree: i64 = 0;
        let mut sum: i64 = 0;
        let mut k: usize = 0;
        while k < self.edges.len()
            invariant
                self.wf(),
                v == ints(vector@),
                vector@.len() == MAX_NODES,
                bounded_by(v, 65_536),
                k <= MAX_EDGES,
                (degree as int, sum as int) == row_terms(self@, v, id, k as int),
                0 <= degree <= k,
                -(degree * 65_536) <= sum <= degree * 65_536,
            decreases MAX_EDGES - k,
        {
            let e = self.edges[k];
            if e.active && (e.from == id || e.to == id) {
                let peer = if e.from == id {
                    e.to
                } else {
                    e.from
                };
                if let Some(p) = self.find_node(peer) {
                    assert(-65_536 <= v[p as int] <= 65_536);
                    sum = sum + vector[p];
                    degree = degree + 1;
                }
            }
            k += 1;
        }
        let x = vector[i];
        assert(-65_536 <= v[i as int] <= 65_536);
        assert(-16_777_216 <= degree * x <= 16_777_216) by (nonlinear_arith)
            requires
                0 <= degree <= 256,
                -65_536 <= x <= 65_536,
        ;
        degree * x - sum
    }

    fn laplacian_image_exec(&self, vector: &Vec<i64>) -> (image: Vec<i64>)
        requires
            self.wf(),
            vector@.len() == MAX_NODES,
            bounded_by(ints(vector@), 65_536),
        ensures
            image@.len() == MAX_NODES,
            ints(image@) == laplacian_image(self@, ints(vector@)),
            bounded_by(ints(image@), 33_554_432),
    {
        let mut image: Vec<i64> = Vec::new();
        let mut i: usize = 0;
        while i < MAX_NODES
            invariant
                self.wf(),
                vector@.len() == MAX_NODES,
                bounded_by(ints(vector@), 65_536),
                i <= MAX_NODES,
                image@.len() == i,
                forall|j: int| 0 <= j < i ==> #[trigger] image@[j] == laplacian_row(self@, ints(vector@), j),
                forall|j: int| 0 <= j < i ==> -33_554_432 <= #[trigger] image@[j] <= 33_554_432,
            decreases MAX_NODES - i,
        {
            let r = self.laplacian_row_exec(vector, i);
            image.push(r);
            i += 1;
        }
        assert(ints(image@) =~= laplacian_image(self@, ints(vector@)));
        image
    }

    /// One normalized power step: the image scaled so its largest entry is
    /// 65536 in magnitude.
    fn normalize_exec(image: &Vec<i64>) -> (v: Vec<i64>)
        requires
            image@.len() == MAX_NODES,
            bounded_by(ints(image@), 33_554_432),
        ensures
            v@.len() == MAX_NODES,
            ints(v@) == normalized(ints(image@)),
            bounded_by(ints(v@), 65_536),
    {
        let ghost img = ints(image@);
        let mut scale: i64 = 0;
        let mut j: usize = 0;
        while j < MAX_NODES
            invariant
                img == ints(image@),
                image@.len() == MAX_NODES,
                bounded_by(img, 33_554_432),
                j <= MAX_NODES,
                scale == max_abs_upto(img, j as int),
                0 <= scale <= 33_554_432,
            decreases MAX_NODES - j,
        {
            let x = image[j];
            assert(-33_554_432 <= img[j as int] <= 33_554_432);
            let a = if x < 0 {
                -x
            } else {
                x
            };
            if a > scale {
                scale = a;
            }
            j += 1;
        }
        if scale < 1 {
            scale = 1;
        }
        assert(scale == power_scale(img));
        let mut v: Vec<i64> = Vec::new();
        let mut i: usize = 0;
        while i < MAX_NODES
            invariant
                img == ints(image@),
                image@.len() == MAX_NODES,
                bounded_by(img, 33_554_432),
                scale == power_scale(img),
                1 <= scale <= 33_554_432,
                i <= MAX_NODES,
                v@.len() == i,
                forall|k: int| 0 <= k < i ==> #[trigger] v@[k] == normalized(img)[k],
                forall|k: int| 0 <= k < i ==> -65_536 <= #[trigger] v@[k] <= 65_536,
            decreases MAX_NODES - i,
        {
            let x = image[i];
            proof {
                lemma_max_abs_bound(img, MAX_NODES as int, i as int);
                lemma_normalize_bound(img[i as int], scale as int);
            }
            assert(-33_554_432 <= x <= 33_554_432);
            let q = trunc_div_i64(x * 65_536, scale);
            v.push(q);
            i += 1;
        }
        assert(ints(v@) =~= normalized(img));
        v
    }

    /// Twelve deterministic fixed-point power iterations over the unweighted
    /// graph Laplacian, then the Rayleigh quotient (Q16) and residual energy.
    fn laplacian_power_iteration(&self) -> (r: (i32, u64))
        requires
            self.wf(),
        ensures
            r == spectral_estimate(self@),
    {
        let ghost m = self@;
        let mut vector: Vec<i64> = Vec::new();
        let mut i: usize = 0;
        while i < MAX_NODES
            invariant
                self.wf(),
                m == self@,
                i <= MAX_NODES,
                vector@.len() == i,
                forall|k: int| 0 <= k < i ==> #[trigger] vector@[k] == power_start(m)[k],
            decreases MAX_NODES - i,
        {
            if self.nodes[i].active {
                if i % 2 == 0 {
                    vector.push(65_536);
                } else {
                    vector.push(-65_536);
                }
            } else {
                vector.push(0);
            }
            i += 1;
        }
        assert(ints(vector@) =~= power_vector(m, 0));
        proof { lemma_power_bound(m, 0); }
        let mut iteration: usize = 0;
        while iteration < POWER_ITERATIONS
            invariant
                self.wf(),
                m == self@,
                iteration <= POWER_ITERATIONS,
                vector@.len() == MAX_NODES,
                ints(vector@) == power_vector(m, iteration as nat),
                bounded_by(ints(vector@), 65_536),
            decreases POWER_ITERATIONS - iteration,
        {
            let image = self.laplacian_image_exec(&vector);
            vector = Self::normalize_exec(&image);
            iteration += 1;
        }
        let image = self.laplacian_image_exec(&vector);
        let ghost v = ints(vector@);
        let ghost img = ints(image@);
        let mut numerator: i128 = 0;
        let mut denominator: i128 = 0;
        let mut energy: u64 = 0;
        let mut k: usize = 0;
        while k < MAX_NODES
            invariant
                self.wf(),
                m == self@,
                v == ints(vector@),
                img == ints(image@),
                img == laplacian_image(m, v),
                v == power_vector(m, POWER_ITERATIONS as nat),
                vector@.len() == MAX_NODES,
                image@.len() == MAX_NODES,
                bounded_by(v, 65_536),
                bounded_by(img, 33_554_432),
                k <= MAX_NODES,
                (numerator as int, denominator as int, energy as int) == rayleigh_upto(m, v, img, k as int),
                -(k * 0x200_0000_0000) <= numerator <= k * 0x200_0000_0000,
                0 <= denominator <= k * 0x1_0000_0000,
                0 <= energy <= k * 0x4_0000_0000_0000,
            decreases MAX_NODES - k,
        {
            if self.nodes[k].active {
                let x = vector[k] as i128;
                let y = image[k] as i128;
                assert(-65_536 <= v[k as int] <= 65_536);
                assert(-33_554_432 <= img[k as int] <= 33_554_432);
                assert(-0x200_0000_0000 <= x * y <= 0x200_0000_0000) by (nonlinear_arith)
                    requires
                        -65_536 <= x <= 65_536,
                        -33_554_432 <= y <= 33_554_432,
                ;
                assert(0 <= x * x <= 0x1_0000_0000) by (nonlinear_arith)
                    requires
                        -65_536 <= x <= 65_536,
                ;
                assert(0 <= y * y <= 0x4_0000_0000_0000) by (nonlinear_arith)
                    requires
                        -33_554_432 <= y <= 33_554_432,
                ;
                numerator = numerator + x * y;
                denominator = denominator + x * x;
                let a: u64 = if image[k] < 0 {
                    (-image[k]) as u64
                } else {
                    image[k] as u64
                };
                assert(a * a == y * y) by (nonlinear_arith)
                    requires
                        a == abs_int(y as int),
                ;
                energy = energy + a * a;
            }
            k += 1;
        }
        let eigen = if denominator == 0 {
            0
        } else {
            let q = trunc_div_i128(numerator * 65_536, denominator);
            if q > i32::MAX as i128 {
                i32::MAX
            } else if q < i32::MIN as i128 {
                i32::MIN
            } else {
                q as i32
            }
        };
        (eigen, energy)
    }

    /// The journal entries, oldest first.
    pub fn journal_entries(&self) -> (r: Vec<JournalEntry>)
        requires
            self.wf(),
        ensures
            r@ == self@.journal,
    {
        let mut out: Vec<JournalEntry> = Vec::new();
        let mut o: usize = 0;
        while o < self.journal_len
            invariant
                self.wf(),
                o <= self.journal_len,
                out@ == self@.journal.subrange(0, o as int),
            decreases self.journal_len - o,
        {
            out.push(self.journal[(self.journal_head + o) % MAX_JOURNAL]);
            o += 1;
            assert(out@ =~= self@.journal.subrange(0, o as int));
        }
        assert(self@.journal.subrange(0, self.journal_len as int) =~= self@.journal);
        out
    }

    /// Mutations journaled after `from_generation`, and node and edge counts
    /// relative to a baseline.  The report is marked truncated when the
    /// journal is full and its oldest entry is newer than `from_generation`.
    pub fn drift_report(&self, from_generation: u64, baseline_nodes: u32, baseline_edges: u32) -> (r: DriftReport)
        requires
            self.wf(),
            i32::MIN <= self@.nodes.filter(active_node()).len() - (baseline_nodes as i32) <= i32::MAX,
            i32::MIN <= self@.edges.filter(active_edge()).len() - (baseline_edges as i32) <= i32::MAX,
        ensures
            r == (DriftReport {
                from_generation,
                to_generation: self@.generation,
                mutation_count: self@.journal.filter(after_generation(from_generation)).len() as u32,
                node_delta: (self@.nodes.filter(active_node()).len() - (baseline_nodes as i32)) as i32,
                edge_delta: (self@.edges.filter(active_edge()).len() - (baseline_edges as i32)) as i32,
                journal_truncated: self@.journal.len() == MAX_JOURNAL && from_generation < (if self@.journal.len()
                    > 0 {
                    self@.journal[0].generation
                } else {
                    0
                }),
            }),
    {
        let nodes = self.nodes();
        let edges = self.edges();
        proof {
            self@.nodes.lemma_filter_len(active_node());
            self@.edges.lemma_filter_len(active_edge());
        }
        let current_nodes = nodes.len() as i32;
        let current_edges = edges.len() as i32;
        let entries = self.journal_entries();
        let mut mutation_count: u32 = 0;
        let mut k: usize = 0;
        while k < entries.len()
            invariant
                entries@ == self@.journal,
                entries@.len() <= MAX_JOURNAL,
                k <= entries@.len(),
                mutation_count == entries@.subrange(0, k as int).filter(after_generation(from_generation)).len(),
                mutation_count <= k,
            decreases entries@.len() - k,
        {
            proof { lemma_filter_step(entries@, after_generation(from_generation), k as int); }
            if entries[k].generation > from_generation {
                mutation_count += 1;
            }
            k += 1;
        }
        assert(entries@.subrange(0, entries@.len() as int) =~= entries@);
        let oldest = if entries.len() > 0 {
            entries[0].generation
        } else {
            0
        };
        DriftReport {
            from_generation,
            to_generation: self.generation,
            mutation_count,
            node_delta: current_nodes - baseline_nodes as i32,
            edge_delta: current_edges - baseline_edges as i32,
            journal_truncated: self.journal_len == MAX_JOURNAL && from_generation < oldest,
        }
    }

    /// Write the snapshot of this state into the first `SNAPSHOT_CAP` bytes
    /// of `out`; a shorter buffer is refused and left untouched.
    pub fn encode_snapshot(&self, out: &mut [u8]) -> (r: Result<usize, GraphError>)
        requires
            self.wf(),
        ensures
            old(out)@.len() < SNAPSHOT_CAP ==> r == Err::<usize, GraphError>(GraphError::Capacity)
                && final(out)@ == old(out)@,
            old(out)@.len() >= SNAPSHOT_CAP ==> r == Ok::<usize, GraphError>(SNAPSHOT_CAP)
                && final(out)@.len() == old(out)@.len()
                && final(out)@.subrange(0, SNAPSHOT_CAP as int) == snapshot_bytes(self@)
                && final(out)@.subrange(SNAPSHOT_CAP as int, old(out)@.len() as int)
                    == old(out)@.subrange(SNAPSHOT_CAP as int, old(out)@.len() as int),
    {
        if out.len() < SNAPSHOT_CAP {
            return Err(GraphError::Capacity);
        }
        let ghost m = self@;
        let ghost orig = out@;
        let ghost len = out@.len();
        let mut k: usize = 0;
        while k < SNAPSHOT_CAP
            invariant
                out@.len() == len,
                orig.len() == len,
                len >= SNAPSHOT_CAP,
                k <= SNAPSHOT_CAP,
                forall|j: int| 0 <= j < k ==> #[trigger] out@[j] == 0,
                forall|j: int| k <= j < len ==> #[trigger] out@[j] == orig[j],
            decreases SNAPSHOT_CAP - k,
        {
            out[k] = 0;
            k += 1;
        }
        put_u32(out, 0, SNAPSHOT_VERSION);
        put_u64(out, 8, self.generation);
        put_u64(out, 16, self.next_id);
        put_u32(out, 24, self.journal_len as u32);
        proof {
            lemma_header_bytes(m);
            assert forall|j: int| 0 <= j < NODES_OFFSET implies #[trigger] out@[j] == snapshot_bytes(m)[j] by {
                assert(snapshot_bytes(m)[j] == header_byte(m, j));
            }
        }
        let mut i: usize = 0;
        while i < MAX_NODES
            invariant
                self.wf(),
                m == self@,
                out@.len() == len,
                orig.len() == len,
                len >= SNAPSHOT_CAP,
                i <= MAX_NODES,
                forall|j: int| 0 <= j < NODES_OFFSET + NODE_RECORD * i ==> #[trigger] out@[j] == snapshot_bytes(m)[j],
                forall|j: int| NODES_OFFSET + NODE_RECORD * i <= j < SNAPSHOT_CAP ==> #[trigger] out@[j] == 0,
                forall|j: int| SNAPSHOT_CAP <= j < len ==> #[trigger] out@[j] == orig[j],
            decreases MAX_NODES - i,
        {
            let o = NODES_OFFSET + NODE_RECORD * i;
            put_node_record(out, o, self.nodes[i]);
            proof { lemma_node_bytes(m, i as int); }
            i += 1;
        }
        let mut i: usize = 0;
        while i < MAX_EDGES
            invariant
                self.wf(),
                m == self@,
                out@.len() == len,
                orig.len() == len,
                len >= SNAPSHOT_CAP,
                i <= MAX_EDGES,
                forall|j: int| 0 <= j < EDGES_OFFSET + EDGE_RECORD * i ==> #[trigger] out@[j] == snapshot_bytes(m)[j],
                forall|j: int| EDGES_OFFSET + EDGE_RECORD * i <= j < SNAPSHOT_CAP ==> #[trigger] out@[j] == 0,
                forall|j: int| SNAPSHOT_CAP <= j < len ==> #[trigger] out@[j] == orig[j],
            decreases MAX_EDGES - i,
        {
            let o = EDGES_OFFSET + EDGE_RECORD * i;
            put_edge_record(out, o, self.edges[i]);
            proof { lemma_edge_bytes(m, i as int); }
            i += 1;
        }
        let mut i: usize = 0;
        while i < self.journal_len
            invariant
                self.wf(),
                m == self@,
                out@.len() == len,
                orig.len() == len,
                len >= SNAPSHOT_CAP,
                i <= self.journal_len,
                forall|j: int| 0 <= j < JOURNAL_OFFSET + JOURNAL_RECORD * i ==> #[trigger] out@[j] == snapshot_bytes(m)[j],
                forall|j: int| JOURNAL_OFFSET + JOURNAL_RECORD * i <= j < SNAPSHOT_CAP ==> #[trigger] out@[j] == 0,
                forall|j: int| SNAPSHOT_CAP <= j < len ==> #[trigger] out@[j] == orig[j],
            decreases self.journal_len - i,
        {
            let o = JOURNAL_OFFSET + JOURNAL_RECORD * i;
            let entry = self.journal[(self.journal_head + i) % MAX_JOURNAL];
            assert(entry == m.journal[i as int]);
            put_journal_record(out, o, entry);
            proof { lemma_journal_bytes(m, i as int); }
            i += 1;
        }
        proof {
            assert forall|j: int| 0 <= j < SNAPSHOT_CAP implies #[trigger] out@[j] == snapshot_bytes(m)[j] by {
                if j >= JOURNAL_OFFSET + JOURNAL_RECORD * self.journal_len {
                    lemma_snapshot_tail(m, j);
                }
            }
            assert(out@.subrange(0, SNAPSHOT_CAP as int) =~= snapshot_bytes(m));
            assert(out@.subrange(SNAPSHOT_CAP as int, len as int) =~= orig.subrange(SNAPSHOT_CAP as int, len as int));
        }
        Ok(SNAPSHOT_CAP)
    }

    /// Replace this state with the one a snapshot holds.  A buffer shorter
    /// than `SNAPSHOT_CAP` or of another version is refused and nothing
    /// changes.
    pub fn decode_snapshot(&mut self, input: &[u8]) -> (r: Result<(), GraphError>)
        requires
            old(self).wf(),
        ensures
            final(self).wf(),
            snapshot_valid(input@) ==> r is Ok && final(self)@ == decode_model(input@),
            !snapshot_valid(input@) ==> r == Err::<(), GraphError>(GraphError::InvalidSnapshot)
                && final(self)@ == old(self)@,
    {
        if input.len() < SNAPSHOT_CAP || get_u32(input, 0) != SNAPSHOT_VERSION {
            return Err(GraphError::InvalidSnapshot);
        }
        let ghost d = decode_model(input@);
        let mut nodes: Vec<Node> = Vec::new();
        let mut i: usize = 0;
        while i < MAX_NODES
            invariant
                input@.len() >= SNAPSHOT_CAP,
                d == decode_model(input@),
                i <= MAX_NODES,
                nodes@.len() == i,
                forall|j: int| 0 <= j < i ==> #[trigger] nodes@[j] == d.nodes[j],
            decreases MAX_NODES - i,
        {
            nodes.push(read_node_record(input, NODES_OFFSET + NODE_RECORD * i));
            i += 1;
        }
        let mut edges: Vec<Edge> = Vec::new();
        let mut i: usize = 0;
        while i < MAX_EDGES
            invariant
                input@.len() >= SNAPSHOT_CAP,
                d == decode_model(input@),
                i <= MAX_EDGES,
                edges@.len() == i,
                forall|j: int| 0 <= j < i ==> #[trigger] edges@[j] == d.edges[j],
            decreases MAX_EDGES - i,
        {
            edges.push(read_edge_record(input, EDGES_OFFSET + EDGE_RECORD * i));
            i += 1;
        }
        let stored = get_u32(input, 24);
        let persisted: usize = if stored < MAX_JOURNAL as u32 {
            stored as usize
        } else {
            MAX_JOURNAL
        };
        let mut journal: Vec<JournalEntry> = Vec::new();
        let mut i: usize = 0;
        while i < MAX_JOURNAL
            invariant
                input@.len() >= SNAPSHOT_CAP,
                d == decode_model(input@),
                persisted == d.journal.len(),
                persisted <= MAX_JOURNAL,
                i <= MAX_JOURNAL,
                journal@.len() == i,
                forall|j: int| 0 <= j < i && j < persisted ==> #[trigger] journal@[j] == d.journal[j],
            decreases MAX_JOURNAL - i,
        {
            if i < persisted {
                journal.push(read_journal_record(input, JOURNAL_OFFSET + JOURNAL_RECORD * i));
            } else {
                journal.push(empty_journal());
            }
            i += 1;
        }
        let generation = get_u64(input, 8);
        let stored_next = get_u64(input, 16);
        self.nodes = nodes;
        self.edges = edges;
        self.journal = journal;
        self.journal_head = 0;
        self.journal_len = persisted;
        self.generation = generation;
        self.next_id = if stored_next < 1 {
            1
        } else {
            stored_next
        };
        assert(self@.nodes =~= d.nodes);
        assert(self@.edges =~= d.edges);
        assert(self@.journal =~= d.journal);
        Ok(())
    }

    /// Deactivate every active edge that touches `id`.
    fn detach_edges(&mut self, id: u64)
        requires
            old(self).wf(),
        ensures
            final(self).wf(),
            final(self)@ == (GraphModel { edges: old(self)@.edges.map_values(detach_edge(id)), ..old(self)@ }),
    {
        let ghost before = self.edges@;
        let mut k: usize = 0;
        while k < self.edges.len()
            invariant
                self.wf(),
                k <= MAX_EDGES,
                before.len() == MAX_EDGES,
                self.nodes@ == old(self).nodes@,
                self.journal@ == old(self).journal@,
                self.journal_head == old(self).journal_head,
                self.journal_len == old(self).journal_len,
                self.generation == old(self).generation,
                self.next_id == old(self).next_id,
                before == old(self).edges@,
                forall|j: int| 0 <= j < k ==> self.edges@[j] == detach_edge(id)(before[j]),
                forall|j: int| k <= j < MAX_EDGES ==> self.edges@[j] == before[j],
            decreases MAX_EDGES - k,
        {
            let e = self.edges[k];
            if e.active && (e.from == id || e.to == id) {
                self.edges.set(k, Edge { active: false, ..e });
            }
            k += 1;
        }
        assert(self.edges@ =~= before.map_values(detach_edge(id)));
        assert(self@ =~= GraphModel { edges: old(self)@.edges.map_values(detach_edge(id)), ..old(self)@ });
    }

    /// Apply one mutation on behalf of `provenance` and return the identifier
    /// of the object it concerns.  A non-zero provenance makes additions
    /// idempotent: re-adding what that provenance already added returns the
    /// existing identifier and changes nothing.
    pub fn apply(&mut self, mutation: Mutation, provenance: u64) -> (r: Result<u64, GraphError>)
        requires
            old(self).wf(),
        ensures
            final(self).wf(),
            r == spec_apply(old(self)@, mutation, provenance).0,
            final(self)@ == spec_apply(old(self)@, mutation, provenance).1,
    {
        let r = match mutation {
            Mutation::AddNode { kind, flags, weight, parent, now } => {
                self.add_node(kind, flags, weight, parent, now, provenance)
            },
            Mutation::AddEdge { kind, flags, weight, from, to, now } => {
                if self.find_node(from).is_none() || self.find_node(to).is_none() {
                    return Err(GraphError::InvalidEdge);
                }
                if provenance != 0 {
                    if let Some(i) = self.find_duplicate_edge(provenance, kind, from, to) {
                        return Ok(self.edges[i].id);
                    }
                }
                let id = self.allocate_id();
                match self.find_free_edge() {
                    None => Err(GraphError::Capacity),
                    Some(slot) => {
                        self.edges.set(slot, Edge {
                            id,
                            from,
                            to,
                            kind,
                            flags,
                            weight,
                            created_at: now,
                            provenance,
                            active: true,
                        });
                        self.commit_mutation(1, id, now, provenance);
                        Ok(id)
                    },
                }
            },
            Mutation::UpdateNode { id, flags, weight, now } => {
                let i = match self.find_node(id) {
                    Some(i) => i,
                    None => return Err(GraphError::MissingNode),
                };
                let old_node = self.nodes[i];
                self.nodes.set(i, Node { flags, weight, updated_at: now, ..old_node });
                self.commit_mutation(2, id, now, provenance);
                Ok(id)
            },
            Mutation::UpdateEdge { id, weight, now } => {
                let i = match self.find_edge(id) {
                    Some(i) => i,
                    None => return Err(GraphError::MissingEdge),
                };
                let old_edge = self.edges[i];
                self.edges.set(i, Edge { weight, ..old_edge });
                self.commit_mutation(3, id, now, provenance);
                Ok(id)
            },
            Mutation::DeactivateNode { id, now } => {
                let i = match self.find_node(id) {
                    Some(i) => i,
                    None => return Err(GraphError::MissingNode),
                };
                let old_node = self.nodes[i];
                self.nodes.set(i, Node { active: false, updated_at: now, ..old_node });
                self.detach_edges(id);
                self.commit_mutation(4, id, now, provenance);
                Ok(id)
            },
            Mutation::DeactivateEdge { id, now } => {
                let i = match self.find_edge(id) {
                    Some(i) => i,
                    None => return Err(GraphError::MissingEdge),
                };
                let old_edge = self.edges[i];
                self.edges.set(i, Edge { active: false, ..old_edge });
                self.commit_mutation(5, id, now, provenance);
                Ok(id)
            },
        };
        r
    }
}

} // verus!
