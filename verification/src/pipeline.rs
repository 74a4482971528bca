//! Retrieval pipeline with lexical/graph reciprocal-rank fusion.
//!
//! It returns ranked evidence and an explicitly uncalibrated
//! `support_score`; it makes no claim of causal or compositional inference.

use vstd::prelude::*;
use crate::bm25::{Bm25Index, query_pairs, query_views};
use crate::kinds::{NodeId, Weight, WEIGHT_ONE};
use crate::pagerank::{PageRankEngine, RankModel, compute_spec, top_pairs};
use crate::search::{first_index, is_first, lemma_first_found, lemma_first_none};
use vstd::multiset::Multiset;

verus! {

pub const MAX_EVIDENCE: usize = 8;
pub const CHANNEL_CANDIDATES: usize = 16;
pub const MAX_QUERY_TERMS: usize = 32;
pub const RRF_K: u32 = 60;

#[derive(Clone, Copy, Debug, PartialEq, Eq, Structural)]
pub enum RetrievalStrategy {
    ReciprocalRankFusion,
}

#[derive(Clone, Copy, Debug, PartialEq, Eq, Structural)]
pub enum RecoveryStrategy {
    SynonymExpansion,
    BroadenScope,
    LowerThreshold,
    AskClarifying,
}

#[derive(Clone, Copy, Debug, PartialEq, Eq, Structural)]
pub enum RetrievalChannel {
    Lexical,
    Graph,
}

#[derive(Clone, Copy, Debug, PartialEq, Eq, Structural)]
pub struct Evidence {
    pub node_id: NodeId,
    pub score: Weight,
    pub primary_channel: RetrievalChannel,
}

pub open spec fn empty_evidence() -> Evidence {
    Evidence { node_id: 0, score: 0, primary_channel: RetrievalChannel::Lexical }
}

pub struct PipelineResult {
    pub evidence: [Evidence; MAX_EVIDENCE],
    pub evidence_count: usize,
    pub strategy: RetrievalStrategy,
    pub recovery_used: bool,
    pub recovery_strategy: RecoveryStrategy,
    /// Rank-fusion support, not a probability of correctness.
    pub support_score: Weight,
    /// Count of results whose graph node still exists: provenance
    /// integrity only, not entailment or answer correctness.
    pub provenance_live_nodes: u32,
    /// Bit 0 = lexical channel, bit 1 = personalized graph channel.
    pub channels_used: u8,
}

/// The fields of a result that hold no evidence yet.
pub open spec fn is_empty_result(r: PipelineResult, recovery_used: bool) -> bool {
    &&& r.evidence@ == Seq::new(MAX_EVIDENCE as nat, |i: int| empty_evidence())
    &&& r.evidence_count == 0
    &&& r.strategy == RetrievalStrategy::ReciprocalRankFusion
    &&& r.recovery_used == recovery_used
    &&& r.recovery_strategy == RecoveryStrategy::AskClarifying
    &&& r.support_score == 0
    &&& r.provenance_live_nodes == 0
    &&& r.channels_used == 0
}

impl PipelineResult {
    /// No evidence, no recovery, no channel.
    pub fn empty() -> (r: Self)
        ensures
            is_empty_result(r, false),
    {
        let r = PipelineResult {
            evidence: [Evidence { node_id: 0, score: 0, primary_channel: RetrievalChannel::Lexical }; MAX_EVIDENCE],
            evidence_count: 0,
            strategy: RetrievalStrategy::ReciprocalRankFusion,
            recovery_used: false,
            recovery_strategy: RecoveryStrategy::AskClarifying,
            support_score: 0,
            provenance_live_nodes: 0,
            channels_used: 0,
        };
        assert(r.evidence@ =~= Seq::new(MAX_EVIDENCE as nat, |i: int| empty_evidence()));
        r
    }
}

pub struct Engines<'a> {
    pub bm25: &'a Bm25Index,
    pub pagerank: &'a mut PageRankEngine,
}

// ---------------------------------------------------------------------------
// Query terms
// ---------------------------------------------------------------------------

/// ASCII whitespace: space, tab, line feed, form feed, carriage return.
pub open spec fn is_ascii_space(b: u8) -> bool {
    b == 32 || b == 9 || b == 10 || b == 12 || b == 13
}

pub open spec fn skip_spaces(q: Seq<u8>, c: int) -> int
    decreases q.len() - c,
{
    if 0 <= c < q.len() && is_ascii_space(q[c]) {
        skip_spaces(q, c + 1)
    } else {
        c
    }
}

pub open spec fn term_end(q: Seq<u8>, c: int) -> int
    decreases q.len() - c,
{
    if 0 <= c < q.len() && !is_ascii_space(q[c]) {
        term_end(q, c + 1)
    } else {
        c
    }
}

proof fn lemma_term_bounds(q: Seq<u8>, c: int)
    requires
        0 <= c <= q.len(),
    ensures
        c <= skip_spaces(q, c) <= q.len(),
        skip_spaces(q, c) <= term_end(q, skip_spaces(q, c)) <= q.len(),
        c < q.len() ==> c < term_end(q, skip_spaces(q, c)),
    decreases q.len() - c,
{
    if c < q.len() && is_ascii_space(q[c]) {
        lemma_term_bounds(q, c + 1);
    } else {
        lemma_end_bounds(q, c);
    }
}

proof fn lemma_end_bounds(q: Seq<u8>, c: int)
    requires
        0 <= c <= q.len(),
    ensures
        c <= term_end(q, c) <= q.len(),
        c < q.len() && !is_ascii_space(q[c]) ==> c < term_end(q, c),
    decreases q.len() - c,
{
    if c < q.len() && !is_ascii_space(q[c]) {
        lemma_end_bounds(q, c + 1);
    }
}

/// The whitespace-separated terms of `q` from `c`, at most `room` of them.
pub open spec fn query_terms(q: Seq<u8>, c: int, room: nat) -> Seq<Seq<u8>>
    decreases q.len() - c,
{
    if c < 0 || c >= q.len() || room == 0 {
        Seq::empty()
    } else {
        let start = skip_spaces(q, c);
        let end = term_end(q, start);
        if end <= c || end > q.len() {
            Seq::empty()
        } else if end > start {
            seq![q.subrange(start, end)] + query_terms(q, end, (room - 1) as nat)
        } else {
            query_terms(q, end, room)
        }
    }
}

fn is_ascii_whitespace(b: u8) -> (r: bool)
    ensures
        r == is_ascii_space(b),
{
    b == 32 || b == 9 || b == 10 || b == 12 || b == 13
}

/// Split the query into at most `MAX_QUERY_TERMS` terms.
fn split_query<'a>(query: &'a [u8]) -> (r: Vec<&'a [u8]>)
    ensures
        r@.map_values(|t: &[u8]| t@) == query_terms(query@, 0, MAX_QUERY_TERMS as nat),
        r@.len() <= MAX_QUERY_TERMS,
{
    let mut terms: Vec<&'a [u8]> = Vec::new();
    let mut cursor: usize = 0;
    proof {
        assert(terms@.map_values(|t: &[u8]| t@) + query_terms(query@, 0, MAX_QUERY_TERMS as nat) =~= query_terms(
            query@,
            0,
            MAX_QUERY_TERMS as nat,
        ));
    }
    while cursor < query.len() && terms.len() < MAX_QUERY_TERMS
        invariant
            cursor <= query@.len(),
            terms@.len() <= MAX_QUERY_TERMS,
            terms@.map_values(|t: &[u8]| t@) + query_terms(query@, cursor as int, (MAX_QUERY_TERMS - terms@.len()) as nat)
                == query_terms(query@, 0, MAX_QUERY_TERMS as nat),
        decreases query@.len() - cursor,
    {
        proof { lemma_term_bounds(query@, cursor as int); }
        let ghost c0 = cursor as int;
        while cursor < query.len() && is_ascii_whitespace(query[cursor])
            invariant
                c0 <= cursor <= query@.len(),
                skip_spaces(query@, c0) == skip_spaces(query@, cursor as int),
            decreases query@.len() - cursor,
        {
            cursor += 1;
        }
        let start = cursor;
        while cursor < query.len() && !is_ascii_whitespace(query[cursor])
            invariant
                start <= cursor <= query@.len(),
                term_end(query@, start as int) == term_end(query@, cursor as int),
            decreases query@.len() - cursor,
        {
            cursor += 1;
        }
        if cursor > start {
            let ghost before = terms@.map_values(|t: &[u8]| t@);
            let term = &query[start..cursor];
            terms.push(term);
            proof {
                assert(terms@.map_values(|t: &[u8]| t@) =~= before.push(query@.subrange(start as int, cursor as int)));
                assert(before.push(query@.subrange(start as int, cursor as int)) + query_terms(
                    query@,
                    cursor as int,
                    (MAX_QUERY_TERMS - terms@.len()) as nat,
                ) =~= before + (seq![query@.subrange(start as int, cursor as int)] + query_terms(
                    query@,
                    cursor as int,
                    (MAX_QUERY_TERMS - terms@.len()) as nat,
                )));
            }
        }
    }
    proof {
        assert(query_terms(query@, cursor as int, (MAX_QUERY_TERMS - terms@.len()) as nat) =~= Seq::<Seq<u8>>::empty());
        assert(terms@.map_values(|t: &[u8]| t@) + Seq::<Seq<u8>>::empty() =~= terms@.map_values(|t: &[u8]| t@));
    }
    terms
}

// ---------------------------------------------------------------------------
// Reciprocal-rank fusion
// ---------------------------------------------------------------------------

/// `1 / (K + rank + 1)` in Q16 for a zero-based rank.
pub open spec fn rrf_contribution(rank: int) -> u32 {
    (65536int / (RRF_K + rank + 1)) as u32
}

pub open spec fn for_node(node_id: NodeId) -> spec_fn(Evidence) -> bool {
    |e: Evidence| e.node_id == node_id
}

pub open spec fn sat_add32(a: u32, b: u32) -> u32 {
    (if a + b > u32::MAX {
        u32::MAX as int
    } else {
        a + b
    }) as u32
}

/// Credit `node_id` at `rank`: its evidence gains the contribution, or it
/// is appended while there is room.
pub open spec fn add_rrf_spec(ev: Seq<Evidence>, count: nat, node_id: NodeId, rank: int, channel: RetrievalChannel) -> (
    Seq<Evidence>,
    nat,
) {
    let c = rrf_contribution(rank);
    match first_index(ev.subrange(0, count as int), for_node(node_id)) {
        Some(i) => (ev.update(i, Evidence { score: sat_add32(ev[i].score, c), ..ev[i] }), count),
        None => if count < MAX_EVIDENCE {
            (ev.update(count as int, Evidence { node_id, score: c, primary_channel: channel }), count + 1)
        } else {
            (ev, count)
        },
    }
}

/// Credit the first `k` ranked candidates of one channel in rank order.
pub open spec fn fuse(ev: Seq<Evidence>, count: nat, ranked: Seq<(u64, u32)>, channel: RetrievalChannel, k: int) -> (
    Seq<Evidence>,
    nat,
)
    decreases k,
{
    if k <= 0 {
        (ev, count)
    } else {
        let (e1, c1) = fuse(ev, count, ranked, channel, k - 1);
        add_rrf_spec(e1, c1, ranked[k - 1].0, k - 1, channel)
    }
}

fn add_rrf(result: &mut PipelineResult, node_id: NodeId, zero_based_rank: usize, channel: RetrievalChannel)
    requires
        old(result).evidence_count <= MAX_EVIDENCE,
        zero_based_rank < CHANNEL_CANDIDATES,
    ensures
        (final(result).evidence@, final(result).evidence_count as nat) == add_rrf_spec(
            old(result).evidence@,
            old(result).evidence_count as nat,
            node_id,
            zero_based_rank as int,
            channel,
        ),
        final(result).evidence_count <= MAX_EVIDENCE,
        final(result).strategy == old(result).strategy,
        final(result).recovery_used == old(result).recovery_used,
        final(result).recovery_strategy == old(result).recovery_strategy,
        final(result).support_score == old(result).support_score,
        final(result).provenance_live_nodes == old(result).provenance_live_nodes,
        final(result).channels_used == old(result).channels_used,
{
    let contribution = (WEIGHT_ONE as u64 / (RRF_K as u64 + zero_based_rank as u64 + 1)) as u32;
    let ghost known = result.evidence@.subrange(0, result.evidence_count as int);
    let mut i: usize = 0;
    while i < result.evidence_count
        invariant
            result.evidence_count <= MAX_EVIDENCE,
            result.evidence@ == old(result).evidence@,
            result.evidence_count == old(result).evidence_count,
            known == result.evidence@.subrange(0, result.evidence_count as int),
            i <= result.evidence_count,
            contribution == rrf_contribution(zero_based_rank as int),
            result.strategy == old(result).strategy,
            result.recovery_used == old(result).recovery_used,
            result.recovery_strategy == old(result).recovery_strategy,
            result.support_score == old(result).support_score,
            result.provenance_live_nodes == old(result).provenance_live_nodes,
            result.channels_used == old(result).channels_used,
            forall|j: int| 0 <= j < i ==> !(#[trigger] for_node(node_id)(known[j])),
        decreases result.evidence_count - i,
    {
        if result.evidence[i].node_id == node_id {
            proof { lemma_first_found(known, for_node(node_id), i as int); }
            let mut item = result.evidence[i];
            item.score = item.score.saturating_add(contribution);
            result.evidence[i] = item;
            return;
        }
        i += 1;
    }
    proof { lemma_first_none(known, for_node(node_id)); }
    if result.evidence_count < MAX_EVIDENCE {
        result.evidence[result.evidence_count] = Evidence { node_id, score: contribution, primary_channel: channel };
        result.evidence_count += 1;
    }
}

// ---------------------------------------------------------------------------
// Ordering the evidence
// ---------------------------------------------------------------------------

pub open spec fn sorted_desc(s: Seq<Evidence>, n: int) -> bool {
    forall|a: int, b: int| 0 <= a < b < n ==> s[a].score >= s[b].score
}

proof fn lemma_swap_multiset(s: Seq<Evidence>, i: int, j: int)
    requires
        0 <= i < s.len(),
        0 <= j < s.len(),
    ensures
        s.update(i, s[j]).update(j, s[i]).to_multiset() == s.to_multiset(),
{
    broadcast use vstd::multiset::group_multiset_axioms;
    let t = s.update(i, s[j]);
    let u = t.update(j, s[i]);
    vstd::seq_lib::to_multiset_update(s, i, s[j]);
    vstd::seq_lib::to_multiset_update(t, j, s[i]);
    vstd::seq_lib::to_multiset_contains(s, s[i]);
    assert(s.contains(s[i]));
    assert(t[j] == s[j]);
    let m = s.to_multiset();
    assert forall|x: Evidence| #[trigger] u.to_multiset().count(x) == m.count(x) by {
        assert(m.count(s[i]) > 0);
    }
    assert(u.to_multiset() =~= m);
}

/// Order the first `n` entries by decreasing score.
fn sort_by_score(evidence: &mut [Evidence; MAX_EVIDENCE], n: usize)
    requires
        n <= MAX_EVIDENCE,
    ensures
        sorted_desc(final(evidence)@, n as int),
        final(evidence)@.subrange(0, n as int).to_multiset() == old(evidence)@.subrange(0, n as int).to_multiset(),
        forall|k: int| n <= k < MAX_EVIDENCE ==> final(evidence)@[k] == old(evidence)@[k],
{
    let mut i: usize = 0;
    while i < n
        invariant
            n <= MAX_EVIDENCE,
            i <= n,
            sorted_desc(evidence@, i as int),
            forall|a: int, b: int| 0 <= a < i <= b < n ==> evidence@[a].score >= evidence@[b].score,
            evidence@.subrange(0, n as int).to_multiset() == old(evidence)@.subrange(0, n as int).to_multiset(),
            forall|k: int| n <= k < MAX_EVIDENCE ==> evidence@[k] == old(evidence)@[k],
        decreases n - i,
    {
        let mut best = i;
        let mut j = i + 1;
        while j < n
            invariant
                n <= MAX_EVIDENCE,
                i < n,
                i <= best < n,
                best < j <= n,
                forall|k: int| i <= k < j ==> evidence@[best as int].score >= evidence@[k].score,
            decreases n - j,
        {
            if evidence[j].score > evidence[best].score {
                best = j;
            }
            j += 1;
        }
        let ghost before = evidence@;
        let a = evidence[i];
        let b = evidence[best];
        evidence[i] = b;
        evidence[best] = a;
        proof {
            lemma_swap_multiset(before.subrange(0, n as int), i as int, best as int);
            assert(evidence@.subrange(0, n as int) =~= before.subrange(0, n as int).update(i as int, before[best as int]).update(
                best as int,
                before[i as int],
            ));
        }
        i += 1;
    }
}

// ---------------------------------------------------------------------------
// The pipeline
// ---------------------------------------------------------------------------

pub open spec fn live() -> spec_fn(bool) -> bool {
    |b: bool| b
}

/// The evidence of a run before ordering: lexical candidates first, then
/// graph candidates, each credited in rank order.
pub open spec fn fused_evidence(lexical: Seq<(u64, u32)>, graph: Seq<(u64, u32)>) -> (Seq<Evidence>, nat) {
    let (e1, c1) = fuse(
        Seq::new(MAX_EVIDENCE as nat, |i: int| empty_evidence()),
        0,
        lexical,
        RetrievalChannel::Lexical,
        lexical.len() as int,
    );
    fuse(e1, c1, graph, RetrievalChannel::Graph, graph.len() as int)
}

/// The page-rank state after a run seeded with the lexical candidates.
pub open spec fn ranked_state(m: RankModel, lexical: Seq<(u64, u32)>) -> RankModel {
    if m.node_count == 0 {
        m
    } else {
        compute_spec(m, lexical)
    }
}

/// Split the query, rank documents lexically by BM25, personalize
/// PageRank with the lexical hits and fuse both rankings by reciprocal
/// rank; `node_exists` tells which evidence still has a live graph node.
pub fn execute(query: &[u8], engines: &mut Engines<'_>, node_exists: impl Fn(NodeId) -> bool) -> (r: PipelineResult)
    requires
        old(engines).bm25.wf(),
        old(engines).pagerank.wf(),
        forall|n: NodeId| node_exists.requires((n,)),
    ensures
        final(engines).pagerank.wf(),
        final(engines).bm25 == old(engines).bm25,
        ({
            let terms = query_terms(query@, 0, MAX_QUERY_TERMS as nat);
            let lexical = query_pairs(old(engines).bm25@, terms, CHANNEL_CANDIDATES as nat);
            if terms.len() == 0 {
                is_empty_result(r, false) && final(engines).pagerank@ == old(engines).pagerank@
            } else if lexical.len() == 0 {
                is_empty_result(r, true) && final(engines).pagerank@ == old(engines).pagerank@
            } else {
                let ranked = ranked_state(old(engines).pagerank@, lexical);
                let graph = top_pairs(ranked, CHANNEL_CANDIDATES as nat);
                let (fused, count) = fused_evidence(lexical, graph);
                &&& final(engines).pagerank@ == ranked
                &&& r.evidence_count == count
                &&& r.channels_used == (if graph.len() > 0 { 3u8 } else { 1u8 })
                &&& sorted_desc(r.evidence@, count as int)
                &&& r.evidence@.subrange(0, count as int).to_multiset() == fused.subrange(0, count as int).to_multiset()
                &&& forall|k: int| count <= k < MAX_EVIDENCE ==> r.evidence@[k] == empty_evidence()
                &&& r.support_score == r.evidence@[0].score
                &&& r.strategy == RetrievalStrategy::ReciprocalRankFusion
                &&& !r.recovery_used
                &&& r.recovery_strategy == RecoveryStrategy::AskClarifying
                &&& exists|seen: Seq<bool>|
                    {
                        &&& seen.len() == count
                        &&& forall|i: int| 0 <= i < count ==> node_exists.ensures((r.evidence@[i].node_id,), #[trigger] seen[i])
                        &&& r.provenance_live_nodes == seen.filter(live()).len()
                    }
            }
        }),
{
    let terms = split_query(query);
    if terms.len() == 0 {
        return PipelineResult::empty();
    }
    let mut lexical = [(0u64, 0u32); CHANNEL_CANDIDATES];
    let lexical_count = engines.bm25.query(terms.as_slice(), &mut lexical);
    proof { crate::bm25::lemma_query_count(engines.bm25@, query_views(terms@), CHANNEL_CANDIDATES as nat); }
    assert(query_views(terms@) == terms@.map_values(|t: &[u8]| t@));
    if lexical_count == 0 {
        let mut r = PipelineResult::empty();
        r.recovery_used = true;
        return r;
    }
    let seeds = &lexical[0..lexical_count];
    engines.pagerank.compute_personalized(seeds);
    let mut graph = [(0u64, 0u32); CHANNEL_CANDIDATES];
    let graph_count = engines.pagerank.top_k(&mut graph);
    proof { crate::pagerank::lemma_top_count(engines.pagerank@, CHANNEL_CANDIDATES as nat); }
    let mut result = PipelineResult::empty();
    result.channels_used = if graph_count > 0 { 3 } else { 1 };
    let ghost lex = lexical@.subrange(0, lexical_count as int);
    let ghost gr = graph@.subrange(0, graph_count as int);
    let ghost start = result.evidence@;
    let mut k: usize = 0;
    while k < lexical_count
        invariant
            lexical_count <= CHANNEL_CANDIDATES,
            k <= lexical_count,
            lex == lexical@.subrange(0, lexical_count as int),
            start == Seq::new(MAX_EVIDENCE as nat, |i: int| empty_evidence()),
            (result.evidence@, result.evidence_count as nat) == fuse(start, 0, lex, RetrievalChannel::Lexical, k as int),
            result.evidence_count <= MAX_EVIDENCE,
            result.strategy == RetrievalStrategy::ReciprocalRankFusion,
            !result.recovery_used,
            result.recovery_strategy == RecoveryStrategy::AskClarifying,
            result.support_score == 0,
            result.provenance_live_nodes == 0,
            result.channels_used == (if graph_count > 0 { 3u8 } else { 1u8 }),
        decreases lexical_count - k,
    {
        let (node_id, _) = lexical[k];
        add_rrf(&mut result, node_id, k, RetrievalChannel::Lexical);
        k += 1;
    }
    let ghost after_lexical = (result.evidence@, result.evidence_count as nat);
    let mut g: usize = 0;
    while g < graph_count
        invariant
            graph_count <= CHANNEL_CANDIDATES,
            g <= graph_count,
            gr == graph@.subrange(0, graph_count as int),
            (result.evidence@, result.evidence_count as nat) == fuse(
                after_lexical.0,
                after_lexical.1,
                gr,
                RetrievalChannel::Graph,
                g as int,
            ),
            result.evidence_count <= MAX_EVIDENCE,
            result.strategy == RetrievalStrategy::ReciprocalRankFusion,
            !result.recovery_used,
            result.recovery_strategy == RecoveryStrategy::AskClarifying,
            result.support_score == 0,
            result.provenance_live_nodes == 0,
            result.channels_used == (if graph_count > 0 { 3u8 } else { 1u8 }),
        decreases graph_count - g,
    {
        let (node_id, _) = graph[g];
        add_rrf(&mut result, node_id, g, RetrievalChannel::Graph);
        g += 1;
    }
    let ghost fused = result.evidence@;
    let count = result.evidence_count;
    proof { lemma_fuse_tail(lex, gr, count as int); }
    sort_by_score(&mut result.evidence, count);
    result.support_score = result.evidence[0].score;
    let ghost mut seen: Seq<bool> = Seq::empty();
    let mut live_count: u32 = 0;
    let mut i: usize = 0;
    while i < count
        invariant
            count <= MAX_EVIDENCE,
            i <= count,
            forall|n: NodeId| node_exists.requires((n,)),
            seen.len() == i,
            forall|j: int| 0 <= j < i ==> node_exists.ensures((result.evidence@[j].node_id,), #[trigger] seen[j]),
            live_count == seen.filter(live()).len(),
            live_count <= i,
        decreases count - i,
    {
        let exists = node_exists(result.evidence[i].node_id);
        proof {
            reveal(Seq::filter);
            assert(seen.push(exists).drop_last() =~= seen);
        }
        if exists {
            live_count += 1;
        }
        proof { seen = seen.push(exists); }
        i += 1;
    }
    result.provenance_live_nodes = live_count;
    result
}

/// Fusion never touches the entries past its count.
proof fn lemma_fuse_tail(lexical: Seq<(u64, u32)>, graph: Seq<(u64, u32)>, count: int)
    requires
        count == fused_evidence(lexical, graph).1,
    ensures
        forall|k: int| count <= k < MAX_EVIDENCE ==> fused_evidence(lexical, graph).0[k] == empty_evidence(),
{
    let start = Seq::new(MAX_EVIDENCE as nat, |i: int| empty_evidence());
    lemma_fuse_keeps_tail(start, 0, lexical, RetrievalChannel::Lexical, lexical.len() as int);
    let (e1, c1) = fuse(start, 0, lexical, RetrievalChannel::Lexical, lexical.len() as int);
    lemma_fuse_keeps_tail(e1, c1, graph, RetrievalChannel::Graph, graph.len() as int);
}

proof fn lemma_fuse_keeps_tail(ev: Seq<Evidence>, count: nat, ranked: Seq<(u64, u32)>, channel: RetrievalChannel, k: int)
    requires
        ev.len() == MAX_EVIDENCE,
        count <= MAX_EVIDENCE,
        forall|j: int| count <= j < MAX_EVIDENCE ==> ev[j] == empty_evidence(),
    ensures
        fuse(ev, count, ranked, channel, k).0.len() == MAX_EVIDENCE,
        count <= fuse(ev, count, ranked, channel, k).1 <= MAX_EVIDENCE,
        forall|j: int|
            fuse(ev, count, ranked, channel, k).1 <= j < MAX_EVIDENCE ==> fuse(ev, count, ranked, channel, k).0[j]
                == empty_evidence(),
    decreases k,
{
    if k > 0 {
        lemma_fuse_keeps_tail(ev, count, ranked, channel, k - 1);
        let (e1, c1) = fuse(ev, count, ranked, channel, k - 1);
        let node_id = ranked[k - 1].0;
        if let Some(i) = first_index(e1.subrange(0, c1 as int), for_node(node_id)) {
            assert(is_first(e1.subrange(0, c1 as int), for_node(node_id), i));
        }
    }
}

} // verus!
