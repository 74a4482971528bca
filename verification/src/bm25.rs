//! Allocation-free BM25 lexical retrieval with collision-safe term identity.
//!
//! Postings are incremental linked lists, each new posting prepended and
//! pointing only at older ones, so interleaved insertions of different terms
//! never make one term read another term's postings. Scores use Q16
//! arithmetic without discarding fractional precision before division.

use vstd::prelude::*;
use crate::kinds::Weight;
use crate::graph_runtime::min_nat;
use crate::search::{first_index, is_first, lemma_first_found, lemma_first_none};
use crate::temporal::{ln_q16, ln_spec, lemma_ln_bounded};
use crate::trainer_core::{hash_bytes, fnv, FNV_OFFSET};

verus! {

pub const MAX_TERMS: usize = 4096;
pub const MAX_TERM_BYTES: usize = 64;
pub const MAX_DOCS: usize = 2048;
pub const MAX_POSTINGS: usize = 32768;
pub const POSTING_NONE: u32 = 0xffff_ffff;

/// BM25 `k1 = 1.2` in Q16.
pub const K1_Q16: u64 = 78643;
/// BM25 `b = 0.75` in Q16.
pub const B_Q16: u64 = 49152;
pub const Q16_ONE: u64 = 65536;

// ---------------------------------------------------------------------------
// Q16 scoring
// ---------------------------------------------------------------------------

pub open spec fn min_u64(x: int) -> u64 {
    (if x > u64::MAX {
        u64::MAX as int
    } else {
        x
    }) as u64
}

pub open spec fn mul_q16(left: u64, right: u64) -> u64 {
    min_u64(left * right / 65536)
}

pub open spec fn div_q16(numerator: u64, denominator: u64) -> u64 {
    if denominator == 0 {
        u64::MAX
    } else {
        min_u64(numerator * 65536 / (denominator as int))
    }
}

pub open spec fn sat_add(a: u64, b: u64) -> u64 {
    min_u64(a + b)
}

fn q16_mul(left: u64, right: u64) -> (r: u64)
    ensures
        r == mul_q16(left, right),
{
    assert(left * right <= 0xffff_ffff_ffff_ffff * 0xffff_ffff_ffff_ffff) by (nonlinear_arith);
    let v = (left as u128 * right as u128) / 65536;
    if v > u64::MAX as u128 {
        u64::MAX
    } else {
        v as u64
    }
}

fn q16_div(numerator_q16: u64, denominator_q16: u64) -> (r: u64)
    ensures
        r == div_q16(numerator_q16, denominator_q16),
{
    if denominator_q16 == 0 {
        return u64::MAX;
    }
    let v = (numerator_q16 as u128 * 65536) / denominator_q16 as u128;
    if v > u64::MAX as u128 {
        u64::MAX
    } else {
        v as u64
    }
}

/// `ln(1 + (N - df + 1/2) / (df + 1/2))` in Q16, the halves cleared exactly.
pub open spec fn idf_spec(document_frequency: u32, document_count: u32) -> u64 {
    let remaining = if document_count >= document_frequency {
        document_count - document_frequency
    } else {
        0
    };
    let numerator = ((remaining * 2 + 1) * 65536) as u64;
    let denominator = ((document_frequency * 2 + 1) * 65536) as u64;
    ln_spec(sat_add(Q16_ONE, div_q16(numerator, denominator)) as nat) as u64
}

/// The inverse document frequency of a term in Q16.
pub fn idf_q16(document_frequency: u32, document_count: u32) -> (r: u64)
    ensures
        r == idf_spec(document_frequency, document_count),
{
    let remaining = document_count.saturating_sub(document_frequency);
    let numerator_q16 = (remaining as u64 * 2 + 1) * 65536;
    let denominator_q16 = (document_frequency as u64 * 2 + 1) * 65536;
    let argument_q16 = Q16_ONE.saturating_add(q16_div(numerator_q16, denominator_q16));
    ln_q16(argument_q16)
}

/// The BM25 contribution of one term to one document, in Q16:
/// `idf * tf (k1 + 1) / (tf + k1 (1 - b + b dl / avgdl))`.
pub open spec fn term_score_spec(tf: u64, dl: u64, avgdl: u64, idf: u64) -> u64 {
    if tf == 0 || avgdl == 0 {
        0
    } else {
        let numerator = mul_q16(tf, (K1_Q16 + Q16_ONE) as u64);
        let ratio = div_q16(dl, avgdl);
        let normalization = sat_add((Q16_ONE - B_Q16) as u64, mul_q16(B_Q16, ratio));
        let denominator = sat_add(tf, mul_q16(K1_Q16, normalization));
        mul_q16(idf, div_q16(numerator, denominator))
    }
}

proof fn lemma_mul_q16_mono(a: u64, x: u64, y: u64)
    requires
        x <= y,
    ensures
        mul_q16(a, x) <= mul_q16(a, y),
{
    assert(a * x / 65536 <= a * y / 65536) by (nonlinear_arith)
        requires x <= y, a >= 0;
}

proof fn lemma_div_q16_num_mono(x: u64, y: u64, d: u64)
    requires
        x <= y,
    ensures
        div_q16(x, d) <= div_q16(y, d),
{
    if d != 0 {
        assert(x * 65536 / (d as int) <= y * 65536 / (d as int)) by (nonlinear_arith)
            requires x <= y, d > 0;
    }
}

proof fn lemma_div_q16_den_anti(n: u64, d1: u64, d2: u64)
    requires
        0 < d1 <= d2,
    ensures
        div_q16(n, d1) >= div_q16(n, d2),
{
    assert(n * 65536 / (d1 as int) >= n * 65536 / (d2 as int)) by (nonlinear_arith)
        requires 0 < d1 <= d2, n >= 0;
}

/// Length normalization penalizes long documents: with the term frequency,
/// the average length and the idf fixed, a document no longer than another
/// scores at least as high.
pub proof fn lemma_term_score_antitone_in_length(tf: u64, dl1: u64, dl2: u64, avgdl: u64, idf: u64)
    requires
        dl1 <= dl2,
    ensures
        term_score_spec(tf, dl1, avgdl, idf) >= term_score_spec(tf, dl2, avgdl, idf),
{
    if tf != 0 && avgdl != 0 {
        let numerator = mul_q16(tf, (K1_Q16 + Q16_ONE) as u64);
        let r1 = div_q16(dl1, avgdl);
        let r2 = div_q16(dl2, avgdl);
        lemma_div_q16_num_mono(dl1, dl2, avgdl);
        lemma_mul_q16_mono(B_Q16, r1, r2);
        let n1 = sat_add((Q16_ONE - B_Q16) as u64, mul_q16(B_Q16, r1));
        let n2 = sat_add((Q16_ONE - B_Q16) as u64, mul_q16(B_Q16, r2));
        assert(n1 <= n2);
        lemma_mul_q16_mono(K1_Q16, n1, n2);
        let d1 = sat_add(tf, mul_q16(K1_Q16, n1));
        let d2 = sat_add(tf, mul_q16(K1_Q16, n2));
        assert(0 < d1 <= d2);
        lemma_div_q16_den_anti(numerator, d1, d2);
        lemma_mul_q16_mono(idf, div_q16(numerator, d2), div_q16(numerator, d1));
    }
}

pub fn bm25_term_score_q16(
    term_frequency_q16: u64,
    document_length_q16: u64,
    average_length_q16: u64,
    idf_q16: u64,
) -> (r: u64)
    ensures
        r == term_score_spec(term_frequency_q16, document_length_q16, average_length_q16, idf_q16),
{
    if term_frequency_q16 == 0 || average_length_q16 == 0 {
        return 0;
    }
    let numerator_q16 = q16_mul(term_frequency_q16, K1_Q16 + Q16_ONE);
    let length_ratio_q16 = q16_div(document_length_q16, average_length_q16);
    let normalization_q16 = (Q16_ONE - B_Q16).saturating_add(q16_mul(B_Q16, length_ratio_q16));
    let denominator_q16 = term_frequency_q16.saturating_add(q16_mul(K1_Q16, normalization_q16));
    q16_mul(idf_q16, q16_div(numerator_q16, denominator_q16))
}

// ---------------------------------------------------------------------------
// The index
// ---------------------------------------------------------------------------

#[derive(Clone, Copy)]
pub struct TermEntry {
    pub hash: u64,
    pub length: u8,
    pub bytes: [u8; MAX_TERM_BYTES],
    pub document_frequency: u32,
    pub posting_head: u32,
}

#[derive(Clone, Copy, PartialEq, Eq, Structural)]
pub struct Posting {
    pub document_id: u16,
    pub term_frequency: u16,
    pub next: u32,
}

#[derive(Clone, Copy, PartialEq, Eq, Structural)]
pub struct DocumentMetadata {
    pub length: u32,
    pub external_id: u64,
}

/// A stored term as the index sees it: its hash, its bytes, in how many
/// documents it occurs, and the newest of its postings.
pub struct TermModel {
    pub hash: u64,
    pub term: Seq<u8>,
    pub document_frequency: u32,
    pub posting_head: u32,
}

pub open spec fn term_model(t: TermEntry) -> TermModel {
    TermModel {
        hash: t.hash,
        term: t.bytes@.subrange(0, t.length as int),
        document_frequency: t.document_frequency,
        posting_head: t.posting_head,
    }
}

pub open spec fn matching(hash: u64, term: Seq<u8>) -> spec_fn(TermModel) -> bool {
    |t: TermModel| t.hash == hash && t.term == term
}

/// Abstract state of a [`Bm25Index`].
pub struct Bm25Model {
    pub terms: Seq<TermModel>,
    pub term_count: nat,
    pub postings: Seq<Posting>,
    pub posting_count: nat,
    pub documents: Seq<DocumentMetadata>,
    pub document_count: nat,
    pub total_document_length: u64,
}

impl Bm25Model {
    pub open spec fn wf(self) -> bool {
        &&& self.terms.len() == MAX_TERMS
        &&& self.postings.len() == MAX_POSTINGS
        &&& self.documents.len() == MAX_DOCS
        &&& self.term_count <= MAX_TERMS
        &&& self.posting_count <= MAX_POSTINGS
        &&& self.document_count <= MAX_DOCS
        &&& forall|t: int|
            0 <= t < self.term_count ==> {
                let head = (#[trigger] self.terms[t]).posting_head;
                &&& head == POSTING_NONE || head < self.posting_count
                &&& self.terms[t].term.len() <= MAX_TERM_BYTES
            }
        &&& forall|i: int|
            0 <= i < self.posting_count ==> {
                let p = #[trigger] self.postings[i];
                &&& p.next == POSTING_NONE || p.next < i
                &&& p.document_id < self.document_count
            }
    }
}

/// The first of the stored terms that is exactly `term` under `hash`.
pub open spec fn find_term_spec(m: Bm25Model, hash: u64, term: Seq<u8>) -> Option<int> {
    first_index(m.terms.subrange(0, m.term_count as int), matching(hash, term))
}

/// The position of the posting for `document` along the chain from `cursor`.
pub open spec fn find_in_chain(postings: Seq<Posting>, cursor: u32, document: u16) -> Option<int>
    decreases cursor,
{
    if cursor == POSTING_NONE || cursor >= postings.len() {
        None
    } else if postings[cursor as int].document_id == document {
        Some(cursor as int)
    } else {
        let next = postings[cursor as int].next;
        if next == POSTING_NONE || next >= cursor {
            None
        } else {
            find_in_chain(postings, next, document)
        }
    }
}

/// Whether the posting at `i` lies on the chain from `cursor`.
pub open spec fn in_chain(postings: Seq<Posting>, cursor: u32, i: int) -> bool
    decreases cursor,
{
    if cursor == POSTING_NONE || cursor >= postings.len() {
        false
    } else if i == cursor {
        true
    } else {
        let next = postings[cursor as int].next;
        if next == POSTING_NONE || next >= cursor {
            false
        } else {
            in_chain(postings, next, i)
        }
    }
}

/// The postings along the chain from `cursor`, newest first: what a query
/// of the term whose head is `cursor` reads.
pub open spec fn chain_postings(postings: Seq<Posting>, cursor: u32) -> Seq<Posting>
    decreases cursor,
{
    if cursor == POSTING_NONE || cursor >= postings.len() {
        Seq::empty()
    } else {
        let p = postings[cursor as int];
        if p.next == POSTING_NONE || p.next >= cursor {
            seq![p]
        } else {
            seq![p] + chain_postings(postings, p.next)
        }
    }
}

/// No posting lies on the chains of two different stored terms.
pub open spec fn chains_disjoint(m: Bm25Model) -> bool {
    forall|a: int, b: int, i: int|
        #![trigger in_chain(m.postings, m.terms[a].posting_head, i), in_chain(m.postings, m.terms[b].posting_head, i)]
        0 <= a < m.term_count && 0 <= b < m.term_count && a != b && in_chain(m.postings, m.terms[a].posting_head, i)
            ==> !in_chain(m.postings, m.terms[b].posting_head, i)
}

proof fn lemma_chain_below(postings: Seq<Posting>, cursor: u32, i: int)
    requires
        in_chain(postings, cursor, i),
    ensures
        0 <= i <= cursor,
        i < postings.len(),
    decreases cursor,
{
    if i != cursor {
        lemma_chain_below(postings, postings[cursor as int].next, i);
    }
}

/// Postings that agree along a chain give the same chain.
proof fn lemma_chain_frame(p1: Seq<Posting>, p2: Seq<Posting>, cursor: u32)
    requires
        p1.len() == p2.len(),
        forall|i: int| #[trigger] in_chain(p1, cursor, i) ==> p1[i] == p2[i],
    ensures
        chain_postings(p1, cursor) == chain_postings(p2, cursor),
        forall|i: int| #[trigger] in_chain(p1, cursor, i) == in_chain(p2, cursor, i),
    decreases cursor,
{
    if !(cursor == POSTING_NONE || cursor >= p1.len()) {
        assert(in_chain(p1, cursor, cursor as int));
        assert(p1[cursor as int] == p2[cursor as int]);
        let next = p1[cursor as int].next;
        if !(next == POSTING_NONE || next >= cursor) {
            assert forall|i: int| #[trigger] in_chain(p1, next, i) implies p1[i] == p2[i] by {
                lemma_chain_below(p1, next, i);
                assert(in_chain(p1, cursor, i));
            }
            lemma_chain_frame(p1, p2, next);
            assert forall|i: int| #[trigger] in_chain(p1, cursor, i) == in_chain(p2, cursor, i) by {
                if i != cursor {
                    assert(in_chain(p1, cursor, i) == in_chain(p1, next, i));
                    assert(in_chain(p2, cursor, i) == in_chain(p2, next, i));
                }
            }
        } else {
            assert forall|i: int| #[trigger] in_chain(p1, cursor, i) == in_chain(p2, cursor, i) by {}
        }
    } else {
        assert forall|i: int| #[trigger] in_chain(p1, cursor, i) == in_chain(p2, cursor, i) by {}
    }
}

/// Changing a posting but not its link keeps every chain's membership.
proof fn lemma_chain_links(p1: Seq<Posting>, k: int, q: Posting, cursor: u32)
    requires
        0 <= k < p1.len(),
        q.next == p1[k].next,
    ensures
        forall|i: int| #[trigger] in_chain(p1, cursor, i) == in_chain(p1.update(k, q), cursor, i),
    decreases cursor,
{
    let p2 = p1.update(k, q);
    if !(cursor == POSTING_NONE || cursor >= p1.len()) {
        assert(p2[cursor as int].next == p1[cursor as int].next);
        let next = p1[cursor as int].next;
        if !(next == POSTING_NONE || next >= cursor) {
            lemma_chain_links(p1, k, q, next);
            assert forall|i: int| #[trigger] in_chain(p1, cursor, i) == in_chain(p2, cursor, i) by {
                if i != cursor {
                    assert(in_chain(p1, cursor, i) == in_chain(p1, next, i));
                    assert(in_chain(p2, cursor, i) == in_chain(p2, next, i));
                }
            }
        } else {
            assert forall|i: int| #[trigger] in_chain(p1, cursor, i) == in_chain(p2, cursor, i) by {}
        }
    } else {
        assert forall|i: int| #[trigger] in_chain(p1, cursor, i) == in_chain(p2, cursor, i) by {}
    }
}

/// A posting written past the end of a chain leaves the chain as it was.
proof fn lemma_chain_append(p1: Seq<Posting>, n: int, newp: Posting, h: u32)
    requires
        0 <= n < p1.len(),
        h == POSTING_NONE || h < n,
    ensures
        forall|j: int| #[trigger] in_chain(p1, h, j) == in_chain(p1.update(n, newp), h, j),
        chain_postings(p1, h) == chain_postings(p1.update(n, newp), h),
{
    let p2 = p1.update(n, newp);
    assert forall|j: int| #[trigger] in_chain(p1, h, j) implies p1[j] == p2[j] by {
        lemma_chain_below(p1, h, j);
    }
    lemma_chain_frame(p1, p2, h);
}

proof fn lemma_found_in_chain(postings: Seq<Posting>, cursor: u32, document: u16)
    requires
        find_in_chain(postings, cursor, document) is Some,
    ensures
        in_chain(postings, cursor, find_in_chain(postings, cursor, document)->0),
    decreases cursor,
{
    if postings[cursor as int].document_id != document {
        lemma_found_in_chain(postings, postings[cursor as int].next, document);
    }
}

pub open spec fn sat_inc_u16(x: u16) -> u16 {
    if x == u16::MAX {
        x
    } else {
        (x + 1) as u16
    }
}

pub open spec fn sat_inc_u32(x: u32) -> u32 {
    if x == u32::MAX {
        x
    } else {
        (x + 1) as u32
    }
}

pub open spec fn sat_inc_u64(x: u64) -> u64 {
    if x == u64::MAX {
        x
    } else {
        (x + 1) as u64
    }
}

/// One more occurrence in `document`: its length and the total grow by one.
pub open spec fn count_occurrence(m: Bm25Model, document: u16) -> Bm25Model {
    let d = m.documents[document as int];
    Bm25Model {
        documents: m.documents.update(document as int, DocumentMetadata { length: sat_inc_u32(d.length), ..d }),
        total_document_length: sat_inc_u64(m.total_document_length),
        ..m
    }
}

/// `m` with `term` stored at `t` when it was not there yet.
pub open spec fn with_term(m: Bm25Model, hash: u64, term: Seq<u8>) -> (Bm25Model, int) {
    match find_term_spec(m, hash, term) {
        Some(t) => (m, t),
        None => (
            Bm25Model {
                terms: m.terms.update(
                    m.term_count as int,
                    TermModel { hash, term, document_frequency: 0, posting_head: POSTING_NONE },
                ),
                term_count: m.term_count + 1,
                ..m
            },
            m.term_count as int,
        ),
    }
}

/// What [`Bm25Index::index_term_with_hash`] returns and leaves behind: the
/// term is found or added; its posting for the document gains one
/// occurrence, or a new posting is prepended to its chain.
pub open spec fn index_spec(m: Bm25Model, term: Seq<u8>, document: u16, hash: u64) -> (bool, Bm25Model) {
    if term.len() == 0 || term.len() > MAX_TERM_BYTES || document >= m.document_count {
        (false, m)
    } else if find_term_spec(m, hash, term) is None && m.term_count >= MAX_TERMS {
        (false, m)
    } else {
        let (m1, t) = with_term(m, hash, term);
        let entry = m1.terms[t];
        match find_in_chain(m1.postings, entry.posting_head, document) {
            Some(i) => {
                let p = m1.postings[i];
                (
                    true,
                    count_occurrence(
                        Bm25Model {
                            postings: m1.postings.update(i, Posting { term_frequency: sat_inc_u16(p.term_frequency), ..p }),
                            ..m1
                        },
                        document,
                    ),
                )
            },
            None => if m1.posting_count >= MAX_POSTINGS {
                (false, m1)
            } else {
                let i = m1.posting_count as int;
                (
                    true,
                    count_occurrence(
                        Bm25Model {
                            postings: m1.postings.update(
                                i,
                                Posting { document_id: document, term_frequency: 1, next: entry.posting_head },
                            ),
                            posting_count: m1.posting_count + 1,
                            terms: m1.terms.update(
                                t,
                                TermModel {
                                    posting_head: i as u32,
                                    document_frequency: sat_inc_u32(entry.document_frequency),
                                    ..entry
                                },
                            ),
                            ..m1
                        },
                        document,
                    ),
                )
            },
        }
    }
}

/// What a query of the stored term at `t` reads: its entry and the postings
/// along its chain.
pub open spec fn term_reads(m: Bm25Model, t: int) -> (TermModel, Seq<Posting>) {
    (m.terms[t], chain_postings(m.postings, m.terms[t].posting_head))
}

proof fn lemma_with_term(m: Bm25Model, hash: u64, term: Seq<u8>)
    requires
        m.wf(),
        chains_disjoint(m),
        term.len() <= MAX_TERM_BYTES,
        !(find_term_spec(m, hash, term) is None && m.term_count >= MAX_TERMS),
    ensures
        ({
            let (m1, t) = with_term(m, hash, term);
            &&& m1.wf()
            &&& chains_disjoint(m1)
            &&& 0 <= t < m1.term_count
            &&& m1.postings == m.postings
            &&& m1.posting_count == m.posting_count
            &&& m1.document_count == m.document_count
            &&& matching(hash, term)(m1.terms[t])
            &&& forall|j: int| 0 <= j < m.term_count && j != t ==> m1.terms[j] == m.terms[j]
        }),
{
    let (m1, t) = with_term(m, hash, term);
    match find_term_spec(m, hash, term) {
        Some(k) => {
            let stored = m.terms.subrange(0, m.term_count as int);
            assert(is_first(stored, matching(hash, term), k));
            assert(stored[k] == m.terms[k]);
        },
        None => {
            let n = m.term_count as int;
            assert(m1.terms[n].posting_head == POSTING_NONE);
            assert forall|a: int, b: int, i: int|
                0 <= a < m1.term_count && 0 <= b < m1.term_count && a != b && #[trigger] in_chain(
                    m1.postings,
                    m1.terms[a].posting_head,
                    i,
                ) implies !#[trigger] in_chain(m1.postings, m1.terms[b].posting_head, i) by {
                if a != n && b != n {
                    assert(m1.terms[a] == m.terms[a]);
                    assert(m1.terms[b] == m.terms[b]);
                }
            }
        },
    }
}

/// Indexing keeps the chains of different terms apart, and leaves what
/// every other stored term reads as it was.
proof fn lemma_index_chains(m: Bm25Model, term: Seq<u8>, document: u16, hash: u64, other: int)
    requires
        m.wf(),
        chains_disjoint(m),
    ensures
        chains_disjoint(index_spec(m, term, document, hash).1),
        0 <= other < m.term_count && !matching(hash, term)(m.terms[other]) ==> term_reads(
            index_spec(m, term, document, hash).1,
            other,
        ) == term_reads(m, other),
{
    let m2 = index_spec(m, term, document, hash).1;
    let is_other = 0 <= other < m.term_count && !matching(hash, term)(m.terms[other]);
    if term.len() == 0 || term.len() > MAX_TERM_BYTES || document >= m.document_count {
    } else if find_term_spec(m, hash, term) is None && m.term_count >= MAX_TERMS {
    } else {
        lemma_with_term(m, hash, term);
        let (m1, t) = with_term(m, hash, term);
        let entry = m1.terms[t];
        let head = entry.posting_head;
        if is_other {
            assert(other != t);
            assert(m1.terms[other] == m.terms[other]);
        }
        match find_in_chain(m1.postings, head, document) {
            Some(i) => {
                lemma_found_in_chain(m1.postings, head, document);
                lemma_chain_below(m1.postings, head, i);
                let p = m1.postings[i];
                let q = Posting { term_frequency: sat_inc_u16(p.term_frequency), ..p };
                let p2 = m1.postings.update(i, q);
                assert(m2.postings == p2 && m2.terms == m1.terms && m2.term_count == m1.term_count);
                assert forall|a: int, b: int, j: int|
                    0 <= a < m2.term_count && 0 <= b < m2.term_count && a != b && #[trigger] in_chain(
                        m2.postings,
                        m2.terms[a].posting_head,
                        j,
                    ) implies !#[trigger] in_chain(m2.postings, m2.terms[b].posting_head, j) by {
                    lemma_chain_links(m1.postings, i, q, m1.terms[a].posting_head);
                    lemma_chain_links(m1.postings, i, q, m1.terms[b].posting_head);
                    assert(in_chain(m1.postings, m1.terms[a].posting_head, j));
                    assert(!in_chain(m1.postings, m1.terms[b].posting_head, j));
                }
                if is_other {
                    let ho = m1.terms[other].posting_head;
                    assert(!in_chain(m1.postings, ho, i)) by {
                        assert(in_chain(m1.postings, m1.terms[t].posting_head, i));
                    }
                    assert forall|j: int| #[trigger] in_chain(m1.postings, ho, j) implies m1.postings[j] == p2[j] by {
                        lemma_chain_below(m1.postings, ho, j);
                    }
                    lemma_chain_frame(m1.postings, p2, ho);
                }
            },
            None => {
                if m1.posting_count < MAX_POSTINGS {
                    let n = m1.posting_count as int;
                    let newp = Posting { document_id: document, term_frequency: 1, next: head };
                    let p2 = m1.postings.update(n, newp);
                    assert(m2.postings == p2);
                    assert(m2.term_count == m1.term_count);
                    assert(m2.terms[t].posting_head == n as u32);
                    assert forall|a: int| 0 <= a < m1.term_count && a != t implies #[trigger] m2.terms[a] == m1.terms[a] by {}
                    lemma_chain_append(m1.postings, n, newp, head);
                    assert(head == POSTING_NONE || head < n);
                    assert forall|j: int| #[trigger] in_chain(p2, n as u32, j) implies j == n || in_chain(
                        m1.postings,
                        head,
                        j,
                    ) by {
                        assert(p2[n] == newp);
                        assert(p2.len() == m1.postings.len());
                        if j != n && head != POSTING_NONE {
                            assert(in_chain(p2, n as u32, j) == in_chain(p2, head, j));
                            assert(in_chain(p2, head, j) == in_chain(m1.postings, head, j));
                        }
                    }
                    assert forall|a: int, b: int, j: int|
                        0 <= a < m2.term_count && 0 <= b < m2.term_count && a != b && #[trigger] in_chain(
                            m2.postings,
                            m2.terms[a].posting_head,
                            j,
                        ) implies !#[trigger] in_chain(m2.postings, m2.terms[b].posting_head, j) by {
                        let ha = m1.terms[a].posting_head;
                        let hb = m1.terms[b].posting_head;
                        lemma_chain_append(m1.postings, n, newp, ha);
                        lemma_chain_append(m1.postings, n, newp, hb);
                        assert(m2.postings == p2);
                        if a != t && b != t {
                            assert(m2.terms[a] == m1.terms[a]);
                            assert(m2.terms[b] == m1.terms[b]);
                            assert(in_chain(m1.postings, ha, j));
                            assert(!in_chain(m1.postings, hb, j));
                        } else if a == t {
                            assert(m2.terms[b] == m1.terms[b]);
                            assert(in_chain(p2, n as u32, j));
                            if in_chain(p2, hb, j) {
                                assert(in_chain(m1.postings, hb, j));
                                lemma_chain_below(m1.postings, hb, j);
                                assert(in_chain(m1.postings, head, j));
                                assert(!in_chain(m1.postings, hb, j));
                            }
                        } else {
                            assert(m2.terms[a] == m1.terms[a]);
                            assert(in_chain(m1.postings, ha, j));
                            lemma_chain_below(m1.postings, ha, j);
                            if in_chain(p2, n as u32, j) {
                                assert(in_chain(m1.postings, head, j));
                                assert(!in_chain(m1.postings, head, j));
                            }
                        }
                    }
                    if is_other {
                        assert(m2.terms[other] == m1.terms[other]);
                        lemma_chain_append(m1.postings, n, newp, m1.terms[other].posting_head);
                    }
                }
            },
        }
    }
}

/// Indexing a term never changes what a query of another stored term reads:
/// that term's entry and every posting along its chain stay as they were,
/// however insertions of different terms interleave.
pub proof fn lemma_indexing_isolates_terms(m: Bm25Model, term: Seq<u8>, document: u16, hash: u64, other: int)
    requires
        m.wf(),
        chains_disjoint(m),
        0 <= other < m.term_count,
        !matching(hash, term)(m.terms[other]),
    ensures
        term_reads(index_spec(m, term, document, hash).1, other) == term_reads(m, other),
        chains_disjoint(index_spec(m, term, document, hash).1),
{
    lemma_index_chains(m, term, document, hash, other);
}

pub struct Bm25Index {
    terms: [TermEntry; MAX_TERMS],
    term_count: usize,
    postings: [Posting; MAX_POSTINGS],
    posting_count: usize,
    documents: [DocumentMetadata; MAX_DOCS],
    document_count: usize,
    total_document_length: u64,
}

impl View for Bm25Index {
    type V = Bm25Model;

    closed spec fn view(&self) -> Bm25Model {
        Bm25Model {
            terms: self.terms@.map_values(|t: TermEntry| term_model(t)),
            term_count: self.term_count as nat,
            postings: self.postings@,
            posting_count: self.posting_count as nat,
            documents: self.documents@,
            document_count: self.document_count as nat,
            total_document_length: self.total_document_length,
        }
    }
}

fn empty_term() -> (r: TermEntry)
    ensures
        r.posting_head == POSTING_NONE,
        r.length == 0,
{
    TermEntry { hash: 0, length: 0, bytes: [0; MAX_TERM_BYTES], document_frequency: 0, posting_head: POSTING_NONE }
}

fn entry_matches(t: &TermEntry, hash: u64, term: &[u8]) -> (r: bool)
    requires
        t.length <= MAX_TERM_BYTES,
    ensures
        r == matching(hash, term@)(term_model(*t)),
{
    if t.hash != hash || t.length as usize != term.len() {
        return false;
    }
    let mut k: usize = 0;
    while k < term.len()
        invariant
            term@.len() == t.length,
            t.length <= MAX_TERM_BYTES,
            k <= term@.len(),
            forall|j: int| 0 <= j < k ==> t.bytes@[j] == term@[j],
        decreases term@.len() - k,
    {
        if t.bytes[k] != term[k] {
            assert(t.bytes@.subrange(0, t.length as int)[k as int] != term@[k as int]);
            return false;
        }
        k += 1;
    }
    assert(t.bytes@.subrange(0, t.length as int) =~= term@);
    true
}

impl Bm25Index {
    closed spec fn shape(&self) -> bool {
        &&& self@.wf()
        &&& forall|t: int| 0 <= t < MAX_TERMS ==> (#[trigger] self.terms@[t]).length <= MAX_TERM_BYTES
    }

    pub closed spec fn wf(&self) -> bool {
        &&& self.shape()
        &&& chains_disjoint(self@)
    }

    pub proof fn lemma_wf(&self)
        requires
            self.wf(),
        ensures
            self@.wf(),
            chains_disjoint(self@),
    {
    }

    /// An index of no documents, terms or postings.
    pub fn new() -> (r: Self)
        ensures
            r.wf(),
            r@.term_count == 0,
            r@.posting_count == 0,
            r@.document_count == 0,
            r@.total_document_length == 0,
    {
        Bm25Index {
            terms: [empty_term(); MAX_TERMS],
            term_count: 0,
            postings: [Posting { document_id: 0, term_frequency: 0, next: POSTING_NONE }; MAX_POSTINGS],
            posting_count: 0,
            documents: [DocumentMetadata { length: 0, external_id: 0 }; MAX_DOCS],
            document_count: 0,
            total_document_length: 0,
        }
    }

    /// Register a document of no terms; its internal number, or none when full.
    pub fn add_document(&mut self, external_id: u64) -> (r: Option<u16>)
        requires
            old(self).wf(),
        ensures
            final(self).wf(),
            old(self)@.document_count >= MAX_DOCS ==> r is None && final(self)@ == old(self)@,
            old(self)@.document_count < MAX_DOCS ==> r == Some(old(self)@.document_count as u16) && final(self)@ == (Bm25Model {
                documents: old(self)@.documents.update(
                    old(self)@.document_count as int,
                    DocumentMetadata { length: 0, external_id },
                ),
                document_count: old(self)@.document_count + 1,
                ..old(self)@
            }),
    {
        if self.document_count >= MAX_DOCS {
            return None;
        }
        let internal_id = self.document_count as u16;
        self.documents[self.document_count] = DocumentMetadata { length: 0, external_id };
        self.document_count += 1;
        proof {
            assert(self@.terms =~= old(self)@.terms);
        }
        Some(internal_id)
    }

    /// The stored term that is exactly `term` under `hash`: a term is never
    /// confused with another one that shares its hash.
    pub fn find_term(&self, hash: u64, term: &[u8]) -> (r: Option<usize>)
        requires
            self.wf(),
        ensures
            match r {
                Some(i) => find_term_spec(self@, hash, term@) == Some(i as int),
                None => find_term_spec(self@, hash, term@) == None::<int>,
            },
    {
        let ghost stored = self@.terms.subrange(0, self@.term_count as int);
        let mut index: usize = 0;
        while index < self.term_count
            invariant
                self.wf(),
                stored == self@.terms.subrange(0, self@.term_count as int),
                index <= self@.term_count,
                forall|j: int| 0 <= j < index ==> !(#[trigger] matching(hash, term@)(stored[j])),
            decreases self@.term_count - index,
        {
            assert(stored[index as int] == term_model(self.terms@[index as int]));
            if entry_matches(&self.terms[index], hash, term) {
                proof { lemma_first_found(stored, matching(hash, term@), index as int); }
                return Some(index);
            }
            index += 1;
        }
        proof { lemma_first_none(stored, matching(hash, term@)); }
        None
    }

    fn find_in_postings(&self, head: u32, document_id: u16) -> (r: Option<usize>)
        requires
            self.shape(),
            head == POSTING_NONE || head < self@.posting_count,
        ensures
            match r {
                Some(i) => find_in_chain(self@.postings, head, document_id) == Some(i as int) && i < self@.posting_count,
                None => find_in_chain(self@.postings, head, document_id) == None::<int>,
            },
    {
        let mut cursor = head;
        while cursor != POSTING_NONE
            invariant
                self.shape(),
                cursor == POSTING_NONE || cursor < self@.posting_count,
                find_in_chain(self@.postings, head, document_id) == find_in_chain(self@.postings, cursor, document_id),
            decreases if cursor == POSTING_NONE { 0 } else { cursor + 1 },
        {
            let posting = self.postings[cursor as usize];
            if posting.document_id == document_id {
                return Some(cursor as usize);
            }
            cursor = posting.next;
        }
        None
    }

    fn increment_document_length(&mut self, document_id: u16)
        requires
            old(self).shape(),
            document_id < old(self)@.document_count,
        ensures
            final(self).shape(),
            final(self)@ == count_occurrence(old(self)@, document_id),
    {
        let d = document_id as usize;
        let mut meta = self.documents[d];
        meta.length = meta.length.saturating_add(1);
        self.documents[d] = meta;
        self.total_document_length = self.total_document_length.saturating_add(1);
        proof {
            assert(self@.terms =~= old(self)@.terms);
            assert(self@.documents =~= count_occurrence(old(self)@, document_id).documents);
        }
    }

    fn find_or_create_term(&mut self, hash: u64, term: &[u8]) -> (r: Option<usize>)
        requires
            old(self).wf(),
            0 < term@.len() <= MAX_TERM_BYTES,
        ensures
            final(self).shape(),
            find_term_spec(old(self)@, hash, term@) is None && old(self)@.term_count >= MAX_TERMS ==> r is None
                && final(self)@ == old(self)@,
            !(find_term_spec(old(self)@, hash, term@) is None && old(self)@.term_count >= MAX_TERMS) ==> r
                == Some(with_term(old(self)@, hash, term@).1 as usize) && final(self)@ == with_term(
                old(self)@,
                hash,
                term@,
            ).0 && with_term(old(self)@, hash, term@).1 < final(self)@.term_count,
    {
        if let Some(index) = self.find_term(hash, term) {
            proof { assert(is_first(self@.terms.subrange(0, self@.term_count as int), matching(hash, term@), index as int)); }
            return Some(index);
        }
        if self.term_count >= MAX_TERMS {
            return None;
        }
        let index = self.term_count;
        let mut entry = self.terms[index];
        entry.hash = hash;
        entry.length = term.len() as u8;
        let mut k: usize = 0;
        while k < term.len()
            invariant
                term@.len() <= MAX_TERM_BYTES,
                entry.length == term@.len(),
                entry.hash == hash,
                k <= term@.len(),
                forall|j: int| 0 <= j < k ==> entry.bytes@[j] == term@[j],
            decreases term@.len() - k,
        {
            entry.bytes[k] = term[k];
            k += 1;
        }
        entry.document_frequency = 0;
        entry.posting_head = POSTING_NONE;
        assert(entry.bytes@.subrange(0, entry.length as int) =~= term@);
        self.terms[index] = entry;
        self.term_count += 1;
        proof {
            assert(self@.terms =~= with_term(old(self)@, hash, term@).0.terms);
        }
        Some(index)
    }

    /// Count one occurrence of `term` in document `document_id`, filing the
    /// term under `hash`; false for an empty or over-long term, an unknown
    /// document or a full table.
    pub fn index_term_with_hash(&mut self, term: &[u8], document_id: u16, hash: u64) -> (r: bool)
        requires
            old(self).wf(),
        ensures
            final(self).wf(),
            r == index_spec(old(self)@, term@, document_id, hash).0,
            final(self)@ == index_spec(old(self)@, term@, document_id, hash).1,
    {
        proof { lemma_index_chains(self@, term@, document_id, hash, 0); }
        if term.len() == 0 || term.len() > MAX_TERM_BYTES || document_id as usize >= self.document_count {
            return false;
        }
        let term_index = match self.find_or_create_term(hash, term) {
            Some(i) => i,
            None => return false,
        };
        let ghost m1 = self@;
        let head = self.terms[term_index].posting_head;
        match self.find_in_postings(head, document_id) {
            Some(i) => {
                let mut posting = self.postings[i];
                posting.term_frequency = posting.term_frequency.saturating_add(1);
                self.postings[i] = posting;
                proof { assert(self@.terms =~= m1.terms); }
                self.increment_document_length(document_id);
                true
            },
            None => {
                if self.posting_count >= MAX_POSTINGS {
                    return false;
                }
                let posting_index = self.posting_count;
                self.posting_count += 1;
                self.postings[posting_index] = Posting { document_id, term_frequency: 1, next: head };
                let mut entry = self.terms[term_index];
                entry.posting_head = posting_index as u32;
                entry.document_frequency = entry.document_frequency.saturating_add(1);
                self.terms[term_index] = entry;
                proof {
                    let e = m1.terms[term_index as int];
                    assert(self@.terms =~= m1.terms.update(
                        term_index as int,
                        TermModel {
                            posting_head: posting_index as u32,
                            document_frequency: sat_inc_u32(e.document_frequency),
                            ..e
                        },
                    ));
                }
                self.increment_document_length(document_id);
                true
            },
        }
    }

    /// Count one occurrence of `term` in document `document_id`.
    pub fn index_term(&mut self, term: &[u8], document_id: u16) -> (r: bool)
        requires
            old(self).wf(),
        ensures
            final(self).wf(),
            r == index_spec(old(self)@, term@, document_id, fnv(FNV_OFFSET, term@)).0,
            final(self)@ == index_spec(old(self)@, term@, document_id, fnv(FNV_OFFSET, term@)).1,
    {
        let hash = hash_bytes(term);
        self.index_term_with_hash(term, document_id, hash)
    }

    pub fn doc_count(&self) -> (r: usize)
        ensures
            r == self@.document_count,
    {
        self.document_count
    }

    pub fn term_count(&self) -> (r: usize)
        ensures
            r == self@.term_count,
    {
        self.term_count
    }

    pub fn posting_count(&self) -> (r: usize)
        ensures
            r == self@.posting_count,
    {
        self.posting_count
    }
}

// ---------------------------------------------------------------------------
// Text and queries
// ---------------------------------------------------------------------------

pub open spec fn is_space(b: u8) -> bool {
    b == 32 || b == 9 || b == 10 || b == 13
}

/// The first position at or after `c` that is not whitespace.
pub open spec fn skip_space(text: Seq<u8>, c: int) -> int
    decreases text.len() - c,
{
    if 0 <= c < text.len() && is_space(text[c]) {
        skip_space(text, c + 1)
    } else {
        c
    }
}

/// The end of the word starting at `c`.
pub open spec fn word_end(text: Seq<u8>, c: int) -> int
    decreases text.len() - c,
{
    if 0 <= c < text.len() && !is_space(text[c]) {
        word_end(text, c + 1)
    } else {
        c
    }
}

proof fn lemma_scan_bounds(text: Seq<u8>, c: int)
    requires
        0 <= c <= text.len(),
    ensures
        c <= skip_space(text, c) <= text.len(),
        skip_space(text, c) <= word_end(text, skip_space(text, c)) <= text.len(),
        c < text.len() ==> c < word_end(text, skip_space(text, c)),
    decreases text.len() - c,
{
    if c < text.len() && is_space(text[c]) {
        lemma_scan_bounds(text, c + 1);
    } else {
        lemma_word_bounds(text, c);
    }
}

proof fn lemma_word_bounds(text: Seq<u8>, c: int)
    requires
        0 <= c <= text.len(),
    ensures
        c <= word_end(text, c) <= text.len(),
        c < text.len() && !is_space(text[c]) ==> c < word_end(text, c),
    decreases text.len() - c,
{
    if c < text.len() && !is_space(text[c]) {
        lemma_word_bounds(text, c + 1);
    }
}

/// Index every whitespace-separated word of `text` from position `c`, in
/// order: the number of words counted and the index after.
pub open spec fn index_text_from(m: Bm25Model, text: Seq<u8>, document: u16, c: int) -> (nat, Bm25Model)
    decreases text.len() - c,
{
    if c < 0 || c >= text.len() {
        (0, m)
    } else {
        let start = skip_space(text, c);
        let end = word_end(text, start);
        let word = text.subrange(start, end);
        let (ok, m1) = if end > start {
            index_spec(m, word, document, fnv(FNV_OFFSET, word))
        } else {
            (false, m)
        };
        if end <= c || end > text.len() {
            (0, m1)
        } else {
            let (n, m2) = index_text_from(m1, text, document, end);
            ((if ok { 1nat } else { 0 }) + n, m2)
        }
    }
}

pub open spec fn average_length(m: Bm25Model) -> u64 {
    div_q16(m.total_document_length << 16u64, (m.document_count as u64) << 16u64)
}

/// Scores after adding the contributions of the postings along the chain
/// from `cursor`, each to its document.
pub open spec fn chain_scores(scores: Seq<u64>, m: Bm25Model, cursor: u32, idf: u64, avg: u64) -> Seq<u64>
    decreases cursor,
{
    if cursor == POSTING_NONE || cursor >= m.postings.len() {
        scores
    } else {
        let p = m.postings[cursor as int];
        let d = p.document_id as int;
        let s2 = if d < m.document_count {
            scores.update(
                d,
                sat_add(
                    scores[d],
                    term_score_spec(
                        (p.term_frequency as u64) << 16u64,
                        (m.documents[d].length as u64) << 16u64,
                        avg,
                        idf,
                    ),
                ),
            )
        } else {
            scores
        };
        if p.next == POSTING_NONE || p.next >= cursor {
            s2
        } else {
            chain_scores(s2, m, p.next, idf, avg)
        }
    }
}

/// Scores after one query term; unknown, empty and over-long terms add nothing.
pub open spec fn term_scores(scores: Seq<u64>, m: Bm25Model, q: Seq<u8>, avg: u64) -> Seq<u64> {
    if q.len() == 0 || q.len() > MAX_TERM_BYTES {
        scores
    } else {
        match find_term_spec(m, fnv(FNV_OFFSET, q), q) {
            None => scores,
            Some(t) => chain_scores(
                scores,
                m,
                m.terms[t].posting_head,
                idf_spec(m.terms[t].document_frequency, m.document_count as u32),
                avg,
            ),
        }
    }
}

pub open spec fn query_scores(m: Bm25Model, queries: Seq<Seq<u8>>, k: int) -> Seq<u64>
    decreases k,
{
    if k <= 0 {
        Seq::new(MAX_DOCS as nat, |i: int| 0u64)
    } else {
        term_scores(query_scores(m, queries, k - 1), m, queries[k - 1], average_length(m))
    }
}

/// The best unused document among the first `k`: strictly higher scores
/// win, ties keep the earlier document, and only positive scores count.
pub open spec fn best_upto(scores: Seq<u64>, used: Seq<bool>, k: int) -> (Option<int>, u64)
    decreases k,
{
    if k <= 0 {
        (None, 0)
    } else {
        let prev = best_upto(scores, used, k - 1);
        if !used[k - 1] && scores[k - 1] > prev.1 {
            (Some(k - 1), scores[k - 1])
        } else {
            prev
        }
    }
}

/// Up to `remaining` documents in ranking order.
pub open spec fn ranking(scores: Seq<u64>, used: Seq<bool>, n: int, remaining: nat) -> Seq<int>
    decreases remaining,
{
    if remaining == 0 {
        Seq::empty()
    } else {
        match best_upto(scores, used, n).0 {
            None => Seq::empty(),
            Some(d) => seq![d] + ranking(scores, used.update(d, true), n, (remaining - 1) as nat),
        }
    }
}

pub open spec fn query_views(query_terms: Seq<&[u8]>) -> Seq<Seq<u8>> {
    query_terms.map_values(|q: &[u8]| q@)
}

proof fn lemma_best_range(scores: Seq<u64>, used: Seq<bool>, k: int)
    ensures
        best_upto(scores, used, k).0 matches Some(d) ==> 0 <= d < k && !used[d] && scores[d] == best_upto(scores, used, k).1,
    decreases k,
{
    if k > 0 {
        lemma_best_range(scores, used, k - 1);
    }
}

/// How many of the first `k` documents are unused and score above zero.
pub open spec fn positive_unused(scores: Seq<u64>, used: Seq<bool>, k: int) -> nat
    decreases k,
{
    if k <= 0 {
        0
    } else {
        positive_unused(scores, used, k - 1) + if !used[k - 1] && scores[k - 1] > 0 { 1nat } else { 0nat }
    }
}

proof fn lemma_best_picks_positive(scores: Seq<u64>, used: Seq<bool>, k: int)
    ensures
        best_upto(scores, used, k).0 matches Some(d) ==> 0 <= d < k && !used[d] && scores[d] > 0
            && scores[d] == best_upto(scores, used, k).1,
        best_upto(scores, used, k).0 is None ==> positive_unused(scores, used, k) == 0 && best_upto(scores, used, k).1
            == 0,
        forall|x: int| 0 <= x < k && !used[x] ==> #[trigger] scores[x] <= best_upto(scores, used, k).1,
    decreases k,
{
    if k > 0 {
        lemma_best_picks_positive(scores, used, k - 1);
    }
}

proof fn lemma_positive_unused_take(scores: Seq<u64>, used: Seq<bool>, k: int, d: int)
    requires
        0 <= d < used.len(),
        k <= used.len(),
        !used[d],
        scores[d] > 0,
    ensures
        d < k ==> positive_unused(scores, used.update(d, true), k) + 1 == positive_unused(scores, used, k),
        d >= k ==> positive_unused(scores, used.update(d, true), k) == positive_unused(scores, used, k),
    decreases k,
{
    if k > 0 {
        lemma_positive_unused_take(scores, used, k - 1, d);
    }
}

/// The ranking lists `min(remaining, p)` documents, where `p` is the number
/// of unused documents that score above zero: each of them once, each
/// scoring above zero, in non-increasing score order.
pub proof fn lemma_ranking_lists_positive(scores: Seq<u64>, used: Seq<bool>, n: int, remaining: nat)
    requires
        0 <= n <= used.len(),
    ensures
        ranking(scores, used, n, remaining).len() == min_nat(remaining, positive_unused(scores, used, n)),
        forall|w: int|
            0 <= w < ranking(scores, used, n, remaining).len() ==> {
                let d = #[trigger] ranking(scores, used, n, remaining)[w];
                &&& 0 <= d < n
                &&& !used[d]
                &&& scores[d] > 0
            },
        forall|w1: int, w2: int|
            0 <= w1 < w2 < ranking(scores, used, n, remaining).len() ==> ranking(scores, used, n, remaining)[w1]
                != ranking(scores, used, n, remaining)[w2] && scores[ranking(scores, used, n, remaining)[w1]]
                >= scores[ranking(scores, used, n, remaining)[w2]],
    decreases remaining,
{
    lemma_best_picks_positive(scores, used, n);
    if remaining > 0 {
        if let Some(d) = best_upto(scores, used, n).0 {
            let used2 = used.update(d, true);
            let rest = ranking(scores, used2, n, (remaining - 1) as nat);
            lemma_ranking_lists_positive(scores, used2, n, (remaining - 1) as nat);
            lemma_positive_unused_take(scores, used, n, d);
            let r = ranking(scores, used, n, remaining);
            assert(r == seq![d] + rest);
            assert forall|w: int| 0 <= w < rest.len() implies rest[w] != d && !used[rest[w]] && scores[rest[w]] <= scores[d] by {
                let x = rest[w];
                assert(!used2[x]);
                if x != d {
                    assert(used2[x] == used[x]);
                }
            }
            assert forall|w: int| 0 <= w < r.len() implies {
                let x = #[trigger] r[w];
                &&& 0 <= x < n
                &&& !used[x]
                &&& scores[x] > 0
            } by {
                if w > 0 {
                    assert(r[w] == rest[w - 1]);
                }
            }
            assert forall|w1: int, w2: int| 0 <= w1 < w2 < r.len() implies r[w1] != r[w2] && scores[r[w1]] >= scores[r[w2]] by {
                assert(r[w2] == rest[w2 - 1]);
                if w1 > 0 {
                    assert(r[w1] == rest[w1 - 1]);
                }
            }
        }
    }
}

/// The (external id, Q16 score) pairs a query writes for `capacity` slots.
pub open spec fn query_pairs(m: Bm25Model, queries: Seq<Seq<u8>>, capacity: nat) -> Seq<(u64, u32)> {
    if m.document_count == 0 || capacity == 0 || m.total_document_length == 0 {
        Seq::empty()
    } else {
        let scores = query_scores(m, queries, queries.len() as int);
        let picked = ranking(scores, Seq::new(MAX_DOCS as nat, |i: int| false), m.document_count as int, capacity);
        picked.map_values(
            |d: int|
                (
                    m.documents[d].external_id,
                    (if scores[d] > u32::MAX { u32::MAX as u64 } else { scores[d] }) as u32,
                ),
        )
    }
}

proof fn lemma_ranking_len(scores: Seq<u64>, used: Seq<bool>, n: int, remaining: nat)
    ensures
        ranking(scores, used, n, remaining).len() <= remaining,
    decreases remaining,
{
    if remaining > 0 {
        if let Some(d) = best_upto(scores, used, n).0 {
            lemma_ranking_len(scores, used.update(d, true), n, (remaining - 1) as nat);
        }
    }
}

/// A query never writes more pairs than there are slots.
pub proof fn lemma_query_count(m: Bm25Model, queries: Seq<Seq<u8>>, capacity: nat)
    ensures
        query_pairs(m, queries, capacity).len() <= capacity,
{
    if !(m.document_count == 0 || capacity == 0 || m.total_document_length == 0) {
        let scores = query_scores(m, queries, queries.len() as int);
        lemma_ranking_len(scores, Seq::new(MAX_DOCS as nat, |i: int| false), m.document_count as int, capacity);
    }
}

/// A query over documents with positive total length writes
/// `min(slots, p)` pairs, where `p` is the number of documents scoring above
/// zero: each such document at most once, each with a positive score, best
/// first.
pub proof fn lemma_query_lists_positive(m: Bm25Model, queries: Seq<Seq<u8>>, capacity: nat)
    requires
        m.wf(),
        m.document_count > 0,
        m.total_document_length > 0,
    ensures
        ({
            let scores = query_scores(m, queries, queries.len() as int);
            let none = Seq::new(MAX_DOCS as nat, |i: int| false);
            let picked = ranking(scores, none, m.document_count as int, capacity);
            &&& query_pairs(m, queries, capacity).len() == min_nat(
                capacity,
                positive_unused(scores, none, m.document_count as int),
            )
            &&& forall|w: int|
                0 <= w < picked.len() ==> 0 <= #[trigger] picked[w] < m.document_count && scores[picked[w]] > 0
            &&& forall|w1: int, w2: int|
                0 <= w1 < w2 < picked.len() ==> picked[w1] != picked[w2] && scores[picked[w1]] >= scores[picked[w2]]
        }),
{
    let scores = query_scores(m, queries, queries.len() as int);
    let none = Seq::new(MAX_DOCS as nat, |i: int| false);
    lemma_ranking_lists_positive(scores, none, m.document_count as int, capacity);
    if capacity == 0 {
        assert(ranking(scores, none, m.document_count as int, capacity).len() == 0);
    }
}

impl Bm25Index {
    /// Index every whitespace-separated word of `text` for `document_id`;
    /// the number of words counted, saturating.
    pub fn index_text(&mut self, text: &[u8], document_id: u16) -> (r: u32)
        requires
            old(self).wf(),
        ensures
            final(self).wf(),
            r == (if index_text_from(old(self)@, text@, document_id, 0).0 > u32::MAX {
                u32::MAX as nat
            } else {
                index_text_from(old(self)@, text@, document_id, 0).0
            }),
            final(self)@ == index_text_from(old(self)@, text@, document_id, 0).1,
    {
        let ghost total = index_text_from(self@, text@, document_id, 0).0;
        let ghost outcome = index_text_from(self@, text@, document_id, 0).1;
        let mut indexed: u32 = 0;
        let mut cursor: usize = 0;
        let ghost mut counted: nat = 0;
        while cursor < text.len()
            invariant
                self.wf(),
                cursor <= text@.len(),
                counted + index_text_from(self@, text@, document_id, cursor as int).0 == total,
                index_text_from(self@, text@, document_id, cursor as int).1 == outcome,
                indexed == (if counted > u32::MAX { u32::MAX as nat } else { counted }),
            decreases text@.len() - cursor,
        {
            proof { lemma_scan_bounds(text@, cursor as int); }
            let ghost c0 = cursor as int;
            while cursor < text.len() && (text[cursor] == 32 || text[cursor] == 9 || text[cursor] == 10 || text[cursor] == 13)
                invariant
                    c0 <= cursor <= text@.len(),
                    skip_space(text@, c0) == skip_space(text@, cursor as int),
                decreases text@.len() - cursor,
            {
                cursor += 1;
            }
            let start = cursor;
            while cursor < text.len() && !(text[cursor] == 32 || text[cursor] == 9 || text[cursor] == 10 || text[cursor] == 13)
                invariant
                    start <= cursor <= text@.len(),
                    word_end(text@, start as int) == word_end(text@, cursor as int),
                decreases text@.len() - cursor,
            {
                cursor += 1;
            }
            if cursor > start {
                let word = &text[start..cursor];
                if self.index_term(word, document_id) {
                    indexed = indexed.saturating_add(1);
                    proof { counted = counted + 1; }
                }
            }
        }
        indexed
    }

    /// Score every document against the query terms by BM25 and write the
    /// best-scoring ones, highest first (ties by document order, positive
    /// scores only), as (external id, Q16 score); returns how many.
    pub fn query(&self, query_terms: &[&[u8]], out: &mut [(u64, Weight)]) -> (r: usize)
        requires
            self.wf(),
        ensures
            final(out)@.len() == old(out)@.len(),
            (self@.document_count == 0 || old(out)@.len() == 0 || self@.total_document_length == 0) ==> r == 0
                && final(out)@ == old(out)@,
            !(self@.document_count == 0 || old(out)@.len() == 0 || self@.total_document_length == 0) ==> ({
                let scores = query_scores(self@, query_views(query_terms@), query_terms@.len() as int);
                let picked = ranking(
                    scores,
                    Seq::new(MAX_DOCS as nat, |i: int| false),
                    self@.document_count as int,
                    old(out)@.len(),
                );
                &&& r == picked.len()
                &&& forall|w: int|
                    0 <= w < r ==> final(out)@[w] == (
                        self@.documents[picked[w]].external_id,
                        (if scores[picked[w]] > u32::MAX { u32::MAX as u64 } else { scores[picked[w]] }) as u32,
                    )
                &&& forall|w: int| r <= w < old(out)@.len() ==> final(out)@[w] == old(out)@[w]
            }),
            final(out)@.subrange(0, r as int) == query_pairs(self@, query_views(query_terms@), old(out)@.len()),
    {
        if self.document_count == 0 || out.len() == 0 || self.total_document_length == 0 {
            proof { assert(out@.subrange(0, 0) =~= Seq::<(u64, u32)>::empty()); }
            return 0;
        }
        proof { self.lemma_wf(); }
        let scoring_documents = self.document_count;
        let document_count_q16 = (self.document_count as u64) << 16u64;
        let average_length_q16 = q16_div(self.total_document_length << 16u64, document_count_q16);
        let ghost views = query_views(query_terms@);
        let mut scores_q16 = [0u64; MAX_DOCS];
        proof { assert(scores_q16@ =~= query_scores(self@, views, 0)); }
        let mut k: usize = 0;
        while k < query_terms.len()
            invariant
                self.wf(),
                self@.wf(),
                scoring_documents == self@.document_count,
                average_length_q16 == average_length(self@),
                views == query_views(query_terms@),
                k <= query_terms@.len(),
                scores_q16@ == query_scores(self@, views, k as int),
            decreases query_terms@.len() - k,
        {
            let query_term = query_terms[k];
            assert(views[k as int] == query_term@);
            if query_term.len() != 0 && query_term.len() <= MAX_TERM_BYTES {
                let hash = hash_bytes(query_term);
                match self.find_term(hash, query_term) {
                    None => {},
                    Some(term_index) => {
                        proof {
                            assert(is_first(self@.terms.subrange(0, self@.term_count as int), matching(hash, query_term@), term_index as int));
                        }
                        let term = self.terms[term_index];
                        let idf = idf_q16(term.document_frequency, self.document_count as u32);
                        let mut cursor = term.posting_head;
                        let ghost target = chain_scores(scores_q16@, self@, cursor, idf, average_length_q16);
                        while cursor != POSTING_NONE
                            invariant
                                self.wf(),
                                self@.wf(),
                                scoring_documents == self@.document_count,
                                cursor == POSTING_NONE || cursor < self@.posting_count,
                                chain_scores(scores_q16@, self@, cursor, idf, average_length_q16) == target,
                            decreases if cursor == POSTING_NONE { 0 } else { cursor + 1 },
                        {
                            let posting = self.postings[cursor as usize];
                            let document_index = posting.document_id as usize;
                            if document_index < scoring_documents {
                                let term_frequency_q16 = (posting.term_frequency as u64) << 16u64;
                                let document_length_q16 = (self.documents[document_index].length as u64) << 16u64;
                                let contribution = bm25_term_score_q16(
                                    term_frequency_q16,
                                    document_length_q16,
                                    average_length_q16,
                                    idf,
                                );
                                scores_q16[document_index] = scores_q16[document_index].saturating_add(contribution);
                            }
                            cursor = posting.next;
                        }
                    },
                }
            }
            k += 1;
        }
        let ghost scores = scores_q16@;
        let mut used = [false; MAX_DOCS];
        let ghost picked = ranking(scores, Seq::new(MAX_DOCS as nat, |i: int| false), scoring_documents as int, out@.len());
        let ghost mut done: Seq<int> = Seq::empty();
        proof { assert(used@ =~= Seq::new(MAX_DOCS as nat, |i: int| false)); }
        let mut written: usize = 0;
        while written < out.len()
            invariant
                self@.wf(),
                scoring_documents == self@.document_count,
                scoring_documents <= MAX_DOCS,
                scores == scores_q16@,
                out@.len() == old(out)@.len(),
                written <= out@.len(),
                done.len() == written,
                picked == done + ranking(scores, used@, scoring_documents as int, (out@.len() - written) as nat),
                forall|w: int|
                    0 <= w < written ==> out@[w] == (
                        self@.documents[done[w]].external_id,
                        (if scores[done[w]] > u32::MAX { u32::MAX as u64 } else { scores[done[w]] }) as u32,
                    ),
                forall|w: int| written <= w < out@.len() ==> out@[w] == old(out)@[w],
            ensures
                picked == done,
                written == done.len(),
                out@.len() == old(out)@.len(),
                forall|w: int|
                    0 <= w < written ==> out@[w] == (
                        self@.documents[done[w]].external_id,
                        (if scores[done[w]] > u32::MAX { u32::MAX as u64 } else { scores[done[w]] }) as u32,
                    ),
                forall|w: int| written <= w < out@.len() ==> out@[w] == old(out)@[w],
            decreases out@.len() - written,
        {
            let mut best_document: Option<usize> = None;
            let mut best_score: u64 = 0;
            let mut document: usize = 0;
            while document < scoring_documents
                invariant
                    scoring_documents <= MAX_DOCS,
                    document <= scoring_documents,
                    (match best_document {
                        Some(b) => Some(b as int),
                        None => None::<int>,
                    }, best_score) == best_upto(scores, used@, document as int),
                    scores == scores_q16@,
                decreases scoring_documents - document,
            {
                if !used[document] && scores_q16[document] > best_score {
                    best_score = scores_q16[document];
                    best_document = Some(document);
                }
                document += 1;
            }
            proof { lemma_best_range(scores, used@, scoring_documents as int); }
            let document = match best_document {
                Some(d) => d,
                None => {
                    proof { assert(done + Seq::<int>::empty() =~= done); }
                    break;
                },
            };
            proof {
                assert(picked == done + (seq![document as int] + ranking(
                    scores,
                    used@.update(document as int, true),
                    scoring_documents as int,
                    (out@.len() - written - 1) as nat,
                )));
            }
            used[document] = true;
            let shown = if best_score > u32::MAX as u64 { u32::MAX } else { best_score as u32 };
            out[written] = (self.documents[document].external_id, shown);
            proof {
                assert(picked == done.push(document as int) + ranking(
                    scores,
                    used@,
                    scoring_documents as int,
                    (out@.len() - written - 1) as nat,
                ));
                done = done.push(document as int);
            }
            written += 1;
        }
        proof {
            if written == out@.len() {
                assert(picked == done);
            }
            assert(out@.subrange(0, written as int) =~= query_pairs(self@, views, old(out)@.len()));
        }
        written
    }
}

} // verus!
