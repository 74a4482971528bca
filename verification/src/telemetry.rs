//! The observability service: bounded rings of runtime events and audit
//! records, the counters the events drive, the cognitive status last
//! reported, its durable snapshot and its diagnostics answer.

use vstd::prelude::*;
use crate::bytes::{
    get_u32, get_u64, le_u32_at, le_u32_bytes, le_u64_at, le_u64_bytes, lemma_le_u32_at_eq, lemma_le_u32_roundtrip,
    lemma_le_u64_at_eq, lemma_le_u64_roundtrip, put_bytes, put_u32, put_u64,
};

verus! {

pub const TAG_PING: u8 = 0x01;
pub const TAG_PONG: u8 = 0x02;
pub const TAG_SHUTDOWN: u8 = 0x04;
pub const TAG_EVENT: u8 = 0x60;
pub const TAG_AUDIT: u8 = 0x61;
pub const TAG_DIAGNOSTIC_QUERY: u8 = 0x62;
pub const TAG_DIAGNOSTIC_RESPONSE: u8 = 0x63;
pub const TAG_COGNITIVE_STATUS: u8 = 0x64;
pub const RING_CAP: usize = 64;
pub const HEADER_SIZE: usize = 72;
pub const EVENT_SIZE: usize = 48;
pub const AUDIT_SIZE: usize = 48;
pub const AUDITS_OFFSET: usize = 3144;
pub const TELEMETRY_SNAPSHOT_CAP: usize = 6216;
pub const COGNITIVE_BYTES: usize = 18;
/// Event kinds that drive the counters.
pub const EVENT_DOCUMENT: u8 = 0;
pub const EVENT_ENTITY: u8 = 11;
pub const EVENT_RELATION: u8 = 12;
pub const EVENT_SPECTRAL: u8 = 20;

#[derive(Clone, Copy, Debug, PartialEq, Eq, Structural)]
pub struct Event {
    pub seq: u64,
    pub kind: u8,
    pub node: u64,
    pub node2: u64,
    pub value: u32,
    pub timestamp: u64,
    pub valid: bool,
}

#[derive(Clone, Copy, Debug, PartialEq, Eq, Structural)]
pub struct Audit {
    pub seq: u64,
    pub timestamp: u64,
    pub actor: u64,
    pub action: u8,
    pub outcome: u8,
    pub target: u64,
    pub valid: bool,
}

pub open spec fn empty_event_spec() -> Event {
    Event { seq: 0, kind: 0, node: 0, node2: 0, value: 0, timestamp: 0, valid: false }
}

pub open spec fn empty_audit_spec() -> Audit {
    Audit { seq: 0, timestamp: 0, actor: 0, action: 0, outcome: 0, target: 0, valid: false }
}

pub struct TelemetryModel {
    pub events: Seq<Event>,
    pub audits: Seq<Audit>,
    pub event_seq: u64,
    pub audit_seq: u64,
    pub doc_count: u32,
    pub entity_count: u32,
    pub relation_count: u32,
    pub spectral_refresh: u64,
    pub cognitive: Seq<u8>,
    pub cognitive_active: bool,
}

pub struct Observatory {
    events: [Event; RING_CAP],
    audits: [Audit; RING_CAP],
    event_seq: u64,
    audit_seq: u64,
    doc_count: u32,
    entity_count: u32,
    relation_count: u32,
    spectral_refresh: u64,
    cognitive: [u8; COGNITIVE_BYTES],
    cognitive_active: bool,
}

impl View for Observatory {
    type V = TelemetryModel;

    closed spec fn view(&self) -> TelemetryModel {
        TelemetryModel {
            events: self.events@,
            audits: self.audits@,
            event_seq: self.event_seq,
            audit_seq: self.audit_seq,
            doc_count: self.doc_count,
            entity_count: self.entity_count,
            relation_count: self.relation_count,
            spectral_refresh: self.spectral_refresh,
            cognitive: self.cognitive@,
            cognitive_active: self.cognitive_active,
        }
    }
}

pub open spec fn sat_inc64(v: u64) -> u64 {
    if v == u64::MAX {
        u64::MAX
    } else {
        (v + 1) as u64
    }
}

pub open spec fn sat_inc32(v: u32) -> u32 {
    if v == u32::MAX {
        u32::MAX
    } else {
        (v + 1) as u32
    }
}

/// The event a payload reports, numbered `seq`.
pub open spec fn event_of(payload: Seq<u8>, seq: u64) -> Event {
    Event {
        seq,
        kind: payload[0],
        node: le_u64_at(payload, 1),
        node2: le_u64_at(payload, 9),
        value: le_u32_at(payload, 17),
        timestamp: le_u64_at(payload, 21),
        valid: true,
    }
}

/// The audit record a payload reports, numbered `seq`.
pub open spec fn audit_of(payload: Seq<u8>, seq: u64) -> Audit {
    Audit {
        seq,
        timestamp: le_u64_at(payload, 0),
        actor: le_u64_at(payload, 8),
        action: payload[16],
        outcome: payload[17],
        target: le_u64_at(payload, 18),
        valid: true,
    }
}

/// The ring slot of the record numbered `seq` (numbering starts at one).
pub open spec fn ring_slot(seq: u64) -> int {
    (seq - 1) % (RING_CAP as int)
}

/// The model after a runtime event is recorded.
pub open spec fn event_spec(m: TelemetryModel, payload: Seq<u8>) -> TelemetryModel {
    if payload.len() < 29 {
        m
    } else {
        let seq = sat_inc64(m.event_seq);
        let e = event_of(payload, seq);
        TelemetryModel {
            events: m.events.update(ring_slot(seq), e),
            event_seq: seq,
            doc_count: if e.kind == EVENT_DOCUMENT { sat_inc32(m.doc_count) } else { m.doc_count },
            entity_count: if e.kind == EVENT_ENTITY { sat_inc32(m.entity_count) } else { m.entity_count },
            relation_count: if e.kind == EVENT_RELATION { sat_inc32(m.relation_count) } else { m.relation_count },
            spectral_refresh: if e.kind == EVENT_SPECTRAL { e.timestamp } else { m.spectral_refresh },
            ..m
        }
    }
}

/// The model after an audit record is recorded.
pub open spec fn audit_spec(m: TelemetryModel, payload: Seq<u8>) -> TelemetryModel {
    if payload.len() < 26 {
        m
    } else {
        let seq = sat_inc64(m.audit_seq);
        TelemetryModel { audits: m.audits.update(ring_slot(seq), audit_of(payload, seq)), audit_seq: seq, ..m }
    }
}

/// The model after a cognitive status report; a status below 10 is active.
pub open spec fn cognitive_spec(m: TelemetryModel, payload: Seq<u8>) -> TelemetryModel {
    if payload.len() < COGNITIVE_BYTES {
        m
    } else {
        TelemetryModel {
            cognitive: payload.subrange(0, COGNITIVE_BYTES as int),
            cognitive_active: payload[0] < 10,
            ..m
        }
    }
}

pub open spec fn flag(b: bool) -> u8 {
    if b {
        1
    } else {
        0
    }
}

pub open spec fn zeros(n: nat) -> Seq<u8> {
    Seq::new(n, |i: int| 0u8)
}

/// The 48-byte durable record of an event.
pub open spec fn event_bytes(e: Event) -> Seq<u8> {
    seq![flag(e.valid), e.kind] + zeros(6) + le_u64_bytes(e.seq) + le_u64_bytes(e.node) + le_u64_bytes(e.node2)
        + le_u32_bytes(e.value) + zeros(4) + le_u64_bytes(e.timestamp)
}

/// The 48-byte durable record of an audit record.
pub open spec fn audit_bytes(a: Audit) -> Seq<u8> {
    seq![flag(a.valid), a.action, a.outcome] + zeros(5) + le_u64_bytes(a.seq) + le_u64_bytes(a.timestamp)
        + le_u64_bytes(a.actor) + le_u64_bytes(a.target) + zeros(8)
}

/// "SYD1", then the counters and the cognitive status.
pub open spec fn header_bytes(m: TelemetryModel) -> Seq<u8> {
    seq![0x53u8, 0x59, 0x44, 0x31] + zeros(4) + le_u64_bytes(m.event_seq) + le_u64_bytes(m.audit_seq) + le_u32_bytes(
        m.doc_count,
    ) + le_u32_bytes(m.entity_count) + le_u32_bytes(m.relation_count) + zeros(4) + le_u64_bytes(m.spectral_refresh)
        + m.cognitive + seq![flag(m.cognitive_active)] + zeros(5)
}

/// The snapshot byte at `k`: the header, the event ring, the audit ring.
pub open spec fn snapshot_byte(m: TelemetryModel, k: int) -> u8 {
    if k < HEADER_SIZE {
        header_bytes(m)[k]
    } else if k < AUDITS_OFFSET {
        event_bytes(m.events[(k - 72) / 48])[(k - 72) % 48]
    } else {
        audit_bytes(m.audits[(k - 3144) / 48])[(k - 3144) % 48]
    }
}

pub open spec fn snapshot_bytes(m: TelemetryModel) -> Seq<u8> {
    Seq::new(TELEMETRY_SNAPSHOT_CAP as nat, |k: int| snapshot_byte(m, k))
}

pub open spec fn event_at(s: Seq<u8>, o: int) -> Event {
    Event {
        valid: s[o] != 0,
        kind: s[o + 1],
        seq: le_u64_at(s, o + 8),
        node: le_u64_at(s, o + 16),
        node2: le_u64_at(s, o + 24),
        value: le_u32_at(s, o + 32),
        timestamp: le_u64_at(s, o + 40),
    }
}

pub open spec fn audit_at(s: Seq<u8>, o: int) -> Audit {
    Audit {
        valid: s[o] != 0,
        action: s[o + 1],
        outcome: s[o + 2],
        seq: le_u64_at(s, o + 8),
        timestamp: le_u64_at(s, o + 16),
        actor: le_u64_at(s, o + 24),
        target: le_u64_at(s, o + 32),
    }
}

pub open spec fn has_magic(s: Seq<u8>) -> bool {
    s[0] == 0x53 && s[1] == 0x59 && s[2] == 0x44 && s[3] == 0x31
}

/// The model a snapshot holds.
pub open spec fn decode_spec(s: Seq<u8>) -> TelemetryModel {
    TelemetryModel {
        event_seq: le_u64_at(s, 8),
        audit_seq: le_u64_at(s, 16),
        doc_count: le_u32_at(s, 24),
        entity_count: le_u32_at(s, 28),
        relation_count: le_u32_at(s, 32),
        spectral_refresh: le_u64_at(s, 40),
        cognitive: s.subrange(48, 66),
        cognitive_active: s[66] != 0,
        events: Seq::new(RING_CAP as nat, |i: int| event_at(s, 72 + i * 48)),
        audits: Seq::new(RING_CAP as nat, |i: int| audit_at(s, 3144 + i * 48)),
    }
}

proof fn lemma_u64_field(s: Seq<u8>, o: int, v: u64)
    requires
        0 <= o,
        o + 8 <= s.len(),
        forall|c: int| 0 <= c < 8 ==> #[trigger] s[o + c] == le_u64_bytes(v)[c],
    ensures
        le_u64_at(s, o) == v,
{
    lemma_le_u64_at_eq(s, o, le_u64_bytes(v));
    lemma_le_u64_roundtrip(v);
}

proof fn lemma_u32_field(s: Seq<u8>, o: int, v: u32)
    requires
        0 <= o,
        o + 4 <= s.len(),
        forall|c: int| 0 <= c < 4 ==> #[trigger] s[o + c] == le_u32_bytes(v)[c],
    ensures
        le_u32_at(s, o) == v,
{
    lemma_le_u32_at_eq(s, o, le_u32_bytes(v));
    lemma_le_u32_roundtrip(v);
}

proof fn lemma_slot(base: int, i: int, k: int)
    requires
        0 <= i,
        base + i * 48 <= k < base + i * 48 + 48,
    ensures
        (k - base) / 48 == i,
        (k - base) % 48 == k - base - i * 48,
{
    assert((k - base) / 48 == i && (k - base) % 48 == k - base - i * 48) by (nonlinear_arith)
        requires
            0 <= i,
            base + i * 48 <= k < base + i * 48 + 48,
    ;
}

proof fn lemma_event_at(s: Seq<u8>, o: int, e: Event)
    requires
        0 <= o,
        o + 48 <= s.len(),
        forall|c: int| 0 <= c < 48 ==> #[trigger] s[o + c] == event_bytes(e)[c],
    ensures
        event_at(s, o) == e,
{
    let r = event_bytes(e);
    assert forall|c: int| 0 <= c < 8 implies #[trigger] s[o + 8 + c] == le_u64_bytes(e.seq)[c] by {
        assert(s[o + (8 + c)] == r[8 + c]);
    }
    lemma_u64_field(s, o + 8, e.seq);
    assert forall|c: int| 0 <= c < 8 implies #[trigger] s[o + 16 + c] == le_u64_bytes(e.node)[c] by {
        assert(s[o + (16 + c)] == r[16 + c]);
    }
    lemma_u64_field(s, o + 16, e.node);
    assert forall|c: int| 0 <= c < 8 implies #[trigger] s[o + 24 + c] == le_u64_bytes(e.node2)[c] by {
        assert(s[o + (24 + c)] == r[24 + c]);
    }
    lemma_u64_field(s, o + 24, e.node2);
    assert forall|c: int| 0 <= c < 4 implies #[trigger] s[o + 32 + c] == le_u32_bytes(e.value)[c] by {
        assert(s[o + (32 + c)] == r[32 + c]);
    }
    lemma_u32_field(s, o + 32, e.value);
    assert forall|c: int| 0 <= c < 8 implies #[trigger] s[o + 40 + c] == le_u64_bytes(e.timestamp)[c] by {
        assert(s[o + (40 + c)] == r[40 + c]);
    }
    lemma_u64_field(s, o + 40, e.timestamp);
    assert(s[o + 0] == r[0]);
    assert(s[o + 1] == r[1]);
}

proof fn lemma_event_roundtrip(m: TelemetryModel, i: int)
    requires
        m.events.len() == RING_CAP,
        m.audits.len() == RING_CAP,
        m.cognitive.len() == COGNITIVE_BYTES,
        0 <= i < RING_CAP,
    ensures
        event_at(snapshot_bytes(m), 72 + i * 48) == m.events[i],
{
    let s = snapshot_bytes(m);
    let o = 72 + i * 48;
    assert(o + 48 <= AUDITS_OFFSET) by (nonlinear_arith)
        requires
            0 <= i < 64,
            o == 72 + i * 48,
    ;
    assert forall|c: int| 0 <= c < 48 implies #[trigger] s[o + c] == event_bytes(m.events[i])[c] by {
        lemma_slot(72, i, o + c);
    }
    lemma_event_at(s, o, m.events[i]);
}

proof fn lemma_audit_at(s: Seq<u8>, o: int, a: Audit)
    requires
        0 <= o,
        o + 48 <= s.len(),
        forall|c: int| 0 <= c < 48 ==> #[trigger] s[o + c] == audit_bytes(a)[c],
    ensures
        audit_at(s, o) == a,
{
    let r = audit_bytes(a);
    assert forall|c: int| 0 <= c < 8 implies #[trigger] s[o + 8 + c] == le_u64_bytes(a.seq)[c] by {
        assert(s[o + (8 + c)] == r[8 + c]);
    }
    lemma_u64_field(s, o + 8, a.seq);
    assert forall|c: int| 0 <= c < 8 implies #[trigger] s[o + 16 + c] == le_u64_bytes(a.timestamp)[c] by {
        assert(s[o + (16 + c)] == r[16 + c]);
    }
    lemma_u64_field(s, o + 16, a.timestamp);
    assert forall|c: int| 0 <= c < 8 implies #[trigger] s[o + 24 + c] == le_u64_bytes(a.actor)[c] by {
        assert(s[o + (24 + c)] == r[24 + c]);
    }
    lemma_u64_field(s, o + 24, a.actor);
    assert forall|c: int| 0 <= c < 8 implies #[trigger] s[o + 32 + c] == le_u64_bytes(a.target)[c] by {
        assert(s[o + (32 + c)] == r[32 + c]);
    }
    lemma_u64_field(s, o + 32, a.target);
    assert(s[o + 0] == r[0]);
    assert(s[o + 1] == r[1]);
    assert(s[o + 2] == r[2]);
}

proof fn lemma_audit_roundtrip(m: TelemetryModel, i: int)
    requires
        m.events.len() == RING_CAP,
        m.audits.len() == RING_CAP,
        m.cognitive.len() == COGNITIVE_BYTES,
        0 <= i < RING_CAP,
    ensures
        audit_at(snapshot_bytes(m), 3144 + i * 48) == m.audits[i],
{
    let s = snapshot_bytes(m);
    let o = 3144 + i * 48;
    assert(o + 48 <= TELEMETRY_SNAPSHOT_CAP && o >= AUDITS_OFFSET) by (nonlinear_arith)
        requires
            0 <= i < 64,
            o == 3144 + i * 48,
    ;
    assert forall|c: int| 0 <= c < 48 implies #[trigger] s[o + c] == audit_bytes(m.audits[i])[c] by {
        lemma_slot(3144, i, o + c);
    }
    lemma_audit_at(s, o, m.audits[i]);
}

/// The observability state read back from its snapshot is the state.
pub proof fn lemma_snapshot_roundtrip(m: TelemetryModel)
    requires
        m.events.len() == RING_CAP,
        m.audits.len() == RING_CAP,
        m.cognitive.len() == COGNITIVE_BYTES,
    ensures
        has_magic(snapshot_bytes(m)),
        decode_spec(snapshot_bytes(m)) == m,
{
    let s = snapshot_bytes(m);
    let h = header_bytes(m);
    assert forall|c: int| 0 <= c < 72 implies #[trigger] s[c] == h[c] by {}
    assert forall|c: int| 0 <= c < 8 implies #[trigger] s[8 + c] == le_u64_bytes(m.event_seq)[c] by {
        assert(s[8 + c] == h[8 + c]);
    }
    lemma_u64_field(s, 8, m.event_seq);
    assert forall|c: int| 0 <= c < 8 implies #[trigger] s[16 + c] == le_u64_bytes(m.audit_seq)[c] by {
        assert(s[16 + c] == h[16 + c]);
    }
    lemma_u64_field(s, 16, m.audit_seq);
    assert forall|c: int| 0 <= c < 4 implies #[trigger] s[24 + c] == le_u32_bytes(m.doc_count)[c] by {
        assert(s[24 + c] == h[24 + c]);
    }
    lemma_u32_field(s, 24, m.doc_count);
    assert forall|c: int| 0 <= c < 4 implies #[trigger] s[28 + c] == le_u32_bytes(m.entity_count)[c] by {
        assert(s[28 + c] == h[28 + c]);
    }
    lemma_u32_field(s, 28, m.entity_count);
    assert forall|c: int| 0 <= c < 4 implies #[trigger] s[32 + c] == le_u32_bytes(m.relation_count)[c] by {
        assert(s[32 + c] == h[32 + c]);
    }
    lemma_u32_field(s, 32, m.relation_count);
    assert forall|c: int| 0 <= c < 8 implies #[trigger] s[40 + c] == le_u64_bytes(m.spectral_refresh)[c] by {
        assert(s[40 + c] == h[40 + c]);
    }
    lemma_u64_field(s, 40, m.spectral_refresh);
    assert forall|c: int| 0 <= c < 18 implies #[trigger] s.subrange(48, 66)[c] == m.cognitive[c] by {
        assert(s[48 + c] == h[48 + c]);
    }
    assert(s.subrange(48, 66) =~= m.cognitive);
    assert(s[66] == h[66]);
    assert(s[0] == h[0] && s[1] == h[1] && s[2] == h[2] && s[3] == h[3]);
    assert forall|i: int| 0 <= i < RING_CAP implies #[trigger] event_at(s, 72 + i * 48) == m.events[i] by {
        lemma_event_roundtrip(m, i);
    }
    assert forall|i: int| 0 <= i < RING_CAP implies #[trigger] audit_at(s, 3144 + i * 48) == m.audits[i] by {
        lemma_audit_roundtrip(m, i);
    }
    assert(decode_spec(s).events =~= m.events);
    assert(decode_spec(s).audits =~= m.audits);
}

fn write_zeros(out: &mut [u8], o: usize, n: usize)
    requires
        o + n <= old(out)@.len(),
    ensures
        final(out)@ == put_bytes(old(out)@, o as int, zeros(n as nat)),
{
    let ghost start = out@;
    let mut i: usize = 0;
    while i < n
        invariant
            i <= n,
            o + n <= out.len(),
            out@.len() == start.len(),
            forall|k: int| 0 <= k < out@.len() ==> #[trigger] out@[k] == (if o <= k < o + i { 0u8 } else { start[k] }),
        decreases n - i,
    {
        out[o + i] = 0;
        i += 1;
    }
    assert(out@ =~= put_bytes(start, o as int, zeros(n as nat)));
}

fn write_event(out: &mut [u8], o: usize, e: &Event)
    requires
        o + EVENT_SIZE <= old(out)@.len(),
    ensures
        final(out)@ == put_bytes(old(out)@, o as int, event_bytes(*e)),
{
    let ghost start = out@;
    out[o] = if e.valid { 1 } else { 0 };
    out[o + 1] = e.kind;
    write_zeros(out, o + 2, 6);
    put_u64(out, o + 8, e.seq);
    put_u64(out, o + 16, e.node);
    put_u64(out, o + 24, e.node2);
    put_u32(out, o + 32, e.value);
    write_zeros(out, o + 36, 4);
    put_u64(out, o + 40, e.timestamp);
    assert(out@ =~= put_bytes(start, o as int, event_bytes(*e)));
}

fn write_audit(out: &mut [u8], o: usize, a: &Audit)
    requires
        o + AUDIT_SIZE <= old(out)@.len(),
    ensures
        final(out)@ == put_bytes(old(out)@, o as int, audit_bytes(*a)),
{
    let ghost start = out@;
    out[o] = if a.valid { 1 } else { 0 };
    out[o + 1] = a.action;
    out[o + 2] = a.outcome;
    write_zeros(out, o + 3, 5);
    put_u64(out, o + 8, a.seq);
    put_u64(out, o + 16, a.timestamp);
    put_u64(out, o + 24, a.actor);
    put_u64(out, o + 32, a.target);
    write_zeros(out, o + 40, 8);
    assert(out@ =~= put_bytes(start, o as int, audit_bytes(*a)));
}

impl Observatory {
    /// Empty rings and zero counters.
    pub fn new() -> (r: Self)
        ensures
            r@.events == Seq::new(RING_CAP as nat, |i: int| empty_event_spec()),
            r@.audits == Seq::new(RING_CAP as nat, |i: int| empty_audit_spec()),
            r@.event_seq == 0,
            r@.audit_seq == 0,
            r@.doc_count == 0,
            r@.entity_count == 0,
            r@.relation_count == 0,
            r@.spectral_refresh == 0,
            r@.cognitive == zeros(COGNITIVE_BYTES as nat),
            !r@.cognitive_active,
    {
        let e = Event { seq: 0, kind: 0, node: 0, node2: 0, value: 0, timestamp: 0, valid: false };
        let a = Audit { seq: 0, timestamp: 0, actor: 0, action: 0, outcome: 0, target: 0, valid: false };
        let r = Observatory {
            events: [e; RING_CAP],
            audits: [a; RING_CAP],
            event_seq: 0,
            audit_seq: 0,
            doc_count: 0,
            entity_count: 0,
            relation_count: 0,
            spectral_refresh: 0,
            cognitive: [0; COGNITIVE_BYTES],
            cognitive_active: false,
        };
        assert(r@.events =~= Seq::new(RING_CAP as nat, |i: int| empty_event_spec()));
        assert(r@.audits =~= Seq::new(RING_CAP as nat, |i: int| empty_audit_spec()));
        assert(r@.cognitive =~= zeros(COGNITIVE_BYTES as nat));
        r
    }

    /// Record a runtime event; false, changing nothing, for a short payload.
    pub fn push_event(&mut self, payload: &[u8]) -> (r: bool)
        ensures
            r == (payload@.len() >= 29),
            final(self)@ == event_spec(old(self)@, payload@),
    {
        if payload.len() < 29 {
            return false;
        }
        self.event_seq = self.event_seq.saturating_add(1);
        let event = Event {
            seq: self.event_seq,
            kind: payload[0],
            node: get_u64(payload, 1),
            node2: get_u64(payload, 9),
            value: get_u32(payload, 17),
            timestamp: get_u64(payload, 21),
            valid: true,
        };
        let slot = ((self.event_seq - 1) % 64) as usize;
        self.events[slot] = event;
        if event.kind == EVENT_DOCUMENT {
            self.doc_count = self.doc_count.saturating_add(1);
        } else if event.kind == EVENT_ENTITY {
            self.entity_count = self.entity_count.saturating_add(1);
        } else if event.kind == EVENT_RELATION {
            self.relation_count = self.relation_count.saturating_add(1);
        } else if event.kind == EVENT_SPECTRAL {
            self.spectral_refresh = event.timestamp;
        }
        true
    }

    /// Record an audit record; false, changing nothing, for a short payload.
    pub fn push_audit(&mut self, payload: &[u8]) -> (r: bool)
        ensures
            r == (payload@.len() >= 26),
            final(self)@ == audit_spec(old(self)@, payload@),
    {
        if payload.len() < 26 {
            return false;
        }
        self.audit_seq = self.audit_seq.saturating_add(1);
        let slot = ((self.audit_seq - 1) % 64) as usize;
        self.audits[slot] = Audit {
            seq: self.audit_seq,
            timestamp: get_u64(payload, 0),
            actor: get_u64(payload, 8),
            action: payload[16],
            outcome: payload[17],
            target: get_u64(payload, 18),
            valid: true,
        };
        true
    }

    /// Keep a cognitive status report; false, changing nothing, for a short payload.
    pub fn set_cognitive(&mut self, payload: &[u8]) -> (r: bool)
        ensures
            r == (payload@.len() >= COGNITIVE_BYTES),
            final(self)@ == cognitive_spec(old(self)@, payload@),
    {
        if payload.len() < COGNITIVE_BYTES {
            return false;
        }
        let mut cognitive = [0u8; COGNITIVE_BYTES];
        let mut i: usize = 0;
        while i < COGNITIVE_BYTES
            invariant
                i <= COGNITIVE_BYTES,
                payload@.len() >= COGNITIVE_BYTES,
                forall|k: int| 0 <= k < i ==> cognitive@[k] == payload@[k],
            decreases COGNITIVE_BYTES - i,
        {
            cognitive[i] = payload[i];
            i += 1;
        }
        assert(cognitive@ =~= payload@.subrange(0, COGNITIVE_BYTES as int));
        self.cognitive = cognitive;
        self.cognitive_active = payload[0] < 10;
        true
    }

    /// Write the durable snapshot.
    pub fn encode_snapshot(&self, out: &mut [u8])
        requires
            old(out)@.len() == TELEMETRY_SNAPSHOT_CAP,
        ensures
            final(out)@ == snapshot_bytes(self@),
    {
        let ghost m = self@;
        let ghost h = header_bytes(m);
        out[0] = 0x53;
        out[1] = 0x59;
        out[2] = 0x44;
        out[3] = 0x31;
        write_zeros(out, 4, 4);
        put_u64(out, 8, self.event_seq);
        put_u64(out, 16, self.audit_seq);
        put_u32(out, 24, self.doc_count);
        put_u32(out, 28, self.entity_count);
        put_u32(out, 32, self.relation_count);
        write_zeros(out, 36, 4);
        put_u64(out, 40, self.spectral_refresh);
        let mut c: usize = 0;
        while c < COGNITIVE_BYTES
            invariant
                c <= COGNITIVE_BYTES,
                self@ == m,
                h == header_bytes(m),
                out@.len() == TELEMETRY_SNAPSHOT_CAP,
                forall|k: int| 0 <= k < 48 + c ==> #[trigger] out@[k] == h[k],
            decreases COGNITIVE_BYTES - c,
        {
            out[48 + c] = self.cognitive[c];
            c += 1;
        }
        out[66] = if self.cognitive_active { 1 } else { 0 };
        write_zeros(out, 67, 5);
        assert forall|k: int| 0 <= k < 72 implies #[trigger] out@[k] == snapshot_byte(m, k) by {}
        let mut i: usize = 0;
        while i < RING_CAP
            invariant
                i <= RING_CAP,
                self@ == m,
                out@.len() == TELEMETRY_SNAPSHOT_CAP,
                forall|k: int| 0 <= k < 72 + i * 48 ==> #[trigger] out@[k] == snapshot_byte(m, k),
            decreases RING_CAP - i,
        {
            write_event(out, 72 + i * 48, &self.events[i]);
            proof {
                assert forall|k: int| 0 <= k < 72 + (i + 1) * 48 implies #[trigger] out@[k] == snapshot_byte(m, k) by {
                    if k >= 72 + i * 48 {
                        lemma_slot(72, i as int, k);
                    }
                }
            }
            i += 1;
        }
        let mut j: usize = 0;
        while j < RING_CAP
            invariant
                j <= RING_CAP,
                self@ == m,
                out@.len() == TELEMETRY_SNAPSHOT_CAP,
                forall|k: int| 0 <= k < 3144 + j * 48 ==> #[trigger] out@[k] == snapshot_byte(m, k),
            decreases RING_CAP - j,
        {
            write_audit(out, 3144 + j * 48, &self.audits[j]);
            proof {
                assert forall|k: int| 0 <= k < 3144 + (j + 1) * 48 implies #[trigger] out@[k] == snapshot_byte(m, k) by {
                    if k >= 3144 + j * 48 {
                        lemma_slot(3144, j as int, k);
                    }
                }
            }
            j += 1;
        }
        assert(out@ =~= snapshot_bytes(m));
    }

    /// Replace the state with the one a snapshot holds; false, changing
    /// nothing, for a snapshot of the wrong size or without the magic.
    pub fn decode_snapshot(&mut self, bytes: &[u8]) -> (r: bool)
        ensures
            r == (bytes@.len() == TELEMETRY_SNAPSHOT_CAP && has_magic(bytes@)),
            r ==> final(self)@ == decode_spec(bytes@),
            !r ==> final(self)@ == old(self)@,
    {
        if bytes.len() != TELEMETRY_SNAPSHOT_CAP || bytes[0] != 0x53 || bytes[1] != 0x59 || bytes[2] != 0x44 || bytes[3]
            != 0x31 {
            return false;
        }
        let mut cognitive = [0u8; COGNITIVE_BYTES];
        let mut c: usize = 0;
        while c < COGNITIVE_BYTES
            invariant
                c <= COGNITIVE_BYTES,
                bytes@.len() == TELEMETRY_SNAPSHOT_CAP,
                forall|k: int| 0 <= k < c ==> cognitive@[k] == bytes@[48 + k],
            decreases COGNITIVE_BYTES - c,
        {
            cognitive[c] = bytes[48 + c];
            c += 1;
        }
        let mut events = self.events;
        let mut i: usize = 0;
        while i < RING_CAP
            invariant
                i <= RING_CAP,
                bytes@.len() == TELEMETRY_SNAPSHOT_CAP,
                forall|k: int| 0 <= k < i ==> #[trigger] events@[k] == event_at(bytes@, 72 + k * 48),
            decreases RING_CAP - i,
        {
            let o = 72 + i * 48;
            events[i] = Event {
                valid: bytes[o] != 0,
                kind: bytes[o + 1],
                seq: get_u64(bytes, o + 8),
                node: get_u64(bytes, o + 16),
                node2: get_u64(bytes, o + 24),
                value: get_u32(bytes, o + 32),
                timestamp: get_u64(bytes, o + 40),
            };
            i += 1;
        }
        let mut audits = self.audits;
        let mut j: usize = 0;
        while j < RING_CAP
            invariant
                j <= RING_CAP,
                bytes@.len() == TELEMETRY_SNAPSHOT_CAP,
                forall|k: int| 0 <= k < j ==> #[trigger] audits@[k] == audit_at(bytes@, 3144 + k * 48),
            decreases RING_CAP - j,
        {
            let o = 3144 + j * 48;
            audits[j] = Audit {
                valid: bytes[o] != 0,
                action: bytes[o + 1],
                outcome: bytes[o + 2],
                seq: get_u64(bytes, o + 8),
                timestamp: get_u64(bytes, o + 16),
                actor: get_u64(bytes, o + 24),
                target: get_u64(bytes, o + 32),
            };
            j += 1;
        }
        assert(cognitive@ =~= bytes@.subrange(48, 66));
        assert(events@ =~= decode_spec(bytes@).events);
        assert(audits@ =~= decode_spec(bytes@).audits);
        *self = Observatory {
            events,
            audits,
            event_seq: get_u64(bytes, 8),
            audit_seq: get_u64(bytes, 16),
            doc_count: get_u32(bytes, 24),
            entity_count: get_u32(bytes, 28),
            relation_count: get_u32(bytes, 32),
            spectral_refresh: get_u64(bytes, 40),
            cognitive,
            cognitive_active: bytes[66] != 0,
        };
        true
    }

    /// The diagnostics answer: the counters, the last spectral refresh, the
    /// record numbers and the cognitive status.
    pub fn diagnostics(&self) -> (r: [u8; 49])
        ensures
            r@ == diagnostics_bytes(self@),
    {
        let mut out = [0u8; 49];
        let ghost z = out@;
        put_u32(&mut out, 0, self.doc_count);
        put_u32(&mut out, 4, self.entity_count);
        put_u32(&mut out, 8, self.relation_count);
        put_u64(&mut out, 19, self.spectral_refresh);
        put_u64(&mut out, 31, self.event_seq);
        put_u64(&mut out, 39, self.audit_seq);
        out[47] = if self.cognitive_active { 1 } else { 0 };
        out[48] = self.cognitive[0];
        assert(z =~= zeros(49));
        assert(out@ =~= diagnostics_bytes(self@));
        out
    }
}

/// The 49-byte diagnostics answer.
pub open spec fn diagnostics_bytes(m: TelemetryModel) -> Seq<u8> {
    le_u32_bytes(m.doc_count) + le_u32_bytes(m.entity_count) + le_u32_bytes(m.relation_count) + zeros(7) + le_u64_bytes(
        m.spectral_refresh,
    ) + zeros(4) + le_u64_bytes(m.event_seq) + le_u64_bytes(m.audit_seq) + seq![flag(m.cognitive_active), m.cognitive[0]]
}

/// How the observability service answers one message.
#[derive(Clone, Copy, Debug, PartialEq, Eq)]
pub enum TelemetryReply {
    /// The state changed and is to be persisted; nothing is sent.
    Recorded,
    /// Nothing changed and nothing is sent.
    Ignored,
    /// The diagnostics answer, sent with the diagnostics response tag.
    Diagnostics([u8; 49]),
    /// The diagnostics answer, sent with the pong tag.
    Pong([u8; 49]),
    /// Persist and stop.
    Shutdown,
}

/// Decide the answer to one message and apply what it changes.
pub fn handle_message(state: &mut Observatory, tag: u8, payload: &[u8]) -> (r: TelemetryReply)
    ensures
        tag == TAG_EVENT ==> final(state)@ == event_spec(old(state)@, payload@) && r == (if payload@.len() >= 29 {
            TelemetryReply::Recorded
        } else {
            TelemetryReply::Ignored
        }),
        tag == TAG_AUDIT ==> final(state)@ == audit_spec(old(state)@, payload@) && r == (if payload@.len() >= 26 {
            TelemetryReply::Recorded
        } else {
            TelemetryReply::Ignored
        }),
        tag == TAG_COGNITIVE_STATUS ==> final(state)@ == cognitive_spec(old(state)@, payload@) && r == (if payload@.len()
            >= COGNITIVE_BYTES {
            TelemetryReply::Recorded
        } else {
            TelemetryReply::Ignored
        }),
        tag == TAG_DIAGNOSTIC_QUERY ==> final(state)@ == old(state)@ && (r matches TelemetryReply::Diagnostics(d) && d@
            == diagnostics_bytes(old(state)@)),
        tag == TAG_PING ==> final(state)@ == old(state)@ && (r matches TelemetryReply::Pong(d) && d@ == diagnostics_bytes(
            old(state)@,
        )),
        tag == TAG_SHUTDOWN ==> final(state)@ == old(state)@ && r == TelemetryReply::Shutdown,
        tag != TAG_EVENT && tag != TAG_AUDIT && tag != TAG_COGNITIVE_STATUS && tag != TAG_DIAGNOSTIC_QUERY && tag
            != TAG_PING && tag != TAG_SHUTDOWN ==> final(state)@ == old(state)@ && r == TelemetryReply::Ignored,
{
    if tag == TAG_EVENT {
        if state.push_event(payload) {
            TelemetryReply::Recorded
        } else {
            TelemetryReply::Ignored
        }
    } else if tag == TAG_AUDIT {
        if state.push_audit(payload) {
            TelemetryReply::Recorded
        } else {
            TelemetryReply::Ignored
        }
    } else if tag == TAG_COGNITIVE_STATUS {
        if state.set_cognitive(payload) {
            TelemetryReply::Recorded
        } else {
            TelemetryReply::Ignored
        }
    } else if tag == TAG_DIAGNOSTIC_QUERY {
        TelemetryReply::Diagnostics(state.diagnostics())
    } else if tag == TAG_PING {
        TelemetryReply::Pong(state.diagnostics())
    } else if tag == TAG_SHUTDOWN {
        TelemetryReply::Shutdown
    } else {
        TelemetryReply::Ignored
    }
}

} // verus!
