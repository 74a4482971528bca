//! The artifact catalog service: a fixed table of artifacts, each a graph
//! node with a content hash, where neither node nor hash may be registered
//! twice; its wire descriptors, its durable snapshot, and how it answers a
//! message.

use vstd::prelude::*;
use crate::bytes::{
    get_u32, get_u64, le_u32_at, le_u32_bytes, le_u64_at, le_u64_bytes, lemma_le_u32_at_eq, lemma_le_u32_roundtrip,
    lemma_le_u64_at_eq, lemma_le_u64_roundtrip, put_bytes, put_u32, put_u64,
};

verus! {

pub const TAG_PING: u8 = 0x01;
pub const TAG_PONG: u8 = 0x02;
pub const TAG_ERROR: u8 = 0x03;
pub const TAG_SHUTDOWN: u8 = 0x04;
pub const TAG_CREATED: u8 = 0x50;
pub const TAG_QUERY: u8 = 0x51;
pub const TAG_RESPONSE: u8 = 0x52;
pub const MAX_ARTIFACTS: usize = 128;
pub const RECORD_SIZE: usize = 40;
pub const CATALOG_SNAPSHOT_CAP: usize = 5128;
pub const DESCRIPTOR_SIZE: usize = 37;

#[derive(Clone, Copy, Debug, PartialEq, Eq)]
pub struct Artifact {
    pub node_id: u64,
    pub hash: [u8; 16],
    pub kind: u8,
    pub size: u32,
    pub created_at: u64,
    pub occupied: bool,
}

pub struct ArtifactView {
    pub node_id: u64,
    pub hash: Seq<u8>,
    pub kind: u8,
    pub size: u32,
    pub created_at: u64,
    pub occupied: bool,
}

impl View for Artifact {
    type V = ArtifactView;

    open spec fn view(&self) -> ArtifactView {
        ArtifactView {
            node_id: self.node_id,
            hash: self.hash@,
            kind: self.kind,
            size: self.size,
            created_at: self.created_at,
            occupied: self.occupied,
        }
    }
}

pub open spec fn empty_view() -> ArtifactView {
    ArtifactView {
        node_id: 0,
        hash: Seq::new(16, |i: int| 0u8),
        kind: 0,
        size: 0,
        created_at: 0,
        occupied: false,
    }
}

/// An unused catalog slot.
pub fn empty_artifact() -> (r: Artifact)
    ensures
        r@ == empty_view(),
{
    let r = Artifact { node_id: 0, hash: [0; 16], kind: 0, size: 0, created_at: 0, occupied: false };
    assert(r.hash@ =~= Seq::new(16, |i: int| 0u8));
    r
}

// ---------------------------------------------------------------------------
// The wire descriptor: node, hash, kind, size, creation time
// ---------------------------------------------------------------------------

/// The artifact a descriptor (or a registration payload) describes.
pub open spec fn descriptor_view(p: Seq<u8>) -> ArtifactView {
    ArtifactView {
        node_id: le_u64_at(p, 0),
        hash: p.subrange(8, 24),
        kind: p[24],
        size: le_u32_at(p, 25),
        created_at: le_u64_at(p, 29),
        occupied: true,
    }
}

/// The descriptor of an artifact.
pub open spec fn descriptor_bytes(a: ArtifactView) -> Seq<u8> {
    le_u64_bytes(a.node_id) + a.hash + seq![a.kind] + le_u32_bytes(a.size) + le_u64_bytes(a.created_at)
}

fn copy_hash(bytes: &[u8], offset: usize) -> (r: [u8; 16])
    requires
        offset + 16 <= bytes.len(),
    ensures
        r@ == bytes@.subrange(offset as int, offset + 16),
{
    let mut hash = [0u8; 16];
    let mut i: usize = 0;
    while i < 16
        invariant
            i <= 16,
            offset + 16 <= bytes.len(),
            forall|k: int| 0 <= k < i ==> hash@[k] == bytes@[offset + k],
        decreases 16 - i,
    {
        hash[i] = bytes[offset + i];
        i += 1;
    }
    assert(hash@ =~= bytes@.subrange(offset as int, offset + 16));
    hash
}

fn same_hash(a: &[u8; 16], b: &[u8; 16]) -> (r: bool)
    ensures
        r == (a@ == b@),
{
    let mut i: usize = 0;
    while i < 16
        invariant
            i <= 16,
            forall|k: int| 0 <= k < i ==> a@[k] == b@[k],
        decreases 16 - i,
    {
        if a[i] != b[i] {
            return false;
        }
        i += 1;
    }
    assert(a@ =~= b@);
    true
}

/// Read a registration payload (or a descriptor).
pub fn parse_descriptor(payload: &[u8]) -> (r: Artifact)
    requires
        payload.len() >= DESCRIPTOR_SIZE,
    ensures
        r@ == descriptor_view(payload@),
{
    Artifact {
        node_id: get_u64(payload, 0),
        hash: copy_hash(payload, 8),
        kind: payload[24],
        size: get_u32(payload, 25),
        created_at: get_u64(payload, 29),
        occupied: true,
    }
}

/// The descriptor the catalog answers with.
pub fn encode_descriptor(entry: &Artifact) -> (r: [u8; 37])
    ensures
        r@ == descriptor_bytes(entry@),
{
    let mut out = [0u8; 37];
    put_u64(&mut out, 0, entry.node_id);
    let mut i: usize = 0;
    while i < 16
        invariant
            i <= 16,
            out@.len() == 37,
            out@.subrange(0, 8) == le_u64_bytes(entry.node_id),
            forall|k: int| 0 <= k < i ==> out@[8 + k] == entry.hash@[k],
        decreases 16 - i,
    {
        out[8 + i] = entry.hash[i];
        i += 1;
    }
    out[24] = entry.kind;
    let ghost before = out@;
    put_u32(&mut out, 25, entry.size);
    put_u64(&mut out, 29, entry.created_at);
    assert(out@ =~= descriptor_bytes(entry@));
    out
}

/// A descriptor reads back as the artifact it was made from.
pub proof fn lemma_descriptor_roundtrip(a: ArtifactView)
    requires
        a.hash.len() == 16,
        a.occupied,
    ensures
        descriptor_view(descriptor_bytes(a)) == a,
{
    let p = descriptor_bytes(a);
    lemma_le_u64_at_eq(p, 0, le_u64_bytes(a.node_id));
    lemma_le_u64_roundtrip(a.node_id);
    lemma_le_u32_at_eq(p, 25, le_u32_bytes(a.size));
    lemma_le_u32_roundtrip(a.size);
    lemma_le_u64_at_eq(p, 29, le_u64_bytes(a.created_at));
    lemma_le_u64_roundtrip(a.created_at);
    assert(p.subrange(8, 24) =~= a.hash);
}

// ---------------------------------------------------------------------------
// The durable record: occupied, kind, node, hash, size, creation time
// ---------------------------------------------------------------------------

/// The 40-byte record of one catalog slot.
pub open spec fn record_bytes(a: ArtifactView) -> Seq<u8> {
    seq![if a.occupied { 1u8 } else { 0u8 }, a.kind, 0u8, 0u8] + le_u64_bytes(a.node_id) + a.hash + le_u32_bytes(
        a.size,
    ) + le_u64_bytes(a.created_at)
}

/// The slot a record at offset `o` describes.
pub open spec fn record_view_at(s: Seq<u8>, o: int) -> ArtifactView {
    ArtifactView {
        occupied: s[o] != 0,
        kind: s[o + 1],
        node_id: le_u64_at(s, o + 4),
        hash: s.subrange(o + 12, o + 28),
        size: le_u32_at(s, o + 28),
        created_at: le_u64_at(s, o + 32),
    }
}

/// A record reads back as the slot it was made from.
pub proof fn lemma_record_roundtrip(a: ArtifactView, s: Seq<u8>, o: int)
    requires
        a.hash.len() == 16,
        0 <= o,
        o + RECORD_SIZE <= s.len(),
        s.subrange(o, o + RECORD_SIZE) == record_bytes(a),
    ensures
        record_view_at(s, o) == a,
{
    let r = record_bytes(a);
    assert forall|c: int| 0 <= c < RECORD_SIZE implies #[trigger] s[o + c] == r[c] by {
        assert(s.subrange(o, o + RECORD_SIZE)[c] == s[o + c]);
    }
    assert forall|c: int| 0 <= c < 8 implies #[trigger] s[o + 4 + c] == le_u64_bytes(a.node_id)[c] by {
        assert(s[o + (4 + c)] == r[4 + c]);
    }
    lemma_le_u64_at_eq(s, o + 4, le_u64_bytes(a.node_id));
    lemma_le_u64_roundtrip(a.node_id);
    assert forall|c: int| 0 <= c < 4 implies #[trigger] s[o + 28 + c] == le_u32_bytes(a.size)[c] by {
        assert(s[o + (28 + c)] == r[28 + c]);
    }
    lemma_le_u32_at_eq(s, o + 28, le_u32_bytes(a.size));
    lemma_le_u32_roundtrip(a.size);
    assert forall|c: int| 0 <= c < 8 implies #[trigger] s[o + 32 + c] == le_u64_bytes(a.created_at)[c] by {
        assert(s[o + (32 + c)] == r[32 + c]);
    }
    lemma_le_u64_at_eq(s, o + 32, le_u64_bytes(a.created_at));
    lemma_le_u64_roundtrip(a.created_at);
    assert(s[o + 0] == r[0]);
    assert(s[o + 1] == r[1]);
    assert forall|c: int| 0 <= c < 16 implies #[trigger] s.subrange(o + 12, o + 28)[c] == a.hash[c] by {
        assert(s[o + (12 + c)] == r[12 + c]);
    }
    assert(s.subrange(o + 12, o + 28) =~= a.hash);
}

fn write_record(out: &mut [u8], o: usize, entry: &Artifact)
    requires
        o + RECORD_SIZE <= old(out)@.len(),
    ensures
        final(out)@ == put_bytes(old(out)@, o as int, record_bytes(entry@)),
{
    let ghost start = out@;
    out[o] = if entry.occupied { 1 } else { 0 };
    out[o + 1] = entry.kind;
    out[o + 2] = 0;
    out[o + 3] = 0;
    put_u64(out, o + 4, entry.node_id);
    let mut i: usize = 0;
    while i < 16
        invariant
            i <= 16,
            o + RECORD_SIZE <= out@.len(),
            o + RECORD_SIZE <= out.len(),
            out@.len() == start.len(),
            forall|k: int| o <= k < o + 12 ==> #[trigger] out@[k] == record_bytes(entry@)[k - o],
            forall|k: int| o + 12 <= k < o + 12 + i ==> #[trigger] out@[k] == entry.hash@[k - o - 12],
            forall|k: int| 0 <= k < o ==> #[trigger] out@[k] == start[k],
            forall|k: int| o + 12 + i <= k < out@.len() ==> #[trigger] out@[k] == start[k],
        decreases 16 - i,
    {
        out[o + 12 + i] = entry.hash[i];
        i += 1;
    }
    put_u32(out, o + 28, entry.size);
    put_u64(out, o + 32, entry.created_at);
    assert(out@ =~= put_bytes(start, o as int, record_bytes(entry@)));
}

// ---------------------------------------------------------------------------
// The catalog
// ---------------------------------------------------------------------------

pub struct CatalogModel {
    pub entries: Seq<ArtifactView>,
    pub generation: u64,
}

pub struct Catalog {
    entries: [Artifact; MAX_ARTIFACTS],
    generation: u64,
}

impl View for Catalog {
    type V = CatalogModel;

    closed spec fn view(&self) -> CatalogModel {
        CatalogModel { entries: self.entries@.map_values(|a: Artifact| a@), generation: self.generation }
    }
}

/// Whether two slots of a catalog are both occupied by the same node or the same hash.
pub open spec fn clash(m: CatalogModel, i: int, j: int) -> bool {
    m.entries[i].occupied && m.entries[j].occupied && (m.entries[i].node_id == m.entries[j].node_id
        || m.entries[i].hash == m.entries[j].hash)
}

/// No node and no hash is registered twice.
pub open spec fn unique(m: CatalogModel) -> bool {
    forall|i: int, j: int| 0 <= i < m.entries.len() && 0 <= j < m.entries.len() && i != j ==> !clash(m, i, j)
}

/// Whether a slot is occupied by the node or the hash of `a`.
pub open spec fn holds_same(e: ArtifactView, a: ArtifactView) -> bool {
    e.occupied && (e.node_id == a.node_id || e.hash == a.hash)
}

/// Whether an occupied slot already holds the node or the hash of `a`.
pub open spec fn conflicts(m: CatalogModel, a: ArtifactView) -> bool {
    exists|i: int| 0 <= i < m.entries.len() && #[trigger] holds_same(m.entries[i], a)
}

/// The first free slot at or after `i`, or the length when none is free.
pub open spec fn first_free(entries: Seq<ArtifactView>, i: int) -> int
    decreases entries.len() - i,
{
    if i >= entries.len() || i < 0 {
        entries.len() as int
    } else if !entries[i].occupied {
        i
    } else {
        first_free(entries, i + 1)
    }
}

/// What registering a payload does to the catalog, and its answer.
pub open spec fn register_spec(m: CatalogModel, payload: Seq<u8>) -> (CatalogModel, Result<ArtifactView, u8>) {
    if payload.len() < DESCRIPTOR_SIZE {
        (m, Err(1))
    } else {
        let a = descriptor_view(payload);
        if conflicts(m, a) {
            (m, Err(2))
        } else {
            let slot = first_free(m.entries, 0);
            if slot >= m.entries.len() {
                (m, Err(3))
            } else {
                (
                    CatalogModel {
                        entries: m.entries.update(slot, a),
                        generation: if m.generation == u64::MAX { u64::MAX } else { (m.generation + 1) as u64 },
                    },
                    Ok(a),
                )
            }
        }
    }
}

/// The first occupied slot at or after `i` that holds `node_id`.
pub open spec fn find_from(entries: Seq<ArtifactView>, node_id: u64, i: int) -> Option<ArtifactView>
    decreases entries.len() - i,
{
    if i >= entries.len() || i < 0 {
        None
    } else if entries[i].occupied && entries[i].node_id == node_id {
        Some(entries[i])
    } else {
        find_from(entries, node_id, i + 1)
    }
}

/// Occupied slots among the first `n`.
pub open spec fn occupied_count(entries: Seq<ArtifactView>, n: int) -> nat
    decreases n,
{
    if n <= 0 {
        0
    } else {
        occupied_count(entries, n - 1) + if entries[n - 1].occupied { 1nat } else { 0nat }
    }
}

/// The snapshot byte at `k`: the generation, then one record per slot.
pub open spec fn snapshot_byte(m: CatalogModel, k: int) -> u8 {
    if k < 8 {
        le_u64_bytes(m.generation)[k]
    } else {
        record_bytes(m.entries[(k - 8) / (RECORD_SIZE as int)])[(k - 8) % (RECORD_SIZE as int)]
    }
}

/// The durable snapshot of a catalog.
pub open spec fn snapshot_bytes(m: CatalogModel) -> Seq<u8> {
    Seq::new(CATALOG_SNAPSHOT_CAP as nat, |k: int| snapshot_byte(m, k))
}

/// The catalog a snapshot holds.
pub open spec fn decode_spec(s: Seq<u8>) -> CatalogModel {
    CatalogModel {
        entries: Seq::new(MAX_ARTIFACTS as nat, |i: int| record_view_at(s, 8 + i * (RECORD_SIZE as int))),
        generation: le_u64_at(s, 0),
    }
}

proof fn lemma_record_index(i: int, k: int)
    requires
        0 <= i,
        8 + i * 40 <= k < 8 + i * 40 + 40,
    ensures
        (k - 8) / 40 == i,
        (k - 8) % 40 == k - 8 - i * 40,
{
    assert((k - 8) / 40 == i && (k - 8) % 40 == k - 8 - i * 40) by (nonlinear_arith)
        requires
            0 <= i,
            8 + i * 40 <= k < 8 + i * 40 + 40,
    ;
}

/// A catalog read back from its snapshot is the catalog.
pub proof fn lemma_snapshot_roundtrip(m: CatalogModel)
    requires
        m.entries.len() == MAX_ARTIFACTS,
        forall|i: int| 0 <= i < MAX_ARTIFACTS ==> (#[trigger] m.entries[i]).hash.len() == 16,
    ensures
        decode_spec(snapshot_bytes(m)) == m,
{
    let s = snapshot_bytes(m);
    assert forall|c: int| 0 <= c < 8 implies #[trigger] s[0 + c] == le_u64_bytes(m.generation)[c] by {}
    lemma_le_u64_at_eq(s, 0, le_u64_bytes(m.generation));
    lemma_le_u64_roundtrip(m.generation);
    assert forall|i: int| 0 <= i < MAX_ARTIFACTS implies #[trigger] record_view_at(s, 8 + i * 40) == m.entries[i] by {
        let o = 8 + i * 40;
        assert(o + 40 <= CATALOG_SNAPSHOT_CAP) by (nonlinear_arith)
            requires
                0 <= i < 128,
                o == 8 + i * 40,
        ;
        assert forall|c: int| 0 <= c < 40 implies #[trigger] s.subrange(o, o + 40)[c] == record_bytes(m.entries[i])[c] by {
            lemma_record_index(i, o + c);
        }
        assert(s.subrange(o, o + 40) =~= record_bytes(m.entries[i]));
        lemma_record_roundtrip(m.entries[i], s, o);
    }
    assert(decode_spec(s).entries =~= m.entries);
}

impl Catalog {
    /// An empty catalog at generation zero.
    pub fn new() -> (r: Self)
        ensures
            r@.generation == 0,
            r@.entries == Seq::new(MAX_ARTIFACTS as nat, |i: int| empty_view()),
    {
        let e = empty_artifact();
        let r = Catalog { entries: [e; MAX_ARTIFACTS], generation: 0 };
        assert(r@.entries =~= Seq::new(MAX_ARTIFACTS as nat, |i: int| empty_view()));
        r
    }

    pub fn generation(&self) -> (r: u64)
        ensures
            r == self@.generation,
    {
        self.generation
    }

    /// Register the artifact a payload describes in the first free slot:
    /// error 1 for a short payload, 2 when its node or hash is already
    /// registered, 3 when the catalog is full.
    pub fn register(&mut self, payload: &[u8]) -> (r: Result<Artifact, u8>)
        ensures
            final(self)@ == register_spec(old(self)@, payload@).0,
            (match register_spec(old(self)@, payload@).1 {
                Ok(a) => r is Ok && r->Ok_0@ == a,
                Err(code) => r == Err::<Artifact, u8>(code),
            }),
    {
        if payload.len() < DESCRIPTOR_SIZE {
            return Err(1);
        }
        let candidate = parse_descriptor(payload);
        let ghost m = self@;
        let mut i: usize = 0;
        while i < MAX_ARTIFACTS
            invariant
                i <= MAX_ARTIFACTS,
                self@ == m,
                m.entries.len() == MAX_ARTIFACTS,
                payload@.len() >= DESCRIPTOR_SIZE,
                candidate@ == descriptor_view(payload@),
                forall|k: int| 0 <= k < i ==> !#[trigger] holds_same(m.entries[k], candidate@),
            decreases MAX_ARTIFACTS - i,
        {
            let entry = &self.entries[i];
            if entry.occupied && (entry.node_id == candidate.node_id || same_hash(&entry.hash, &candidate.hash)) {
                proof {
                    assert(m.entries[i as int] == entry@);
                    assert(holds_same(m.entries[i as int], candidate@));
                    assert(conflicts(m, candidate@));
                    assert(candidate@ == descriptor_view(payload@));
                }
                return Err(2);
            }
            i += 1;
        }
        proof {
            assert forall|k: int| 0 <= k < m.entries.len() implies !#[trigger] holds_same(m.entries[k], candidate@) by {}
        }
        assert(!conflicts(m, candidate@));
        let mut slot: usize = 0;
        while slot < MAX_ARTIFACTS && self.entries[slot].occupied
            invariant
                slot <= MAX_ARTIFACTS,
                self@ == m,
                m.entries.len() == MAX_ARTIFACTS,
                first_free(m.entries, 0) == first_free(m.entries, slot as int),
            decreases MAX_ARTIFACTS - slot,
        {
            assert(m.entries[slot as int].occupied);
            slot += 1;
        }
        if slot == MAX_ARTIFACTS {
            return Err(3);
        }
        assert(first_free(m.entries, slot as int) == slot);
        self.entries[slot] = candidate;
        self.generation = self.generation.saturating_add(1);
        assert(self@.entries =~= m.entries.update(slot as int, candidate@));
        Ok(candidate)
    }

    /// The artifact registered for a node.
    pub fn find(&self, node_id: u64) -> (r: Option<Artifact>)
        ensures
            (match find_from(self@.entries, node_id, 0) {
                Some(a) => r is Some && r->Some_0@ == a,
                None => r is None,
            }),
    {
        let mut i: usize = 0;
        while i < MAX_ARTIFACTS
            invariant
                i <= MAX_ARTIFACTS,
                self@.entries.len() == MAX_ARTIFACTS,
                find_from(self@.entries, node_id, 0) == find_from(self@.entries, node_id, i as int),
            decreases MAX_ARTIFACTS - i,
        {
            assert(self@.entries[i as int] == self.entries[i as int]@);
            if self.entries[i].occupied && self.entries[i].node_id == node_id {
                return Some(self.entries[i]);
            }
            i += 1;
        }
        None
    }

    /// How many artifacts are registered.
    pub fn count(&self) -> (r: u32)
        ensures
            r == occupied_count(self@.entries, MAX_ARTIFACTS as int),
    {
        let mut n: u32 = 0;
        let mut i: usize = 0;
        while i < MAX_ARTIFACTS
            invariant
                i <= MAX_ARTIFACTS,
                self@.entries.len() == MAX_ARTIFACTS,
                n == occupied_count(self@.entries, i as int),
                n <= i,
            decreases MAX_ARTIFACTS - i,
        {
            assert(self@.entries[i as int] == self.entries[i as int]@);
            if self.entries[i].occupied {
                n += 1;
            }
            i += 1;
        }
        n
    }

    /// Write the durable snapshot of the catalog.
    pub fn encode_snapshot(&self, out: &mut [u8])
        requires
            old(out)@.len() == CATALOG_SNAPSHOT_CAP,
        ensures
            final(out)@ == snapshot_bytes(self@),
    {
        let ghost m = self@;
        put_u64(out, 0, self.generation);
        let mut i: usize = 0;
        while i < MAX_ARTIFACTS
            invariant
                i <= MAX_ARTIFACTS,
                self@ == m,
                m.entries.len() == MAX_ARTIFACTS,
                out@.len() == CATALOG_SNAPSHOT_CAP,
                forall|k: int| 0 <= k < 8 + i * 40 ==> #[trigger] out@[k] == snapshot_byte(m, k),
            decreases MAX_ARTIFACTS - i,
        {
            let o = 8 + i * RECORD_SIZE;
            let ghost before = out@;
            write_record(out, o, &self.entries[i]);
            proof {
                assert(m.entries[i as int] == self.entries[i as int]@);
                assert forall|k: int| 0 <= k < 8 + (i + 1) * 40 implies #[trigger] out@[k] == snapshot_byte(m, k) by {
                    if k >= 8 + i * 40 {
                        lemma_record_index(i as int, k);
                    }
                }
            }
            i += 1;
        }
        assert(out@ =~= snapshot_bytes(m));
    }

    /// Replace the catalog with the one a snapshot holds; false, leaving
    /// the catalog as it was, when the snapshot is not of the right size.
    pub fn decode_snapshot(&mut self, bytes: &[u8]) -> (r: bool)
        ensures
            r == (bytes@.len() == CATALOG_SNAPSHOT_CAP),
            r ==> final(self)@ == decode_spec(bytes@),
            !r ==> final(self)@ == old(self)@,
    {
        if bytes.len() != CATALOG_SNAPSHOT_CAP {
            return false;
        }
        self.generation = get_u64(bytes, 0);
        let mut i: usize = 0;
        while i < MAX_ARTIFACTS
            invariant
                i <= MAX_ARTIFACTS,
                bytes@.len() == CATALOG_SNAPSHOT_CAP,
                self.generation == le_u64_at(bytes@, 0),
                forall|k: int| 0 <= k < i ==> #[trigger] self.entries@[k]@ == record_view_at(bytes@, 8 + k * 40),
            decreases MAX_ARTIFACTS - i,
        {
            let o = 8 + i * RECORD_SIZE;
            let entry = Artifact {
                occupied: bytes[o] != 0,
                kind: bytes[o + 1],
                node_id: get_u64(bytes, o + 4),
                hash: copy_hash(bytes, o + 12),
                size: get_u32(bytes, o + 28),
                created_at: get_u64(bytes, o + 32),
            };
            self.entries[i] = entry;
            i += 1;
        }
        assert(self@.entries =~= decode_spec(bytes@).entries);
        true
    }

    /// The health answer: generation and registered count.
    pub fn health(&self) -> (r: [u8; 12])
        ensures
            le_u64_at(r@, 0) == self@.generation,
            le_u32_at(r@, 8) == occupied_count(self@.entries, MAX_ARTIFACTS as int),
    {
        let mut out = [0u8; 12];
        put_u64(&mut out, 0, self.generation);
        let count = self.count();
        let ghost mid = out@;
        put_u32(&mut out, 8, count);
        proof {
            crate::bytes::lemma_put_read_u64(out@, 0, self.generation);
            crate::bytes::lemma_put_read_u32(mid, 8, count);
            assert forall|c: int| 0 <= c < 8 implies #[trigger] out@[0 + c] == mid[c] by {}
            lemma_le_u64_at_eq(out@, 0, mid);
            lemma_le_u64_at_eq(mid, 0, le_u64_bytes(self.generation));
            assert forall|c: int| 0 <= c < 8 implies #[trigger] mid[0 + c] == le_u64_bytes(self.generation)[c] by {}
            lemma_le_u64_roundtrip(self.generation);
        }
        out
    }
}

/// Registering a payload never lets a node or a hash be registered twice.
pub proof fn lemma_register_keeps_unique(m: CatalogModel, payload: Seq<u8>)
    requires
        unique(m),
        m.entries.len() == MAX_ARTIFACTS,
    ensures
        unique(register_spec(m, payload).0),
{
    let n = register_spec(m, payload).0;
    if payload.len() >= DESCRIPTOR_SIZE {
        let a = descriptor_view(payload);
        if !conflicts(m, a) {
            let slot = first_free(m.entries, 0);
            if slot < m.entries.len() {
                lemma_first_free_is_free(m.entries, 0);
                assert(n.entries.len() == m.entries.len());
                assert forall|i: int, j: int|
                    0 <= i < n.entries.len() && 0 <= j < n.entries.len() && i != j implies !clash(n, i, j) by {
                    if i == slot {
                        assert(n.entries[i] == a);
                        assert(n.entries[j] == m.entries[j]);
                        assert(!holds_same(m.entries[j], a));
                    } else if j == slot {
                        assert(n.entries[j] == a);
                        assert(n.entries[i] == m.entries[i]);
                        assert(!holds_same(m.entries[i], a));
                    } else {
                        assert(n.entries[i] == m.entries[i]);
                        assert(n.entries[j] == m.entries[j]);
                        assert(!clash(m, i, j));
                    }
                }
            }
        }
    }
}

proof fn lemma_first_free_is_free(entries: Seq<ArtifactView>, i: int)
    requires
        0 <= i,
    ensures
        first_free(entries, i) < entries.len() ==> !entries[first_free(entries, i)].occupied && i <= first_free(
            entries,
            i,
        ),
        forall|k: int| i <= k < first_free(entries, i) && k < entries.len() ==> (#[trigger] entries[k]).occupied,
    decreases entries.len() - i,
{
    if i < entries.len() && entries[i].occupied {
        lemma_first_free_is_free(entries, i + 1);
    }
}

proof fn lemma_find_first(entries: Seq<ArtifactView>, node_id: u64, i: int, slot: int)
    requires
        0 <= i <= slot < entries.len(),
        entries[slot].occupied,
        entries[slot].node_id == node_id,
        forall|k: int| i <= k < slot ==> !((#[trigger] entries[k]).occupied && entries[k].node_id == node_id),
    ensures
        find_from(entries, node_id, i) == Some(entries[slot]),
    decreases slot - i,
{
    if i < slot {
        lemma_find_first(entries, node_id, i + 1, slot);
    }
}

/// What a registration stores is what a lookup of its node then finds.
pub proof fn lemma_register_then_find(m: CatalogModel, payload: Seq<u8>)
    requires
        m.entries.len() == MAX_ARTIFACTS,
        register_spec(m, payload).1 is Ok,
    ensures
        find_from(register_spec(m, payload).0.entries, descriptor_view(payload).node_id, 0) == Some(
            descriptor_view(payload),
        ),
{
    let a = descriptor_view(payload);
    let slot = first_free(m.entries, 0);
    let n = register_spec(m, payload).0;
    lemma_first_free_is_free(m.entries, 0);
    assert forall|k: int| 0 <= k < slot implies !((#[trigger] n.entries[k]).occupied && n.entries[k].node_id
        == a.node_id) by {
        assert(!holds_same(m.entries[k], a));
    }
    lemma_find_first(n.entries, a.node_id, 0, slot);
}

/// How the catalog service answers one message.
#[derive(Clone, Copy, Debug, PartialEq, Eq)]
pub enum CatalogReply {
    /// A new artifact was registered; it is to be persisted and announced.
    Registered(Artifact),
    /// The artifact a query asked for.
    Found(Artifact),
    /// An error code for the sender.
    Error(u8),
    /// The health answer to a ping.
    Pong([u8; 12]),
    /// Persist and stop.
    Shutdown,
}

/// Decide the answer to one message and apply what it changes.
pub fn handle_message(catalog: &mut Catalog, tag: u8, payload: &[u8]) -> (r: CatalogReply)
    ensures
        tag == TAG_CREATED ==> final(catalog)@ == register_spec(old(catalog)@, payload@).0 && (match register_spec(
            old(catalog)@,
            payload@,
        ).1 {
            Ok(a) => r matches CatalogReply::Registered(x) && x@ == a,
            Err(code) => r == CatalogReply::Error(code),
        }),
        tag != TAG_CREATED ==> final(catalog)@ == old(catalog)@,
        tag == TAG_QUERY && payload.len() < 8 ==> r == CatalogReply::Error(1),
        tag == TAG_QUERY && payload.len() >= 8 ==> (match find_from(old(catalog)@.entries, le_u64_at(payload@, 0), 0) {
            Some(a) => r matches CatalogReply::Found(x) && x@ == a,
            None => r == CatalogReply::Error(1),
        }),
        tag == TAG_PING ==> (r matches CatalogReply::Pong(h) && le_u64_at(h@, 0) == old(catalog)@.generation && le_u32_at(
            h@,
            8,
        ) == occupied_count(old(catalog)@.entries, MAX_ARTIFACTS as int)),
        tag == TAG_SHUTDOWN ==> r == CatalogReply::Shutdown,
        tag != TAG_CREATED && tag != TAG_QUERY && tag != TAG_PING && tag != TAG_SHUTDOWN ==> r == CatalogReply::Error(
            0xff,
        ),
{
    if tag == TAG_CREATED {
        match catalog.register(payload) {
            Ok(a) => CatalogReply::Registered(a),
            Err(code) => CatalogReply::Error(code),
        }
    } else if tag == TAG_QUERY {
        if payload.len() < 8 {
            return CatalogReply::Error(1);
        }
        match catalog.find(get_u64(payload, 0)) {
            Some(a) => CatalogReply::Found(a),
            None => CatalogReply::Error(1),
        }
    } else if tag == TAG_PING {
        CatalogReply::Pong(catalog.health())
    } else if tag == TAG_SHUTDOWN {
        CatalogReply::Shutdown
    } else {
        CatalogReply::Error(0xff)
    }
}

/// The runtime event announcing a registered artifact to the observability
/// service: kind 40, node, size, creation time.
pub fn registration_event(entry: &Artifact) -> (r: [u8; 29])
    ensures
        r@[0] == 40,
        le_u64_at(r@, 1) == entry.node_id,
        le_u32_at(r@, 17) == entry.size,
        le_u64_at(r@, 21) == entry.created_at,
{
    let mut event = [0u8; 29];
    event[0] = 40;
    let ghost s0 = event@;
    put_u64(&mut event, 1, entry.node_id);
    let ghost s1 = event@;
    put_u32(&mut event, 17, entry.size);
    let ghost s2 = event@;
    put_u64(&mut event, 21, entry.created_at);
    proof {
        crate::bytes::lemma_put_read_u64(s0, 1, entry.node_id);
        crate::bytes::lemma_put_read_u32(s1, 17, entry.size);
        crate::bytes::lemma_put_read_u64(s2, 21, entry.created_at);
        lemma_le_u64_at_eq(event@, 1, s1.subrange(1, 9));
        lemma_le_u64_at_eq(s1, 1, s1.subrange(1, 9));
        lemma_le_u32_at_eq(event@, 17, s2.subrange(17, 21));
        lemma_le_u32_at_eq(s2, 17, s2.subrange(17, 21));
    }
    event
}

/// The audit record of a registration: time, actor, action 1, outcome 1, node.
pub fn registration_audit(entry: &Artifact, actor: u32) -> (r: [u8; 26])
    ensures
        le_u64_at(r@, 0) == entry.created_at,
        le_u64_at(r@, 8) == actor as u64,
        r@[16] == 1,
        r@[17] == 1,
        le_u64_at(r@, 18) == entry.node_id,
{
    let mut audit = [0u8; 26];
    let ghost s0 = audit@;
    put_u64(&mut audit, 0, entry.created_at);
    let ghost s1 = audit@;
    put_u64(&mut audit, 8, actor as u64);
    let ghost s2 = audit@;
    audit[16] = 1;
    audit[17] = 1;
    let ghost s3 = audit@;
    put_u64(&mut audit, 18, entry.node_id);
    proof {
        crate::bytes::lemma_put_read_u64(s1, 8, actor as u64);
        crate::bytes::lemma_put_read_u64(s3, 18, entry.node_id);
        crate::bytes::lemma_put_read_u64(s0, 0, entry.created_at);
        lemma_le_u64_at_eq(audit@, 0, s1.subrange(0, 8));
        lemma_le_u64_at_eq(s1, 0, s1.subrange(0, 8));
        lemma_le_u64_at_eq(audit@, 8, s2.subrange(8, 16));
        lemma_le_u64_at_eq(s2, 8, s2.subrange(8, 16));
    }
    audit
}

} // verus!
