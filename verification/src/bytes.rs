//! Little- and big-endian integer fields inside byte buffers: the encodings,
//! the decodings, and the fact that each decoding undoes its encoding.

use vstd::prelude::*;

verus! {

pub open spec fn le_u16_bytes(v: u16) -> Seq<u8> {
    seq![(v & 0xff) as u8, ((v >> 8u16) & 0xff) as u8]
}

pub open spec fn le_u32_bytes(v: u32) -> Seq<u8> {
    seq![
        (v & 0xff) as u8,
        ((v >> 8u32) & 0xff) as u8,
        ((v >> 16u32) & 0xff) as u8,
        ((v >> 24u32) & 0xff) as u8,
    ]
}

pub open spec fn le_u64_bytes(v: u64) -> Seq<u8> {
    seq![
        (v & 0xff) as u8,
        ((v >> 8u64) & 0xff) as u8,
        ((v >> 16u64) & 0xff) as u8,
        ((v >> 24u64) & 0xff) as u8,
        ((v >> 32u64) & 0xff) as u8,
        ((v >> 40u64) & 0xff) as u8,
        ((v >> 48u64) & 0xff) as u8,
        ((v >> 56u64) & 0xff) as u8,
    ]
}

pub open spec fn le_u16_at(s: Seq<u8>, o: int) -> u16 {
    (s[o] as u16) | ((s[o + 1] as u16) << 8u16)
}

pub open spec fn le_u32_at(s: Seq<u8>, o: int) -> u32 {
    (s[o] as u32) | ((s[o + 1] as u32) << 8u32) | ((s[o + 2] as u32) << 16u32) | ((s[o + 3] as u32)
        << 24u32)
}

pub open spec fn le_u64_at(s: Seq<u8>, o: int) -> u64 {
    (s[o] as u64) | ((s[o + 1] as u64) << 8u64) | ((s[o + 2] as u64) << 16u64) | ((s[o + 3] as u64)
        << 24u64) | ((s[o + 4] as u64) << 32u64) | ((s[o + 5] as u64) << 40u64) | ((s[o + 6] as u64)
        << 48u64) | ((s[o + 7] as u64) << 56u64)
}

pub open spec fn be_u32_at(s: Seq<u8>, o: int) -> u32 {
    ((s[o] as u32) << 24u32) | ((s[o + 1] as u32) << 16u32) | ((s[o + 2] as u32) << 8u32) | (s[o
        + 3] as u32)
}

pub open spec fn be_u64_at(s: Seq<u8>, o: int) -> u64 {
    ((s[o] as u64) << 56u64) | ((s[o + 1] as u64) << 48u64) | ((s[o + 2] as u64) << 40u64) | ((s[o
        + 3] as u64) << 32u64) | ((s[o + 4] as u64) << 24u64) | ((s[o + 5] as u64) << 16u64) | ((s[o
        + 6] as u64) << 8u64) | (s[o + 7] as u64)
}

/// `s` with `b` written at offset `o`.
pub open spec fn put_bytes(s: Seq<u8>, o: int, b: Seq<u8>) -> Seq<u8> {
    Seq::new(s.len(), |k: int| if o <= k < o + b.len() { b[k - o] } else { s[k] })
}

pub proof fn lemma_le_u16_roundtrip(v: u16)
    ensures
        le_u16_at(le_u16_bytes(v), 0) == v,
{
    let b0 = (v & 0xff) as u8;
    let b1 = ((v >> 8u16) & 0xff) as u8;
    assert((b0 as u16) | ((b1 as u16) << 8u16) == v) by (bit_vector)
        requires
            b0 == (v & 0xff) as u8,
            b1 == ((v >> 8u16) & 0xff) as u8,
    ;
}

pub proof fn lemma_le_u32_roundtrip(v: u32)
    ensures
        le_u32_at(le_u32_bytes(v), 0) == v,
{
    let b0 = (v & 0xff) as u8;
    let b1 = ((v >> 8u32) & 0xff) as u8;
    let b2 = ((v >> 16u32) & 0xff) as u8;
    let b3 = ((v >> 24u32) & 0xff) as u8;
    assert((b0 as u32) | ((b1 as u32) << 8u32) | ((b2 as u32) << 16u32) | ((b3 as u32) << 24u32)
        == v) by (bit_vector)
        requires
            b0 == (v & 0xff) as u8,
            b1 == ((v >> 8u32) & 0xff) as u8,
            b2 == ((v >> 16u32) & 0xff) as u8,
            b3 == ((v >> 24u32) & 0xff) as u8,
    ;
}

pub proof fn lemma_le_u64_roundtrip(v: u64)
    ensures
        le_u64_at(le_u64_bytes(v), 0) == v,
{
    let b0 = (v & 0xff) as u8;
    let b1 = ((v >> 8u64) & 0xff) as u8;
    let b2 = ((v >> 16u64) & 0xff) as u8;
    let b3 = ((v >> 24u64) & 0xff) as u8;
    let b4 = ((v >> 32u64) & 0xff) as u8;
    let b5 = ((v >> 40u64) & 0xff) as u8;
    let b6 = ((v >> 48u64) & 0xff) as u8;
    let b7 = ((v >> 56u64) & 0xff) as u8;
    assert((b0 as u64) | ((b1 as u64) << 8u64) | ((b2 as u64) << 16u64) | ((b3 as u64) << 24u64)
        | ((b4 as u64) << 32u64) | ((b5 as u64) << 40u64) | ((b6 as u64) << 48u64) | ((b7 as u64)
        << 56u64) == v) by (bit_vector)
        requires
            b0 == (v & 0xff) as u8,
            b1 == ((v >> 8u64) & 0xff) as u8,
            b2 == ((v >> 16u64) & 0xff) as u8,
            b3 == ((v >> 24u64) & 0xff) as u8,
            b4 == ((v >> 32u64) & 0xff) as u8,
            b5 == ((v >> 40u64) & 0xff) as u8,
            b6 == ((v >> 48u64) & 0xff) as u8,
            b7 == ((v >> 56u64) & 0xff) as u8,
    ;
}

pub proof fn lemma_i32_bits_roundtrip(v: i32)
    ensures
        ((v as u32) as i32) == v,
{
    assert(((v as u32) as i32) == v) by (bit_vector);
}

/// Reading a field back from where it was written gives the field.
pub proof fn lemma_put_read_u16(s: Seq<u8>, o: int, v: u16)
    requires
        0 <= o,
        o + 2 <= s.len(),
    ensures
        le_u16_at(put_bytes(s, o, le_u16_bytes(v)), o) == v,
{
    let t = put_bytes(s, o, le_u16_bytes(v));
    assert(t[o] == le_u16_bytes(v)[0]);
    assert(t[o + 1] == le_u16_bytes(v)[1]);
    lemma_le_u16_roundtrip(v);
}

pub proof fn lemma_put_read_u32(s: Seq<u8>, o: int, v: u32)
    requires
        0 <= o,
        o + 4 <= s.len(),
    ensures
        le_u32_at(put_bytes(s, o, le_u32_bytes(v)), o) == v,
{
    let t = put_bytes(s, o, le_u32_bytes(v));
    assert(t[o] == le_u32_bytes(v)[0]);
    assert(t[o + 1] == le_u32_bytes(v)[1]);
    assert(t[o + 2] == le_u32_bytes(v)[2]);
    assert(t[o + 3] == le_u32_bytes(v)[3]);
    lemma_le_u32_roundtrip(v);
}

pub proof fn lemma_put_read_u64(s: Seq<u8>, o: int, v: u64)
    requires
        0 <= o,
        o + 8 <= s.len(),
    ensures
        le_u64_at(put_bytes(s, o, le_u64_bytes(v)), o) == v,
{
    let t = put_bytes(s, o, le_u64_bytes(v));
    let b = le_u64_bytes(v);
    assert(t[o] == b[0]);
    assert(t[o + 1] == b[1]);
    assert(t[o + 2] == b[2]);
    assert(t[o + 3] == b[3]);
    assert(t[o + 4] == b[4]);
    assert(t[o + 5] == b[5]);
    assert(t[o + 6] == b[6]);
    assert(t[o + 7] == b[7]);
    lemma_le_u64_roundtrip(v);
}

/// Write `v` little-endian at `o`.
pub fn put_u16(buf: &mut [u8], o: usize, v: u16)
    requires
        o + 2 <= old(buf)@.len(),
    ensures
        final(buf)@ == put_bytes(old(buf)@, o as int, le_u16_bytes(v)),
{
    buf[o] = (v & 0xff) as u8;
    buf[o + 1] = ((v >> 8u16) & 0xff) as u8;
    assert(buf@ =~= put_bytes(old(buf)@, o as int, le_u16_bytes(v)));
}

/// Write `v` little-endian at `o`.
pub fn put_u32(buf: &mut [u8], o: usize, v: u32)
    requires
        o + 4 <= old(buf)@.len(),
    ensures
        final(buf)@ == put_bytes(old(buf)@, o as int, le_u32_bytes(v)),
{
    buf[o] = (v & 0xff) as u8;
    buf[o + 1] = ((v >> 8u32) & 0xff) as u8;
    buf[o + 2] = ((v >> 16u32) & 0xff) as u8;
    buf[o + 3] = ((v >> 24u32) & 0xff) as u8;
    assert(buf@ =~= put_bytes(old(buf)@, o as int, le_u32_bytes(v)));
}

/// Write `v` little-endian at `o`.
pub fn put_u64(buf: &mut [u8], o: usize, v: u64)
    requires
        o + 8 <= old(buf)@.len(),
    ensures
        final(buf)@ == put_bytes(old(buf)@, o as int, le_u64_bytes(v)),
{
    buf[o] = (v & 0xff) as u8;
    buf[o + 1] = ((v >> 8u64) & 0xff) as u8;
    buf[o + 2] = ((v >> 16u64) & 0xff) as u8;
    buf[o + 3] = ((v >> 24u64) & 0xff) as u8;
    buf[o + 4] = ((v >> 32u64) & 0xff) as u8;
    buf[o + 5] = ((v >> 40u64) & 0xff) as u8;
    buf[o + 6] = ((v >> 48u64) & 0xff) as u8;
    buf[o + 7] = ((v >> 56u64) & 0xff) as u8;
    assert(buf@ =~= put_bytes(old(buf)@, o as int, le_u64_bytes(v)));
}

/// The little-endian `u16` at `o`.
pub fn get_u16(buf: &[u8], o: usize) -> (r: u16)
    requires
        o + 2 <= buf@.len(),
    ensures
        r == le_u16_at(buf@, o as int),
{
    (buf[o] as u16) | ((buf[o + 1] as u16) << 8u16)
}

/// The little-endian `u32` at `o`.
pub fn get_u32(buf: &[u8], o: usize) -> (r: u32)
    requires
        o + 4 <= buf@.len(),
    ensures
        r == le_u32_at(buf@, o as int),
{
    (buf[o] as u32) | ((buf[o + 1] as u32) << 8u32) | ((buf[o + 2] as u32) << 16u32) | ((buf[o
        + 3] as u32) << 24u32)
}

/// The little-endian `u64` at `o`.
pub fn get_u64(buf: &[u8], o: usize) -> (r: u64)
    requires
        o + 8 <= buf@.len(),
    ensures
        r == le_u64_at(buf@, o as int),
{
    (buf[o] as u64) | ((buf[o + 1] as u64) << 8u64) | ((buf[o + 2] as u64) << 16u64) | ((buf[o
        + 3] as u64) << 24u64) | ((buf[o + 4] as u64) << 32u64) | ((buf[o + 5] as u64) << 40u64)
        | ((buf[o + 6] as u64) << 48u64) | ((buf[o + 7] as u64) << 56u64)
}

/// The big-endian `u32` at `o`.
pub fn get_be_u32(buf: &[u8], o: usize) -> (r: u32)
    requires
        o + 4 <= buf@.len(),
    ensures
        r == be_u32_at(buf@, o as int),
{
    ((buf[o] as u32) << 24u32) | ((buf[o + 1] as u32) << 16u32) | ((buf[o + 2] as u32) << 8u32)
        | (buf[o + 3] as u32)
}

/// The big-endian `u64` at `o`.
pub fn get_be_u64(buf: &[u8], o: usize) -> (r: u64)
    requires
        o + 8 <= buf@.len(),
    ensures
        r == be_u64_at(buf@, o as int),
{
    ((buf[o] as u64) << 56u64) | ((buf[o + 1] as u64) << 48u64) | ((buf[o + 2] as u64) << 40u64)
        | ((buf[o + 3] as u64) << 32u64) | ((buf[o + 4] as u64) << 24u64) | ((buf[o + 5] as u64)
        << 16u64) | ((buf[o + 6] as u64) << 8u64) | (buf[o + 7] as u64)
}

/// A field decodes the same from any two buffers that agree on its bytes.
pub proof fn lemma_le_u16_at_eq(s: Seq<u8>, o: int, t: Seq<u8>)
    requires
        forall|c: int| 0 <= c < 2 ==> #[trigger] s[o + c] == t[c],
    ensures
        le_u16_at(s, o) == le_u16_at(t, 0),
{
    assert(s[o + 0] == t[0]);
    assert(s[o + 1] == t[1]);
}

pub proof fn lemma_le_u32_at_eq(s: Seq<u8>, o: int, t: Seq<u8>)
    requires
        forall|c: int| 0 <= c < 4 ==> #[trigger] s[o + c] == t[c],
    ensures
        le_u32_at(s, o) == le_u32_at(t, 0),
{
    assert(s[o + 0] == t[0]);
    assert(s[o + 1] == t[1]);
    assert(s[o + 2] == t[2]);
    assert(s[o + 3] == t[3]);
}

pub proof fn lemma_le_u64_at_eq(s: Seq<u8>, o: int, t: Seq<u8>)
    requires
        forall|c: int| 0 <= c < 8 ==> #[trigger] s[o + c] == t[c],
    ensures
        le_u64_at(s, o) == le_u64_at(t, 0),
{
    assert(s[o + 0] == t[0]);
    assert(s[o + 1] == t[1]);
    assert(s[o + 2] == t[2]);
    assert(s[o + 3] == t[3]);
    assert(s[o + 4] == t[4]);
    assert(s[o + 5] == t[5]);
    assert(s[o + 6] == t[6]);
    assert(s[o + 7] == t[7]);
}

} // verus!
