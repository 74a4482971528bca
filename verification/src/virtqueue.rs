//! The driver side of the VirtIO-over-MMIO handshake and of split
//! virtqueues: which transports a driver talks to, which features it
//! accepts, how large a queue it configures, and the descriptors and ring
//! updates it posts for block, entropy and network requests.

use vstd::prelude::*;
use crate::pointer::UsedElement;
use crate::virtio::VIRTIO_MAGIC;

verus! {

pub const STATUS_ACKNOWLEDGE: u32 = 1;
pub const STATUS_DRIVER: u32 = 2;
pub const STATUS_DRIVER_OK: u32 = 4;
pub const STATUS_FEATURES_OK: u32 = 8;
pub const STATUS_FAILED: u32 = 128;
pub const DESC_NEXT: u16 = 1;
pub const DESC_DEVICE_WRITES: u16 = 2;
pub const VIRTIO_F_VERSION_1_HIGH: u32 = 1;
pub const NET_F_MAC: u32 = 32;
pub const BLOCK_QUEUE_SIZE: usize = 8;
pub const ENTROPY_QUEUE_SIZE: usize = 8;
pub const NET_QUEUE_SIZE: usize = 64;
pub const NET_HEADER_SIZE: usize = 10;
pub const NET_FRAME_SIZE: usize = 1514;
pub const NET_BUFFER_SIZE: usize = 1524;
pub const SECTOR_BYTES: u32 = 512;

/// One entry of a descriptor table.
#[derive(Clone, Copy, Debug, PartialEq, Eq, Structural)]
pub struct Descriptor {
    pub address: u64,
    pub length: u32,
    pub flags: u16,
    pub next: u16,
}

/// Whether the identification registers show a modern (version 2) transport.
pub fn is_modern_transport(magic: u32, version: u32) -> (r: bool)
    ensures
        r == (magic == VIRTIO_MAGIC && version == 2),
{
    magic == VIRTIO_MAGIC && version == 2
}

/// The feature words a driver writes back, low word then high word, when the
/// device offers VirtIO 1.0; none when it does not, and the device is failed.
pub fn negotiate_features(offered_low: u32, offered_high: u32, accepted_low: u32) -> (r: Option<(u32, u32)>)
    ensures
        r == (if offered_high & VIRTIO_F_VERSION_1_HIGH == 0 {
            None
        } else {
            Some((offered_low & accepted_low, VIRTIO_F_VERSION_1_HIGH))
        }),
{
    if offered_high & VIRTIO_F_VERSION_1_HIGH == 0 {
        return None;
    }
    Some((offered_low & accepted_low, VIRTIO_F_VERSION_1_HIGH))
}

/// Whether a status read back after a write still holds `bit`.
pub fn status_accepted(status: u32, bit: u32) -> (r: bool)
    ensures
        r == (status & bit != 0),
{
    status & bit != 0
}

pub open spec fn min_u32(a: u32, b: u32) -> u32 {
    if a < b {
        a
    } else {
        b
    }
}

/// The size a driver configures for a queue: the smaller of what the device
/// allows and what the driver asks, when that is a non-zero power of two.
pub open spec fn queue_size_spec(device_max: u32, requested: u32) -> Option<u16> {
    let size = min_u32(device_max, requested);
    if size == 0 || size & ((size - 1) as u32) != 0 {
        None
    } else {
        Some(size as u16)
    }
}

pub fn queue_size(device_max: u32, requested: u32) -> (r: Option<u16>)
    ensures
        r == queue_size_spec(device_max, requested),
{
    let size = if device_max < requested { device_max } else { requested };
    if size == 0 || size & (size - 1) != 0 {
        return None;
    }
    Some(size as u16)
}

/// The three-descriptor chain of one block request: the 16-byte header, the
/// sector's 512 data bytes (written by the device on a read), and the status
/// byte the device writes.
pub open spec fn block_chain_spec(header: u64, data: u64, status: u64, write: bool) -> Seq<Descriptor> {
    seq![
        Descriptor { address: header, length: 16, flags: DESC_NEXT, next: 1 },
        Descriptor {
            address: data,
            length: SECTOR_BYTES,
            flags: if write { DESC_NEXT } else { DESC_NEXT | DESC_DEVICE_WRITES },
            next: 2,
        },
        Descriptor { address: status, length: 1, flags: DESC_DEVICE_WRITES, next: 0 },
    ]
}

pub fn block_chain(header: u64, data: u64, status: u64, write: bool) -> (r: [Descriptor; 3])
    ensures
        r@ == block_chain_spec(header, data, status, write),
{
    let data_flags = if write { DESC_NEXT } else { DESC_NEXT | DESC_DEVICE_WRITES };
    let r = [
        Descriptor { address: header, length: 16, flags: DESC_NEXT, next: 1 },
        Descriptor { address: data, length: SECTOR_BYTES, flags: data_flags, next: 2 },
        Descriptor { address: status, length: 1, flags: DESC_DEVICE_WRITES, next: 0 },
    ];
    assert(r@ =~= block_chain_spec(header, data, status, write));
    r
}

/// The request type of a block request: 1 writes, 0 reads.
pub fn block_request_type(write: bool) -> (r: u32)
    ensures
        r == (if write { 1u32 } else { 0u32 }),
{
    if write {
        1
    } else {
        0
    }
}

/// Whether a block request may be posted: a device is bound and the sector
/// lies inside it.
pub fn block_request_allowed(sector: u64, capacity: u64, base: u64) -> (r: bool)
    ensures
        r == (sector < capacity && base != 0),
{
    sector < capacity && base != 0
}

/// The capacity in sectors from the two 32-bit halves of the config field.
pub fn capacity_sectors(low: u32, high: u32) -> (r: u64)
    ensures
        r == low + high * 0x1_0000_0000,
{
    low as u64 + high as u64 * 0x1_0000_0000
}

/// Offer the chain starting at `head` to the device: it goes into the
/// available ring at the slot the available index names, and the index
/// moves on by one, wrapping.
pub fn post_available(ring: &mut [u16], index: u16, head: u16) -> (next: u16)
    requires
        old(ring)@.len() == 8 || old(ring)@.len() == 64,
    ensures
        final(ring)@ == old(ring)@.update(index as int % old(ring)@.len() as int, head),
        next == (if index == u16::MAX { 0 } else { (index + 1) as u16 }),
{
    let size = ring.len();
    ring[index as usize % size] = head;
    index.wrapping_add(1)
}

/// The descriptor that sends a frame of `frame_len` bytes behind the
/// 10-byte network header; none for an empty or over-long frame.
pub open spec fn tx_descriptor_spec(buffer: u64, frame_len: int) -> Option<Descriptor> {
    if frame_len == 0 || frame_len > NET_FRAME_SIZE {
        None
    } else {
        Some(Descriptor { address: buffer, length: (NET_HEADER_SIZE + frame_len) as u32, flags: 0, next: 0 })
    }
}

pub fn tx_descriptor(buffer: u64, frame_len: usize) -> (r: Option<Descriptor>)
    ensures
        r == tx_descriptor_spec(buffer, frame_len as int),
{
    if frame_len == 0 || frame_len > NET_FRAME_SIZE {
        return None;
    }
    Some(Descriptor { address: buffer, length: (NET_HEADER_SIZE + frame_len) as u32, flags: 0, next: 0 })
}

/// Lay a frame out in the transmit buffer: a zeroed network header, then the
/// frame; the bytes after it stay as they were.
pub fn fill_tx_buffer(buffer: &mut [u8], frame: &[u8])
    requires
        old(buffer)@.len() == NET_BUFFER_SIZE,
        0 < frame@.len() <= NET_FRAME_SIZE,
    ensures
        final(buffer)@ == Seq::new(NET_HEADER_SIZE as nat, |i: int| 0u8) + frame@ + old(buffer)@.subrange(
            NET_HEADER_SIZE + frame@.len(),
            NET_BUFFER_SIZE as int,
        ),
{
    let mut i: usize = 0;
    while i < NET_HEADER_SIZE
        invariant
            i <= NET_HEADER_SIZE,
            buffer@.len() == NET_BUFFER_SIZE,
            forall|j: int| 0 <= j < i ==> buffer@[j] == 0u8,
            forall|j: int| i <= j < NET_BUFFER_SIZE ==> buffer@[j] == old(buffer)@[j],
        decreases NET_HEADER_SIZE - i,
    {
        buffer[i] = 0;
        i += 1;
    }
    let mut k: usize = 0;
    while k < frame.len()
        invariant
            k <= frame@.len(),
            frame@.len() <= NET_FRAME_SIZE,
            buffer@.len() == NET_BUFFER_SIZE,
            forall|j: int| 0 <= j < NET_HEADER_SIZE ==> buffer@[j] == 0u8,
            forall|j: int| 0 <= j < k ==> buffer@[NET_HEADER_SIZE + j] == frame@[j],
            forall|j: int| NET_HEADER_SIZE + k <= j < NET_BUFFER_SIZE ==> buffer@[j] == old(buffer)@[j],
        decreases frame@.len() - k,
    {
        buffer[NET_HEADER_SIZE + k] = frame[k];
        k += 1;
    }
    assert(buffer@ =~= Seq::new(NET_HEADER_SIZE as nat, |i: int| 0u8) + frame@ + old(buffer)@.subrange(
        NET_HEADER_SIZE + frame@.len(),
        NET_BUFFER_SIZE as int,
    ));
}

/// The descriptor that lends a buffer of `length` bytes for the device to
/// fill: an entropy sample (8 bytes), an input event (8 bytes) or a received
/// network frame with its header (1524 bytes).
pub fn device_buffer(address: u64, length: u32) -> (r: Descriptor)
    ensures
        r == (Descriptor { address, length, flags: DESC_DEVICE_WRITES, next: 0 }),
{
    Descriptor { address, length, flags: DESC_DEVICE_WRITES, next: 0 }
}

/// Whether the device reported a MAC address (one that is not all zeros).
pub fn mac_present(mac: [u8; 6]) -> (r: bool)
    ensures
        r == exists|i: int| 0 <= i < 6 && mac@[i] != 0,
{
    let mut i: usize = 0;
    while i < 6
        invariant
            i <= 6,
            forall|j: int| 0 <= j < i ==> mac@[j] == 0,
        decreases 6 - i,
    {
        if mac[i] != 0 {
            return true;
        }
        i += 1;
    }
    false
}

/// The used-ring entries the device added since the driver last looked:
/// from the driver's counter `consumed` up to the device's `used_now`, both
/// running modulo 2^16.
pub open spec fn used_window_spec(ring: Seq<UsedElement>, consumed: u16, used_now: u16) -> Seq<UsedElement> {
    Seq::new(
        ((used_now - consumed) % 0x10000) as nat,
        |k: int| ring[((consumed + k) % 0x10000) % ring.len() as int],
    )
}

pub fn used_window(ring: &[UsedElement], consumed: u16, used_now: u16) -> (r: Vec<UsedElement>)
    requires
        ring@.len() == 8 || ring@.len() == 64,
    ensures
        r@ == used_window_spec(ring@, consumed, used_now),
{
    let size = ring.len();
    let ghost count = ((used_now - consumed) % 0x10000) as nat;
    let mut out: Vec<UsedElement> = Vec::new();
    let mut cursor = consumed;
    let ghost mut k: int = 0;
    while cursor != used_now
        invariant
            size == ring@.len(),
            size == 8 || size == 64,
            0 <= k <= count,
            count == ((used_now - consumed) % 0x10000) as nat,
            cursor == (consumed + k) % 0x10000,
            (cursor == used_now) == (k == count),
            out@.len() == k,
            forall|j: int| 0 <= j < k ==> out@[j] == ring@[((consumed + j) % 0x10000) % size as int],
        decreases count - k,
    {
        out.push(ring[cursor as usize % size]);
        cursor = cursor.wrapping_add(1);
        proof {
            k = k + 1;
        }
    }
    assert(out@ =~= used_window_spec(ring@, consumed, used_now));
    out
}

/// Whether a used entry names a receive buffer and holds more than the header.
pub open spec fn frame_accepted(used: UsedElement) -> bool {
    used.id < NET_QUEUE_SIZE && used.length > NET_HEADER_SIZE
}

/// The payload length of an accepted entry: what follows the header, capped
/// at one frame.
pub open spec fn payload_len(used: UsedElement) -> int {
    let n = used.length - NET_HEADER_SIZE;
    if n < NET_FRAME_SIZE {
        n
    } else {
        NET_FRAME_SIZE as int
    }
}

/// The frames that the first `n` used entries deliver, as (buffer, payload
/// length), in ring order; entries naming no buffer or no payload are skipped.
pub open spec fn frames_spec(used: Seq<UsedElement>, n: int) -> Seq<(usize, usize)>
    decreases n,
{
    if n <= 0 {
        Seq::empty()
    } else {
        let prior = frames_spec(used, n - 1);
        let u = used[n - 1];
        if frame_accepted(u) {
            prior.push((u.id as usize, payload_len(u) as usize))
        } else {
            prior
        }
    }
}

pub fn received_frames(used: &[UsedElement]) -> (r: Vec<(usize, usize)>)
    ensures
        r@ == frames_spec(used@, used@.len() as int),
{
    let mut out: Vec<(usize, usize)> = Vec::new();
    let mut i: usize = 0;
    while i < used.len()
        invariant
            i <= used@.len(),
            out@ == frames_spec(used@, i as int),
        decreases used@.len() - i,
    {
        let u = used[i];
        if (u.id as usize) < NET_QUEUE_SIZE && (u.length as usize) > NET_HEADER_SIZE {
            let n = u.length as usize - NET_HEADER_SIZE;
            let payload = if n < NET_FRAME_SIZE { n } else { NET_FRAME_SIZE };
            out.push((u.id as usize, payload));
        }
        i += 1;
    }
    out
}

/// The available ring and index after offering, in order, the buffers of the
/// first `n` received frames back to the device.
pub open spec fn returned_spec(ring: Seq<u16>, index: u16, frames: Seq<(usize, usize)>, n: int) -> (Seq<u16>, u16)
    decreases n,
{
    if n <= 0 {
        (ring, index)
    } else {
        let (r, i) = returned_spec(ring, index, frames, n - 1);
        (
            r.update(i as int % r.len() as int, frames[n - 1].0 as u16),
            if i == u16::MAX { 0 } else { (i + 1) as u16 },
        )
    }
}

proof fn lemma_returned_len(ring: Seq<u16>, index: u16, frames: Seq<(usize, usize)>, n: int)
    requires
        ring.len() > 0,
    ensures
        returned_spec(ring, index, frames, n).0.len() == ring.len(),
    decreases n,
{
    if n > 0 {
        lemma_returned_len(ring, index, frames, n - 1);
    }
}

/// Hand the buffers of received frames back to the device; the new
/// available index.
pub fn return_buffers(ring: &mut [u16], index: u16, frames: &[(usize, usize)]) -> (next: u16)
    requires
        old(ring)@.len() == 8 || old(ring)@.len() == 64,
    ensures
        (final(ring)@, next) == returned_spec(old(ring)@, index, frames@, frames@.len() as int),
{
    let mut i: usize = 0;
    let mut avail = index;
    while i < frames.len()
        invariant
            i <= frames@.len(),
            ring@.len() == old(ring)@.len(),
            ring@.len() == 8 || ring@.len() == 64,
            (ring@, avail) == returned_spec(old(ring)@, index, frames@, i as int),
        decreases frames@.len() - i,
    {
        proof { lemma_returned_len(old(ring)@, index, frames@, i as int); }
        avail = post_available(ring, avail, frames[i].0 as u16);
        i += 1;
    }
    avail
}

} // verus!
