//! VirtIO-over-MMIO discovery: which of the platform's transport slots
//! holds a given device, and how a driver probe concludes.

use vstd::prelude::*;

verus! {

pub const VIRTIO_MAGIC: u32 = 0x7472_6976;
pub const DEVICE_ID_NETWORK: u32 = 1;
pub const DEVICE_ID_BLOCK: u32 = 2;
pub const DEVICE_ID_ENTROPY: u32 = 4;
pub const DEVICE_ID_INPUT: u32 = 18;

/// How a driver probe ended.
#[derive(Clone, Copy, Debug, PartialEq, Eq, Structural)]
pub enum ProbeResult {
    Bound,
    NoMatch,
    Failed,
}

/// The identification registers of one VirtIO MMIO transport slot.
#[derive(Clone, Copy, Debug, PartialEq, Eq, Structural)]
pub struct VirtioSlot {
    pub base: u64,
    pub magic: u32,
    pub device_id: u32,
    pub version: u32,
}

/// Whether a slot holds a live transport for `device_id`.
pub open spec fn holds(slot: VirtioSlot, device_id: u32) -> bool {
    slot.magic == VIRTIO_MAGIC && slot.device_id == device_id
}

/// The base of the first of the first `n` slots that holds `device_id`.
pub open spec fn find_spec(slots: Seq<VirtioSlot>, device_id: u32, n: int) -> Option<u64>
    decreases n,
{
    if n <= 0 {
        None
    } else {
        match find_spec(slots, device_id, n - 1) {
            Some(base) => Some(base),
            None => if holds(slots[n - 1], device_id) {
                Some(slots[n - 1].base)
            } else {
                None
            },
        }
    }
}

proof fn lemma_find_stable(slots: Seq<VirtioSlot>, device_id: u32, k: int, n: int)
    requires
        0 <= k <= n,
        find_spec(slots, device_id, k) is Some,
    ensures
        find_spec(slots, device_id, n) == find_spec(slots, device_id, k),
    decreases n - k,
{
    if n > k {
        lemma_find_stable(slots, device_id, k, n - 1);
    }
}

/// The base of the first slot holding `device_id`.
pub fn find_device(slots: &[VirtioSlot], device_id: u32) -> (r: Option<u64>)
    ensures
        r == find_spec(slots@, device_id, slots.len() as int),
{
    let mut i: usize = 0;
    while i < slots.len()
        invariant
            i <= slots.len(),
            find_spec(slots@, device_id, i as int) is None,
        decreases slots.len() - i,
    {
        if slots[i].magic == VIRTIO_MAGIC && slots[i].device_id == device_id {
            proof {
                lemma_find_stable(slots@, device_id, i + 1, slots.len() as int);
            }
            return Some(slots[i].base);
        }
        i += 1;
    }
    None
}

/// The slots worth reporting: a live transport with a device behind it.
pub fn discovered_slots(slots: &[VirtioSlot]) -> (r: Vec<VirtioSlot>)
    ensures
        r@ == slots@.filter(|s: VirtioSlot| s.magic == VIRTIO_MAGIC && s.device_id != 0),
{
    let mut out: Vec<VirtioSlot> = Vec::new();
    let mut i: usize = 0;
    while i < slots.len()
        invariant
            i <= slots.len(),
            out@ == slots@.subrange(0, i as int).filter(|s: VirtioSlot| s.magic == VIRTIO_MAGIC && s.device_id != 0),
        decreases slots.len() - i,
    {
        let s = slots[i];
        proof {
            let p = |s: VirtioSlot| s.magic == VIRTIO_MAGIC && s.device_id != 0;
            assert(slots@.subrange(0, i + 1) == slots@.subrange(0, i as int).push(s));
            slots@.subrange(0, i as int).lemma_filter_push(s, p);
        }
        if s.magic == VIRTIO_MAGIC && s.device_id != 0 {
            out.push(s);
        }
        i += 1;
    }
    assert(slots@.subrange(0, slots.len() as int) == slots@);
    out
}

/// A probe's outcome: no device, or whether `initialise` brought the found one up.
pub open spec fn probe_outcome<F: Fn(u64) -> bool>(found: Option<u64>, initialise: F, r: ProbeResult) -> bool {
    match found {
        None => r == ProbeResult::NoMatch,
        Some(base) => (r == ProbeResult::Bound && initialise.ensures((base,), true)) || (r == ProbeResult::Failed
            && initialise.ensures((base,), false)),
    }
}

/// Probe for `device_id`: bring up the first transport holding it with `initialise`.
pub fn probe_device<F: Fn(u64) -> bool>(slots: &[VirtioSlot], device_id: u32, initialise: F) -> (r: ProbeResult)
    requires
        forall|base: u64| initialise.requires((base,)),
    ensures
        probe_outcome(find_spec(slots@, device_id, slots.len() as int), initialise, r),
{
    match find_device(slots, device_id) {
        None => ProbeResult::NoMatch,
        Some(base) => if initialise(base) {
            ProbeResult::Bound
        } else {
            ProbeResult::Failed
        },
    }
}

/// Probe the entropy source; `read_random` draws one value from it.
pub fn probe_entropy_driver<F: Fn(u64) -> bool>(slots: &[VirtioSlot], read_random: F) -> (r: ProbeResult)
    requires
        forall|base: u64| read_random.requires((base,)),
    ensures
        probe_outcome(find_spec(slots@, DEVICE_ID_ENTROPY, slots.len() as int), read_random, r),
{
    probe_device(slots, DEVICE_ID_ENTROPY, read_random)
}

/// Probe the block device; `initialise` sets up its request queue.
pub fn probe_block_driver<F: Fn(u64) -> bool>(slots: &[VirtioSlot], initialise: F) -> (r: ProbeResult)
    requires
        forall|base: u64| initialise.requires((base,)),
    ensures
        probe_outcome(find_spec(slots@, DEVICE_ID_BLOCK, slots.len() as int), initialise, r),
{
    probe_device(slots, DEVICE_ID_BLOCK, initialise)
}

/// Probe the input device; `initialise` sets up its event queue.
pub fn probe_input_driver<F: Fn(u64) -> bool>(slots: &[VirtioSlot], initialise: F) -> (r: ProbeResult)
    requires
        forall|base: u64| initialise.requires((base,)),
    ensures
        probe_outcome(find_spec(slots@, DEVICE_ID_INPUT, slots.len() as int), initialise, r),
{
    probe_device(slots, DEVICE_ID_INPUT, initialise)
}

/// Probe the network device; `initialise` sets up its queues.
pub fn probe_network_driver<F: Fn(u64) -> bool>(slots: &[VirtioSlot], initialise: F) -> (r: ProbeResult)
    requires
        forall|base: u64| initialise.requires((base,)),
    ensures
        probe_outcome(find_spec(slots@, DEVICE_ID_NETWORK, slots.len() as int), initialise, r),
{
    probe_device(slots, DEVICE_ID_NETWORK, initialise)
}

} // verus!
