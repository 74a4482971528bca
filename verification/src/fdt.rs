//! Read-only flattened-device-tree discovery for AArch64 boot: the header
//! envelope is validated before the structure block is walked, and the
//! platform resources needed before the heap exists are recorded.

use vstd::prelude::*;
use crate::bytes::{be_u32_at, be_u64_at, get_be_u32, get_be_u64};

verus! {

pub const FDT_MAGIC: u32 = 0xd00d_feed;
pub const FDT_BEGIN_NODE: u32 = 1;
pub const FDT_END_NODE: u32 = 2;
pub const FDT_PROP: u32 = 3;
pub const FDT_NOP: u32 = 4;
pub const FDT_END: u32 = 9;
pub const MAX_DTB_BYTES: usize = 16777216;
pub const MAX_VIRTIO_MMIO: usize = 32;
pub const MAX_DEPTH: usize = 64;

#[derive(Clone, Copy, Debug, PartialEq, Eq, Structural)]
pub struct Region {
    pub base: u64,
    pub size: u64,
}

// ---------------------------------------------------------------------------
// Primitive readers
// ---------------------------------------------------------------------------

/// The big-endian `u32` at `offset`, if it lies within `s`.
pub open spec fn be32_spec(s: Seq<u8>, offset: int) -> Option<u32> {
    if offset + 4 <= s.len() {
        Some(be_u32_at(s, offset))
    } else {
        None
    }
}

pub open spec fn be64_spec(s: Seq<u8>, offset: int) -> Option<u64> {
    if offset + 8 <= s.len() {
        Some(be_u64_at(s, offset))
    } else {
        None
    }
}

/// `value` rounded up to a multiple of four, if that fits.
pub open spec fn align4_spec(value: int) -> Option<int> {
    if value + 3 > usize::MAX {
        None
    } else {
        Some((value + 3) / 4 * 4)
    }
}

pub fn be32(bytes: &[u8], offset: usize) -> (r: Option<u32>)
    ensures
        r == be32_spec(bytes@, offset as int),
{
    let n = bytes.len();
    if offset > usize::MAX - 4 || offset + 4 > n {
        return None;
    }
    Some(get_be_u32(bytes, offset))
}

pub fn be64(bytes: &[u8], offset: usize) -> (r: Option<u64>)
    ensures
        r == be64_spec(bytes@, offset as int),
{
    let n = bytes.len();
    if offset > usize::MAX - 8 || offset + 8 > n {
        return None;
    }
    Some(get_be_u64(bytes, offset))
}

pub fn align4(value: usize) -> (r: Option<usize>)
    ensures
        r == (match align4_spec(value as int) {
            Some(v) => Some(v as usize),
            None => None::<usize>,
        }),
        r matches Some(v) ==> value <= v <= value + 3,
{
    if value > usize::MAX - 3 {
        return None;
    }
    let v = value + 3;
    let r = v & !3usize;
    assert(r == v - v % 4) by (bit_vector)
        requires r == v & !3usize;
    assert(v - v % 4 == (v / 4) * 4) by (nonlinear_arith);
    Some(r)
}

/// The validated header of a flattened device tree.
#[derive(Clone, Copy, Debug, PartialEq, Eq, Structural)]
pub struct Header {
    pub total_size: usize,
    pub struct_offset: usize,
    pub strings_offset: usize,
    pub strings_size: usize,
    pub struct_size: usize,
}

/// The header, when the magic matches, the version is at least 17 and
/// backward-compatible, and both blocks lie within the declared size, which
/// lies within `s`.
pub open spec fn header_spec(s: Seq<u8>) -> Option<Header> {
    if !(40 <= s.len() && be_u32_at(s, 0) == FDT_MAGIC) {
        None
    } else {
        let total_size = be_u32_at(s, 4) as int;
        let struct_offset = be_u32_at(s, 8) as int;
        let strings_offset = be_u32_at(s, 12) as int;
        let version = be_u32_at(s, 20);
        let last_compatible = be_u32_at(s, 24);
        let strings_size = be_u32_at(s, 32) as int;
        let struct_size = be_u32_at(s, 36) as int;
        if total_size < 40 || total_size > s.len() || version < 17 || last_compatible > version || struct_offset
            + struct_size > total_size || strings_offset + strings_size > total_size {
            None
        } else {
            Some(
                Header {
                    total_size: total_size as usize,
                    struct_offset: struct_offset as usize,
                    strings_offset: strings_offset as usize,
                    strings_size: strings_size as usize,
                    struct_size: struct_size as usize,
                },
            )
        }
    }
}

pub fn header(bytes: &[u8]) -> (r: Option<Header>)
    ensures
        r == header_spec(bytes@),
{
    if bytes.len() < 40 {
        return None;
    }
    if get_be_u32(bytes, 0) != FDT_MAGIC {
        return None;
    }
    let total_size = get_be_u32(bytes, 4) as usize;
    let struct_offset = get_be_u32(bytes, 8) as usize;
    let strings_offset = get_be_u32(bytes, 12) as usize;
    let version = get_be_u32(bytes, 20);
    let last_compatible = get_be_u32(bytes, 24);
    let strings_size = get_be_u32(bytes, 32) as usize;
    let struct_size = get_be_u32(bytes, 36) as usize;
    if total_size < 40 || total_size > bytes.len() || version < 17 || last_compatible > version
        || struct_offset as u64 + struct_size as u64 > total_size as u64
        || strings_offset as u64 + strings_size as u64 > total_size as u64 {
        return None;
    }
    Some(Header { total_size, struct_offset, strings_offset, strings_size, struct_size })
}

/// Position of the first zero byte of `s` at or after `i`.
pub open spec fn first_zero_from(s: Seq<u8>, i: int) -> Option<int>
    decreases s.len() - i,
{
    if i < 0 || i >= s.len() {
        None
    } else if s[i] == 0 {
        Some(i)
    } else {
        first_zero_from(s, i + 1)
    }
}

/// The NUL-terminated string at `start`, terminated before `limit`.
pub open spec fn cstr_spec(s: Seq<u8>, start: int, limit: int) -> Option<Seq<u8>> {
    if start >= limit || limit > s.len() || start < 0 {
        None
    } else {
        match first_zero_from(s.subrange(0, limit), start) {
            Some(z) => Some(s.subrange(start, z)),
            None => None,
        }
    }
}

proof fn lemma_first_zero_range(s: Seq<u8>, i: int)
    ensures
        first_zero_from(s, i) matches Some(z) ==> i <= z < s.len() && s[z] == 0,
    decreases s.len() - i,
{
    if 0 <= i < s.len() && s[i] != 0 {
        lemma_first_zero_range(s, i + 1);
    }
}

pub fn cstr_at(bytes: &[u8], start: usize, limit: usize) -> (r: Option<&[u8]>)
    ensures
        match r {
            Some(t) => cstr_spec(bytes@, start as int, limit as int) == Some(t@),
            None => cstr_spec(bytes@, start as int, limit as int) is None,
        },
{
    if start >= limit || limit > bytes.len() {
        return None;
    }
    let ghost head = bytes@.subrange(0, limit as int);
    let mut i = start;
    while i < limit
        invariant
            start <= i <= limit,
            limit <= bytes@.len(),
            head == bytes@.subrange(0, limit as int),
            first_zero_from(head, start as int) == first_zero_from(head, i as int),
        decreases limit - i,
    {
        if bytes[i] == 0 {
            return Some(&bytes[start..i]);
        }
        i += 1;
    }
    None
}

/// Whether `entry` is one of the NUL-separated strings of `value`.
pub open spec fn has_entry(value: Seq<u8>, entry: Seq<u8>) -> bool {
    exists|i: int, j: int|
        #![trigger value.subrange(i, j)]
        0 <= i <= j <= value.len() && value.subrange(i, j) == entry && (i == 0 || value[i - 1] == 0) && (j
            == value.len() || value[j] == 0) && forall|k: int| i <= k < j ==> value[k] != 0
}

pub fn eq_bytes(a: &[u8], b: &[u8]) -> (r: bool)
    ensures
        r == (a@ == b@),
{
    if a.len() != b.len() {
        return false;
    }
    let mut k: usize = 0;
    while k < a.len()
        invariant
            a@.len() == b@.len(),
            k <= a@.len(),
            forall|j: int| 0 <= j < k ==> a@[j] == b@[j],
        decreases a@.len() - k,
    {
        if a[k] != b[k] {
            return false;
        }
        k += 1;
    }
    assert(a@ =~= b@);
    true
}

pub fn starts_with(a: &[u8], prefix: &[u8]) -> (r: bool)
    ensures
        r == (prefix@.len() <= a@.len() && a@.subrange(0, prefix@.len() as int) == prefix@),
{
    if prefix.len() > a.len() {
        return false;
    }
    let mut k: usize = 0;
    while k < prefix.len()
        invariant
            prefix@.len() <= a@.len(),
            k <= prefix@.len(),
            forall|j: int| 0 <= j < k ==> a@[j] == prefix@[j],
        decreases prefix@.len() - k,
    {
        if a[k] != prefix[k] {
            assert(a@.subrange(0, prefix@.len() as int)[k as int] != prefix@[k as int]);
            return false;
        }
        k += 1;
    }
    assert(a@.subrange(0, prefix@.len() as int) =~= prefix@);
    true
}

/// Whether the NUL-separated list `value` holds `needle` as an entry.
pub fn compatible_contains(value: &[u8], needle: &[u8]) -> (r: bool)
    ensures
        r == has_entry(value@, needle@),
{
    let mut start: usize = 0;
    loop
        invariant
            start <= value@.len(),
            start == 0 || value@[start - 1] == 0,
            forall|i: int, j: int|
                #![trigger value@.subrange(i, j)]
                0 <= i < start && i <= j <= value@.len() && (i == 0 || value@[i - 1] == 0) && (j == value@.len()
                    || value@[j] == 0) && (forall|k: int| i <= k < j ==> value@[k] != 0) ==> value@.subrange(i, j)
                    != needle@,
        decreases value@.len() - start,
    {
        let mut end = start;
        while end < value.len() && value[end] != 0
            invariant
                start <= end <= value@.len(),
                forall|k: int| start <= k < end ==> value@[k] != 0,
            decreases value@.len() - end,
        {
            end += 1;
        }
        let entry = &value[start..end];
        if eq_bytes(entry, needle) {
            assert(value@.subrange(start as int, end as int) == needle@);
            return true;
        }
        proof {
            assert forall|i: int, j: int|
                #![trigger value@.subrange(i, j)]
                0 <= i < end + 1 && i <= j <= value@.len() && (i == 0 || value@[i - 1] == 0) && (j == value@.len()
                    || value@[j] == 0) && (forall|k: int| i <= k < j ==> value@[k] != 0) implies value@.subrange(i, j)
                    != needle@ by {
                if start <= i && i <= end {
                    if i > start {
                        assert(value@[i - 1] != 0);
                    }
                    assert(i == start);
                    if j < end {
                        assert(value@[j] != 0);
                    }
                    if j > end {
                        assert(value@[end as int] != 0);
                    }
                    assert(j == end);
                }
            }
        }
        if end >= value.len() {
            return false;
        }
        start = end + 1;
    }
}

/// The first `(address, size)` pair of a `reg` value, big-endian cells of
/// the parent's widths (one or two each); none for other widths, a short
/// value or a zero size.
pub open spec fn first_reg_spec(value: Seq<u8>, address_cells: u32, size_cells: u32) -> Option<Region> {
    if !(1 <= address_cells <= 2 && 1 <= size_cells <= 2) {
        None
    } else if value.len() < (address_cells + size_cells) * 4 {
        None
    } else {
        let base = if address_cells == 2 {
            be_u64_at(value, 0)
        } else {
            be_u32_at(value, 0) as u64
        };
        let o = address_cells * 4;
        let size = if size_cells == 2 {
            be_u64_at(value, o)
        } else {
            be_u32_at(value, o) as u64
        };
        if size != 0 {
            Some(Region { base, size })
        } else {
            None
        }
    }
}

proof fn lemma_two_cells(s: Seq<u8>, o: int)
    requires
        0 <= o,
        o + 8 <= s.len(),
    ensures
        ((be_u32_at(s, o) as u64) << 32u64) | (be_u32_at(s, o + 4) as u64) == be_u64_at(s, o),
{
    let (a, b, c, d, e, f, g, h) = (s[o], s[o + 1], s[o + 2], s[o + 3], s[o + 4], s[o + 5], s[o + 6], s[o + 7]);
    assert((((((a as u32) << 24u32) | ((b as u32) << 16u32) | ((c as u32) << 8u32) | (d as u32)) as u64) << 32u64)
        | ((((e as u32) << 24u32) | ((f as u32) << 16u32) | ((g as u32) << 8u32) | (h as u32)) as u64) == ((a as u64)
        << 56u64) | ((b as u64) << 48u64) | ((c as u64) << 40u64) | ((d as u64) << 32u64) | ((e as u64) << 24u64) | ((
    f as u64) << 16u64) | ((g as u64) << 8u64) | (h as u64)) by (bit_vector);
}

pub fn decode_first_reg(value: &[u8], address_cells: u32, size_cells: u32) -> (r: Option<Region>)
    ensures
        r == first_reg_spec(value@, address_cells, size_cells),
{
    if !(1 <= address_cells && address_cells <= 2) || !(1 <= size_cells && size_cells <= 2) {
        return None;
    }
    let cells = (address_cells + size_cells) as usize;
    if value.len() < cells * 4 {
        return None;
    }
    let mut cursor: usize = 0;
    let mut base: u64 = 0;
    let mut i: u32 = 0;
    while i < address_cells
        invariant
            1 <= address_cells <= 2,
            i <= address_cells,
            cursor == i * 4,
            value@.len() >= (address_cells + size_cells) * 4,
            i == 0 ==> base == 0,
            i == 1 ==> base == be_u32_at(value@, 0) as u64,
            i == 2 ==> base == be_u64_at(value@, 0),
        decreases address_cells - i,
    {
        let word = get_be_u32(value, cursor);
        proof {
            if i == 1 {
                lemma_two_cells(value@, 0);
                assert((0u64 << 32u64) | (word as u64) == word as u64) by (bit_vector);
            } else {
                assert((0u64 << 32u64) | (word as u64) == word as u64) by (bit_vector);
            }
        }
        base = (base << 32u64) | word as u64;
        cursor += 4;
        i += 1;
    }
    let mut size: u64 = 0;
    let mut j: u32 = 0;
    while j < size_cells
        invariant
            1 <= size_cells <= 2,
            1 <= address_cells <= 2,
            j <= size_cells,
            cursor == address_cells * 4 + j * 4,
            value@.len() >= (address_cells + size_cells) * 4,
            j == 0 ==> size == 0,
            j == 1 ==> size == be_u32_at(value@, address_cells * 4) as u64,
            j == 2 ==> size == be_u64_at(value@, address_cells * 4),
        decreases size_cells - j,
    {
        let word = get_be_u32(value, cursor);
        proof {
            if j == 1 {
                lemma_two_cells(value@, address_cells * 4);
            }
            assert((0u64 << 32u64) | (word as u64) == word as u64) by (bit_vector);
        }
        size = (size << 32u64) | word as u64;
        cursor += 4;
        j += 1;
    }
    if size != 0 {
        Some(Region { base, size })
    } else {
        None
    }
}

/// The interrupt line of a GIC `interrupts` value: SPIs from 32, PPIs from
/// 16; none for a short value, another kind or an overflowing number.
pub open spec fn gic_spec(value: Seq<u8>) -> Option<u32> {
    if value.len() < 12 {
        None
    } else {
        let kind = be_u32_at(value, 0);
        let number = be_u32_at(value, 4);
        if kind == 0 && number + 32 <= u32::MAX {
            Some((number + 32) as u32)
        } else if kind == 1 && number + 16 <= u32::MAX {
            Some((number + 16) as u32)
        } else {
            None
        }
    }
}

proof fn lemma_be_u32_value(s: Seq<u8>, o: int)
    requires
        0 <= o,
        o + 4 <= s.len(),
    ensures
        be_u32_at(s, o) == s[o] * 0x100_0000 + s[o + 1] * 0x1_0000 + s[o + 2] * 0x100 + s[o + 3],
{
    let (a, b, c, d) = (s[o], s[o + 1], s[o + 2], s[o + 3]);
    assert(((a as u32) << 24u32) | ((b as u32) << 16u32) | ((c as u32) << 8u32) | (d as u32) == a * 0x100_0000 + b
        * 0x1_0000 + c * 0x100 + d) by (bit_vector);
}

/// GIC interrupt specifiers: a shared peripheral interrupt (first cell 0)
/// numbered `n` is interrupt ID `n + 32`, a private peripheral interrupt
/// (first cell 1) numbered `n` is ID `n + 16`; the cells are big-endian.
pub proof fn lemma_gic_interrupt_ids(value: Seq<u8>)
    requires
        value.len() >= 12,
    ensures
        ({
            let first = value[0] * 0x100_0000 + value[1] * 0x1_0000 + value[2] * 0x100 + value[3];
            let n = value[4] * 0x100_0000 + value[5] * 0x1_0000 + value[6] * 0x100 + value[7];
            &&& first == 0 && n + 32 <= u32::MAX ==> gic_spec(value) == Some((n + 32) as u32)
            &&& first == 1 && n + 16 <= u32::MAX ==> gic_spec(value) == Some((n + 16) as u32)
            &&& first != 0 && first != 1 ==> gic_spec(value) is None
        }),
{
    lemma_be_u32_value(value, 0);
    lemma_be_u32_value(value, 4);
}

pub fn decode_gic_interrupt(value: &[u8]) -> (r: Option<u32>)
    ensures
        r == gic_spec(value@),
{
    if value.len() < 12 {
        return None;
    }
    let kind = get_be_u32(value, 0);
    let number = get_be_u32(value, 4);
    if kind == 0 {
        number.checked_add(32)
    } else if kind == 1 {
        number.checked_add(16)
    } else {
        None
    }
}

// ---------------------------------------------------------------------------
// Names and values the walk recognises
// ---------------------------------------------------------------------------

pub open spec fn address_cells_name() -> Seq<u8> {
    seq![35u8, 97, 100, 100, 114, 101, 115, 115, 45, 99, 101, 108, 108, 115]
}

pub open spec fn size_cells_name() -> Seq<u8> {
    seq![35u8, 115, 105, 122, 101, 45, 99, 101, 108, 108, 115]
}

pub open spec fn device_type_name() -> Seq<u8> {
    seq![100u8, 101, 118, 105, 99, 101, 95, 116, 121, 112, 101]
}

pub open spec fn memory_type() -> Seq<u8> {
    seq![109u8, 101, 109, 111, 114, 121, 0]
}

pub open spec fn cpu_type() -> Seq<u8> {
    seq![99u8, 112, 117, 0]
}

pub open spec fn compatible_name() -> Seq<u8> {
    seq![99u8, 111, 109, 112, 97, 116, 105, 98, 108, 101]
}

pub open spec fn virtio_mmio_compatible() -> Seq<u8> {
    seq![118u8, 105, 114, 116, 105, 111, 44, 109, 109, 105, 111]
}

pub open spec fn pcie_ecam_compatible() -> Seq<u8> {
    seq![112u8, 99, 105, 45, 104, 111, 115, 116, 45, 101, 99, 97, 109, 45, 103, 101, 110, 101, 114, 105, 99]
}

pub open spec fn reg_name() -> Seq<u8> {
    seq![114u8, 101, 103]
}

pub open spec fn interrupts_name() -> Seq<u8> {
    seq![105u8, 110, 116, 101, 114, 114, 117, 112, 116, 115]
}

pub open spec fn memory_node_prefix() -> Seq<u8> {
    seq![109u8, 101, 109, 111, 114, 121, 64]
}

pub open spec fn cpu_node_prefix() -> Seq<u8> {
    seq![99u8, 112, 117, 64]
}

pub open spec fn has_prefix(s: Seq<u8>, prefix: Seq<u8>) -> bool {
    prefix.len() <= s.len() && s.subrange(0, prefix.len() as int) == prefix
}

// ---------------------------------------------------------------------------
// Discovered platform resources
// ---------------------------------------------------------------------------

/// What one open node of the walk has learned so far.
#[derive(Clone, Copy, Debug, PartialEq, Eq, Structural)]
pub struct NodeState {
    pub address_cells: u32,
    pub size_cells: u32,
    pub reg: Option<Region>,
    pub irq: Option<u32>,
    pub is_virtio: bool,
    pub is_memory: bool,
    pub is_cpu: bool,
    pub is_pcie: bool,
}

pub open spec fn empty_node_state_spec() -> NodeState {
    NodeState {
        address_cells: 2,
        size_cells: 1,
        reg: None,
        irq: None,
        is_virtio: false,
        is_memory: false,
        is_cpu: false,
        is_pcie: false,
    }
}

#[verifier::when_used_as_spec(empty_node_state_spec)]
fn empty_node_state() -> (r: NodeState)
    ensures
        r == empty_node_state_spec(),
{
    NodeState {
        address_cells: 2,
        size_cells: 1,
        reg: None,
        irq: None,
        is_virtio: false,
        is_memory: false,
        is_cpu: false,
        is_pcie: false,
    }
}

/// Abstract state of a [`Platform`].
#[verifier::ext_equal]
pub struct PlatformModel {
    pub valid: bool,
    pub dtb_address: u64,
    pub dtb_size: u64,
    pub memory_base: u64,
    pub memory_size: u64,
    pub cpu_count: u32,
    pub virtio_count: u32,
    pub pcie_ecam_base: u64,
    pub pcie_ecam_size: u64,
    pub virtio_regions: Seq<Region>,
    pub virtio_irqs: Seq<u32>,
}

/// The platform resources recorded from the device tree.
pub struct Platform {
    valid: bool,
    dtb_address: u64,
    dtb_size: u64,
    memory_base: u64,
    memory_size: u64,
    cpu_count: u32,
    virtio_count: u32,
    pcie_ecam_base: u64,
    pcie_ecam_size: u64,
    virtio_regions: [Region; MAX_VIRTIO_MMIO],
    virtio_irqs: [u32; MAX_VIRTIO_MMIO],
}

impl View for Platform {
    type V = PlatformModel;

    closed spec fn view(&self) -> PlatformModel {
        PlatformModel {
            valid: self.valid,
            dtb_address: self.dtb_address,
            dtb_size: self.dtb_size,
            memory_base: self.memory_base,
            memory_size: self.memory_size,
            cpu_count: self.cpu_count,
            virtio_count: self.virtio_count,
            pcie_ecam_base: self.pcie_ecam_base,
            pcie_ecam_size: self.pcie_ecam_size,
            virtio_regions: self.virtio_regions@,
            virtio_irqs: self.virtio_irqs@,
        }
    }
}

pub open spec fn reset_platform(address: u64) -> PlatformModel {
    PlatformModel {
        valid: false,
        dtb_address: address,
        dtb_size: 0,
        memory_base: 0,
        memory_size: 0,
        cpu_count: 0,
        virtio_count: 0,
        pcie_ecam_base: 0,
        pcie_ecam_size: 0,
        virtio_regions: Seq::new(MAX_VIRTIO_MMIO as nat, |i: int| Region { base: 0, size: 0 }),
        virtio_irqs: Seq::new(MAX_VIRTIO_MMIO as nat, |i: int| u32::MAX),
    }
}

impl PlatformModel {
    pub open spec fn wf(self) -> bool {
        &&& self.virtio_regions.len() == MAX_VIRTIO_MMIO
        &&& self.virtio_irqs.len() == MAX_VIRTIO_MMIO
        &&& self.virtio_count <= MAX_VIRTIO_MMIO
    }
}

/// Record a virtio-mmio window and its interrupt, while there is room.
pub open spec fn record_virtio_spec(p: PlatformModel, region: Region, irq: Option<u32>) -> PlatformModel {
    let index = p.virtio_count as int;
    if index >= MAX_VIRTIO_MMIO {
        p
    } else {
        PlatformModel {
            virtio_regions: p.virtio_regions.update(index, region),
            virtio_irqs: p.virtio_irqs.update(
                index,
                match irq {
                    Some(v) => v,
                    None => u32::MAX,
                },
            ),
            virtio_count: (index + 1) as u32,
            ..p
        }
    }
}

/// What closing a node records: its memory, virtio or PCIe window, and one
/// more CPU for a CPU node.
pub open spec fn close_node(p: PlatformModel, node: NodeState) -> PlatformModel {
    let p1 = match node.reg {
        Some(r) => if node.is_memory {
            PlatformModel { memory_base: r.base, memory_size: r.size, ..p }
        } else {
            p
        },
        None => p,
    };
    let p2 = match node.reg {
        Some(r) => if node.is_virtio {
            record_virtio_spec(p1, r, node.irq)
        } else {
            p1
        },
        None => p1,
    };
    let p3 = if node.is_cpu {
        PlatformModel { cpu_count: (if p2.cpu_count == u32::MAX { 0 } else { p2.cpu_count + 1 }) as u32, ..p2 }
    } else {
        p2
    };
    match node.reg {
        Some(r) => if node.is_pcie {
            PlatformModel { pcie_ecam_base: r.base, pcie_ecam_size: r.size, ..p3 }
        } else {
            p3
        },
        None => p3,
    }
}

/// What a property teaches the node it belongs to.
pub open spec fn apply_property(stack: Seq<NodeState>, depth: int, name: Seq<u8>, value: Seq<u8>) -> Seq<NodeState> {
    let node = stack[depth - 1];
    let updated = if name == address_cells_name() {
        NodeState {
            address_cells: match be32_spec(value, 0) {
                Some(v) => v,
                None => node.address_cells,
            },
            ..node
        }
    } else if name == size_cells_name() {
        NodeState {
            size_cells: match be32_spec(value, 0) {
                Some(v) => v,
                None => node.size_cells,
            },
            ..node
        }
    } else if name == device_type_name() && has_prefix(value, memory_type()) {
        NodeState { is_memory: true, ..node }
    } else if name == device_type_name() && has_prefix(value, cpu_type()) {
        NodeState { is_cpu: true, ..node }
    } else if name == compatible_name() && has_entry(value, virtio_mmio_compatible()) {
        NodeState { is_virtio: true, ..node }
    } else if name == compatible_name() && has_entry(value, pcie_ecam_compatible()) {
        NodeState { is_pcie: true, ..node }
    } else if name == reg_name() {
        let (ac, sc) = if depth > 1 {
            (stack[depth - 2].address_cells, stack[depth - 2].size_cells)
        } else {
            (node.address_cells, node.size_cells)
        };
        NodeState { reg: first_reg_spec(value, ac, sc), ..node }
    } else if name == interrupts_name() {
        NodeState { irq: gic_spec(value), ..node }
    } else {
        node
    };
    stack.update(depth - 1, updated)
}

/// The walk of the structure block from `cursor`: tokens are read in
/// order, nodes opened and closed on a bounded stack, properties applied to
/// the innermost open node; the walk succeeds at an END token after a root
/// node with every node closed, and fails on any malformed token. Resources
/// are recorded as nodes close, whether or not the walk later fails.
#[verifier::opaque]
pub open spec fn walk_spec(
    s: Seq<u8>,
    hdr: Header,
    cursor: int,
    stack: Seq<NodeState>,
    depth: int,
    saw_root: bool,
    p: PlatformModel,
) -> (bool, PlatformModel)
    decreases hdr.struct_offset + hdr.struct_size + 8 - cursor,
{
    let struct_end = hdr.struct_offset + hdr.struct_size;
    let strings_end = hdr.strings_offset + hdr.strings_size;
    if cursor >= struct_end || cursor < 0 {
        (false, p)
    } else {
        match be32_spec(s, cursor) {
            None => (false, p),
            Some(token) => {
                let c = cursor + 4;
                if token == FDT_BEGIN_NODE {
                    match cstr_spec(s, c, struct_end) {
                        None => (false, p),
                        Some(name) => match align4_spec(c + name.len() + 1) {
                            Some(next) => if next > struct_end || depth >= MAX_DEPTH || next <= cursor {
                                (false, p)
                            } else {
                                let (ac, sc) = if depth == 0 {
                                    (2u32, 1u32)
                                } else {
                                    (stack[depth - 1].address_cells, stack[depth - 1].size_cells)
                                };
                                let node = NodeState {
                                    address_cells: ac,
                                    size_cells: sc,
                                    reg: None,
                                    irq: None,
                                    is_virtio: false,
                                    is_memory: has_prefix(name, memory_node_prefix()),
                                    is_cpu: has_prefix(name, cpu_node_prefix()),
                                    is_pcie: false,
                                };
                                walk_spec(s, hdr, next, stack.update(depth, node), depth + 1, true, p)
                            },
                            None => (false, p),
                        },
                    }
                } else if token == FDT_END_NODE {
                    if depth == 0 {
                        (false, p)
                    } else {
                        let p2 = close_node(p, stack[depth - 1]);
                        walk_spec(s, hdr, c, stack.update(depth - 1, empty_node_state_spec()), depth - 1, saw_root, p2)
                    }
                } else if token == FDT_PROP {
                    match (be32_spec(s, c), be32_spec(s, c + 4)) {
                        (Some(len), Some(name_offset)) => {
                            let value_start = c + 8;
                            let value_end = value_start + len;
                            if value_end > struct_end || value_end > usize::MAX {
                                (false, p)
                            } else {
                                match align4_spec(value_end) {
                                    Some(next) => {
                                        let name_start = hdr.strings_offset + name_offset;
                                        if next > struct_end || name_start >= strings_end || name_start > usize::MAX
                                            || next <= cursor {
                                            (false, p)
                                        } else {
                                            match cstr_spec(s, name_start, strings_end) {
                                                None => (false, p),
                                                Some(name) => if depth == 0 {
                                                    (false, p)
                                                } else {
                                                    walk_spec(
                                                        s,
                                                        hdr,
                                                        next,
                                                        apply_property(stack, depth, name, s.subrange(value_start, value_end)),
                                                        depth,
                                                        saw_root,
                                                        p,
                                                    )
                                                },
                                            }
                                        }
                                    },
                                    None => (false, p),
                                }
                            }
                        },
                        _ => (false, p),
                    }
                } else if token == FDT_NOP {
                    walk_spec(s, hdr, c, stack, depth, saw_root, p)
                } else if token == FDT_END {
                    (saw_root && depth == 0, p)
                } else {
                    (false, p)
                }
            },
        }
    }
}

fn apply_property_exec(stack: &mut [NodeState; MAX_DEPTH], depth: usize, name: &[u8], value: &[u8])
    requires
        1 <= depth <= MAX_DEPTH,
    ensures
        final(stack)@ == apply_property(old(stack)@, depth as int, name@, value@),
{
    let address_cells: [u8; 14] = [35, 97, 100, 100, 114, 101, 115, 115, 45, 99, 101, 108, 108, 115];
    let size_cells: [u8; 11] = [35, 115, 105, 122, 101, 45, 99, 101, 108, 108, 115];
    let device_type: [u8; 11] = [100, 101, 118, 105, 99, 101, 95, 116, 121, 112, 101];
    let memory: [u8; 7] = [109, 101, 109, 111, 114, 121, 0];
    let cpu: [u8; 4] = [99, 112, 117, 0];
    let compatible: [u8; 10] = [99, 111, 109, 112, 97, 116, 105, 98, 108, 101];
    let virtio: [u8; 11] = [118, 105, 114, 116, 105, 111, 44, 109, 109, 105, 111];
    let pcie: [u8; 21] = [112, 99, 105, 45, 104, 111, 115, 116, 45, 101, 99, 97, 109, 45, 103, 101, 110, 101, 114, 105, 99];
    let reg: [u8; 3] = [114, 101, 103];
    let interrupts: [u8; 10] = [105, 110, 116, 101, 114, 114, 117, 112, 116, 115];
    proof {
        assert(address_cells@ =~= address_cells_name());
        assert(size_cells@ =~= size_cells_name());
        assert(device_type@ =~= device_type_name());
        assert(memory@ =~= memory_type());
        assert(cpu@ =~= cpu_type());
        assert(compatible@ =~= compatible_name());
        assert(virtio@ =~= virtio_mmio_compatible());
        assert(pcie@ =~= pcie_ecam_compatible());
        assert(reg@ =~= reg_name());
        assert(interrupts@ =~= interrupts_name());
    }
    let mut node = stack[depth - 1];
    if eq_bytes(name, address_cells.as_slice()) {
        node.address_cells = match be32(value, 0) {
            Some(v) => v,
            None => node.address_cells,
        };
    } else if eq_bytes(name, size_cells.as_slice()) {
        node.size_cells = match be32(value, 0) {
            Some(v) => v,
            None => node.size_cells,
        };
    } else if eq_bytes(name, device_type.as_slice()) && starts_with(value, memory.as_slice()) {
        node.is_memory = true;
    } else if eq_bytes(name, device_type.as_slice()) && starts_with(value, cpu.as_slice()) {
        node.is_cpu = true;
    } else if eq_bytes(name, compatible.as_slice()) && compatible_contains(value, virtio.as_slice()) {
        node.is_virtio = true;
    } else if eq_bytes(name, compatible.as_slice()) && compatible_contains(value, pcie.as_slice()) {
        node.is_pcie = true;
    } else if eq_bytes(name, reg.as_slice()) {
        let (ac, sc) = if depth > 1 {
            (stack[depth - 2].address_cells, stack[depth - 2].size_cells)
        } else {
            (node.address_cells, node.size_cells)
        };
        node.reg = decode_first_reg(value, ac, sc);
    } else if eq_bytes(name, interrupts.as_slice()) {
        node.irq = decode_gic_interrupt(value);
    }
    stack[depth - 1] = node;
}

fn record_virtio(platform: &mut Platform, region: Region, irq: Option<u32>)
    requires
        old(platform)@.wf(),
    ensures
        final(platform)@.wf(),
        final(platform)@ == record_virtio_spec(old(platform)@, region, irq),
{
    let index = platform.virtio_count as usize;
    if index >= MAX_VIRTIO_MMIO {
        return;
    }
    platform.virtio_regions[index] = region;
    platform.virtio_irqs[index] = match irq {
        Some(v) => v,
        None => u32::MAX,
    };
    platform.virtio_count = (index + 1) as u32;
}

fn close_node_exec(platform: &mut Platform, node: NodeState)
    requires
        old(platform)@.wf(),
    ensures
        final(platform)@.wf(),
        final(platform)@ == close_node(old(platform)@, node),
{
    if node.is_memory {
        if let Some(region) = node.reg {
            platform.memory_base = region.base;
            platform.memory_size = region.size;
        }
    }
    if node.is_virtio {
        if let Some(region) = node.reg {
            record_virtio(platform, region, node.irq);
        }
    }
    if node.is_cpu {
        platform.cpu_count = platform.cpu_count.wrapping_add(1);
    }
    if node.is_pcie {
        if let Some(region) = node.reg {
            platform.pcie_ecam_base = region.base;
            platform.pcie_ecam_size = region.size;
        }
    }
}

/// One token of the walk: `None` to go on from the advanced cursor, or the
/// walk's outcome.
#[verifier::rlimit(60)]
fn walk_step(
    bytes: &[u8],
    hdr: Header,
    cursor: &mut usize,
    stack: &mut [NodeState; MAX_DEPTH],
    depth: &mut usize,
    saw_root: &mut bool,
    platform: &mut Platform,
) -> (r: Option<bool>)
    requires
        old(platform)@.wf(),
        *old(depth) <= MAX_DEPTH,
        hdr.struct_offset + hdr.struct_size <= bytes@.len(),
        hdr.strings_offset + hdr.strings_size <= bytes@.len(),
        *old(cursor) < hdr.struct_offset + hdr.struct_size,
    ensures
        final(platform)@.wf(),
        *final(depth) <= MAX_DEPTH,
        match r {
            Some(b) => (b, final(platform)@) == walk_spec(
                bytes@,
                hdr,
                *old(cursor) as int,
                old(stack)@,
                *old(depth) as int,
                *old(saw_root),
                old(platform)@,
            ),
            None => {
                &&& *old(cursor) < *final(cursor)
                &&& *final(cursor) <= hdr.struct_offset + hdr.struct_size + 4
                &&& walk_spec(
                    bytes@,
                    hdr,
                    *final(cursor) as int,
                    final(stack)@,
                    *final(depth) as int,
                    *final(saw_root),
                    final(platform)@,
                ) == walk_spec(
                    bytes@,
                    hdr,
                    *old(cursor) as int,
                    old(stack)@,
                    *old(depth) as int,
                    *old(saw_root),
                    old(platform)@,
                )
            },
        },
{
    proof { reveal(walk_spec); }
    let n = bytes.len();
    assert(hdr.struct_offset + hdr.struct_size <= n);
    let struct_end = hdr.struct_offset + hdr.struct_size;
    let strings_end = hdr.strings_offset + hdr.strings_size;
    let token = match be32(bytes, *cursor) {
        Some(t) => t,
        None => return Some(false),
    };
    let c = *cursor + 4;
    if token == FDT_BEGIN_NODE {
        let node_name = match cstr_at(bytes, c, struct_end) {
            Some(name) => name,
            None => return Some(false),
        };
        proof {
            lemma_first_zero_range(bytes@.subrange(0, struct_end as int), c as int);
        }
        let next = match align4(c + node_name.len() + 1) {
            Some(next) => next,
            None => return Some(false),
        };
        if next > struct_end || *depth >= MAX_DEPTH {
            return Some(false);
        }
        let memory_prefix: [u8; 7] = [109, 101, 109, 111, 114, 121, 64];
        let cpu_prefix: [u8; 4] = [99, 112, 117, 64];
        proof {
            assert(memory_prefix@ =~= memory_node_prefix());
            assert(cpu_prefix@ =~= cpu_node_prefix());
        }
        let d = *depth;
        let (address_cells, size_cells) = if d == 0 {
            (2u32, 1u32)
        } else {
            (stack[d - 1].address_cells, stack[d - 1].size_cells)
        };
        stack[d] = NodeState {
            address_cells,
            size_cells,
            reg: None,
            irq: None,
            is_virtio: false,
            is_memory: starts_with(node_name, memory_prefix.as_slice()),
            is_cpu: starts_with(node_name, cpu_prefix.as_slice()),
            is_pcie: false,
        };
        *depth = d + 1;
        *saw_root = true;
        *cursor = next;
        None
    } else if token == FDT_END_NODE {
        if *depth == 0 {
            return Some(false);
        }
        let d = *depth - 1;
        let node = stack[d];
        close_node_exec(platform, node);
        stack[d] = empty_node_state();
        *depth = d;
        *cursor = c;
        None
    } else if token == FDT_PROP {
        let len = match be32(bytes, c) {
            Some(v) => v as usize,
            None => return Some(false),
        };
        let name_offset = match be32(bytes, c + 4) {
            Some(v) => v as usize,
            None => return Some(false),
        };
        let value_start = c + 8;
        let value_end = match value_start.checked_add(len) {
            Some(end) => end,
            None => return Some(false),
        };
        if value_end > struct_end {
            return Some(false);
        }
        let value = &bytes[value_start..value_end];
        let next = match align4(value_end) {
            Some(next) => next,
            None => return Some(false),
        };
        if next > struct_end {
            return Some(false);
        }
        let name_start = match hdr.strings_offset.checked_add(name_offset) {
            Some(start) => start,
            None => return Some(false),
        };
        if name_start >= strings_end {
            return Some(false);
        }
        let name = match cstr_at(bytes, name_start, strings_end) {
            Some(name) => name,
            None => return Some(false),
        };
        if *depth == 0 {
            return Some(false);
        }
        apply_property_exec(stack, *depth, name, value);
        *cursor = next;
        None
    } else if token == FDT_NOP {
        *cursor = c;
        None
    } else if token == FDT_END {
        Some(*saw_root && *depth == 0)
    } else {
        Some(false)
    }
}

/// The outcome of walking the structure block with a fresh stack.
pub open spec fn discover_spec(s: Seq<u8>, hdr: Header, p: PlatformModel) -> (bool, PlatformModel) {
    if hdr.struct_offset + hdr.struct_size > usize::MAX || hdr.strings_offset + hdr.strings_size > usize::MAX {
        (false, p)
    } else {
        walk_spec(s, hdr, hdr.struct_offset as int, Seq::new(MAX_DEPTH as nat, |i: int| empty_node_state_spec()), 0, false, p)
    }
}

/// Walk the structure block of a validated tree, recording resources.
fn discover(bytes: &[u8], hdr: Header, platform: &mut Platform) -> (r: bool)
    requires
        old(platform)@.wf(),
        header_spec(bytes@) == Some(hdr),
    ensures
        final(platform)@.wf(),
        (r, final(platform)@) == discover_spec(bytes@, hdr, old(platform)@),
{
    let struct_end = match hdr.struct_offset.checked_add(hdr.struct_size) {
        Some(end) => end,
        None => return false,
    };
    let strings_end = match hdr.strings_offset.checked_add(hdr.strings_size) {
        Some(end) => end,
        None => return false,
    };
    let mut cursor = hdr.struct_offset;
    let mut stack = [empty_node_state(); MAX_DEPTH];
    let mut depth: usize = 0;
    let mut saw_root = false;
    proof { assert(stack@ =~= Seq::new(MAX_DEPTH as nat, |i: int| empty_node_state_spec())); }
    let ghost target = walk_spec(bytes@, hdr, cursor as int, stack@, 0, false, platform@);
    let n = bytes.len();
    assert(struct_end <= n && strings_end <= n);
    while cursor < struct_end
        invariant
            platform@.wf(),
            depth <= MAX_DEPTH,
            struct_end == hdr.struct_offset + hdr.struct_size,
            struct_end <= bytes@.len(),
            strings_end <= bytes@.len(),
            strings_end == hdr.strings_offset + hdr.strings_size,
            cursor <= struct_end + 4,
            header_spec(bytes@) == Some(hdr),
            target == discover_spec(bytes@, hdr, old(platform)@),
            walk_spec(bytes@, hdr, cursor as int, stack@, depth as int, saw_root, platform@) == target,
        decreases struct_end + 8 - cursor,
    {
        match walk_step(bytes, hdr, &mut cursor, &mut stack, &mut depth, &mut saw_root, platform) {
            Some(b) => return b,
            None => {},
        }
    }
    proof { reveal(walk_spec); }
    false
}

// ---------------------------------------------------------------------------
// Boot-time entry and queries
// ---------------------------------------------------------------------------

/// What [`init`] leaves behind for the tree at `dtb_address` whose first
/// bytes are `image`.
pub open spec fn init_spec(dtb_address: u64, image: Seq<u8>) -> PlatformModel {
    let reset = reset_platform(dtb_address);
    if dtb_address == 0 || dtb_address % 8 != 0 {
        reset
    } else {
        match be32_spec(image, 4) {
            None => reset,
            Some(total) => if total < 40 || total > MAX_DTB_BYTES || total > image.len() {
                reset
            } else {
                let bytes = image.subrange(0, total as int);
                match header_spec(bytes) {
                    None => reset,
                    Some(hdr) => {
                        let (ok, p) = discover_spec(bytes, hdr, reset);
                        if hdr.total_size == total && ok {
                            PlatformModel { dtb_size: total as u64, valid: true, ..p }
                        } else {
                            p
                        }
                    },
                }
            },
        }
    }
}

impl Platform {
    /// Nothing discovered yet.
    pub fn new() -> (r: Self)
        ensures
            r@ == reset_platform(0),
            r@.wf(),
    {
        let r = Platform {
            valid: false,
            dtb_address: 0,
            dtb_size: 0,
            memory_base: 0,
            memory_size: 0,
            cpu_count: 0,
            virtio_count: 0,
            pcie_ecam_base: 0,
            pcie_ecam_size: 0,
            virtio_regions: [Region { base: 0, size: 0 }; MAX_VIRTIO_MMIO],
            virtio_irqs: [u32::MAX; MAX_VIRTIO_MMIO],
        };
        assert(r@ =~= reset_platform(0));
        r
    }
}

/// Validate and walk the device tree the firmware placed at `dtb_address`,
/// given the bytes found there (`image`, at least the declared size when
/// the tree is valid). The tree is accepted only when its declared size is
/// within bounds, its header is sound and its structure walks cleanly.
pub fn init(platform: &mut Platform, dtb_address: u64, image: &[u8])
    ensures
        final(platform)@.wf(),
        final(platform)@ == init_spec(dtb_address, image@),
{
    *platform = Platform::new();
    platform.dtb_address = dtb_address;
    proof { assert(platform@ =~= reset_platform(dtb_address)); }
    if dtb_address == 0 || dtb_address % 8 != 0 {
        return;
    }
    let total_size = match be32(image, 4) {
        Some(size) => size as usize,
        None => return,
    };
    if total_size < 40 || total_size > MAX_DTB_BYTES || total_size > image.len() {
        return;
    }
    let bytes = &image[0..total_size];
    let hdr = match header(bytes) {
        Some(h) => h,
        None => return,
    };
    if discover(bytes, hdr, platform) && hdr.total_size == total_size {
        platform.dtb_size = total_size as u64;
        platform.valid = true;
    }
}

pub fn is_valid(platform: &Platform) -> (r: bool)
    ensures
        r == platform@.valid,
{
    platform.valid
}

pub fn dtb_address(platform: &Platform) -> (r: u64)
    ensures
        r == platform@.dtb_address,
{
    platform.dtb_address
}

pub fn dtb_size(platform: &Platform) -> (r: u64)
    ensures
        r == platform@.dtb_size,
{
    platform.dtb_size
}

/// The memory window, if one with a nonzero size was found.
pub fn memory(platform: &Platform) -> (r: Option<Region>)
    ensures
        r == (if platform@.memory_size != 0 {
            Some(Region { base: platform@.memory_base, size: platform@.memory_size })
        } else {
            None
        }),
{
    if platform.memory_size != 0 {
        Some(Region { base: platform.memory_base, size: platform.memory_size })
    } else {
        None
    }
}

pub fn cpu_count(platform: &Platform) -> (r: u32)
    ensures
        r == platform@.cpu_count,
{
    platform.cpu_count
}

pub fn virtio_mmio_count(platform: &Platform) -> (r: usize)
    ensures
        r == platform@.virtio_count,
{
    platform.virtio_count as usize
}

/// The `index`-th virtio-mmio window found, if any.
pub fn virtio_mmio(platform: &Platform, index: usize) -> (r: Option<Region>)
    requires
        platform@.wf(),
    ensures
        r == (if index < platform@.virtio_count {
            Some(platform@.virtio_regions[index as int])
        } else {
            None
        }),
{
    if index >= platform.virtio_count as usize {
        return None;
    }
    Some(platform.virtio_regions[index])
}

/// The interrupt of the `index`-th virtio-mmio window, if it had one.
pub fn virtio_mmio_irq(platform: &Platform, index: usize) -> (r: Option<u32>)
    requires
        platform@.wf(),
    ensures
        r == (if index < platform@.virtio_count && platform@.virtio_irqs[index as int] != u32::MAX {
            Some(platform@.virtio_irqs[index as int])
        } else {
            None
        }),
{
    if index >= platform.virtio_count as usize {
        return None;
    }
    let irq = platform.virtio_irqs[index];
    if irq != u32::MAX {
        Some(irq)
    } else {
        None
    }
}

/// The PCIe ECAM window, if one with a nonzero size was found.
pub fn pcie_ecam(platform: &Platform) -> (r: Option<Region>)
    ensures
        r == (if platform@.pcie_ecam_size != 0 {
            Some(Region { base: platform@.pcie_ecam_base, size: platform@.pcie_ecam_size })
        } else {
            None
        }),
{
    if platform.pcie_ecam_size != 0 {
        Some(Region { base: platform.pcie_ecam_base, size: platform.pcie_ecam_size })
    } else {
        None
    }
}

} // verus!
