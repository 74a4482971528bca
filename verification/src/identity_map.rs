//! The AArch64 boot translation tables as data: the 1 GiB identity blocks
//! of the boot map, their validation, the splitting of a block into a table
//! of smaller ones, the on-demand 2 MiB device mappings, and the W^X
//! permissions of the kernel image's pages.

use vstd::prelude::*;

verus! {

pub const PAGE_SIZE: u64 = 4096;
pub const BLOCK_2M: u64 = 0x20_0000;
pub const BLOCK_1G: u64 = 0x4000_0000;
pub const ADDRESS_MASK: u64 = 0x0000_ffff_ffff_f000;
pub const BLOCK_1G_MASK: u64 = 0x0000_ffff_c000_0000;
pub const BLOCK_2M_MASK: u64 = 0x0000_ffff_ffe0_0000;
pub const DESC_VALID: u64 = 1;
pub const DESC_TABLE_OR_PAGE: u64 = 2;
pub const TABLE_DESC: u64 = 3;
/// Normal memory: valid, attribute index 0, inner shareable, accessed.
pub const NORMAL_BLOCK: u64 = 0x701;
/// Device memory: valid, attribute index 1, accessed, never executable.
pub const DEVICE_BLOCK: u64 = 0x0060_0000_0000_0405;
pub const NORMAL_PAGE: u64 = 0x703;
pub const AP_KERNEL_RO: u64 = 0x80;
pub const PXN: u64 = 0x0020_0000_0000_0000;
pub const UXN: u64 = 0x0040_0000_0000_0000;
/// Where the platform's RAM begins: lower blocks are device memory.
pub const RAM_BASE: u64 = 0x4000_0000;
pub const MAX_BLOCKS: u64 = 512;

/// What building the boot identity map produced.
#[derive(Clone, Copy, Debug, PartialEq, Eq, Structural)]
pub struct BootstrapResult {
    /// The level-zero table installed in TTBR0_EL1.
    pub pml4_phys: u64,
    pub frames_used: usize,
    pub mapped_bytes: u64,
}

/// The descriptor of 1 GiB block `index` of the identity map.
pub open spec fn block_entry(index: int) -> u64 {
    let phys = (index * BLOCK_1G) as u64;
    if phys < RAM_BASE {
        phys | DEVICE_BLOCK
    } else {
        phys | NORMAL_BLOCK
    }
}

/// The bytes an identity map covering `limit_bytes` maps: the limit
/// rounded up to whole gigabytes (saturating at the top of the range).
pub open spec fn mapped_spec(limit_bytes: u64) -> u64 {
    let sum: int = if limit_bytes + (BLOCK_1G - 1) > u64::MAX { u64::MAX as int } else { limit_bytes + (BLOCK_1G - 1) };
    (sum - sum % (BLOCK_1G as int)) as u64
}

/// The level-one blocks and the mapped size of the boot identity map, when
/// the limit is positive, at most 2^48 bytes, and needs at most 512 blocks.
pub open spec fn identity_spec(limit_bytes: u64) -> Option<(Seq<u64>, u64)> {
    let mapped = mapped_spec(limit_bytes);
    let blocks = mapped / BLOCK_1G;
    if limit_bytes == 0 || limit_bytes > 0x1_0000_0000_0000 || blocks > MAX_BLOCKS {
        None
    } else {
        Some((Seq::new(blocks as nat, |i: int| block_entry(i)), mapped))
    }
}

/// The descriptor that links a table at `frame` into its parent.
pub fn table_descriptor(frame: u64) -> (r: u64)
    ensures
        r == frame | TABLE_DESC,
{
    frame | TABLE_DESC
}

/// The level-one identity blocks covering `limit_bytes`, and the bytes mapped.
pub fn identity_blocks(limit_bytes: u64) -> (r: Option<(Vec<u64>, u64)>)
    ensures
        (match identity_spec(limit_bytes) {
            None => r is None,
            Some((entries, mapped)) => r matches Some((v, m)) && v@ == entries && m == mapped,
        }),
{
    if limit_bytes == 0 || limit_bytes > 0x1_0000_0000_0000 {
        return None;
    }
    let sum = limit_bytes.saturating_add(0x3fff_ffff);
    let mapped = sum & !0x3fff_ffffu64;
    assert(mapped == sum - sum % 0x4000_0000) by (bit_vector)
        requires mapped == sum & !0x3fff_ffffu64;
    let blocks = mapped / BLOCK_1G;
    if blocks > MAX_BLOCKS {
        return None;
    }
    let mut entries: Vec<u64> = Vec::new();
    let mut index: u64 = 0;
    while index < blocks
        invariant
            index <= blocks <= MAX_BLOCKS,
            entries@.len() == index,
            forall|k: int| 0 <= k < index ==> entries@[k] == block_entry(k),
        decreases blocks - index,
    {
        let phys = index * BLOCK_1G;
        let attrs = if phys < RAM_BASE { DEVICE_BLOCK } else { NORMAL_BLOCK };
        entries.push(phys | attrs);
        index += 1;
    }
    assert(entries@ =~= Seq::new(blocks as nat, |i: int| block_entry(i)));
    Some((entries, mapped))
}

/// Whether level-one entry `index` is a valid block mapping its own gigabyte.
pub open spec fn block_ok(entry: u64, index: int) -> bool {
    entry & DESC_VALID != 0 && entry & BLOCK_1G_MASK == (index * BLOCK_1G) as u64
}

/// Entries among the first `n` that are not a valid identity block.
pub open spec fn block_errors(entries: Seq<u64>, n: int) -> nat
    decreases n,
{
    if n <= 0 {
        0
    } else {
        block_errors(entries, n - 1) + if block_ok(entries[n - 1], n - 1) { 0nat } else { 1nat }
    }
}

/// The number of faults found in a built identity map.
pub open spec fn validate_spec(result: BootstrapResult, root_entry: u64, l1: Seq<u64>) -> nat {
    if result.pml4_phys % PAGE_SIZE != 0 || result.mapped_bytes == 0 || root_entry & TABLE_DESC != TABLE_DESC {
        1
    } else {
        block_errors(l1, (result.mapped_bytes / BLOCK_1G) as int)
    }
}

/// Check a built identity map: the root must be page aligned and link a
/// table, and every mapped gigabyte must be a valid block of itself; gives
/// the number of faults.
pub fn validate(result: &BootstrapResult, root_entry: u64, l1: &[u64]) -> (r: usize)
    requires
        result.mapped_bytes / BLOCK_1G <= l1@.len(),
    ensures
        r == validate_spec(*result, root_entry, l1@),
{
    if result.pml4_phys % PAGE_SIZE != 0 || result.mapped_bytes == 0 {
        return 1;
    }
    if root_entry & TABLE_DESC != TABLE_DESC {
        return 1;
    }
    let len = l1.len();
    assert(result.mapped_bytes / BLOCK_1G <= len);
    let blocks = (result.mapped_bytes / BLOCK_1G) as usize;
    let mut errors: usize = 0;
    let mut index: usize = 0;
    while index < blocks
        invariant
            index <= blocks <= l1@.len(),
            blocks == result.mapped_bytes / BLOCK_1G,
            errors == block_errors(l1@, index as int),
            errors <= index,
        decreases blocks - index,
    {
        let entry = l1[index];
        assert(index * BLOCK_1G <= u64::MAX) by (nonlinear_arith)
            requires
                index < blocks,
                blocks == result.mapped_bytes / 0x4000_0000u64,
        ;
        if entry & DESC_VALID == 0 || entry & BLOCK_1G_MASK != index as u64 * BLOCK_1G {
            errors += 1;
        }
        index += 1;
    }
    errors
}

/// A freshly built identity map validates with no faults, whatever limit
/// it was built for, when its root is page aligned and linked as a table.
pub proof fn lemma_identity_map_validates(limit_bytes: u64, root: u64, frames_used: usize, l1_frame: u64)
    requires
        identity_spec(limit_bytes) is Some,
        root % PAGE_SIZE == 0,
    ensures
        ({
            let (entries, mapped) = identity_spec(limit_bytes).unwrap();
            validate_spec(
                BootstrapResult { pml4_phys: root, frames_used, mapped_bytes: mapped },
                l1_frame | TABLE_DESC,
                entries,
            ) == 0
        }),
{
    let (entries, mapped) = identity_spec(limit_bytes).unwrap();
    let sum: int = if limit_bytes + (BLOCK_1G - 1) > u64::MAX { u64::MAX as int } else { limit_bytes + (BLOCK_1G - 1) };
    assert(mapped > 0) by {
        assert(sum >= 0x4000_0000);
        assert(sum - sum % 0x4000_0000 >= 0x4000_0000) by (nonlinear_arith)
            requires
                sum >= 0x4000_0000,
        ;
    }
    assert((l1_frame | 3u64) & 3u64 == 3u64) by (bit_vector);
    lemma_blocks_ok(entries, (mapped / BLOCK_1G) as int);
}

proof fn lemma_block_entry_ok(index: int)
    requires
        0 <= index < MAX_BLOCKS,
    ensures
        block_ok(block_entry(index), index),
{
    let phys = (index * BLOCK_1G) as u64;
    assert(phys == index * 0x4000_0000 && phys <= 511 * 0x4000_0000) by (nonlinear_arith)
        requires
            0 <= index < 512,
            phys == (index * 0x4000_0000) as u64,
    ;
    let i = index as u64;
    assert(phys == i * 0x4000_0000);
    assert((phys | 0x0060_0000_0000_0405u64) & 1u64 != 0 && (phys | 0x0060_0000_0000_0405u64) & 0x0000_ffff_c000_0000u64
        == phys && (phys | 0x701u64) & 1u64 != 0 && (phys | 0x701u64) & 0x0000_ffff_c000_0000u64 == phys) by (bit_vector)
        requires
            phys == i * 0x4000_0000,
            i < 512,
    ;
}

proof fn lemma_blocks_ok(entries: Seq<u64>, n: int)
    requires
        0 <= n <= entries.len() <= MAX_BLOCKS,
        forall|k: int| 0 <= k < entries.len() ==> entries[k] == block_entry(k),
    ensures
        block_errors(entries, n) == 0,
    decreases n,
{
    if n > 0 {
        lemma_blocks_ok(entries, n - 1);
        lemma_block_entry_ok(n - 1);
    }
}

/// The 512 level-two blocks that replace the 1 GiB block `current` around
/// `addr`: the same gigabyte in 2 MiB steps, with the block's attributes.
pub open spec fn split_1g_spec(current: u64, addr: u64) -> Seq<u64> {
    let base = addr & !0x3fff_ffffu64;
    let attrs = current & !BLOCK_1G_MASK;
    Seq::new(512, |i: int| ((base + i * BLOCK_2M) as u64) | attrs)
}

/// The 512 pages that replace the 2 MiB block `current` around `addr`.
pub open spec fn split_2m_spec(current: u64, addr: u64) -> Seq<u64> {
    let base = addr & !0x1f_ffffu64;
    let attrs = current & !BLOCK_2M_MASK;
    Seq::new(512, |i: int| ((base + i * PAGE_SIZE) as u64) | attrs | DESC_TABLE_OR_PAGE)
}

/// Split a 1 GiB block into a table of 2 MiB blocks.
pub fn split_1g_block(current: u64, addr: u64) -> (r: Vec<u64>)
    requires
        addr < 0x1_0000_0000_0000,
    ensures
        r@ == split_1g_spec(current, addr),
{
    let base = addr & !0x3fff_ffffu64;
    let attrs = current & !BLOCK_1G_MASK;
    assert(base <= addr) by (bit_vector)
        requires base == addr & !0x3fff_ffffu64;
    let mut out: Vec<u64> = Vec::new();
    let mut i: u64 = 0;
    while i < 512
        invariant
            i <= 512,
            base <= addr < 0x1_0000_0000_0000,
            base == addr & !0x3fff_ffffu64,
            attrs == current & !BLOCK_1G_MASK,
            out@.len() == i,
            forall|k: int| 0 <= k < i ==> out@[k] == split_1g_spec(current, addr)[k],
        decreases 512 - i,
    {
        out.push((base + i * BLOCK_2M) | attrs);
        i += 1;
    }
    assert(out@ =~= split_1g_spec(current, addr));
    out
}

/// Split a 2 MiB block into a table of 4 KiB pages.
pub fn split_2m_block(current: u64, addr: u64) -> (r: Vec<u64>)
    requires
        addr < 0x1_0000_0000_0000,
    ensures
        r@ == split_2m_spec(current, addr),
{
    let base = addr & !0x1f_ffffu64;
    let attrs = current & !BLOCK_2M_MASK;
    assert(base <= addr) by (bit_vector)
        requires base == addr & !0x1f_ffffu64;
    let mut out: Vec<u64> = Vec::new();
    let mut i: u64 = 0;
    while i < 512
        invariant
            i <= 512,
            base <= addr < 0x1_0000_0000_0000,
            base == addr & !0x1f_ffffu64,
            attrs == current & !BLOCK_2M_MASK,
            out@.len() == i,
            forall|k: int| 0 <= k < i ==> out@[k] == split_2m_spec(current, addr)[k],
        decreases 512 - i,
    {
        out.push((base + i * PAGE_SIZE) | attrs | DESC_TABLE_OR_PAGE);
        i += 1;
    }
    assert(out@ =~= split_2m_spec(current, addr));
    out
}

/// Splitting a gigabyte block keeps its translation: sub-block `i` maps the
/// `i`-th 2 MiB of the same gigabyte, with the block's attributes, when the
/// block's address bits below the gigabyte are clear as the architecture asks.
pub proof fn lemma_split_1g_keeps_translation(current: u64, addr: u64, i: int)
    requires
        0 <= i < 512,
        addr < 0x1_0000_0000_0000,
        current & 0x3fe0_0000 == 0,
    ensures
        split_1g_spec(current, addr)[i] & BLOCK_2M_MASK == (addr & BLOCK_1G_MASK) + i * BLOCK_2M,
        split_1g_spec(current, addr)[i] & !BLOCK_2M_MASK == current & !BLOCK_2M_MASK,
{
    let base = addr & !0x3fff_ffffu64;
    let k = i as u64;
    let e = ((base + i * BLOCK_2M) as u64) | (current & !BLOCK_1G_MASK);
    assert(base + i * BLOCK_2M == base + k * 0x20_0000);
    assert(e & 0x0000_ffff_ffe0_0000u64 == (addr & 0x0000_ffff_c000_0000u64) + k * 0x20_0000 && e
        & !0x0000_ffff_ffe0_0000u64 == current & !0x0000_ffff_ffe0_0000u64) by (bit_vector)
        requires
            k < 512,
            addr < 0x1_0000_0000_0000,
            current & 0x3fe0_0000 == 0,
            base == addr & !0x3fff_ffffu64,
            e == ((base + k * 0x20_0000) as u64) | (current & !0x0000_ffff_c000_0000u64),
    ;
}

/// What mapping the 2 MiB around `phys_addr` on demand does to its
/// level-two slot holding `current`: a valid slot is kept and is good only
/// if it maps that very block; an empty slot gets a device block.
pub open spec fn map_2m_spec(current: u64, phys_addr: u64) -> (bool, Option<u64>) {
    let base = phys_addr & !0x1f_ffffu64;
    if current & DESC_VALID != 0 {
        (current & BLOCK_2M_MASK == base, None)
    } else {
        (true, Some(base | DEVICE_BLOCK))
    }
}

pub fn map_2m(current: u64, phys_addr: u64) -> (r: (bool, Option<u64>))
    ensures
        r == map_2m_spec(current, phys_addr),
{
    let base = phys_addr & !0x1f_ffffu64;
    if current & DESC_VALID != 0 {
        (current & BLOCK_2M_MASK == base, None)
    } else {
        (true, Some(base | DEVICE_BLOCK))
    }
}

/// The permissions of a kernel page: text is read-only and executable,
/// read-only data is read-only and never executable, the rest is writable
/// and never executable; no page runs at EL0.
pub open spec fn kernel_page_attrs_spec(page: u64, text_end: u64, ro_start: u64, ro_end: u64) -> u64 {
    if page < text_end {
        NORMAL_PAGE | AP_KERNEL_RO | UXN
    } else if ro_start <= page < ro_end {
        NORMAL_PAGE | AP_KERNEL_RO | PXN | UXN
    } else {
        NORMAL_PAGE | PXN | UXN
    }
}

pub fn kernel_page_attrs(page: u64, text_end: u64, ro_start: u64, ro_end: u64) -> (r: u64)
    ensures
        r == kernel_page_attrs_spec(page, text_end, ro_start, ro_end),
{
    if page < text_end {
        NORMAL_PAGE | AP_KERNEL_RO | UXN
    } else if page >= ro_start && page < ro_end {
        NORMAL_PAGE | AP_KERNEL_RO | PXN | UXN
    } else {
        NORMAL_PAGE | PXN | UXN
    }
}

/// W^X: no kernel page is both writable and executable at EL1, and none is
/// executable at EL0.
pub proof fn lemma_kernel_pages_w_xor_x(page: u64, text_end: u64, ro_start: u64, ro_end: u64)
    ensures
        ({
            let a = kernel_page_attrs_spec(page, text_end, ro_start, ro_end);
            &&& a & AP_KERNEL_RO != 0 || a & PXN != 0
            &&& a & UXN != 0
        }),
{
    let a = kernel_page_attrs_spec(page, text_end, ro_start, ro_end);
    assert((0x703u64 | 0x80u64 | 0x0040_0000_0000_0000u64) & 0x80u64 != 0 && (0x703u64 | 0x80u64
        | 0x0040_0000_0000_0000u64) & 0x0040_0000_0000_0000u64 != 0 && (0x703u64 | 0x80u64 | 0x0020_0000_0000_0000u64
        | 0x0040_0000_0000_0000u64) & 0x80u64 != 0 && (0x703u64 | 0x80u64 | 0x0020_0000_0000_0000u64
        | 0x0040_0000_0000_0000u64) & 0x0040_0000_0000_0000u64 != 0 && (0x703u64 | 0x0020_0000_0000_0000u64
        | 0x0040_0000_0000_0000u64) & 0x0020_0000_0000_0000u64 != 0 && (0x703u64 | 0x0020_0000_0000_0000u64
        | 0x0040_0000_0000_0000u64) & 0x0040_0000_0000_0000u64 != 0) by (bit_vector);
}

/// The pages of the kernel image: from the page holding `start` up to the
/// page boundary at or after `end`.
pub open spec fn kernel_page_range(start: u64, end: u64) -> (u64, u64) {
    let top: int = end + PAGE_SIZE - 1;
    ((start - start % PAGE_SIZE) as u64, (top - top % (PAGE_SIZE as int)) as u64)
}

pub fn kernel_pages(start: u64, end: u64) -> (r: (u64, u64))
    requires
        end + PAGE_SIZE - 1 <= u64::MAX,
    ensures
        r == kernel_page_range(start, end),
{
    let first = start & !0xfffu64;
    let top = end + (PAGE_SIZE - 1);
    let last = top & !0xfffu64;
    assert(first == start - start % 4096 && last == top - top % 4096) by (bit_vector)
        requires
            first == start & !0xfffu64,
            last == top & !0xfffu64,
    ;
    (first, last)
}

/// MAIR_EL1: attribute 0 normal write-back cacheable, attribute 1 device-nGnRE.
pub const MAIR_VALUE: u64 = 0x04ff;

/// TCR_EL1 for 48-bit virtual addresses with a 4 KiB granule, write-back
/// inner-shareable walks, TTBR1 walks disabled, and the physical address
/// size the CPU reports in the low field of ID_AA64MMFR0_EL1.
pub open spec fn translation_control_spec(mmfr0: u64) -> u64 {
    (16 + 0x100 + 0x400 + 0x3000 + 0x80_0000 + (mmfr0 % 16) * 0x1_0000_0000) as u64
}

pub fn translation_control(mmfr0: u64) -> (r: u64)
    ensures
        r == translation_control_spec(mmfr0),
{
    let ips = mmfr0 & 0xf;
    let tcr = 16u64 | (1u64 << 8u64) | (1u64 << 10u64) | (3u64 << 12u64) | (1u64 << 23u64) | (ips << 32u64);
    assert(tcr == 16 + 0x100 + 0x400 + 0x3000 + 0x80_0000 + (mmfr0 % 16) * 0x1_0000_0000) by (bit_vector)
        requires
            ips == mmfr0 & 0xfu64,
            tcr == 16u64 | (1u64 << 8u64) | (1u64 << 10u64) | (3u64 << 12u64) | (1u64 << 23u64) | (ips << 32u64),
    ;
    tcr
}

/// SCTLR_EL1 with the MMU, data cache, stack alignment check and
/// instruction cache turned on; the other bits as they were.
pub open spec fn mmu_enabled_spec(sctlr: u64) -> u64 {
    sctlr | 0x100d
}

pub fn mmu_enabled(sctlr: u64) -> (r: u64)
    ensures
        r == mmu_enabled_spec(sctlr),
        r & 1 == 1,
        r & 0x1000 == 0x1000,
{
    let r = sctlr | (1u64 << 0u64) | (1u64 << 2u64) | (1u64 << 3u64) | (1u64 << 12u64);
    assert(r == sctlr | 0x100du64 && r & 1 == 1 && r & 0x1000 == 0x1000) by (bit_vector)
        requires
            r == sctlr | (1u64 << 0u64) | (1u64 << 2u64) | (1u64 << 3u64) | (1u64 << 12u64),
    ;
    r
}

} // verus!
