//! Portable page-table vocabulary for per-process address spaces: table
//! indices of a virtual address, and AArch64 descriptors that keep the
//! architecture-neutral permission bits in bits the hardware ignores.

use vstd::prelude::*;

verus! {

pub const PAGE_SIZE_4K: u64 = 4096;
pub const PAGE_SIZE_2M: u64 = 2097152;
pub const FRAME_MASK: u64 = 0x0000_ffff_ffff_f000;

/// Descriptor valid bit.
pub const PRESENT: u64 = 0x1;
/// Software copy of the write permission (hardware-ignored bit 55).
pub const WRITABLE: u64 = 0x80_0000_0000_0000;
/// Software copy of the user permission (hardware-ignored bit 56).
pub const USER: u64 = 0x100_0000_0000_0000;
/// Software huge-page marker (bit 58).
pub const HUGE_PAGE: u64 = 0x400_0000_0000_0000;
/// UXN, also the portable no-execute marker (bit 54).
pub const NO_EXECUTE: u64 = 0x40_0000_0000_0000;

pub const PAGE: u64 = 0x3;
pub const SH_INNER: u64 = 0x300;
pub const AF: u64 = 0x400;
pub const AP_EL0_RW: u64 = 0x40;
pub const AP_EL0_RO: u64 = 0xc0;
pub const AP_EL1_RO: u64 = 0x80;
pub const PXN: u64 = 0x20_0000_0000_0000;

/// Level-0 index: bits 39..48 of the address.
pub fn pml4_index(vaddr: u64) -> (r: usize)
    ensures
        r == (vaddr / 0x80_0000_0000) % 512,
{
    let v = (vaddr >> 39u64) & 0x1ff;
    assert(v == (vaddr / 0x80_0000_0000) % 512) by (bit_vector)
        requires v == (vaddr >> 39u64) & 0x1ff;
    v as usize
}

/// Level-1 index: bits 30..39 of the address.
pub fn pdpt_index(vaddr: u64) -> (r: usize)
    ensures
        r == (vaddr / 0x4000_0000) % 512,
{
    let v = (vaddr >> 30u64) & 0x1ff;
    assert(v == (vaddr / 0x4000_0000) % 512) by (bit_vector)
        requires v == (vaddr >> 30u64) & 0x1ff;
    v as usize
}

/// Level-2 index: bits 21..30 of the address.
pub fn pd_index(vaddr: u64) -> (r: usize)
    ensures
        r == (vaddr / 0x20_0000) % 512,
{
    let v = (vaddr >> 21u64) & 0x1ff;
    assert(v == (vaddr / 0x20_0000) % 512) by (bit_vector)
        requires v == (vaddr >> 21u64) & 0x1ff;
    v as usize
}

/// Level-3 index: bits 12..21 of the address.
pub fn pt_index(vaddr: u64) -> (r: usize)
    ensures
        r == (vaddr / 0x1000) % 512,
{
    let v = (vaddr >> 12u64) & 0x1ff;
    assert(v == (vaddr / 0x1000) % 512) by (bit_vector)
        requires v == (vaddr >> 12u64) & 0x1ff;
    v as usize
}

/// The software permission bits that every descriptor carries.
pub open spec fn software_bits(permissions: u64) -> u64 {
    permissions & (USER | WRITABLE)
}

/// A valid table descriptor for `phys`; the default APTable lets lower
/// levels grant EL0 access.
pub fn encode_table(phys: u64, permissions: u64) -> (r: u64)
    ensures
        r == phys | 0x3 | software_bits(permissions),
{
    phys | 0x3 | (permissions & (USER | WRITABLE))
}

/// The access-permission field of a leaf: EL0 read-write, EL0 read-only,
/// or EL1 read-only; a kernel-writable page gets the EL1 read-write zero.
pub open spec fn leaf_ap(user: bool, writable: bool) -> u64 {
    if user && writable {
        AP_EL0_RW
    } else if user {
        AP_EL0_RO
    } else if !writable {
        AP_EL1_RO
    } else {
        0
    }
}

/// The execute-never bits of a leaf: user pages are never executable at
/// EL1 and keep their own UXN; kernel pages are never executable at EL0,
/// nor at EL1 when marked no-execute.
pub open spec fn leaf_execute(user: bool, permissions: u64) -> u64 {
    if user {
        PXN | (permissions & NO_EXECUTE)
    } else if permissions & NO_EXECUTE != 0 {
        PXN | NO_EXECUTE
    } else {
        NO_EXECUTE
    }
}

pub open spec fn encode_leaf_spec(phys: u64, permissions: u64) -> u64 {
    let user = permissions & USER != 0;
    let writable = permissions & WRITABLE != 0;
    phys | PAGE | SH_INNER | AF | leaf_ap(user, writable) | leaf_execute(user, permissions) | software_bits(permissions)
}

/// A 4K page descriptor for `phys` with inner-shareable, accessed memory and
/// the hardware permissions that `permissions` ask for.
pub fn encode_leaf(phys: u64, permissions: u64) -> (r: u64)
    ensures
        r == encode_leaf_spec(phys, permissions),
{
    let user = permissions & USER != 0;
    let writable = permissions & WRITABLE != 0;
    let ap = if user && writable {
        AP_EL0_RW
    } else if user {
        AP_EL0_RO
    } else if !writable {
        AP_EL1_RO
    } else {
        0
    };
    let execute = if user {
        PXN | (permissions & NO_EXECUTE)
    } else if permissions & NO_EXECUTE != 0 {
        PXN | NO_EXECUTE
    } else {
        NO_EXECUTE
    };
    phys | PAGE | SH_INNER | AF | ap | execute | (permissions & (USER | WRITABLE))
}

/// The frame address a descriptor points at.
pub fn entry_address(entry: u64) -> (r: u64)
    ensures
        r == entry & FRAME_MASK,
{
    entry & FRAME_MASK
}

/// A leaf keeps the software permission bits it was built from, so they can
/// be read back from the descriptor alone.
pub proof fn lemma_leaf_keeps_permissions(phys: u64, permissions: u64)
    requires
        phys & !FRAME_MASK == 0,
    ensures
        software_bits(encode_leaf_spec(phys, permissions)) == software_bits(permissions),
        encode_leaf_spec(phys, permissions) & FRAME_MASK == phys,
        encode_leaf_spec(phys, permissions) & PRESENT == PRESENT,
{
    let user = permissions & USER != 0;
    let writable = permissions & WRITABLE != 0;
    let ap = leaf_ap(user, writable);
    let ex = leaf_execute(user, permissions);
    assert(ap & !0xc0u64 == 0) by {
        assert(0x40u64 & !0xc0u64 == 0 && 0xc0u64 & !0xc0u64 == 0 && 0x80u64 & !0xc0u64 == 0 && 0u64 & !0xc0u64 == 0)
            by (bit_vector);
    }
    assert(ex & !0x60_0000_0000_0000u64 == 0) by (bit_vector)
        requires
            (user && ex == (0x20_0000_0000_0000u64 | (permissions & 0x40_0000_0000_0000u64))) || (!user && ex
                == (0x20_0000_0000_0000u64 | 0x40_0000_0000_0000u64)) || (!user && ex == 0x40_0000_0000_0000u64);
    assert(phys & !0x0000_ffff_ffff_f000u64 == 0 && ap & !0xc0u64 == 0 && ex & !0x60_0000_0000_0000u64 == 0 ==> {
        let e = phys | 0x3u64 | 0x300u64 | 0x400u64 | ap | ex | (permissions & (0x100_0000_0000_0000u64
            | 0x80_0000_0000_0000u64));
        &&& e & (0x100_0000_0000_0000u64 | 0x80_0000_0000_0000u64) == permissions & (0x100_0000_0000_0000u64
            | 0x80_0000_0000_0000u64)
        &&& e & 0x0000_ffff_ffff_f000u64 == phys
        &&& e & 1u64 == 1u64
    }) by (bit_vector);
}

/// A user leaf is never executable at EL1, and a user page marked
/// no-execute is not executable at EL0 either.
pub proof fn lemma_user_leaf_never_kernel_executable(phys: u64, permissions: u64)
    requires
        permissions & USER != 0,
    ensures
        encode_leaf_spec(phys, permissions) & PXN == PXN,
        permissions & NO_EXECUTE != 0 ==> encode_leaf_spec(phys, permissions) & NO_EXECUTE == NO_EXECUTE,
{
    let writable = permissions & WRITABLE != 0;
    let ap = leaf_ap(true, writable);
    assert(ap == 0x40 || ap == 0xc0);
    assert((ap == 0x40 || ap == 0xc0) ==> {
        let e = phys | 0x3u64 | 0x300u64 | 0x400u64 | ap | (0x20_0000_0000_0000u64 | (permissions & 0x40_0000_0000_0000u64))
            | (permissions & (0x100_0000_0000_0000u64 | 0x80_0000_0000_0000u64));
        &&& e & 0x20_0000_0000_0000u64 == 0x20_0000_0000_0000u64
        &&& permissions & 0x40_0000_0000_0000u64 != 0 ==> e & 0x40_0000_0000_0000u64 == 0x40_0000_0000_0000u64
    }) by (bit_vector);
}

} // verus!
