//! The volatile ramdisk behind the block layer when no hardware disk is
//! present: fixed-size blocks read and written whole.

use vstd::prelude::*;

verus! {

pub const BLOCK_SIZE: usize = 512;
pub const BLOCK_COUNT: usize = 256;
pub const RAMDISK_BYTES: usize = 131072;

/// Abstract state of a [`Ramdisk`]: its bytes and the number of writes.
pub struct RamdiskModel {
    pub bytes: Seq<u8>,
    pub writes: u64,
}

pub struct Ramdisk {
    bytes: [u8; RAMDISK_BYTES],
    writes: u64,
}

impl View for Ramdisk {
    type V = RamdiskModel;

    closed spec fn view(&self) -> RamdiskModel {
        RamdiskModel { bytes: self.bytes@, writes: self.writes }
    }
}

/// The disk's blocks: whether `block` exists.
pub open spec fn block_in_range(block: u32) -> bool {
    (block as int + 1) * BLOCK_SIZE <= RAMDISK_BYTES
}

impl Ramdisk {
    /// A zeroed disk with no writes.
    pub fn new() -> (r: Self)
        ensures
            r@.bytes == Seq::new(RAMDISK_BYTES as nat, |i: int| 0u8),
            r@.writes == 0,
    {
        let r = Ramdisk { bytes: [0; RAMDISK_BYTES], writes: 0 };
        assert(r@.bytes =~= Seq::new(RAMDISK_BYTES as nat, |i: int| 0u8));
        r
    }

    pub proof fn lemma_size(&self)
        ensures
            self@.bytes.len() == RAMDISK_BYTES,
    {
    }
}

/// Copy block `block` into `buf`; false (and `buf` untouched) past the disk.
pub fn read(disk: &Ramdisk, block: u32, buf: &mut [u8; BLOCK_SIZE]) -> (r: bool)
    ensures
        r == block_in_range(block),
        r ==> final(buf)@ == disk@.bytes.subrange(block * BLOCK_SIZE, (block + 1) * BLOCK_SIZE),
        !r ==> final(buf)@ == old(buf)@,
{
    let start = block as u64 * 512;
    assert(start <= 0xffff_ffff * 512);
    let end = start + 512;
    if end > RAMDISK_BYTES as u64 {
        return false;
    }
    let start = start as usize;
    let mut i: usize = 0;
    while i < BLOCK_SIZE
        invariant
            start + BLOCK_SIZE <= RAMDISK_BYTES,
            start == block * BLOCK_SIZE,
            i <= BLOCK_SIZE,
            forall|j: int| 0 <= j < i ==> buf@[j] == disk@.bytes[start + j],
        decreases BLOCK_SIZE - i,
    {
        buf[i] = disk.bytes[start + i];
        i += 1;
    }
    assert(buf@ =~= disk@.bytes.subrange(block * BLOCK_SIZE, (block + 1) * BLOCK_SIZE));
    true
}

/// Overwrite block `block` with `buf` and count the write; false (and
/// nothing changed) past the disk.
pub fn write(disk: &mut Ramdisk, block: u32, buf: &[u8; BLOCK_SIZE]) -> (r: bool)
    ensures
        r == block_in_range(block),
        r ==> final(disk)@.bytes == old(disk)@.bytes.subrange(0, block * BLOCK_SIZE) + buf@ + old(disk)@.bytes.subrange(
            (block + 1) * BLOCK_SIZE,
            RAMDISK_BYTES as int,
        ),
        r ==> final(disk)@.writes == (if old(disk)@.writes == u64::MAX {
            u64::MAX
        } else {
            (old(disk)@.writes + 1) as u64
        }),
        !r ==> final(disk)@ == old(disk)@,
{
    let start = block as u64 * 512;
    assert(start <= 0xffff_ffff * 512);
    let end = start + 512;
    if end > RAMDISK_BYTES as u64 {
        return false;
    }
    let start = start as usize;
    let mut i: usize = 0;
    while i < BLOCK_SIZE
        invariant
            start + BLOCK_SIZE <= RAMDISK_BYTES,
            start == block * BLOCK_SIZE,
            i <= BLOCK_SIZE,
            disk.writes == old(disk).writes,
            forall|j: int| 0 <= j < start ==> disk@.bytes[j] == old(disk)@.bytes[j],
            forall|j: int| 0 <= j < i ==> disk@.bytes[start + j] == buf@[j],
            forall|j: int| start + i <= j < RAMDISK_BYTES ==> disk@.bytes[j] == old(disk)@.bytes[j],
        decreases BLOCK_SIZE - i,
    {
        disk.bytes[start + i] = buf[i];
        i += 1;
    }
    disk.writes = disk.writes.saturating_add(1);
    assert(disk@.bytes =~= old(disk)@.bytes.subrange(0, block * BLOCK_SIZE) + buf@ + old(disk)@.bytes.subrange(
        (block + 1) * BLOCK_SIZE,
        RAMDISK_BYTES as int,
    ));
    true
}

pub fn block_count() -> (r: u32)
    ensures
        r == BLOCK_COUNT,
{
    BLOCK_COUNT as u32
}

/// Writes accepted so far, saturating.
pub fn write_count(disk: &Ramdisk) -> (r: u64)
    ensures
        r == disk@.writes,
{
    disk.writes
}

/// The name of the backend in use.
pub fn backend_name(hardware_present: bool) -> (r: &'static str)
    ensures
        hardware_present ==> r@ == "virtio-blk"@,
        !hardware_present ==> r@ == "volatile-ramdisk"@,
{
    if hardware_present {
        "virtio-blk"
    } else {
        "volatile-ramdisk"
    }
}

/// A read gives back what the last write to the same block wrote.
pub proof fn lemma_read_after_write(before: RamdiskModel, block: u32, data: Seq<u8>)
    requires
        before.bytes.len() == RAMDISK_BYTES,
        data.len() == BLOCK_SIZE,
        block_in_range(block),
    ensures
        (before.bytes.subrange(0, block * BLOCK_SIZE) + data + before.bytes.subrange(
            (block + 1) * BLOCK_SIZE,
            RAMDISK_BYTES as int,
        )).subrange(block * BLOCK_SIZE, (block + 1) * BLOCK_SIZE) == data,
{
    let after = before.bytes.subrange(0, block * BLOCK_SIZE) + data + before.bytes.subrange(
        (block + 1) * BLOCK_SIZE,
        RAMDISK_BYTES as int,
    );
    assert(after.subrange(block * BLOCK_SIZE, (block + 1) * BLOCK_SIZE) =~= data);
}

} // verus!
