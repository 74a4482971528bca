//! PCI Express ECAM configuration-space arithmetic: where a register lives
//! in the ECAM window, how sub-word registers sit in a configuration word,
//! and how a device's identity is decoded.

use vstd::prelude::*;
use crate::fdt::Region;

verus! {

#[derive(Clone, Copy, Debug, PartialEq, Eq, Structural)]
pub struct PciLocation {
    pub bus: u8,
    pub slot: u8,
    pub func: u8,
}

#[derive(Clone, Copy, Debug, PartialEq, Eq, Structural)]
pub struct PciDeviceInfo {
    pub location: PciLocation,
    pub vendor_id: u16,
    pub device_id: u16,
    pub class_code: u8,
    pub subclass: u8,
    pub prog_if: u8,
    pub irq_line: u8,
}

pub const PCI_COMMAND_OFFSET: u8 = 0x04;
pub const PCI_CLASS_OFFSET: u8 = 0x08;
pub const PCI_HEADER_TYPE_OFFSET: u8 = 0x0e;
pub const PCI_INTERRUPT_LINE_OFFSET: u8 = 0x3c;
pub const PCI_COMMAND_IO_SPACE: u16 = 1;
pub const PCI_COMMAND_MEMORY_SPACE: u16 = 2;
pub const PCI_COMMAND_BUS_MASTER: u16 = 4;

/// Offset of a register's word inside the ECAM window.
pub open spec fn relative_offset(bus: u8, slot: u8, func: u8, offset: u8) -> int {
    bus * 0x10_0000 + slot * 0x8000 + func * 0x1000 + (offset / 4) * 4
}

/// The address of the configuration word holding `offset` of a function,
/// when the slot and function exist and the word lies inside the window.
pub open spec fn config_address_spec(ecam: Region, bus: u8, slot: u8, func: u8, offset: u8) -> Option<u64> {
    let relative = relative_offset(bus, slot, func, offset);
    if slot >= 32 || func >= 8 || relative + 4 > ecam.size || ecam.base + relative > u64::MAX {
        None
    } else {
        Some((ecam.base + relative) as u64)
    }
}

pub fn config_address(ecam: Region, bus: u8, slot: u8, func: u8, offset: u8) -> (r: Option<u64>)
    ensures
        r == config_address_spec(ecam, bus, slot, func, offset),
{
    if slot >= 32 || func >= 8 {
        return None;
    }
    let b = bus as u64;
    let s = slot as u64;
    let f = func as u64;
    let o = offset as u64;
    let relative = (b << 20u64) | (s << 15u64) | (f << 12u64) | (o & 0xfc);
    assert(relative == b * 0x10_0000 + s * 0x8000 + f * 0x1000 + (o / 4) * 4) by (bit_vector)
        requires
            relative == (b << 20u64) | (s << 15u64) | (f << 12u64) | (o & 0xfc),
            b < 256,
            s < 32,
            f < 8,
            o < 256;
    if relative + 4 > ecam.size {
        return None;
    }
    ecam.base.checked_add(relative)
}

/// The byte at `offset` within its configuration word.
pub open spec fn byte_at(word: u32, offset: u8) -> u8 {
    ((word / (if offset % 4 == 0 { 1u32 } else if offset % 4 == 1 { 0x100u32 } else if offset % 4 == 2 {
        0x1_0000u32
    } else {
        0x100_0000u32
    })) % 256) as u8
}

/// The 16-bit register at `offset` within its configuration word.
pub open spec fn half_at(word: u32, offset: u8) -> u16 {
    (if offset & 2 == 0 { word % 0x1_0000 } else { word / 0x1_0000 }) as u16
}

/// The byte at `offset` within its configuration word.
pub fn read_u8(word: u32, offset: u8) -> (r: u8)
    ensures
        r == byte_at(word, offset),
{
    let sel = offset % 4;
    assert(word & 0xff == word % 256 && (word >> 8u32) & 0xff == (word / 0x100) % 256 && (word >> 16u32) & 0xff == (
    word / 0x1_0000) % 256 && (word >> 24u32) & 0xff == (word / 0x100_0000) % 256) by (bit_vector);
    let v: u32 = if sel == 0 {
        word & 0xff
    } else if sel == 1 {
        (word >> 8u32) & 0xff
    } else if sel == 2 {
        (word >> 16u32) & 0xff
    } else {
        (word >> 24u32) & 0xff
    };
    v as u8
}

/// The 16-bit register at `offset` within its configuration word.
pub fn read_u16(word: u32, offset: u8) -> (r: u16)
    ensures
        r == half_at(word, offset),
{
    assert(word & 0xffff == word % 0x1_0000 && word >> 16u32 == word / 0x1_0000) by (bit_vector);
    if offset & 2 == 0 {
        (word & 0xffff) as u16
    } else {
        (word >> 16u32) as u16
    }
}

/// The configuration word after writing the 16-bit `value` at `offset`.
pub fn merge_u16(current: u32, offset: u8, value: u16) -> (r: u32)
    ensures
        read_u16_spec(r, offset) == value,
        read_u16_spec(r, offset ^ 2) == read_u16_spec(current, offset ^ 2),
{
    let shift: u32 = if offset & 2 == 0 { 0 } else { 16 };
    let updated = (current & !(0xffffu32 << shift)) | ((value as u32) << shift);
    assert(read_u16_spec(updated, offset) == value && read_u16_spec(updated, offset ^ 2) == read_u16_spec(current, offset
        ^ 2)) by (bit_vector)
        requires
            updated == (current & !(0xffffu32 << shift)) | ((value as u32) << shift),
            shift == (if offset & 2u8 == 0 { 0u32 } else { 16u32 });
    updated
}

pub open spec fn read_u16_spec(word: u32, offset: u8) -> u16 {
    (if offset & 2 == 0 { word & 0xffff } else { word >> 16u32 }) as u16
}

/// The command register with I/O, memory and bus mastering enabled.
pub fn bus_master_command(command: u16) -> (r: u16)
    ensures
        r == command | 7u16,
{
    let r = command | PCI_COMMAND_IO_SPACE | PCI_COMMAND_MEMORY_SPACE | PCI_COMMAND_BUS_MASTER;
    assert(r == command | 7u16) by (bit_vector)
        requires r == command | 1u16 | 2u16 | 4u16;
    r
}

/// A function's identity from its vendor, device and class words and its
/// interrupt line.
pub fn device_info(location: PciLocation, vendor_id: u16, device_id: u16, class: u32, irq_line: u8) -> (r: PciDeviceInfo)
    ensures
        r == (PciDeviceInfo {
            location,
            vendor_id,
            device_id,
            class_code: (class / 0x100_0000) as u8,
            subclass: (class / 0x1_0000 % 256) as u8,
            prog_if: (class / 0x100 % 256) as u8,
            irq_line,
        }),
{
    let class_code = (class >> 24u32) as u8;
    let subclass = (class >> 16u32) as u8;
    let prog_if = (class >> 8u32) as u8;
    assert(class_code == (class / 0x100_0000) as u8 && subclass == (class / 0x1_0000 % 256) as u8 && prog_if == (class
        / 0x100 % 256) as u8) by (bit_vector)
        requires
            class_code == (class >> 24u32) as u8,
            subclass == (class >> 16u32) as u8,
            prog_if == (class >> 8u32) as u8;
    PciDeviceInfo { location, vendor_id, device_id, class_code, subclass, prog_if, irq_line }
}

/// Buses the ECAM window covers: one per MiB, at most 256.
pub fn bus_count(ecam: Region) -> (r: u16)
    ensures
        r == (if ecam.size / 0x10_0000 < 256 { ecam.size / 0x10_0000 } else { 256 }),
{
    let size = ecam.size;
    let buses = size >> 20u64;
    assert(buses == size / 0x10_0000) by (bit_vector)
        requires buses == size >> 20u64;
    if buses < 256 {
        buses as u16
    } else {
        256
    }
}

/// Functions to probe in a slot: eight for a multi-function header.
pub fn function_count(header_type: u8) -> (r: u8)
    ensures
        r == (if header_type >= 0x80 { 8u8 } else { 1u8 }),
{
    let multi = header_type & 0x80 != 0;
    assert(multi == (header_type >= 0x80)) by (bit_vector)
        requires multi == (header_type & 0x80u8 != 0);
    if multi {
        8
    } else {
        1
    }
}

/// The configuration word after enabling I/O, memory and bus mastering in
/// the command register of the word `current` that holds it.
pub fn enable_bus_master(current: u32) -> (r: u32)
    ensures
        read_u16_spec(r, PCI_COMMAND_OFFSET) == half_at(current, PCI_COMMAND_OFFSET) | 7u16,
        read_u16_spec(r, PCI_COMMAND_OFFSET ^ 2) == read_u16_spec(current, PCI_COMMAND_OFFSET ^ 2),
{
    let command = bus_master_command(read_u16(current, PCI_COMMAND_OFFSET));
    merge_u16(current, PCI_COMMAND_OFFSET, command)
}

/// The first of `devices` with the given vendor and device identifiers.
pub open spec fn find_spec(devices: Seq<PciDeviceInfo>, vendor_id: u16, device_id: u16, n: int) -> Option<PciDeviceInfo>
    decreases n,
{
    if n <= 0 {
        None
    } else {
        match find_spec(devices, vendor_id, device_id, n - 1) {
            Some(d) => Some(d),
            None => if devices[n - 1].vendor_id == vendor_id && devices[n - 1].device_id == device_id {
                Some(devices[n - 1])
            } else {
                None
            },
        }
    }
}

proof fn lemma_find_stable(devices: Seq<PciDeviceInfo>, vendor_id: u16, device_id: u16, k: int, n: int)
    requires
        0 <= k <= n,
        find_spec(devices, vendor_id, device_id, k) is Some,
    ensures
        find_spec(devices, vendor_id, device_id, n) == find_spec(devices, vendor_id, device_id, k),
    decreases n - k,
{
    if n > k {
        lemma_find_stable(devices, vendor_id, device_id, k, n - 1);
    }
}

/// The first scanned function with the given vendor and device identifiers.
pub fn find_device(devices: &[PciDeviceInfo], vendor_id: u16, device_id: u16) -> (r: Option<PciDeviceInfo>)
    ensures
        r == find_spec(devices@, vendor_id, device_id, devices.len() as int),
{
    let mut i: usize = 0;
    while i < devices.len()
        invariant
            i <= devices.len(),
            find_spec(devices@, vendor_id, device_id, i as int) is None,
        decreases devices.len() - i,
    {
        if devices[i].vendor_id == vendor_id && devices[i].device_id == device_id {
            proof {
                lemma_find_stable(devices@, vendor_id, device_id, i + 1, devices.len() as int);
            }
            return Some(devices[i]);
        }
        i += 1;
    }
    None
}

/// What a configuration read gives for a register: the reader is taken to
/// answer the same register with the same word.
pub open spec fn word_of<F: Fn(u8, u8, u8, u8) -> u32>(read: F, bus: u8, slot: u8, func: u8, offset: u8) -> u32 {
    choose|w: u32| read.ensures((bus, slot, func, offset), w)
}

/// A configuration reader that answers each register with one word.
pub open spec fn answers_consistently<F: Fn(u8, u8, u8, u8) -> u32>(read: F) -> bool {
    &&& forall|b: u8, s: u8, f: u8, o: u8| read.requires((b, s, f, o))
    &&& forall|b: u8, s: u8, f: u8, o: u8, w1: u32, w2: u32|
        read.ensures((b, s, f, o), w1) && read.ensures((b, s, f, o), w2) ==> w1 == w2
}

fn config_read<F: Fn(u8, u8, u8, u8) -> u32>(read: &F, bus: u8, slot: u8, func: u8, offset: u8) -> (w: u32)
    requires
        answers_consistently(*read),
    ensures
        w == word_of(*read, bus, slot, func, offset),
{
    let w = read(bus, slot, func, offset);
    assert(read.ensures((bus, slot, func, offset), w));
    w
}

/// The function at a location, when its vendor register is not all ones.
pub open spec fn probe_spec<F: Fn(u8, u8, u8, u8) -> u32>(read: F, bus: u8, slot: u8, func: u8) -> Option<PciDeviceInfo> {
    let vendor_id = half_at(word_of(read, bus, slot, func, 0), 0);
    if vendor_id == 0xffff {
        None
    } else {
        let class = word_of(read, bus, slot, func, PCI_CLASS_OFFSET);
        Some(
            PciDeviceInfo {
                location: PciLocation { bus, slot, func },
                vendor_id,
                device_id: half_at(word_of(read, bus, slot, func, 2), 2),
                class_code: (class / 0x100_0000) as u8,
                subclass: (class / 0x1_0000 % 256) as u8,
                prog_if: (class / 0x100 % 256) as u8,
                irq_line: byte_at(word_of(read, bus, slot, func, PCI_INTERRUPT_LINE_OFFSET), PCI_INTERRUPT_LINE_OFFSET),
            },
        )
    }
}

/// The functions present among the first `n` of a slot.
pub open spec fn functions_spec<F: Fn(u8, u8, u8, u8) -> u32>(read: F, bus: u8, slot: u8, n: int) -> Seq<PciDeviceInfo>
    decreases n,
{
    if n <= 0 {
        Seq::empty()
    } else {
        let before = functions_spec(read, bus, slot, n - 1);
        match probe_spec(read, bus, slot, (n - 1) as u8) {
            Some(d) => before.push(d),
            None => before,
        }
    }
}

/// The functions of a slot: none when function 0 is absent, eight for a
/// multi-function header, else one.
pub open spec fn slot_spec<F: Fn(u8, u8, u8, u8) -> u32>(read: F, bus: u8, slot: u8) -> Seq<PciDeviceInfo> {
    if half_at(word_of(read, bus, slot, 0, 0), 0) == 0xffff {
        Seq::empty()
    } else {
        let header = byte_at(word_of(read, bus, slot, 0, PCI_HEADER_TYPE_OFFSET), PCI_HEADER_TYPE_OFFSET);
        functions_spec(read, bus, slot, if header >= 0x80 { 8 } else { 1 })
    }
}

/// The functions of the first `n` slots, taken bus by bus.
pub open spec fn scan_spec<F: Fn(u8, u8, u8, u8) -> u32>(read: F, n: int) -> Seq<PciDeviceInfo>
    decreases n,
{
    if n <= 0 {
        Seq::empty()
    } else {
        scan_spec(read, n - 1) + slot_spec(read, ((n - 1) / 32) as u8, ((n - 1) % 32) as u8)
    }
}

/// Buses an ECAM window covers: one per MiB, at most 256.
pub open spec fn bus_count_spec(ecam: Region) -> int {
    if ecam.size / 0x10_0000 < 256 {
        (ecam.size / 0x10_0000) as int
    } else {
        256
    }
}

fn probe_device<F: Fn(u8, u8, u8, u8) -> u32>(read: &F, bus: u8, slot: u8, func: u8) -> (r: Option<PciDeviceInfo>)
    requires
        answers_consistently(*read),
    ensures
        r == probe_spec(*read, bus, slot, func),
{
    let vendor_id = read_u16(config_read(read, bus, slot, func, 0), 0);
    if vendor_id == 0xffff {
        return None;
    }
    let class = config_read(read, bus, slot, func, PCI_CLASS_OFFSET);
    let device_id = read_u16(config_read(read, bus, slot, func, 2), 2);
    let irq_line = read_u8(config_read(read, bus, slot, func, PCI_INTERRUPT_LINE_OFFSET), PCI_INTERRUPT_LINE_OFFSET);
    Some(device_info(PciLocation { bus, slot, func }, vendor_id, device_id, class, irq_line))
}

/// Every function present behind an ECAM window, in bus, slot and
/// function order; `read` answers a configuration word. The result is
/// stated for a reader that gives the same word for the same address every
/// time it is asked, as configuration space does during a scan.
pub fn for_each_device<F: Fn(u8, u8, u8, u8) -> u32>(ecam: Option<Region>, read: F) -> (r: Vec<PciDeviceInfo>)
    requires
        answers_consistently(read),
    ensures
        r@ == (match ecam {
            None => Seq::empty(),
            Some(e) => scan_spec(read, bus_count_spec(e) * 32),
        }),
{
    let mut out: Vec<PciDeviceInfo> = Vec::new();
    let e = match ecam {
        None => return out,
        Some(e) => e,
    };
    let buses = bus_count(e) as u32;
    let total = buses * 32;
    let mut k: u32 = 0;
    while k < total
        invariant
            k <= total,
            total == bus_count_spec(e) * 32,
            total <= 256 * 32,
            answers_consistently(read),
            out@ == scan_spec(read, k as int),
        decreases total - k,
    {
        let bus = (k / 32) as u8;
        let slot = (k % 32) as u8;
        let ghost before = out@;
        if read_u16(config_read(&read, bus, slot, 0, 0), 0) != 0xffff {
            let header = read_u8(config_read(&read, bus, slot, 0, PCI_HEADER_TYPE_OFFSET), PCI_HEADER_TYPE_OFFSET);
            let functions = function_count(header);
            let mut func: u8 = 0;
            while func < functions
                invariant
                    func <= functions <= 8,
                    answers_consistently(read),
                    out@ == before + functions_spec(read, bus, slot, func as int),
                decreases functions - func,
            {
                if let Some(device) = probe_device(&read, bus, slot, func) {
                    out.push(device);
                    assert(out@ =~= before + functions_spec(read, bus, slot, func + 1));
                } else {
                    assert(out@ =~= before + functions_spec(read, bus, slot, func + 1));
                }
                func += 1;
            }
            assert(out@ == before + slot_spec(read, bus, slot));
        } else {
            assert(out@ =~= before + slot_spec(read, bus, slot));
        }
        k += 1;
    }
    out
}

} // verus!
