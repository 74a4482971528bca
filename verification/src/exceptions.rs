//! AArch64 exception and interrupt routing: what the vector code does with a
//! synchronous exception, how an EL0 data abort is turned into the portable
//! fault code of the address-space layer, where an acknowledged interrupt
//! goes, and the CPU identifier read from MPIDR_EL1.

use vstd::prelude::*;
use crate::timer::VIRTUAL_TIMER_IRQ;

verus! {

pub const EC_SVC64: u32 = 0x15;
pub const EC_DABT_EL0: u32 = 0x24;
pub const EC_DABT_EL1: u32 = 0x25;
/// Interrupt ids from here on are spurious or reserved.
pub const SPURIOUS_IRQ: u32 = 1020;
/// Every this many ticks the service watchdog and restart queue run.
pub const WATCHDOG_PERIOD: u64 = 500;
/// Portable fault bit: the page was present (access or permission fault).
pub const FAULT_PRESENT: u64 = 1;
/// Portable fault bit: the access was a write.
pub const FAULT_WRITE: u64 = 2;

/// The exception class field of a syndrome value.
pub open spec fn class_of(esr: u64) -> u64 {
    esr / 0x400_0000
}

/// The instruction-specific syndrome field.
pub open spec fn syndrome_of(esr: u64) -> u64 {
    esr % 0x200_0000
}

pub fn exception_class(esr: u64) -> (r: u64)
    ensures
        r == class_of(esr),
{
    esr / 0x400_0000
}

pub fn exception_syndrome(esr: u64) -> (r: u64)
    ensures
        r == syndrome_of(esr),
{
    esr % 0x200_0000
}

/// Where the vector code sends a synchronous exception.
#[derive(Clone, Copy, Debug, PartialEq, Eq, Structural)]
pub enum SyncRoute {
    /// An SVC from EL0: the system call dispatcher.
    Syscall,
    /// A data abort: the address-space fault handler, retried on success.
    DataAbort,
    /// Anything else: the fatal diagnostic dump.
    Fatal,
}

/// Routing of a synchronous exception taken from EL0 (`from_el0`) or from
/// EL1: SVCs and data aborts from EL0, and data aborts at EL1 while the
/// kernel touches user memory, are handled; the rest are fatal.
pub open spec fn sync_route_spec(esr: u64, from_el0: bool) -> SyncRoute {
    let class = class_of(esr);
    if from_el0 && class == EC_SVC64 {
        SyncRoute::Syscall
    } else if from_el0 && class == EC_DABT_EL0 {
        SyncRoute::DataAbort
    } else if !from_el0 && class == EC_DABT_EL1 {
        SyncRoute::DataAbort
    } else {
        SyncRoute::Fatal
    }
}

pub fn sync_route(esr: u64, from_el0: bool) -> (r: SyncRoute)
    ensures
        r == sync_route_spec(esr, from_el0),
{
    let class = exception_class(esr);
    if from_el0 && class == EC_SVC64 as u64 {
        SyncRoute::Syscall
    } else if from_el0 && class == EC_DABT_EL0 as u64 {
        SyncRoute::DataAbort
    } else if !from_el0 && class == EC_DABT_EL1 as u64 {
        SyncRoute::DataAbort
    } else {
        SyncRoute::Fatal
    }
}

/// The portable fault code of a data abort: none unless the fault status is
/// a translation fault (4..=7) or an access-flag or permission fault
/// (8..=15); bit 0 for the latter, bit 1 when the access was a write.
pub open spec fn data_abort_spec(esr: u64) -> Option<u64> {
    let fsc = syndrome_of(esr) % 64;
    let write = (syndrome_of(esr) / 64) % 2 == 1;
    if 4 <= fsc <= 7 {
        Some(if write { FAULT_WRITE } else { 0 })
    } else if 8 <= fsc <= 15 {
        Some(if write { 3u64 } else { FAULT_PRESENT })
    } else {
        None
    }
}

pub fn classify_data_abort(esr: u64) -> (r: Option<u64>)
    ensures
        r == data_abort_spec(esr),
{
    let iss = exception_syndrome(esr);
    let fsc = iss & 0x3f;
    let bit = iss & (1u64 << 6u64);
    assert(fsc == iss % 64) by (bit_vector)
        requires
            fsc == iss & 0x3fu64,
    ;
    assert((bit != 0) == ((iss / 64) % 2 == 1)) by (bit_vector)
        requires
            bit == iss & (1u64 << 6u64),
    ;
    let is_write = bit != 0;
    let is_translation_fault = 0x04 <= fsc && fsc <= 0x07;
    let is_access_or_permission_fault = 0x08 <= fsc && fsc <= 0x0f;
    if !is_translation_fault && !is_access_or_permission_fault {
        return None;
    }
    let mut portable_error = 0u64;
    if is_access_or_permission_fault {
        portable_error = portable_error + FAULT_PRESENT;
    }
    if is_write {
        portable_error = portable_error + FAULT_WRITE;
    }
    Some(portable_error)
}

/// Where an acknowledged interrupt goes.
#[derive(Clone, Copy, Debug, PartialEq, Eq, Structural)]
pub enum IrqRoute {
    /// A spurious or reserved id: nothing to do, no end-of-interrupt.
    Spurious,
    /// The virtual timer: tick, schedule, then end the interrupt.
    Timer,
    /// A device line: the driver table, then end the interrupt.
    Device(u8),
    /// A line above the driver table: just end the interrupt.
    Unrouted,
}

pub open spec fn irq_route_spec(irq: u32) -> IrqRoute {
    if irq >= SPURIOUS_IRQ {
        IrqRoute::Spurious
    } else if irq == VIRTUAL_TIMER_IRQ {
        IrqRoute::Timer
    } else if irq <= 255 {
        IrqRoute::Device(irq as u8)
    } else {
        IrqRoute::Unrouted
    }
}

pub fn irq_route(irq: u32) -> (r: IrqRoute)
    ensures
        r == irq_route_spec(irq),
{
    if irq >= SPURIOUS_IRQ {
        IrqRoute::Spurious
    } else if irq == VIRTUAL_TIMER_IRQ {
        IrqRoute::Timer
    } else if irq <= 255 {
        IrqRoute::Device(irq as u8)
    } else {
        IrqRoute::Unrouted
    }
}

/// Whether the tick count `now` is one at which the watchdog runs.
pub fn watchdog_due(now: u64) -> (r: bool)
    ensures
        r == (now % WATCHDOG_PERIOD == 0),
{
    now % WATCHDOG_PERIOD == 0
}

/// The stable CPU identifier from MPIDR_EL1: affinity levels 0 to 2 in the
/// low 24 bits and affinity level 3 above them; the MT and reserved bits
/// are dropped.
pub open spec fn affinity_spec(mpidr: u64) -> u32 {
    (mpidr % 0x100_0000 + ((mpidr / 0x1_0000_0000) % 0x100) * 0x100_0000) as u32
}

pub fn affinity_id(mpidr: u64) -> (r: u32)
    ensures
        r == affinity_spec(mpidr),
{
    let packed = (mpidr & 0x00ff_ffff) | ((mpidr >> 8u64) & 0xff00_0000);
    assert(packed == mpidr % 0x100_0000 + ((mpidr / 0x1_0000_0000) % 0x100) * 0x100_0000) by (bit_vector)
        requires
            packed == (mpidr & 0x00ff_ffffu64) | ((mpidr >> 8u64) & 0xff00_0000u64),
    ;
    packed as u32
}

} // verus!
