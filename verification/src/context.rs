//! AArch64 register state saved by the low-level context switch: the
//! AAPCS64 callee-saved registers, the resume address, the stack pointer
//! and the DAIF mask.

use vstd::prelude::*;

verus! {

#[derive(Clone, Copy, Debug, PartialEq, Eq, Structural)]
pub struct CpuContext {
    pub x19: u64,
    pub x20: u64,
    pub x21: u64,
    pub x22: u64,
    pub x23: u64,
    pub x24: u64,
    pub x25: u64,
    pub x26: u64,
    pub x27: u64,
    pub x28: u64,
    pub x29: u64,
    /// Link register. Fresh tasks return through the task-exit trampoline;
    /// suspended tasks keep their caller's return address.
    pub x30: u64,
    /// Resume address captured by the context switch.
    pub pc: u64,
    pub sp: u64,
    /// Saved DAIF mask bits. Fresh tasks start with IRQ and FIQ unmasked.
    pub daif: u64,
}

pub open spec fn zero_context() -> CpuContext {
    CpuContext {
        x19: 0,
        x20: 0,
        x21: 0,
        x22: 0,
        x23: 0,
        x24: 0,
        x25: 0,
        x26: 0,
        x27: 0,
        x28: 0,
        x29: 0,
        x30: 0,
        pc: 0,
        sp: 0,
        daif: 0,
    }
}

/// DAIF.I (bit 7) and DAIF.F (bit 6).
pub const DAIF_IRQ_FIQ: u64 = 0xc0;

impl CpuContext {
    /// Every register zero.
    pub fn zero() -> (r: Self)
        ensures
            r == zero_context(),
    {
        CpuContext {
            x19: 0,
            x20: 0,
            x21: 0,
            x22: 0,
            x23: 0,
            x24: 0,
            x25: 0,
            x26: 0,
            x27: 0,
            x28: 0,
            x29: 0,
            x30: 0,
            pc: 0,
            sp: 0,
            daif: 0,
        }
    }

    /// A fresh kernel task: the first-dispatch shim at `initial_pc` unmasks
    /// interrupts and branches to `entry` (held in x19); returning lands at
    /// `return_address`.
    pub fn new_kernel(entry: u64, stack_top: u64, return_address: u64, initial_pc: u64) -> (r: Self)
        ensures
            r == (CpuContext { x19: entry, x30: return_address, pc: initial_pc, sp: stack_top, ..zero_context() }),
    {
        CpuContext {
            x19: entry,
            x20: 0,
            x21: 0,
            x22: 0,
            x23: 0,
            x24: 0,
            x25: 0,
            x26: 0,
            x27: 0,
            x28: 0,
            x29: 0,
            x30: return_address,
            pc: initial_pc,
            sp: stack_top,
            daif: 0,
        }
    }

    /// Ensure the saved task resumes with IRQ and FIQ delivery enabled.
    pub fn enable_interrupts(&mut self)
        ensures
            *final(self) == (CpuContext { daif: old(self).daif & !DAIF_IRQ_FIQ, ..*old(self) }),
            final(self).daif & DAIF_IRQ_FIQ == 0,
            old(self).daif & DAIF_IRQ_FIQ == 0 ==> *final(self) == *old(self),
    {
        let old_daif = self.daif;
        let d = old_daif & !DAIF_IRQ_FIQ;
        assert(d & 0xc0u64 == 0 && (old_daif & 0xc0u64 == 0 ==> d == old_daif)) by (bit_vector)
            requires d == old_daif & !0xc0u64;
        self.daif = d;
    }
}

/// Accept the kernel stack that exceptions from EL0 will run on. SP_EL1 is
/// already the scheduler's active kernel stack, so nothing is written; the
/// stack top must be non-zero and 16-byte aligned, as AAPCS64 asks.
pub fn set_syscall_kernel_stack(stack_top: u64)
    requires
        stack_top != 0,
        stack_top % 16 == 0,
{
}

} // verus!
