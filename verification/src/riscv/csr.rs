//! The fields of the supervisor control and status registers.
use vstd::prelude::*;

verus! {

/// `sstatus.SIE` — global supervisor interrupt enable.
pub const SSTATUS_SIE: u64 = 0x2;

/// `sie.STIE` — supervisor timer interrupt enable.
pub const SIE_STIE: u64 = 0x20;

/// Trap cause bit set when the trap is an interrupt rather than an exception.
pub const CAUSE_INTERRUPT: u64 = 0x8000_0000_0000_0000;

/// Exception code for a supervisor timer interrupt.
pub const INTERRUPT_TIMER: u64 = 5;

/// Exception code for an executed `ebreak`.
pub const EXCEPTION_BREAKPOINT: u64 = 3;

/// The `stvec` that enters `base` on every trap: its two mode bits clear.
pub fn direct_vector(base: u64) -> (stvec: u64)
    ensures
        stvec == base - base % 4,
{
    base - base % 4
}

} // verus!
