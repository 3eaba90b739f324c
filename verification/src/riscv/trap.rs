//! Supervisor trap handling: exception path probe and one-shot timer ticks.
//!
//! Two traps are handled: `ebreak`, used to prove the exception path returns,
//! and the supervisor timer interrupt, counted so the executor can await a
//! completion. Anything else is fatal and reported before shutdown.
use vstd::prelude::*;

use crate::riscv::csr::{CAUSE_INTERRUPT, EXCEPTION_BREAKPOINT, INTERRUPT_TIMER};

verus! {

/// What the traps so far left behind.
#[derive(Clone, Copy, Debug, PartialEq, Eq, Structural)]
pub struct Trapped {
    /// Set by a breakpoint, so whoever raised one can observe a return.
    pub breakpoint_seen: bool,
    /// Counts serviced supervisor timer interrupts.
    pub ticks: u64,
}

/// What a trap asks of the hart.
#[derive(Clone, Copy, Debug, PartialEq, Eq, Structural)]
pub enum Action {
    /// Disarm the one-shot timer so it cannot fire again.
    Disarm,
    /// Resume past the instruction that trapped.
    Step,
    /// Report an interrupt nothing expects, and shut down.
    UnexpectedInterrupt,
    /// Report an exception nothing expects, and shut down.
    UnexpectedException,
}

/// What a cause asks for.
pub open spec fn asked(cause: u64) -> Action {
    if cause >= CAUSE_INTERRUPT {
        if cause - CAUSE_INTERRUPT == INTERRUPT_TIMER {
            Action::Disarm
        } else {
            Action::UnexpectedInterrupt
        }
    } else if cause == EXCEPTION_BREAKPOINT {
        Action::Step
    } else {
        Action::UnexpectedException
    }
}

impl Trapped {
    pub fn new() -> (trapped: Self)
        ensures
            !trapped.breakpoint_seen,
            trapped.ticks == 0,
    {
        Trapped { breakpoint_seen: false, ticks: 0 }
    }

    /// Takes one trap.
    pub fn handle(&mut self, cause: u64) -> (action: Action)
        ensures
            action == asked(cause),
            final(self).breakpoint_seen == (old(self).breakpoint_seen || action == Action::Step),
            final(self).ticks == if action == Action::Disarm {
                (old(self).ticks + 1) % 0x1_0000_0000_0000_0000
            } else {
                old(self).ticks as int
            },
    {
        if cause >= CAUSE_INTERRUPT {
            if cause - CAUSE_INTERRUPT == INTERRUPT_TIMER {
                self.ticks = self.ticks.wrapping_add(1);
                return Action::Disarm;
            }
            return Action::UnexpectedInterrupt;
        }
        if cause == EXCEPTION_BREAKPOINT {
            self.breakpoint_seen = true;
            return Action::Step;
        }
        Action::UnexpectedException
    }

    /// The number of supervisor timer interrupts serviced so far.
    pub fn ticks(&self) -> (ticks: u64)
        ensures
            ticks == self.ticks,
    {
        self.ticks
    }
}

/// Where a hart resumes past the instruction at `sepc`, whose first half is
/// `opcode`: two bytes on when it is compressed, and four otherwise.
pub fn resume(sepc: u64, opcode: u16) -> (next: u64)
    requires
        sepc + 4 <= u64::MAX,
    ensures
        next == sepc + if opcode % 4 == 3 {
            4int
        } else {
            2
        },
{
    if opcode % 4 == 3 {
        sepc + 4
    } else {
        sepc + 2
    }
}

/// What is reported of a trap nothing expects.
pub fn report(action: Action) -> (kind: Option<&'static str>)
    ensures
        match action {
            Action::UnexpectedInterrupt => kind is Some && (kind->0)@ == "unexpected interrupt"@,
            Action::UnexpectedException => kind is Some && (kind->0)@ == "unexpected exception"@,
            _ => kind is None,
        },
{
    match action {
        Action::UnexpectedInterrupt => Some("unexpected interrupt"),
        Action::UnexpectedException => Some("unexpected exception"),
        Action::Disarm => None,
        Action::Step => None,
    }
}

/// What each trap asks for, in numbers: the timer's interrupt (5, with the top
/// bit set) to be disarmed, a breakpoint (3) to be stepped over, and anything
/// else to be reported for what it is.
pub proof fn law_causes_in_numbers(cause: u64)
    ensures
        cause == 0x8000_0000_0000_0005 <==> asked(cause) == Action::Disarm,
        cause == 3 <==> asked(cause) == Action::Step,
        cause >= 0x8000_0000_0000_0000 && cause != 0x8000_0000_0000_0005 <==> asked(cause)
            == Action::UnexpectedInterrupt,
        cause < 0x8000_0000_0000_0000 && cause != 3 <==> asked(cause)
            == Action::UnexpectedException,
{
}

} // verus!
