//! Message-signalled interrupts: a fixed bank of vectors and where they go.
//!
//! An MSI is a memory write: the device stores `data` at `address`, the local
//! APIC decodes that into a vector, and the CPU takes an interrupt. This module
//! is the agreement about which vectors exist.
//!
//! The bank is fixed because the interrupt table is built once at boot.
use vstd::prelude::*;

use crate::arch::{FabricError, MsiMessage};

verus! {

/// Above the timer at `0x40`, below the spurious vector at `0xff`.
pub const FIRST_VECTOR: u8 = 0x50;

pub const VECTORS: u8 = 16;

/// Where the local APIC listens for messages.
pub const MESSAGE_BASE: u64 = 0xfee0_0000;

/// The bank: which of its lines are held.
pub struct Bank {
    pub taken: [bool; 16],
}

/// Whether `line` is the lowest that nobody holds.
pub open spec fn lowest_free(taken: Seq<bool>, line: int) -> bool {
    &&& 0 <= line < taken.len()
    &&& !taken[line]
    &&& forall|i: int| 0 <= i < line ==> taken[i]
}

/// Whether every line is held.
pub open spec fn exhausted(taken: Seq<bool>) -> bool {
    forall|i: int| 0 <= i < taken.len() ==> taken[i]
}

/// The message that reaches a line on the core with this APIC identifier: fixed
/// delivery, physical destination, edge triggered.
pub open spec fn reaches(line: u16, apic: u8) -> MsiMessage {
    MsiMessage {
        address: (MESSAGE_BASE + apic * 0x1000) as u64,
        data: (FIRST_VECTOR + line) as u32,
    }
}

impl Bank {
    pub fn new() -> (bank: Self)
        ensures
            forall|i: int| 0 <= i < VECTORS ==> !bank.taken@[i],
    {
        Bank { taken: [false;16] }
    }

    /// Claims a free vector and the message that reaches it.
    pub fn allocate(&mut self, apic: u8) -> (claimed: Result<(u16, MsiMessage), FabricError>)
        ensures
            match claimed {
                Ok((line, message)) => {
                    &&& lowest_free(old(self).taken@, line as int)
                    &&& final(self).taken@ == old(self).taken@.update(line as int, true)
                    &&& message == reaches(line, apic)
                },
                Err(error) => {
                    &&& exhausted(old(self).taken@)
                    &&& error == FabricError::Exhausted
                    &&& *final(self) == *old(self)
                },
            },
    {
        let mut line: usize = 0;
        while line < 16
            invariant
                line <= 16,
                self.taken == old(self).taken,
                forall|i: int| 0 <= i < line ==> self.taken@[i],
            decreases 16 - line,
        {
            if !self.taken[line] {
                self.taken[line] = true;
                return Ok((line as u16, message(line as u16, apic)));
            }
            line = line + 1;
        }
        Err(FabricError::Exhausted)
    }

    /// Releases a vector. Double release is [`FabricError::Unknown`]: two owners
    /// disagree about who holds the line.
    pub fn release(&mut self, line: u16) -> (done: Result<(), FabricError>)
        ensures
            if line < VECTORS && old(self).taken@[line as int] {
                &&& done == Ok::<(), FabricError>(())
                &&& final(self).taken@ == old(self).taken@.update(line as int, false)
            } else {
                &&& done == Err::<(), FabricError>(FabricError::Unknown)
                &&& *final(self) == *old(self)
            },
    {
        if line >= VECTORS as u16 {
            return Err(FabricError::Unknown);
        }
        if !self.taken[line as usize] {
            return Err(FabricError::Unknown);
        }
        self.taken[line as usize] = false;
        Ok(())
    }
}

/// The message of a line. Every vector goes to the boot core.
fn message(line: u16, apic: u8) -> (message: MsiMessage)
    requires
        line < 16,
    ensures
        message == reaches(line, apic),
{
    MsiMessage {
        address: MESSAGE_BASE + apic as u64 * 0x1000,
        data: FIRST_VECTOR as u32 + line as u32,
    }
}

/// A line that is held is not handed out again.
pub proof fn law_held_lines_stay_held(taken: Seq<bool>, held: int, line: int)
    requires
        0 <= held < taken.len(),
        taken[held],
        lowest_free(taken, line),
    ensures
        line != held,
        taken.update(line, true)[held],
{
}

/// A line that was handed out and released is handed out next.
pub proof fn law_released_line_is_reused(taken: Seq<bool>, line: int, next: int)
    requires
        lowest_free(taken, line),
        lowest_free(taken.update(line, true).update(line, false), next),
    ensures
        next == line,
        taken.update(line, true).update(line, false) == taken,
{
    assert(taken.update(line, true).update(line, false) =~= taken);
    if next < line {
        assert(taken[next]);
    } else if line < next {
        assert(taken.update(line, true).update(line, false)[line]);
    }
}

/// Two lines have two messages.
pub proof fn law_messages_tell_lines_apart(a: u16, b: u16, apic: u8)
    requires
        a < VECTORS,
        b < VECTORS,
        a != b,
    ensures
        reaches(a, apic).data != reaches(b, apic).data,
        reaches(a, apic).address == reaches(b, apic).address,
{
}

/// The message that raises a line on a core, in numbers: a write to the core's
/// own page of the window at 0xfee00000, carrying a vector from 80 on.
pub proof fn law_message_in_numbers(line: u16, apic: u8)
    requires
        line < 16,
    ensures
        reaches(line, apic).address == 0xfee0_0000 + 4096 * apic,
        reaches(line, apic).data == 80 + line,
        80 <= reaches(line, apic).data < 96,
        VECTORS == 16,
{
}

} // verus!
