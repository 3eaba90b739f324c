//! User entry through one supervisor-only gateway page.
use vstd::prelude::*;

use crate::arch::{DomainStart, Saved};

verus! {

// Gateway data offsets. Registers x1..x31 begin at 0x80.
pub const DOMAIN_SATP: usize = 0x28;

pub const REASON: usize = 0x30;

pub const VALUE: usize = 0x38;

pub const CAUSE: usize = 0x40;

pub const ADDRESS: usize = 0x48;

pub const USER_SEPC: usize = 0x50;

pub const USER_SSTATUS: usize = 0x58;

pub const REGISTERS: usize = 0x80;

/// `sstatus.SPP` and `sstatus.SPIE`: clear, so that `sret` enters user mode
/// with interrupts masked.
pub const PRIVILEGE: u64 = 0x120;

/// Where register `number` is saved in the gateway page.
pub fn register(number: usize) -> (offset: usize)
    requires
        number < 32,
    ensures
        offset == REGISTERS + 8 * number,
{
    REGISTERS + number * 8
}

/// What a gateway page holds for a domain's first entry.
pub open spec fn context(satp: u64, sstatus: u64, start: DomainStart) -> Seq<Saved> {
    seq![
        Saved { offset: DOMAIN_SATP, value: satp },
        Saved { offset: USER_SEPC, value: start.entry },
        Saved { offset: USER_SSTATUS, value: sstatus & !PRIVILEGE },
        Saved { offset: (REGISTERS + 8 * 2) as usize, value: start.stack },
        Saved { offset: (REGISTERS + 8 * 10) as usize, value: start.arguments@[0] },
        Saved { offset: (REGISTERS + 8 * 11) as usize, value: start.arguments@[1] },
        Saved { offset: (REGISTERS + 8 * 12) as usize, value: start.arguments@[2] },
        Saved { offset: (REGISTERS + 8 * 13) as usize, value: start.arguments@[3] },
        Saved { offset: (REGISTERS + 8 * 14) as usize, value: start.arguments@[4] },
        Saved { offset: (REGISTERS + 8 * 15) as usize, value: start.arguments@[5] },
    ]
}

/// The writes that prepare a gateway page for a domain's first entry.
pub fn enter(satp: u64, sstatus: u64, start: DomainStart) -> (writes: Vec<Saved>)
    ensures
        writes@ == context(satp, sstatus, start),
{
    let mut writes: Vec<Saved> = Vec::new();
    writes.push(Saved { offset: DOMAIN_SATP, value: satp });
    writes.push(Saved { offset: USER_SEPC, value: start.entry });
    writes.push(Saved { offset: USER_SSTATUS, value: sstatus & !PRIVILEGE });
    writes.push(Saved { offset: register(2), value: start.stack });
    let mut i: usize = 0;
    while i < 6
        invariant
            i <= 6,
            writes@.len() == 4 + i,
            writes@ =~= context(satp, sstatus, start).take(4 + i),
        decreases 6 - i,
    {
        writes.push(Saved { offset: register(10 + i), value: start.arguments[i] });
        i = i + 1;
    }
    assert(context(satp, sstatus, start).take(10) =~= context(satp, sstatus, start));
    writes
}

/// Where a domain starts, in numbers: its `satp` at 0x28, its first instruction
/// at 0x50, a status without the supervisor's rank (bit 8) and without pending
/// interrupts (bit 5) at 0x58, its stack in x2 and its arguments in x10 to x15,
/// the registers standing eight bytes apart from 0x80 on. What it leaves behind
/// is found from 0x30 to 0x48.
pub proof fn law_context_in_numbers(satp: u64, sstatus: u64, start: DomainStart)
    ensures
        context(satp, sstatus, start) == seq![
            Saved { offset: 40, value: satp },
            Saved { offset: 80, value: start.entry },
            Saved {
                offset: 88,
                value: (sstatus - sstatus / 32 % 2 * 32 - sstatus / 256 % 2 * 256) as u64,
            },
            Saved { offset: 144, value: start.stack },
            Saved { offset: 208, value: start.arguments@[0] },
            Saved { offset: 216, value: start.arguments@[1] },
            Saved { offset: 224, value: start.arguments@[2] },
            Saved { offset: 232, value: start.arguments@[3] },
            Saved { offset: 240, value: start.arguments@[4] },
            Saved { offset: 248, value: start.arguments@[5] },
        ],
        REASON == 48,
        VALUE == 56,
        CAUSE == 64,
        ADDRESS == 72,
{
    assert(sstatus & !0x120u64 == sstatus - sstatus / 32 % 2 * 32 - sstatus / 256 % 2 * 256)
        by (bit_vector);
}

} // verus!
