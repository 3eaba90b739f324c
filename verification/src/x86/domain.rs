//! Ring-3 entry through supervisor-only gateway pages.
use vstd::prelude::*;

use crate::arch::{DomainStart, Saved};

verus! {

pub const DOMAIN_CR3: usize = 0x40;

pub const REASON: usize = 0x48;

pub const VALUE: usize = 0x50;

pub const CAUSE: usize = 0x58;

pub const ADDRESS: usize = 0x60;

pub const USER_RIP: usize = 0x68;

pub const USER_RSP: usize = 0x70;

pub const USER_RFLAGS: usize = 0x78;

pub const USER_CS: usize = 0x80;

pub const USER_SS: usize = 0x88;

pub const RCX: usize = 0xa0;

pub const RDX: usize = 0xa8;

pub const RSI: usize = 0xb0;

pub const RDI: usize = 0xb8;

pub const R8: usize = 0xc8;

pub const R9: usize = 0xd0;

/// The flags a domain starts with: the bit that is always set, interrupts
/// masked.
pub const START_FLAGS: u64 = 2;

/// What the gateway page holds for a domain's first entry.
pub open spec fn context(cr3: u64, code: u16, data: u16, start: DomainStart) -> Seq<Saved> {
    seq![
        Saved { offset: DOMAIN_CR3, value: cr3 },
        Saved { offset: USER_RIP, value: start.entry },
        Saved { offset: USER_RSP, value: start.stack },
        Saved { offset: USER_RFLAGS, value: START_FLAGS },
        Saved { offset: USER_CS, value: code as u64 },
        Saved { offset: USER_SS, value: data as u64 },
        Saved { offset: RDI, value: start.arguments@[0] },
        Saved { offset: RSI, value: start.arguments@[1] },
        Saved { offset: RDX, value: start.arguments@[2] },
        Saved { offset: RCX, value: start.arguments@[3] },
        Saved { offset: R8, value: start.arguments@[4] },
        Saved { offset: R9, value: start.arguments@[5] },
    ]
}

/// The writes that prepare the gateway page for a domain's first entry.
pub fn enter(cr3: u64, code: u16, data: u16, start: DomainStart) -> (writes: Vec<Saved>)
    ensures
        writes@ == context(cr3, code, data, start),
{
    let mut writes: Vec<Saved> = Vec::new();
    writes.push(Saved { offset: DOMAIN_CR3, value: cr3 });
    writes.push(Saved { offset: USER_RIP, value: start.entry });
    writes.push(Saved { offset: USER_RSP, value: start.stack });
    writes.push(Saved { offset: USER_RFLAGS, value: START_FLAGS });
    writes.push(Saved { offset: USER_CS, value: code as u64 });
    writes.push(Saved { offset: USER_SS, value: data as u64 });
    writes.push(Saved { offset: RDI, value: start.arguments[0] });
    writes.push(Saved { offset: RSI, value: start.arguments[1] });
    writes.push(Saved { offset: RDX, value: start.arguments[2] });
    writes.push(Saved { offset: RCX, value: start.arguments[3] });
    writes.push(Saved { offset: R8, value: start.arguments[4] });
    writes.push(Saved { offset: R9, value: start.arguments[5] });
    assert(writes@ =~= context(cr3, code, data, start));
    writes
}

/// Where a domain starts, in numbers: its tables at 0x40, its first instruction,
/// stack, flags (2, nothing but the bit that is always set) and selectors from
/// 0x68 on, and its arguments in RDI, RSI, RDX, RCX, R8 and R9. What it leaves
/// behind is found from 0x48 to 0x60.
pub proof fn law_context_in_numbers(cr3: u64, code: u16, data: u16, start: DomainStart)
    ensures
        context(cr3, code, data, start) == seq![
            Saved { offset: 64, value: cr3 },
            Saved { offset: 104, value: start.entry },
            Saved { offset: 112, value: start.stack },
            Saved { offset: 120, value: 2 },
            Saved { offset: 128, value: code as u64 },
            Saved { offset: 136, value: data as u64 },
            Saved { offset: 184, value: start.arguments@[0] },
            Saved { offset: 176, value: start.arguments@[1] },
            Saved { offset: 168, value: start.arguments@[2] },
            Saved { offset: 160, value: start.arguments@[3] },
            Saved { offset: 200, value: start.arguments@[4] },
            Saved { offset: 208, value: start.arguments@[5] },
        ],
        REASON == 72,
        VALUE == 80,
        CAUSE == 88,
        ADDRESS == 96,
{
}

} // verus!
