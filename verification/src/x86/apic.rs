//! The local APIC: its registers, and the order they are written in.
use vstd::prelude::*;

use crate::arch::PlatformError;
use crate::window::{self, Access, Window};

verus! {

pub const TIMER_VECTOR: u8 = 0x40;

/// What one core sends another to say "look at your inbox". It carries nothing.
pub const WAKE_VECTOR: u8 = 0x41;

pub const SPURIOUS_VECTOR: u8 = 0xff;

/// The architectural local APIC MMIO base, which the kernel maps a window for.
pub const APIC_MMIO: u64 = 0xfee0_0000;

pub const APIC_ENABLE: u64 = 0x800;

pub const APIC_BASE_MASK: u64 = 0xffff_f000;

pub const REG_ID: u64 = 0x020;

pub const REG_TPR: u64 = 0x080;

pub const REG_EOI: u64 = 0x0b0;

pub const REG_SPURIOUS: u64 = 0x0f0;

pub const REG_ICR_LOW: u64 = 0x300;

pub const REG_ICR_HIGH: u64 = 0x310;

pub const REG_LVT_TIMER: u64 = 0x320;

pub const REG_INITIAL_COUNT: u64 = 0x380;

pub const REG_DIVIDE: u64 = 0x3e0;

pub const APIC_SOFTWARE_ENABLE: u32 = 0x100;

pub const TIMER_MASKED: u32 = 0x1_0000;

/// Fixed delivery, physical destination, edge triggered — everything else zero.
pub const ICR_ASSERT: u32 = 0x4000;

/// The bytes of the registers the kernel maps.
pub const REGISTERS: u64 = 0x1000;

/// Whether CPUID leaf 1 reports a local APIC.
pub fn present(edx: u32) -> (present: Result<(), PlatformError>)
    ensures
        present == if edx / 0x200 % 2 == 1 {
            Ok::<(), PlatformError>(())
        } else {
            Err::<(), PlatformError>(PlatformError::InvalidHardware)
        },
{
    if edx / 0x200 % 2 == 1 {
        Ok(())
    } else {
        Err(PlatformError::InvalidHardware)
    }
}

/// The base register with the APIC enabled and nothing else changed.
pub fn enabled(base: u64) -> (on: u64)
    ensures
        on == base | APIC_ENABLE,
{
    base | APIC_ENABLE
}

/// Whether the APIC is where the window maps it; firmware may have moved it.
pub fn placed(base: u64) -> (placed: Result<(), PlatformError>)
    ensures
        placed == if base & APIC_BASE_MASK == APIC_MMIO {
            Ok::<(), PlatformError>(())
        } else {
            Err::<(), PlatformError>(PlatformError::InvalidHardware)
        },
{
    if base & APIC_BASE_MASK != APIC_MMIO {
        return Err(PlatformError::InvalidHardware);
    }
    Ok(())
}

/// A core's APIC identifier, from CPUID leaf 1.
///
/// CPUID answers on any core at any time, which the ID register does not: the
/// window it lives in only exists once the kernel's tables are up, and core
/// numbering has to happen before that.
pub fn boot_id(ebx: u32) -> (id: u8)
    ensures
        id == ebx / 0x100_0000,
{
    (ebx / 0x100_0000) as u8
}

/// The registers, through an uncacheable kernel-owned window.
pub struct Apic<W: Window> {
    pub window: W,
}

/// The writes that set the APIC up: software enabled with its spurious vector,
/// the timer masked, dividing by sixteen.
pub open spec fn set_up() -> Seq<Access> {
    seq![
        window::write(REG_SPURIOUS, 4, 0x1ff),
        window::write(REG_LVT_TIMER, 4, 0x1_0040),
        window::write(REG_DIVIDE, 4, 3),
    ]
}

/// The writes that send `vector` to `apic`. The high half goes first: the write
/// to the low half is what sends, so a destination set after it would address
/// the previous interrupt.
pub open spec fn sends(apic: u8, vector: u8) -> Seq<Access> {
    seq![
        window::write(REG_ICR_HIGH, 4, apic * 0x100_0000),
        window::write(REG_ICR_LOW, 4, ICR_ASSERT + vector),
    ]
}

/// The accesses that try the task-priority register out and put it back.
pub open spec fn tried(previous: int, observed: int) -> Seq<Access> {
    seq![
        window::read(REG_TPR, 4, previous),
        window::write(REG_TPR, 4, 0x20),
        window::read(REG_TPR, 4, observed),
        window::write(REG_TPR, 4, previous),
    ]
}

impl<W: Window> Apic<W> {
    pub open spec fn wf(&self) -> bool {
        self.window.span() == REGISTERS
    }

    /// Whether the registers grew by `added` accesses.
    pub open spec fn did(&self, added: Seq<Access>, after: Self) -> bool {
        after.wf() && after.window.trace() =~= self.window.trace() + added
    }

    /// The APIC behind `window`, or nothing when it is not one page.
    pub fn new(window: W) -> (apic: Result<Self, PlatformError>)
        ensures
            match apic {
                Ok(apic) => apic.wf() && apic.window == window,
                Err(error) => window.span() != REGISTERS && error == PlatformError::InvalidHardware,
            },
    {
        if window.len() != REGISTERS {
            return Err(PlatformError::InvalidHardware);
        }
        Ok(Apic { window })
    }

    fn set(&mut self, offset: u64, value: u32) -> (done: Result<(), PlatformError>)
        requires
            old(self).wf(),
            offset + 4 <= REGISTERS,
        ensures
            done is Ok,
            old(self).did(seq![window::write(offset, 4, value as int)], *final(self)),
    {
        match self.window.write_u32(offset, value) {
            Ok(()) => Ok(()),
            Err(_) => Err(PlatformError::InvalidHardware),
        }
    }

    /// Sets the registers up, the APIC being enabled.
    pub fn init(&mut self) -> (done: Result<(), PlatformError>)
        requires
            old(self).wf(),
        ensures
            done is Ok,
            old(self).did(set_up(), *final(self)),
    {
        self.set(REG_SPURIOUS, APIC_SOFTWARE_ENABLE + SPURIOUS_VECTOR as u32)?;
        self.set(REG_LVT_TIMER, TIMER_MASKED + TIMER_VECTOR as u32)?;
        self.set(REG_DIVIDE, 3)
    }

    /// Arms the timer for one interrupt.
    pub fn arm(&mut self, initial_count: u32) -> (done: Result<(), PlatformError>)
        requires
            old(self).wf(),
        ensures
            if initial_count == 0 {
                &&& done == Err::<(), PlatformError>(PlatformError::InvalidHardware)
                &&& *final(self) == *old(self)
            } else {
                &&& done is Ok
                &&& old(self).did(
                    seq![
                        window::write(REG_LVT_TIMER, 4, TIMER_VECTOR as int),
                        window::write(REG_INITIAL_COUNT, 4, initial_count as int),
                    ],
                    *final(self),
                )
            },
    {
        if initial_count == 0 {
            return Err(PlatformError::InvalidHardware);
        }
        self.set(REG_LVT_TIMER, TIMER_VECTOR as u32)?;
        self.set(REG_INITIAL_COUNT, initial_count)
    }

    /// Sends `vector` to the core with local APIC identifier `apic`.
    pub fn ipi(&mut self, apic: u8, vector: u8) -> (done: Result<(), PlatformError>)
        requires
            old(self).wf(),
        ensures
            done is Ok,
            old(self).did(sends(apic, vector), *final(self)),
    {
        self.set(REG_ICR_HIGH, apic as u32 * 0x100_0000)?;
        self.set(REG_ICR_LOW, ICR_ASSERT + vector as u32)
    }

    /// Signals end-of-interrupt to the local APIC.
    pub fn eoi(&mut self)
        requires
            old(self).wf(),
        ensures
            old(self).did(seq![window::write(REG_EOI, 4, 0)], *final(self)),
    {
        let _ = self.set(REG_EOI, 0);
    }

    /// Reads the APIC through its window and tries a register out.
    ///
    /// The identifier is compared against `expected`, which CPUID reports, to
    /// detect a readable mapping of the wrong frame; the task-priority register
    /// goes round without disturbing interrupt delivery.
    pub fn verify(&mut self, expected: u8) -> (done: Result<(), PlatformError>)
        requires
            old(self).wf(),
        ensures
            final(self).wf(),
            exists|id: u32, previous: u32, observed: u32|
                {
                    &&& #[trigger] old(self).verified(id, previous, observed, expected, *final(self))
                    &&& done == if id / 0x100_0000 == expected && observed % 0x100 == 0x20 {
                        Ok::<(), PlatformError>(())
                    } else {
                        Err::<(), PlatformError>(PlatformError::InvalidHardware)
                    }
                },
    {
        let ghost before = *self;
        let id: u32 = match self.window.read_u32(REG_ID) {
            Ok(id) => id,
            Err(_) => return Err(PlatformError::InvalidHardware),
        };
        if id / 0x100_0000 != expected as u32 {
            assert(before.verified(id, 0, 0, expected, *self));
            return Err(PlatformError::InvalidHardware);
        }
        let previous: u32 = match self.window.read_u32(REG_TPR) {
            Ok(previous) => previous,
            Err(_) => return Err(PlatformError::InvalidHardware),
        };
        self.set(REG_TPR, 0x20)?;
        let observed: u32 = match self.window.read_u32(REG_TPR) {
            Ok(observed) => observed,
            Err(_) => return Err(PlatformError::InvalidHardware),
        };
        self.set(REG_TPR, previous)?;
        assert(before.verified(id, previous, observed, expected, *self));
        if observed % 0x100 != 0x20 {
            return Err(PlatformError::InvalidHardware);
        }
        Ok(())
    }

    /// What trying the registers out does to them.
    pub open spec fn verified(
        &self,
        id: u32,
        previous: u32,
        observed: u32,
        expected: u8,
        after: Self,
    ) -> bool {
        self.did(
            seq![window::read(REG_ID, 4, id as int)] + if id / 0x100_0000 == expected {
                tried(previous as int, observed as int)
            } else {
                seq![]
            },
            after,
        )
    }
}

/// Every register the local APIC is driven through, in numbers. Setting it up
/// enables it with spurious vector 255, leaves the timer masked on vector 64 and
/// divides by 16. Arming the timer unmasks it and sets the count. An interrupt
/// to another core names it in the top byte of the high command register and is
/// sent by writing the low one. The end of one is a zero.
pub proof fn law_registers_in_numbers<W: Window>(
    before: Apic<W>,
    after: Apic<W>,
    apic: u8,
    vector: u8,
    count: u32,
)
    ensures
        before.did(set_up(), after) ==> after.window.trace() == before.window.trace() + seq![
            Access::Write { at: 0xf0, width: 4, value: 0x1ff },
            Access::Write { at: 0x320, width: 4, value: 0x1_0040 },
            Access::Write { at: 0x3e0, width: 4, value: 3 },
        ],
        before.did(
            seq![
                window::write(REG_LVT_TIMER, 4, TIMER_VECTOR as int),
                window::write(REG_INITIAL_COUNT, 4, count as int),
            ],
            after,
        ) ==> after.window.trace() == before.window.trace() + seq![
            Access::Write { at: 0x320, width: 4, value: 64 },
            Access::Write { at: 0x380, width: 4, value: count as u64 },
        ],
        before.did(sends(apic, vector), after) ==> after.window.trace() == before.window.trace()
            + seq![
            Access::Write { at: 0x310, width: 4, value: (16777216 * apic) as u64 },
            Access::Write { at: 0x300, width: 4, value: (0x4000 + vector) as u64 },
        ],
        before.did(seq![window::write(REG_EOI, 4, 0)], after) ==> after.window.trace()
            == before.window.trace() + seq![Access::Write { at: 0xb0, width: 4, value: 0 }],
        TIMER_VECTOR == 64,
        WAKE_VECTOR == 65,
        SPURIOUS_VECTOR == 255,
        APIC_MMIO == 0xfee0_0000,
        REGISTERS == 4096,
{
}

/// A probe of the local APIC reads its identifier out of the top byte of the
/// register at 0x20, and where it is the one expected, writes 0x20 to the task
/// priority at 0x80, reads it back, and puts back what was there.
pub proof fn law_probe_in_numbers<W: Window>(
    before: Apic<W>,
    after: Apic<W>,
    id: u32,
    previous: u32,
    observed: u32,
    expected: u8,
)
    requires
        before.verified(id, previous, observed, expected, after),
    ensures
        after.window.trace() == before.window.trace() + if id / 16777216 == expected {
            seq![
                Access::Read { at: 0x20, width: 4, value: id as u64 },
                Access::Read { at: 0x80, width: 4, value: previous as u64 },
                Access::Write { at: 0x80, width: 4, value: 0x20 },
                Access::Read { at: 0x80, width: 4, value: observed as u64 },
                Access::Write { at: 0x80, width: 4, value: previous as u64 },
            ]
        } else {
            seq![Access::Read { at: 0x20, width: 4, value: id as u64 }]
        },
{
    assert(seq![window::read(REG_ID, 4, id as int)] + tried(previous as int, observed as int)
        =~= seq![
        Access::Read { at: 0x20, width: 4, value: id as u64 },
        Access::Read { at: 0x80, width: 4, value: previous as u64 },
        Access::Write { at: 0x80, width: 4, value: 0x20 },
        Access::Read { at: 0x80, width: 4, value: observed as u64 },
        Access::Write { at: 0x80, width: 4, value: previous as u64 },
    ]);
    assert(seq![window::read(REG_ID, 4, id as int)] + Seq::<Access>::empty() =~= seq![
        Access::Read { at: 0x20, width: 4, value: id as u64 },
    ]);
}

/// The base register in numbers: bit 11 turns the APIC on and nothing else is
/// touched, and it is where it is looked for when bits 12 to 31 say 0xfee00.
pub proof fn law_base_in_numbers(base: u64)
    ensures
        base | APIC_ENABLE == base + (1 - base / 2048 % 2) * 2048,
        base & APIC_BASE_MASK == APIC_MMIO <==> base / 4096 % 0x10_0000 == 0xfee00,
{
    assert(base | 0x800 == base + (1 - base / 2048 % 2) * 2048) by (bit_vector);
    assert((base & 0xffff_f000 == 0xfee0_0000) == (base / 4096 % 0x10_0000 == 0xfee00))
        by (bit_vector);
}

} // verus!
