//! The fields of `satp`: [`Mode`], and the [`Tag`] beside it.
//!
//! Both fields are discoverable rather than declared, which is why nothing here
//! asserts a width:
//!
//! - **MODE.** A write naming a mode the hart does not implement has no effect,
//!   so whatever reads back is the answer. [`Mode::WIDEST`] is the probe order;
//!   [`Mode::level`] is the depth the page-table code then walks.
//! - **ASID.** The specification leaves the implemented bit count UNSPECIFIED
//!   and the field WARL, so [`Tag::width`] is given what sixteen ones read back
//!   as and counts what stayed.
use vstd::prelude::*;

use crate::arch::{MappingError, PlatformError};

verus! {

/// A `satp` MODE the kernel is willing to run in.
#[derive(Clone, Copy, Debug, PartialEq, Eq, PartialOrd, Ord, Structural)]
pub enum Mode {
    /// Three levels, 39-bit addresses: 512 GiB.
    Sv39,
    /// Four levels, 48-bit addresses: 256 TiB.
    Sv48,
    /// Five levels, 57-bit addresses: 128 PiB.
    Sv57,
}

/// What one unit of the MODE field, bits 63:60, weighs.
pub const MODE_UNIT: u64 = 0x1000_0000_0000_0000;

/// What one unit of the ASID field, bits 59:44, weighs.
pub const TAG_UNIT: u64 = 0x1000_0000_0000;

impl Mode {
    /// Probe order. Widest first, because the first write that takes wins.
    pub const WIDEST: [Mode; 3] = [Mode::Sv57, Mode::Sv48, Mode::Sv39];

    /// The encoding the privileged specification gives this mode.
    pub open spec fn encoding(self) -> int {
        match self {
            Mode::Sv39 => 8,
            Mode::Sv48 => 9,
            Mode::Sv57 => 10,
        }
    }

    /// The mode an encoding names.
    pub open spec fn decoded(code: int) -> Option<Mode> {
        if code == 8 {
            Some(Mode::Sv39)
        } else if code == 9 {
            Some(Mode::Sv48)
        } else if code == 10 {
            Some(Mode::Sv57)
        } else {
            None
        }
    }

    /// How many virtual address bits a mode resolves.
    pub open spec fn width(self) -> int {
        match self {
            Mode::Sv39 => 39,
            Mode::Sv48 => 48,
            Mode::Sv57 => 57,
        }
    }

    /// The MODE field, already shifted where `satp` wants it.
    pub fn field(self) -> (field: u64)
        ensures
            field == self.encoding() * MODE_UNIT,
    {
        self.code() as u64 * MODE_UNIT
    }

    fn code(self) -> (code: u8)
        ensures
            code == self.encoding(),
    {
        match self {
            Mode::Sv39 => 8,
            Mode::Sv48 => 9,
            Mode::Sv57 => 10,
        }
    }

    /// Decodes the MODE a `satp` value reads back with. `None` covers Bare and
    /// every encoding this kernel does not build tables for, which answers the
    /// probe's only question the same way: not the mode that was written.
    pub fn of(satp: u64) -> (mode: Option<Self>)
        ensures
            mode == Mode::decoded(satp as int / MODE_UNIT as int),
    {
        match satp / MODE_UNIT {
            8 => Some(Mode::Sv39),
            9 => Some(Mode::Sv48),
            10 => Some(Mode::Sv57),
            _ => None,
        }
    }

    /// How many virtual address bits translation resolves.
    pub fn bits(self) -> (bits: u32)
        ensures
            bits == self.width(),
    {
        match self {
            Mode::Sv39 => 39,
            Mode::Sv48 => 48,
            Mode::Sv57 => 57,
        }
    }

    /// The level the root table sits at.
    ///
    /// Level `n` of a virtual address is the nine bits at `12 + 9 * n`, so the
    /// root of a mode resolving `bits` addresses is at `(bits - 12) / 9 - 1`.
    pub fn level(self) -> (level: usize)
        ensures
            level == (self.width() - 12) / 9 - 1,
            2 <= level <= 4,
    {
        (self.bits() as usize - 12) / 9 - 1
    }

    /// The lowercase name the boot marker prints.
    pub fn name(self) -> (name: &'static str)
        ensures
            name@ == match self {
                Mode::Sv39 => "sv39"@,
                Mode::Sv48 => "sv48"@,
                Mode::Sv57 => "sv57"@,
            },
    {
        match self {
            Mode::Sv39 => "sv39",
            Mode::Sv48 => "sv48",
            Mode::Sv57 => "sv57",
        }
    }

    /// A virtual address only this mode can translate, so that the width is
    /// proven by a translation rather than asserted.
    ///
    /// Well inside the lower canonical half, so the sign extension a wider mode
    /// demands above `bits() - 1` is satisfied by those bits being zero.
    pub fn probe_va(self) -> (va: u64)
        ensures
            va == match self {
                Mode::Sv39 => 0x2000_0000u64,
                Mode::Sv48 => 0x4000_0000_0000,
                Mode::Sv57 => 0x40_0000_0000_0000,
            },
    {
        match self {
            // Below 512 GiB: Sv39 has nowhere else to put it.
            Mode::Sv39 => 0x2000_0000,
            // 64 TiB and 16 PiB: unreachable one mode down.
            Mode::Sv48 => 0x4000_0000_0000,
            Mode::Sv57 => 0x40_0000_0000_0000,
        }
    }
}

/// The mode to try once `refused` was, or first of all.
pub open spec fn tried_after(refused: Option<Mode>) -> Option<Mode> {
    match refused {
        None => Some(Mode::Sv57),
        Some(Mode::Sv57) => Some(Mode::Sv48),
        Some(Mode::Sv48) => Some(Mode::Sv39),
        Some(Mode::Sv39) => None,
    }
}

/// The mode to try once `refused` was, or first of all: widest first. A hart
/// that implements none of them cannot run this kernel.
pub fn next_mode(refused: Option<Mode>) -> (mode: Result<Mode, PlatformError>)
    ensures
        match mode {
            Ok(mode) => tried_after(refused) == Some(mode),
            Err(error) => tried_after(refused) is None && error == PlatformError::Mapping(
                MappingError::Backend,
            ),
        },
{
    match refused {
        None => Ok(Mode::Sv57),
        Some(Mode::Sv57) => Ok(Mode::Sv48),
        Some(Mode::Sv48) => Ok(Mode::Sv39),
        Some(Mode::Sv39) => Err(PlatformError::Mapping(MappingError::Backend)),
    }
}

/// The mode a hart ends up in that keeps the modes `keeps` says it does.
pub open spec fn settled(keeps: spec_fn(Mode) -> bool, refused: Option<Mode>) -> Option<Mode>
    decreases
            match refused {
                None => 4int,
                Some(mode) => mode.encoding() - 7,
            },
{
    match tried_after(refused) {
        None => None,
        Some(mode) => if keeps(mode) {
            Some(mode)
        } else {
            settled(keeps, Some(mode))
        },
    }
}

/// The mode a hart ends up in is one it keeps, and no wider one is; and it ends
/// up in none only when it keeps none.
pub proof fn law_widest_mode_wins(keeps: spec_fn(Mode) -> bool)
    ensures
        match settled(keeps, None) {
            Some(mode) => keeps(mode) && forall|wider: Mode|
                wider.width() > mode.width() ==> !#[trigger] keeps(wider),
            None => forall|any: Mode| !#[trigger] keeps(any),
        },
{
    reveal_with_fuel(settled, 5);
}

/// Whether the hart kept the `satp` that was written: `live` is what reads back.
pub fn kept(mode: Mode, root: u64, live: u64) -> (kept: bool)
    requires
        root < 0x100_0000_0000_0000,
    ensures
        kept == (live == composed(mode, 0, root)),
{
    live == compose(mode, 0, root)
}

/// How many low bits of a number are ones before the first zero.
pub open spec fn trailing_ones(value: nat) -> nat
    decreases value,
{
    if value % 2 == 1 {
        1 + trailing_ones(value / 2)
    } else {
        0
    }
}

/// The ASID field of `satp`: bits 59:44, sixteen bits at most on RV64.
pub struct Tag;

impl Tag {
    /// Every bit the field could possibly hold, which is what the probe writes.
    pub const MASK: u64 = 0x0fff_f000_0000_0000;

    /// A tag, already shifted where `satp` wants it.
    pub fn field(value: u16) -> (field: u64)
        ensures
            field == value * TAG_UNIT,
    {
        value as u64 * TAG_UNIT
    }

    /// The tag in a `satp` value.
    pub open spec fn read(satp: u64) -> int {
        satp as int / TAG_UNIT as int % 0x1_0000
    }

    /// The tag a `satp` value reads back with.
    pub fn of(satp: u64) -> (tag: u16)
        ensures
            tag == Tag::read(satp),
    {
        ((satp / TAG_UNIT) % 0x1_0000) as u16
    }

    /// A `satp` with every bit of its tag set, and nothing else changed.
    pub fn all(satp: u64) -> (probe: u64)
        ensures
            Tag::read(probe) == 0xffff,
            probe as int / MODE_UNIT as int == satp as int / MODE_UNIT as int,
            probe as int % TAG_UNIT as int == satp as int % TAG_UNIT as int,
    {
        satp - Tag::of(satp) as u64 * TAG_UNIT + 0xffff * TAG_UNIT
    }

    /// How many tag bits a hart implements, given a `satp` read back after
    /// [`MASK`](Self::MASK) was written into it.
    ///
    /// Only the low contiguous run counts: the field is WARL, so a hart may
    /// leave a high bit set that it does not decode, and a tag whose low bits
    /// alias another domain's is worse than no tag.
    pub fn width(live: u64) -> (bits: u32)
        ensures
            bits == trailing_ones(Tag::read(live) as nat),
            bits <= 16,
    {
        let tag: u16 = Tag::of(live);
        let mut rest: u16 = tag;
        let mut bits: u32 = 0;
        let ghost mut bound: int = 0x1_0000;
        proof {
            reveal_with_fuel(power, 17);
        }
        while rest % 2 == 1
            invariant
                bits <= 16,
                bits + trailing_ones(rest as nat) == trailing_ones(tag as nat),
                rest < bound,
                bound == power(16 - bits),
            decreases rest,
        {
            proof {
                bound = bound / 2;
            }
            rest = rest / 2;
            bits = bits + 1;
        }
        bits
    }
}

spec fn power(n: int) -> int
    decreases n,
{
    if n <= 0 {
        1
    } else {
        2 * power(n - 1)
    }
}

/// The `satp` that translates through the table at `root`.
pub open spec fn composed(mode: Mode, tag: u16, root: u64) -> int {
    mode.encoding() * MODE_UNIT + tag * TAG_UNIT + root as int / 4096
}

/// The `satp` that selects `mode` and `tag` and translates through the table
/// at `root`.
pub fn compose(mode: Mode, tag: u16, root: u64) -> (satp: u64)
    requires
        root < 0x100_0000_0000_0000,
    ensures
        satp == composed(mode, tag, root),
{
    mode.field() + Tag::field(tag) + root / 4096
}

/// Every field of a `satp` reads back as it was composed.
pub proof fn law_fields_read_back(mode: Mode, tag: u16, root: u64, satp: u64)
    requires
        root < 0x100_0000_0000_0000,
        satp == composed(mode, tag, root),
    ensures
        Mode::decoded(satp as int / MODE_UNIT as int) == Some(mode),
        Tag::read(satp) == tag,
        satp as int % TAG_UNIT as int == root as int / 4096,
{
}

/// A `satp` in numbers: 8, 9 or 10 in the top four bits for 39, 48 or 57 address
/// bits, the tag in the sixteen below, and the root's frame number.
pub proof fn law_satp_in_numbers(mode: Mode, tag: u16, root: u64)
    ensures
        composed(mode, tag, root) == (match mode {
            Mode::Sv39 => 8int,
            Mode::Sv48 => 9int,
            Mode::Sv57 => 10int,
        }) * 0x1000_0000_0000_0000 + tag * 0x1000_0000_0000 + root as int / 4096,
        mode.width() == match mode {
            Mode::Sv39 => 39int,
            Mode::Sv48 => 48int,
            Mode::Sv57 => 57int,
        },
        Tag::MASK == 0xffff * 0x1000_0000_0000,
{
}

/// The tag bits a hart has are the ones its lowest run of ones covers: that many
/// low bits are set, and the next is not.
pub proof fn law_tag_bits_are_the_low_run(value: nat)
    ensures
        value % vstd::arithmetic::power2::pow2(trailing_ones(value)) + 1
            == vstd::arithmetic::power2::pow2(trailing_ones(value)),
        value / vstd::arithmetic::power2::pow2(trailing_ones(value)) % 2 == 0,
    decreases value,
{
    let n = trailing_ones(value);
    vstd::arithmetic::power2::lemma2_to64();
    if value % 2 == 1 {
        let half = value / 2;
        law_tag_bits_are_the_low_run(half);
        let k = trailing_ones(half);
        let p = vstd::arithmetic::power2::pow2(k);
        vstd::arithmetic::power2::lemma_pow2_pos(k);
        vstd::arithmetic::power2::lemma_pow2_unfold(n);
        assert(vstd::arithmetic::power2::pow2(n) == 2 * p);
        let q = half / p;
        let r = half % p;
        assert(half == p * q + r) by {
            vstd::arithmetic::div_mod::lemma_fundamental_div_mod(half as int, p as int);
        }
        assert(value == (2 * p) * q + (2 * r + 1)) by (nonlinear_arith)
            requires
                value == 2 * half + 1,
                half == p * q + r,
        ;
        assert(2 * r + 1 < 2 * p);
        vstd::arithmetic::div_mod::lemma_fundamental_div_mod_converse(
            value as int,
            (2 * p) as int,
            q as int,
            (2 * r + 1) as int,
        );
    }
}

/// Modes are tried widest first, each next one the widest that is narrower, until
/// none is narrower.
pub proof fn law_modes_are_tried_widest_first(refused: Mode, other: Mode)
    ensures
        tried_after(None) matches Some(first) && other.width() <= first.width(),
        match tried_after(Some(refused)) {
            Some(next) => next.width() < refused.width() && (other.width() < refused.width()
                ==> other.width() <= next.width()),
            None => refused.width() <= other.width(),
        },
{
}

} // verus!
