//! The bits of a page-table entry.
use vstd::prelude::*;

use x86_64::structures::paging::PageTableFlags;

use crate::arch::{Cache, MappingError, PageProtection, Rights};

verus! {

pub const PRESENT: u64 = 0x1;

pub const WRITABLE: u64 = 0x2;

pub const WRITE_THROUGH: u64 = 0x8;

pub const NO_CACHE: u64 = 0x10;

pub const HUGE_PAGE: u64 = 0x80;

pub const NO_EXECUTE: u64 = 0x8000_0000_0000_0000;

/// The frame an entry points at: bits 12 to 51.
pub open spec fn address_bits(entry: u64) -> int {
    entry as int % 0x10_0000_0000_0000 - entry as int % 0x1000
}

/// Whether a flag of one bit is among the flags.
pub open spec fn set(flags: int, flag: u64) -> bool {
    flags / flag as int % 2 == 1
}

/// `x86_64::structures::paging::PageTableFlags::from_bits_truncate`: the bits of
/// an entry that are flags, which is all of them but the address.
#[verifier::external_body]
fn flag_bits(entry: u64) -> (flags: u64)
    ensures
        flags == entry - address_bits(entry),
{
    PageTableFlags::from_bits_truncate(entry).bits()
}

/// The frame an entry points at.
pub fn frame(entry: u64) -> (frame: u64)
    ensures
        frame == address_bits(entry),
        frame % 4096 == 0,
{
    entry % 0x10_0000_0000_0000 - entry % 0x1000
}

/// The flags of an entry.
pub fn flags(entry: u64) -> (flags: u64)
    ensures
        flags == entry - address_bits(entry),
{
    flag_bits(entry)
}

/// The flags of a leaf with these rights and memory type.
///
/// `PCD|PWT` selects PAT entry 3, which is pinned to uncacheable: the memory
/// type an MMIO window has to have for a register write to be a write.
pub open spec fn flags_for(rights: Rights, cache: Cache) -> int {
    PRESENT + (if rights.write {
        WRITABLE as int
    } else {
        0
    }) + (if cache == Cache::Device {
        (NO_CACHE + WRITE_THROUGH) as int
    } else {
        0
    }) + (if rights.execute {
        0
    } else {
        NO_EXECUTE as int
    })
}

pub fn leaf_flags(rights: Rights, cache: Cache) -> (flags: u64)
    ensures
        flags == flags_for(rights, cache),
{
    let mut flags: u64 = PRESENT;
    if rights.is_write() {
        flags = flags + WRITABLE;
    }
    if cache == Cache::Device {
        flags = flags + (NO_CACHE + WRITE_THROUGH);
    }
    if !rights.is_execute() {
        flags = flags + NO_EXECUTE;
    }
    flags
}

/// What the flags of a leaf permit, and the memory type they select.
pub open spec fn permitted(flags: int) -> PageProtection {
    PageProtection {
        read: set(flags, PRESENT),
        write: set(flags, WRITABLE),
        execute: !set(flags, NO_EXECUTE),
        cache: if set(flags, NO_CACHE) && set(flags, WRITE_THROUGH) {
            Cache::Device
        } else {
            Cache::WriteBack
        },
    }
}

/// Decodes rights and the PAT entry selected by `PCD|PWT`.
pub fn protection(flags: u64) -> (protection: PageProtection)
    ensures
        protection == permitted(flags as int),
{
    let device = flags / NO_CACHE % 2 == 1 && flags / WRITE_THROUGH % 2 == 1;
    PageProtection {
        read: flags / PRESENT % 2 == 1,
        write: flags / WRITABLE % 2 == 1,
        execute: !(flags / NO_EXECUTE % 2 == 1),
        cache: if device {
            Cache::Device
        } else {
            Cache::WriteBack
        },
    }
}

/// A leaf reads back as what it was made with: its rights, present and so
/// readable, and its memory type.
pub proof fn law_flags_read_back(rights: Rights, cache: Cache)
    ensures
        permitted(flags_for(rights, cache)) == (PageProtection {
            read: true,
            write: rights.write,
            execute: rights.execute,
            cache,
        }),
{
}

/// The rights a live page keeps when it is mapped anew, unless it is both
/// writable and executable.
pub fn rights_of(protection: PageProtection) -> (rights: Result<Rights, MappingError>)
    ensures
        rights == if protection.write && protection.execute {
            Err::<Rights, MappingError>(MappingError::InvalidPermissions)
        } else {
            Ok(
                Rights {
                    read: protection.read,
                    write: protection.write,
                    execute: protection.execute,
                },
            )
        },
{
    if protection.write && protection.execute {
        return Err(MappingError::InvalidPermissions);
    }
    Ok(Rights::new(protection.read, protection.write, protection.execute))
}

/// The address of the lower or upper half an index path names: bit 47 repeated
/// through the bits above it.
pub open spec fn canonical_of(address: int) -> int {
    let low = address % 0x1_0000_0000_0000;
    if low >= 0x8000_0000_0000 {
        low + 0xffff_0000_0000_0000
    } else {
        low
    }
}

pub fn canonical(address: u64) -> (canonical: u64)
    ensures
        canonical == canonical_of(address as int),
{
    let low: u64 = address % 0x1_0000_0000_0000;
    if low >= 0x8000_0000_0000 {
        low + 0xffff_0000_0000_0000
    } else {
        low
    }
}

/// The address and tag widths the machine translates with.
///
/// The address width is whatever paging mode the loader left on. The tag width
/// is a capability, not a state: a machine without process-context identifiers
/// gets zero, and pays a flush per view switch.
pub fn widths(five_levels: bool, ecx: u32) -> (widths: (u32, u32))
    ensures
        widths.0 == if five_levels {
            57u32
        } else {
            48u32
        },
        widths.1 == if ecx / 0x2_0000 % 2 == 1 {
            12u32
        } else {
            0u32
        },
{
    let address: u32 = if five_levels {
        57
    } else {
        48
    };
    let asid: u32 = if ecx / 0x2_0000 % 2 == 1 {
        12
    } else {
        0
    };
    (address, asid)
}

/// A leaf's flags in numbers: present (1), writable (2) where it may be written,
/// write-through and uncached (8 and 16) for a device, and the top bit where it
/// may not be run.
pub proof fn law_flags_in_numbers(rights: Rights, cache: Cache)
    ensures
        flags_for(rights, cache) == 1 + (if rights.write {
            2int
        } else {
            0
        }) + (if cache == Cache::Device {
            24int
        } else {
            0
        }) + (if rights.execute {
            0
        } else {
            9223372036854775808int
        }),
        HUGE_PAGE == 128,
{
}

/// An entry is its frame and its flags: the frame in bits 12 to 51, the flags in
/// all the others.
pub proof fn law_entry_is_frame_and_flags(entry: u64)
    ensures
        address_bits(entry) == entry as int / 4096 % 0x100_0000_0000 * 4096,
        0 <= entry - address_bits(entry),
        (entry - address_bits(entry)) / 4096 % 0x100_0000_0000 == 0,
{
}

/// An address is canonical once its bits 48 to 63 all are as its bit 47, and its
/// bits below stay.
pub proof fn law_canonical_extends_bit_47(address: u64)
    ensures
        canonical_of(address as int) % 0x1_0000_0000_0000 == address as int % 0x1_0000_0000_0000,
        0 <= canonical_of(address as int) <= u64::MAX,
        canonical_of(address as int) / 0x1_0000_0000_0000 == if address as int / 0x8000_0000_0000
            % 2 == 1 {
            0xffffint
        } else {
            0
        },
{
}

} // verus!
