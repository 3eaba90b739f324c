//! What the loader hands over, and how the machine is ended.
use vstd::prelude::*;

use bootloader_api::info::{
    MemoryRegion as BootRegion, MemoryRegionKind as BootKind, MemoryRegions,
};

use crate::arch::{ExitStatus, MemoryRegion, MemoryRegionKind};

verus! {

/// Where the loader must place the boot stack, and how large it is.
///
/// The kernel re-creates the stack mapping in its own tables before switching
/// `CR3`, and it cannot ask the loader afterwards where the stack went — the
/// boot info does not say. Pinning the address is what makes the window
/// findable, so it is a fixed address rather than a dynamic one.
pub const STACK_BASE: u64 = 0xffff_9000_0000_0000;

pub const STACK_SIZE: u64 = 0x2_0000;

/// Where the loader must place its boot info, and the window the kernel clones
/// around it. The structure's length depends on the firmware memory map, so the
/// window is sized for the largest map and holes are skipped.
pub const BOOT_INFO_BASE: u64 = 0xffff_9100_0000_0000;

pub const BOOT_INFO_WINDOW: u64 = 0x20_0000;

/// `bootloader_api::info::MemoryRegions`, the loader's memory map.
#[verifier::external_type_specification]
#[verifier::external_body]
pub struct ExMemoryRegions(MemoryRegions);

/// `bootloader_api::info::MemoryRegion`, one entry of that map.
#[verifier::external_type_specification]
#[verifier::external_body]
pub struct ExBootRegion(BootRegion);

/// What the loader says one region is for.
#[derive(Clone, Copy, Debug, PartialEq, Eq, Structural)]
pub enum Listing {
    Usable,
    Bootloader,
    Uefi(u32),
    Bios(u32),
    Other,
}

/// One region as the loader lists it.
#[derive(Clone, Copy, Debug, PartialEq, Eq, Structural)]
pub struct Listed {
    pub start: u64,
    pub end: u64,
    pub listing: Listing,
}

/// The regions a loader's memory map lists, in its order.
pub uninterp spec fn listed_in(regions: MemoryRegions) -> Seq<Listed>;

/// `MemoryRegions` as a slice: `len` is how many regions the map lists.
#[verifier::external_body]
fn region_count(regions: &MemoryRegions) -> (len: usize)
    ensures
        len == listed_in(*regions).len(),
{
    regions.len()
}

/// `MemoryRegions` as a slice: `get` is the region at an index, and nothing past
/// the last one. A region kind this crate has no name for is listed as another.
#[verifier::external_body]
fn region_at(regions: &MemoryRegions, index: usize) -> (region: Option<Listed>)
    ensures
        region == if index < listed_in(*regions).len() {
            Some(listed_in(*regions)[index as int])
        } else {
            None
        },
{
    regions.get(index).map(|region| Listed {
        start: region.start,
        end: region.end,
        listing: match region.kind {
            BootKind::Usable => Listing::Usable,
            BootKind::Bootloader => Listing::Bootloader,
            BootKind::UnknownUefi(tag) => Listing::Uefi(tag),
            BootKind::UnknownBios(tag) => Listing::Bios(tag),
            _ => Listing::Other,
        },
    })
}

/// What a loader's region may be used for.
pub open spec fn kind_of(listing: Listing) -> MemoryRegionKind {
    match listing {
        Listing::Usable => MemoryRegionKind::Usable,
        Listing::Bootloader => MemoryRegionKind::Bootloader,
        Listing::Uefi(tag) => MemoryRegionKind::Firmware(tag),
        Listing::Bios(tag) => MemoryRegionKind::Firmware(tag),
        Listing::Other => MemoryRegionKind::Reserved,
    }
}

/// A region of the loader's as one of the memory map.
pub fn region_of(listed: Listed) -> (region: MemoryRegion)
    ensures
        region == (MemoryRegion {
            start: listed.start,
            end: listed.end,
            kind: kind_of(listed.listing),
        }),
{
    let kind = match listed.listing {
        Listing::Usable => MemoryRegionKind::Usable,
        Listing::Bootloader => MemoryRegionKind::Bootloader,
        Listing::Uefi(tag) => MemoryRegionKind::Firmware(tag),
        Listing::Bios(tag) => MemoryRegionKind::Firmware(tag),
        Listing::Other => MemoryRegionKind::Reserved,
    };
    MemoryRegion::new(listed.start, listed.end, kind)
}

/// The memory map, as the loader hands it over.
pub struct BootloaderMemoryMap<'map> {
    pub regions: &'map MemoryRegions,
}

impl<'map> BootloaderMemoryMap<'map> {
    pub fn new(regions: &'map MemoryRegions) -> (map: Self)
        ensures
            map.regions == regions,
    {
        BootloaderMemoryMap { regions }
    }

    pub fn len(&self) -> (len: usize)
        ensures
            len == listed_in(*self.regions).len(),
    {
        region_count(self.regions)
    }

    pub fn region(&self, index: usize) -> (region: Option<MemoryRegion>)
        ensures
            match region {
                Some(region) => {
                    &&& index < listed_in(*self.regions).len()
                    &&& region.start == listed_in(*self.regions)[index as int].start
                    &&& region.end == listed_in(*self.regions)[index as int].end
                    &&& region.kind == kind_of(listed_in(*self.regions)[index as int].listing)
                },
                None => index >= listed_in(*self.regions).len(),
            },
    {
        match region_at(self.regions, index) {
            Some(listed) => Some(region_of(listed)),
            None => None,
        }
    }
}

/// The code the exit device is written to end the machine with.
pub fn exit_code(status: ExitStatus) -> (code: u32)
    ensures
        code == match status {
            ExitStatus::Success => 0x10u32,
            ExitStatus::Failure => 0x11u32,
        },
{
    match status {
        ExitStatus::Success => 0x10,
        ExitStatus::Failure => 0x11,
    }
}

/// The port writes that set COM1 up: interrupts off, 38400 baud, eight bits and
/// no parity, FIFOs on and cleared, ready to send.
pub fn serial_setup() -> (writes: [(u16, u8); 7])
    ensures
        writes@ == seq![
            (0x3f9u16, 0x00u8),
            (0x3fbu16, 0x80u8),
            (0x3f8u16, 0x03u8),
            (0x3f9u16, 0x00u8),
            (0x3fbu16, 0x03u8),
            (0x3fau16, 0xc7u8),
            (0x3fcu16, 0x0bu8),
        ],
{
    [
        (0x3f9, 0x00),
        (0x3fb, 0x80),
        (0x3f8, 0x03),
        (0x3f9, 0x00),
        (0x3fb, 0x03),
        (0x3fa, 0xc7),
        (0x3fc, 0x0b),
    ]
}

/// Whether the port's line status says that it takes another byte.
pub fn serial_ready(line_status: u8) -> (ready: bool)
    ensures
        ready == (line_status / 0x20 % 2 == 1),
{
    line_status / 0x20 % 2 == 1
}

} // verus!
