//! What every platform has in common: why it refuses, and what memory is.
use vstd::prelude::*;

verus! {

/// Why memory could not be mapped.
#[derive(Clone, Copy, Debug, PartialEq, Eq, Structural)]
pub enum MappingError {
    /// An address no mapping can have.
    InvalidAddress,
    /// Writable and executable at once, or a device mapped executable.
    InvalidPermissions,
    /// No frame left for a table, or no room left in a region.
    OutOfFrames,
    /// Nothing is mapped there, or no address space is active.
    Unmapped,
    /// Something is mapped where nothing should be.
    Unexpected,
    /// The tables hold what this kernel never builds, or a log is full.
    Backend,
}

/// Why a view of the address space could not be changed.
#[derive(Clone, Copy, Debug, PartialEq, Eq, Structural)]
pub enum ViewError {
    /// No room for another view.
    Capacity,
    /// No such view is open.
    Unknown,
    /// The memory behind a grant is too small, or not aligned to its leaves.
    Backing,
    /// The view has no such leaf.
    Absent,
}

/// Why a platform could not do what it was asked.
#[derive(Clone, Copy, Debug, PartialEq, Eq, Structural)]
pub enum PlatformError {
    Unsupported,
    MissingPhysicalMemoryMap,
    InvalidHardware,
    Mapping(MappingError),
    View(ViewError),
}

/// The memory type an access gets.
#[derive(Clone, Copy, Debug, PartialEq, Eq, Structural)]
pub enum Cache {
    WriteBack,
    Device,
}

/// What may be done with memory.
#[derive(Clone, Copy, Debug, PartialEq, Eq, Structural)]
pub struct Rights {
    pub read: bool,
    pub write: bool,
    pub execute: bool,
}

impl Rights {
    pub fn new(read: bool, write: bool, execute: bool) -> (rights: Self)
        ensures
            rights == (Rights { read, write, execute }),
    {
        Rights { read, write, execute }
    }

    pub fn is_read(self) -> (is: bool)
        ensures
            is == self.read,
    {
        self.read
    }

    pub fn is_write(self) -> (is: bool)
        ensures
            is == self.write,
    {
        self.write
    }

    pub fn is_execute(self) -> (is: bool)
        ensures
            is == self.execute,
    {
        self.execute
    }
}

/// What a live leaf permits, and the memory type behind it.
#[derive(Clone, Copy, Debug, PartialEq, Eq, Structural)]
pub struct PageProtection {
    pub read: bool,
    pub write: bool,
    pub execute: bool,
    pub cache: Cache,
}

/// One live leaf.
#[derive(Clone, Copy, Debug, PartialEq, Eq, Structural)]
pub struct Leaf {
    pub start: u64,
    pub size: u64,
    pub protection: PageProtection,
}

impl Leaf {
    pub fn new(start: u64, size: u64, protection: PageProtection) -> (leaf: Self)
        ensures
            leaf == (Leaf { start, size, protection }),
    {
        Leaf { start, size, protection }
    }

    pub fn start(self) -> (start: u64)
        ensures
            start == self.start,
    {
        self.start
    }

    pub fn size(self) -> (size: u64)
        ensures
            size == self.size,
    {
        self.size
    }
}

/// The parts of the kernel image.
#[derive(Clone, Copy, Debug, PartialEq, Eq, Structural)]
pub enum ImageSection {
    Text,
    Rodata,
    Data,
}

/// What a mapped range holds.
#[derive(Clone, Copy, Debug, PartialEq, Eq, Structural)]
pub enum Contents {
    Ram,
    Image,
    Section(ImageSection),
    Device,
}

/// One declared range of mapped addresses.
#[derive(Clone, Copy, Debug, PartialEq, Eq, Structural)]
pub struct MappedRange {
    pub start: u64,
    pub end: u64,
    pub contents: Contents,
}

impl MappedRange {
    pub fn new(start: u64, end: u64, contents: Contents) -> (range: Self)
        ensures
            range == (MappedRange { start, end, contents }),
    {
        MappedRange { start, end, contents }
    }

    pub fn ram(start: u64, end: u64) -> (range: Self)
        ensures
            range == (MappedRange { start, end, contents: Contents::Ram }),
    {
        MappedRange { start, end, contents: Contents::Ram }
    }

    pub fn image(start: u64, end: u64) -> (range: Self)
        ensures
            range == (MappedRange { start, end, contents: Contents::Image }),
    {
        MappedRange { start, end, contents: Contents::Image }
    }

    pub fn section(section: ImageSection, start: u64, end: u64) -> (range: Self)
        ensures
            range == (MappedRange { start, end, contents: Contents::Section(section) }),
    {
        MappedRange { start, end, contents: Contents::Section(section) }
    }

    pub fn device(start: u64, end: u64) -> (range: Self)
        ensures
            range == (MappedRange { start, end, contents: Contents::Device }),
    {
        MappedRange { start, end, contents: Contents::Device }
    }
}

/// What firmware says a physical address is.
#[derive(Clone, Copy, Debug, PartialEq, Eq, Structural)]
pub enum Kind {
    Ram,
    Image,
    Reserved,
    Device,
}

/// A run of physical memory.
#[derive(Clone, Copy, Debug, PartialEq, Eq, Structural)]
pub struct Span {
    pub start: u64,
    pub bytes: u64,
}

/// A run of virtual addresses, `leaves` leaves of one level long.
#[derive(Clone, Copy, Debug, PartialEq, Eq, Structural)]
pub struct Extent {
    pub start: u64,
    pub level: usize,
    pub leaves: u64,
}

/// The configuration space of one bus.
pub const BUS_STRIDE: u64 = 0x10_0000;

/// An ECAM window: the configuration space of a run of buses.
#[derive(Clone, Copy, Debug, PartialEq, Eq, Structural)]
pub struct ConfigSpace {
    pub base: u64,
    pub segment: u16,
    pub first_bus: u8,
    pub last_bus: u8,
}

/// Why a window was refused: it claims no buses, or more than have addresses.
#[derive(Clone, Copy, Debug, PartialEq, Eq, Structural)]
pub enum SpaceError {
    Range,
}

impl ConfigSpace {
    pub fn new(base: u64, segment: u16, first_bus: u8, last_bus: u8) -> (space: Result<
        Self,
        SpaceError,
    >)
        ensures
            space == if first_bus <= last_bus {
                Ok(ConfigSpace { base, segment, first_bus, last_bus })
            } else {
                Err(SpaceError::Range)
            },
    {
        if first_bus > last_bus {
            return Err(SpaceError::Range);
        }
        Ok(ConfigSpace { base, segment, first_bus, last_bus })
    }

    pub fn segment(self) -> (segment: u16)
        ensures
            segment == self.segment,
    {
        self.segment
    }

    pub fn first_bus(self) -> (bus: u8)
        ensures
            bus == self.first_bus,
    {
        self.first_bus
    }

    pub fn last_bus(self) -> (bus: u8)
        ensures
            bus == self.last_bus,
    {
        self.last_bus
    }

    /// The physical memory the window takes.
    pub fn span(self) -> (span: Result<Span, SpaceError>)
        ensures
            span == if self.first_bus <= self.last_bus && self.base + (self.last_bus - self.first_bus
                + 1) * BUS_STRIDE <= u64::MAX {
                Ok(
                    Span {
                        start: self.base,
                        bytes: ((self.last_bus - self.first_bus + 1) * BUS_STRIDE) as u64,
                    },
                )
            } else {
                Err(SpaceError::Range)
            },
    {
        if self.first_bus > self.last_bus {
            return Err(SpaceError::Range);
        }
        let bytes: u64 = ((self.last_bus - self.first_bus) as u64 + 1) * BUS_STRIDE;
        if self.base > u64::MAX - bytes {
            return Err(SpaceError::Range);
        }
        Ok(Span { start: self.base, bytes })
    }
}

impl Span {
    pub fn start(self) -> (start: u64)
        ensures
            start == self.start,
    {
        self.start
    }

    pub fn bytes(self) -> (bytes: u64)
        ensures
            bytes == self.bytes,
    {
        self.bytes
    }
}

/// What firmware says a run of memory may be used for.
#[derive(Clone, Copy, Debug, PartialEq, Eq, Structural)]
pub enum MemoryRegionKind {
    Usable,
    Reserved,
    Bootloader,
    Firmware(u32),
}

/// One run of the memory map.
#[derive(Clone, Copy, Debug, PartialEq, Eq, Structural)]
pub struct MemoryRegion {
    pub start: u64,
    pub end: u64,
    pub kind: MemoryRegionKind,
}

impl MemoryRegion {
    pub fn new(start: u64, end: u64, kind: MemoryRegionKind) -> (region: Self)
        ensures
            region == (MemoryRegion { start, end, kind }),
    {
        MemoryRegion { start, end, kind }
    }
}

/// How the machine ends.
#[derive(Clone, Copy, Debug, PartialEq, Eq, Structural)]
pub enum ExitStatus {
    Success,
    Failure,
}

/// Why a domain came back to the kernel.
#[derive(Clone, Copy, Debug, PartialEq, Eq, Structural)]
pub enum DomainExit {
    /// It rang for its ring to be looked at.
    Ring,
    /// It is done.
    Exited(i64),
    /// It did what it may not.
    Fault { cause: u64, address: u64 },
}

/// What a gateway reports a domain came back for.
pub const KICK: u64 = 0;

pub const EXIT: u64 = 1;

/// Why a domain came back, from what its gateway saved.
pub fn domain_exit(reason: u64, value: i64, cause: u64, address: u64) -> (exit: DomainExit)
    ensures
        exit == if reason == KICK {
            DomainExit::Ring
        } else if reason == EXIT {
            DomainExit::Exited(value)
        } else {
            DomainExit::Fault { cause, address }
        },
{
    if reason == KICK {
        DomainExit::Ring
    } else if reason == EXIT {
        DomainExit::Exited(value)
    } else {
        DomainExit::Fault { cause, address }
    }
}

/// A domain's first entry: where it starts, on which stack, with what.
#[derive(Clone, Copy, Debug, PartialEq, Eq)]
pub struct DomainStart {
    pub entry: u64,
    pub stack: u64,
    pub arguments: [u64; 6],
}

/// One register of a gateway's page and what goes into it.
#[derive(Clone, Copy, Debug, PartialEq, Eq, Structural)]
pub struct Saved {
    pub offset: usize,
    pub value: u64,
}

/// Why the interrupt fabric refused.
#[derive(Clone, Copy, Debug, PartialEq, Eq, Structural)]
pub enum FabricError {
    /// Every vector is taken.
    Exhausted,
    /// No such vector is held.
    Unknown,
}

/// The write a device makes to interrupt.
#[derive(Clone, Copy, Debug, PartialEq, Eq, Structural)]
pub struct MsiMessage {
    pub address: u64,
    pub data: u32,
}

/// What one function of a bus looks like from outside.
#[derive(Clone, Copy, Debug, PartialEq, Eq, Structural)]
pub struct DeviceFunction {
    pub bus: u8,
    pub device: u8,
    pub function: u8,
    pub vendor: u16,
    pub id: u16,
    pub class: u8,
    pub subclass: u8,
    pub windows: u8,
    pub vectors: u16,
}

/// How many vectors a function has. MSI-X first: a device that implements both
/// is driven through the form with a mask bit per vector.
pub fn vectors(msix: Option<u16>, msi: Option<u16>) -> (count: u16)
    ensures
        count == match (msix, msi) {
            (Some(count), _) => count,
            (None, Some(count)) => count,
            (None, None) => 0u16,
        },
{
    match msix {
        Some(count) => count,
        None => match msi {
            Some(count) => count,
            None => 0,
        },
    }
}

/// One function as the bus has it: who it is, how many of its windows decode
/// anything, and how many vectors each message capability has, where it has
/// one.
#[derive(Clone, Copy, Debug, PartialEq, Eq, Structural)]
pub struct Probed {
    pub bus: u8,
    pub device: u8,
    pub function: u8,
    pub vendor: u16,
    pub id: u16,
    pub class: u8,
    pub subclass: u8,
    pub bars: u8,
    pub msix: Option<u16>,
    pub msi: Option<u16>,
}

/// What one function looks like from outside the bus.
pub fn report(function: Probed) -> (reported: DeviceFunction)
    ensures
        reported == (DeviceFunction {
            bus: function.bus,
            device: function.device,
            function: function.function,
            vendor: function.vendor,
            id: function.id,
            class: function.class,
            subclass: function.subclass,
            windows: function.bars,
            vectors: match (function.msix, function.msi) {
                (Some(count), _) => count,
                (None, Some(count)) => count,
                (None, None) => 0u16,
            },
        }),
{
    DeviceFunction {
        bus: function.bus,
        device: function.device,
        function: function.function,
        vendor: function.vendor,
        id: function.id,
        class: function.class,
        subclass: function.subclass,
        windows: function.bars,
        vectors: vectors(function.msix, function.msi),
    }
}

} // verus!
