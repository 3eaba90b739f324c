use molt::arch::{
    Cache, DomainExit, DomainStart, Extent, ImageSection, Kind, MappedRange, MappingError,
    MemoryRegion, MemoryRegionKind, PlatformError, Rights, Saved, Span, ViewError, domain_exit,
};
use molt::memory::{FramePool, Ram};
use molt::riscv::ap;
use molt::riscv::boot::{uart_ready, Image};
use molt::riscv::console::{Call, Console, SbiSerial};
use molt::riscv::csr;
use molt::riscv::domain;
use molt::riscv::entry::{PTE_R, PTE_W, PTE_X};
use molt::riscv::error::SbiError;
use molt::riscv::fdt::{self, DeviceTree, FdtError};
use molt::riscv::init::wanted;
use molt::riscv::mappings::{MappingLog, CAPACITY};
use molt::riscv::paging::{self, Paging};
use molt::riscv::pci;
use molt::riscv::platform::{RiscVMemoryMap, RAM_END};
use molt::riscv::range::{leaf_flags, Granularity};
use molt::riscv::satp::{self, kept, next_mode, Mode, Tag};
use molt::riscv::sbi::{self, SbiReturn};
use molt::riscv::table::Tables;
use molt::riscv::trap::{self, Action, Trapped};
use molt::smp::{Percpu, SmpError};

// SBI errors.

#[test]
fn success_is_not_error() {
    assert_eq!(SbiError::from_code(0), None);
}

#[test]
fn standard_codes_decode_to_named_errors() {
    assert_eq!(SbiError::from_code(-2), Some(SbiError::NotSupported));
    assert_eq!(SbiError::from_code(-5), Some(SbiError::InvalidAddress));
}

#[test]
fn unknown_codes_keep_value() {
    assert_eq!(SbiError::from_code(-42), Some(SbiError::Other(-42)),);
}

#[test]
fn an_answer_is_a_value_or_an_error() {
    assert_eq!(SbiReturn { error: 0, value: 7 }.into_result(), Ok(7));
    assert_eq!(SbiReturn { error: -1, value: 7 }.into_result(), Err(SbiError::Failed));
    assert!(sbi::available(SbiReturn { error: 0, value: 1 }));
    assert!(!sbi::available(SbiReturn { error: 0, value: 0 }));
    assert!(!sbi::available(SbiReturn { error: -2, value: 1 }));
}

#[test]
fn a_deadline_wraps_with_the_counter() {
    assert_eq!(sbi::deadline(100, 5), 105);
    assert_eq!(sbi::deadline(u64::MAX, 2), 1);
}

// The device tree.

/// Assembles a header around a struct and a strings block.
fn blob(structs: &[u8], strings: &[u8]) -> Vec<u8> {
    let mut bytes = Vec::new();
    let offset = 40u32;
    bytes.extend_from_slice(&0xd00d_feedu32.to_be_bytes());
    bytes.extend_from_slice(&(offset + structs.len() as u32 + strings.len() as u32).to_be_bytes());
    bytes.extend_from_slice(&offset.to_be_bytes());
    bytes.extend_from_slice(&(offset + structs.len() as u32).to_be_bytes());
    bytes.extend_from_slice(&offset.to_be_bytes());
    bytes.extend_from_slice(&17u32.to_be_bytes());
    bytes.extend_from_slice(&16u32.to_be_bytes());
    bytes.extend_from_slice(&0u32.to_be_bytes());
    bytes.extend_from_slice(&(strings.len() as u32).to_be_bytes());
    bytes.extend_from_slice(&(structs.len() as u32).to_be_bytes());
    bytes.extend_from_slice(structs);
    bytes.extend_from_slice(strings);
    bytes
}

/// A root with 2/2 cells holding one node carrying `properties`.
fn tree(properties: &[(&str, &[u8])]) -> Vec<u8> {
    let mut structs = Vec::new();
    let mut strings = Vec::new();
    let begin = |structs: &mut Vec<u8>, name: &str| {
        structs.extend_from_slice(&1u32.to_be_bytes());
        structs.extend_from_slice(name.as_bytes());
        structs.push(0);
        while structs.len() % 4 != 0 {
            structs.push(0);
        }
    };
    let property = |structs: &mut Vec<u8>, strings: &mut Vec<u8>, name: &str, value: &[u8]| {
        structs.extend_from_slice(&3u32.to_be_bytes());
        structs.extend_from_slice(&(value.len() as u32).to_be_bytes());
        structs.extend_from_slice(&(strings.len() as u32).to_be_bytes());
        structs.extend_from_slice(value);
        while structs.len() % 4 != 0 {
            structs.push(0);
        }
        strings.extend_from_slice(name.as_bytes());
        strings.push(0);
    };

    begin(&mut structs, "");
    property(&mut structs, &mut strings, "#address-cells", &2u32.to_be_bytes());
    property(&mut structs, &mut strings, "#size-cells", &2u32.to_be_bytes());
    begin(&mut structs, "pci@30000000");
    for (name, value) in properties {
        property(&mut structs, &mut strings, name, value);
    }
    structs.extend_from_slice(&2u32.to_be_bytes());
    structs.extend_from_slice(&2u32.to_be_bytes());
    structs.extend_from_slice(&9u32.to_be_bytes());

    blob(&structs, &strings)
}

/// A `reg` of two address cells and two size cells, as QEMU `virt` emits.
fn reg(base: u64, size: u64) -> [u8; 16] {
    let mut bytes = [0u8; 16];
    bytes[..8].copy_from_slice(&base.to_be_bytes());
    bytes[8..].copy_from_slice(&size.to_be_bytes());
    bytes
}

fn bus_range(first: u32, last: u32) -> [u8; 8] {
    let mut bytes = [0u8; 8];
    bytes[..4].copy_from_slice(&first.to_be_bytes());
    bytes[4..].copy_from_slice(&last.to_be_bytes());
    bytes
}

#[test]
fn ecam_window_comes_from_the_pci_node() {
    let bytes = tree(&[
        ("compatible", b"pci-host-ecam-generic\0"),
        ("reg", &reg(0x3000_0000, 0x1000_0000)),
    ]);

    let space = DeviceTree::new(&bytes).ok().expect("a well-formed blob").config_space();

    let space = space.expect("a well-formed PCI node");
    assert_eq!(space.span().expect("an ECAM span").start(), 0x3000_0000);
    assert_eq!((space.first_bus(), space.last_bus()), (0, 0xff), "no bus-range means all buses");
}

#[test]
fn pci_domain_becomes_the_segment() {
    let bytes = tree(&[
        ("compatible", b"pci-host-ecam-generic\0"),
        ("reg", &reg(0x3000_0000, 0x1000_0000)),
        ("linux,pci-domain", &7u32.to_be_bytes()),
    ]);

    let space = DeviceTree::new(&bytes).ok().expect("a well-formed blob").config_space();

    assert_eq!(space.expect("a well-formed PCI node").segment(), 7);
}

#[test]
fn bus_range_narrows_the_last_bus() {
    let bytes = tree(&[
        ("compatible", b"pci-host-ecam-generic\0"),
        ("reg", &reg(0x3000_0000, 0x1000_0000)),
        ("bus-range", &bus_range(0, 15)),
    ]);

    let space = DeviceTree::new(&bytes).ok().expect("a well-formed blob").config_space();

    assert_eq!(space.expect("a well-formed PCI node").last_bus(), 15);
}

#[test]
fn window_too_small_for_the_bus_range_is_refused() {
    let bytes =
        tree(&[("compatible", b"pci-host-ecam-generic\0"), ("reg", &reg(0x3000_0000, 0x1000))]);

    let space = DeviceTree::new(&bytes).ok().expect("a well-formed blob").config_space();

    assert_eq!(space, Err(FdtError::Range), "256 buses need 256 MiB of window");
}

#[test]
fn inverted_bus_range_is_refused() {
    let bytes = tree(&[
        ("compatible", b"pci-host-ecam-generic\0"),
        ("reg", &reg(0x3000_0000, 0x1000_0000)),
        ("bus-range", &bus_range(5, 4)),
    ]);

    let space = DeviceTree::new(&bytes).ok().expect("a well-formed blob").config_space();

    assert_eq!(space, Err(FdtError::Range));
}

#[test]
fn tree_without_a_pci_node_is_missing() {
    let bytes = tree(&[("compatible", b"virtio,mmio\0"), ("reg", &reg(0x1000_1000, 0x1000))]);

    let space = DeviceTree::new(&bytes).ok().expect("a well-formed blob").config_space();

    assert_eq!(space, Err(FdtError::Missing));
}

#[test]
fn generic_binding_is_found_behind_a_more_specific_one() {
    let bytes = tree(&[
        ("compatible", b"vendor,ecam\0pci-host-ecam-generic\0"),
        ("reg", &reg(0x3000_0000, 0x1000_0000)),
    ]);

    assert!(DeviceTree::new(&bytes).ok().unwrap().config_space().is_ok());

    let bytes = tree(&[
        ("compatible", b"vendor,pci-host-ecam-generic\0"),
        ("reg", &reg(0x3000_0000, 0x1000_0000)),
    ]);
    assert_eq!(DeviceTree::new(&bytes).ok().unwrap().config_space(), Err(FdtError::Missing));
}

#[test]
fn a_null_device_tree_pointer_is_refused_without_a_load() {
    let space = fdt::config_space_at(None);

    assert_eq!(space, Err(FdtError::Missing), "a hart entered without a tree");
}

#[test]
fn a_device_tree_in_memory_yields_its_ecam_window() {
    let bytes = tree(&[
        ("compatible", b"pci-host-ecam-generic\0"),
        ("reg", &reg(0x3000_0000, 0x1000_0000)),
    ]);

    let space = fdt::config_space_at(Some(&bytes));

    assert_eq!(
        space.expect("a well-formed PCI node").span().expect("a span").start(),
        0x3000_0000
    );
}

#[test]
fn bad_magic_is_refused() {
    let mut bytes = tree(&[("compatible", b"pci-host-ecam-generic\0")]);

    bytes[0] ^= 0xff;

    assert_eq!(DeviceTree::new(&bytes).err(), Some(FdtError::Magic));
}

#[test]
fn newer_structure_is_refused() {
    let mut bytes = tree(&[("compatible", b"pci-host-ecam-generic\0")]);

    bytes[27] = 17;

    assert_eq!(DeviceTree::new(&bytes).err(), Some(FdtError::Version));
}

#[test]
fn node_without_registers_is_malformed() {
    let bytes = tree(&[("compatible", b"pci-host-ecam-generic\0")]);

    assert_eq!(DeviceTree::new(&bytes).ok().unwrap().config_space(), Err(FdtError::Malformed));
}

#[test]
fn truncated_struct_block_is_refused() {
    let mut bytes = tree(&[
        ("compatible", b"pci-host-ecam-generic\0"),
        ("reg", &reg(0x3000_0000, 0x1000_0000)),
    ]);
    // Drop the two closing tokens and the end token from `size_dt_struct`, so
    // the walk runs out of block with the node still open.
    let short = u32::from_be_bytes(bytes[36..40].try_into().expect("four bytes")) - 12;

    bytes[36..40].copy_from_slice(&short.to_be_bytes());

    let space = DeviceTree::new(&bytes).ok().expect("an intact header").config_space();
    assert_eq!(space, Err(FdtError::Truncated), "the last token reaches past the block");
}

// The log of declared ranges.

#[test]
fn a_window_already_in_the_log_is_refused() {
    let mut log = MappingLog::new();
    log.push(MappedRange::device(0x3000_0000, 0x3001_0000)).expect("room for one window");

    assert!(log.overlaps(0x3000_0000, 0x3001_0000), "the identical window");
    assert!(log.overlaps(0x3000_f000, 0x3002_0000), "a window sharing its last page");
    assert!(log.overlaps(0x2fff_f000, 0x3000_1000), "a window sharing its first page");
}

#[test]
fn a_window_beside_a_declared_range_is_allowed() {
    let mut log = MappingLog::new();
    log.push(MappedRange::device(0x3000_0000, 0x3001_0000)).expect("room for one window");

    assert!(!log.overlaps(0x3001_0000, 0x3002_0000), "the range is half-open");
    assert!(!log.overlaps(0x2fff_0000, 0x3000_0000), "and so is the query");
}

#[test]
fn a_full_log_refuses_another_range() {
    let mut log = MappingLog::new();
    for index in 0..CAPACITY as u64 {
        let start = 0x1_0000 * (index + 1);
        log.push(MappedRange::ram(start, start + 0x1000)).expect("a range that fits");
    }

    let overflow = log.push(MappedRange::ram(0, 0x1000));

    assert_eq!(overflow, Err(MappingError::Backend), "a range nobody declares is worse");
}

#[test]
fn only_a_declared_device_window_reads_back_as_uncached() {
    let mut log = MappingLog::new();
    log.push(MappedRange::ram(0x8000_0000, 0x8800_0000)).expect("room for RAM");
    log.push(MappedRange::device(0x3000_0000, 0x3001_0000)).expect("room for a window");

    assert_eq!(log.cache(0x3000_0000), Cache::Device);
    assert_eq!(log.cache(0x8000_0000), Cache::WriteBack);
    assert_eq!(log.cache(0x3001_0000), Cache::WriteBack, "one past the window");
}

// The fields of satp.

#[test]
fn field_round_trips_through_satp() {
    for mode in Mode::WIDEST {
        assert_eq!(Mode::of(mode.field() | 0x1234), Some(mode));
    }
}

#[test]
fn bare_and_unknown_modes_decode_to_nothing() {
    assert_eq!(Mode::of(0), None);
    // Sv32 on rv64, and the reserved encodings above Sv57.
    assert_eq!(Mode::of(1 << 60), None);
    assert_eq!(Mode::of(11 << 60), None);
    assert_eq!(Mode::of(15 << 60), None);
}

#[test]
fn levels_match_specified_widths() {
    assert_eq!(Mode::Sv39.level(), 2);
    assert_eq!(Mode::Sv48.level(), 3);
    assert_eq!(Mode::Sv57.level(), 4);
}

#[test]
fn probe_order_is_widest_first() {
    for pair in Mode::WIDEST.windows(2) {
        assert!(pair[0] > pair[1], "{pair:?} is not descending");
    }
}

#[test]
fn tag_round_trips_beside_mode() {
    let satp = Mode::Sv57.field() | Tag::field(0xbeef) | 0x8_0000;

    assert_eq!(Tag::of(satp), 0xbeef);
    assert_eq!(Mode::of(satp), Some(Mode::Sv57), "the tag disturbed the mode");
    assert_eq!(
        satp & !(Tag::MASK | Mode::Sv57.field()),
        0x8_0000,
        "the tag disturbed the root"
    );
}

#[test]
fn probe_counts_stuck_bits() {
    // What QEMU's `virt` hart answers with, and what a narrower one would.
    assert_eq!(Tag::width(Tag::MASK), 16);
    assert_eq!(Tag::width(Tag::field(0x1ff)), 9);
    assert_eq!(Tag::width(0), 0, "a hart with no field was read as having one");
}

#[test]
fn hole_in_field_ends_count() {
    // WARL lets a hart keep a bit it does not decode; anything above a gap
    // would hand two domains tags that alias in the bits that do decode.
    assert_eq!(Tag::width(Tag::field(0b1000_1111)), 4);
}

#[test]
fn probe_address_needs_naming_mode() {
    for mode in Mode::WIDEST {
        let va = mode.probe_va();
        assert!(va < (1 << (mode.bits() - 1)), "{} cannot translate {va:#x}", mode.name());
        if mode != Mode::Sv39 {
            let narrower = Mode::WIDEST[Mode::WIDEST.len() - 1];
            assert!(va > (1 << narrower.bits()), "{va:#x} is reachable below {}", mode.name());
        }
    }
}

// Translation tables.

const BASE: u64 = 0x8000_0000;

/// Tables over a run of frames, all of them free.
fn tables(frames: u64, top: usize) -> Tables<Ram> {
    let ram = Ram::new(BASE, vec![0u64; (frames * 512) as usize]);
    let mut pool = FramePool::empty();
    for frame in 0..frames {
        pool.give(BASE + frame * 4096);
    }
    Tables::new(ram, pool, top)
}

fn paging(frames: u64, mode: Mode) -> Paging<Ram> {
    let mut tables = tables(frames, mode.level());
    let root = tables.open_root().unwrap();
    Paging {
        tables,
        root,
        mode,
        asid_bits: 16,
        log: MappingLog::new(),
        devices: paging::DEVICE_REGION,
        views: [None; 8],
    }
}

const READ_WRITE: Rights = Rights { read: true, write: true, execute: false };

#[test]
fn mapped_page_translates_and_cleared_one_does_not() {
    let mut tables = tables(8, 2);
    let root = tables.open_root().unwrap();

    tables.map_leaf(root, 0x1234_5000, 0x9000_0000, leaf_flags(READ_WRITE), 0).unwrap();

    let (entry, level) = tables.lookup(root, 0x1234_5678).expect("a page");
    assert_eq!((paging::physical(entry), level), (0x9000_0000, 0));
    assert_eq!(tables.lookup(root, 0x1234_6000), None, "the page next door");

    tables.clear_leaf(root, 0x1234_5000);
    assert_eq!(tables.lookup(root, 0x1234_5678), None);
}

#[test]
fn larger_leaf_is_never_split() {
    let mut tables = tables(8, 2);
    let root = tables.open_root().unwrap();
    tables.map_leaf(root, 0, 0x4000_0000, leaf_flags(READ_WRITE), 1).unwrap();

    let split = tables.map_leaf(root, 0x1000, 0x9000_0000, leaf_flags(READ_WRITE), 0);

    assert_eq!(split, Err(MappingError::Backend));
    assert_eq!(tables.lookup(root, 0x1000).map(|(_, level)| level), Some(1));
}

#[test]
fn tables_run_out_of_frames() {
    let mut tables = tables(2, 2);
    let root = tables.open_root().unwrap();

    let starved = tables.map_leaf(root, 0, 0x9000_0000, leaf_flags(READ_WRITE), 0);

    assert_eq!(starved, Err(MappingError::OutOfFrames));
    assert_eq!(tables.lookup(root, 0), None);
}

#[test]
fn a_range_takes_the_tables_on_its_way() {
    let mut small = tables(8, 2);
    let root = small.open_root().unwrap();
    let rights = PTE_R | PTE_W;

    // Pages either side of a 2 MiB boundary: one gigabyte, two tables below it.
    let range = (0x401f_f000, 0x4020_1000);
    assert_eq!(small.map_range(root, range.0, range.1, rights, Granularity::Small), Ok(()));
    assert_eq!(small.pool.frames.len(), 4);
    assert_eq!(small.map_range(root, range.0, range.1, rights, Granularity::Small), Ok(()));
    assert_eq!(small.pool.frames.len(), 4, "the tables are there already");

    let mut large = tables(8, 2);
    let root = large.open_root().unwrap();
    let gigabyte = (0x4000_0000, 0x8000_0000);
    assert_eq!(large.map_range(root, gigabyte.0, gigabyte.1, rights, Granularity::LargeOk), Ok(()));
    assert_eq!(large.pool.frames.len(), 7, "a leaf in the root takes no table");
    let inside = large.map_range(root, range.0, range.1, rights, Granularity::Small);
    assert_eq!(inside, Err(MappingError::Backend), "a larger leaf is in the way");
    assert_eq!(large.pool.frames.len(), 7, "and no frame was drawn");

    let mut starved = tables(3, 2);
    let root = starved.open_root().unwrap();
    let short = starved.map_range(root, range.0, range.1, rights, Granularity::Small);
    assert_eq!(short, Err(MappingError::OutOfFrames));
    assert!(starved.lookup(root, range.0).is_some(), "the leaf before stays in place");
    assert_eq!(starved.lookup(root, 0x4020_0000), None);
}

#[test]
fn revoke_undoes_grant_and_views_stay_apart() {
    let mut paging = paging(32, Mode::Sv39);
    let one = paging.open_view(1).unwrap();
    let two = paging.open_view(2).unwrap();
    let extent = Extent { start: 0x4000_0000, level: 0, leaves: 3 };
    let memory = Span { start: 0x9000_0000, bytes: 3 * 4096 };

    paging.grant(one, extent, memory, READ_WRITE).unwrap();

    let leaf = paging.resident(one, 0x4000_1000).expect("the second page");
    assert_eq!((leaf.start, leaf.size), (0x4000_1000, 4096));
    assert!(leaf.protection.write && !leaf.protection.execute);
    assert_eq!(paging.resident(two, 0x4000_1000), None, "a grant leaked into another view");

    assert_eq!(paging.revoke(one, extent), Ok(3));
    assert_eq!(paging.resident(one, 0x4000_1000), None);
    assert_eq!(
        paging.revoke(one, extent),
        Err(PlatformError::View(ViewError::Absent)),
        "a grant was revoked twice"
    );

    let first = Extent { start: 0x4000_0000, level: 0, leaves: 2 };
    paging.grant(one, first, Span { start: 0x9000_0000, bytes: 2 * 4096 }, READ_WRITE).unwrap();
    assert_eq!(
        paging.revoke(one, extent),
        Err(PlatformError::View(ViewError::Absent)),
        "the third page was never granted"
    );
    assert_eq!(paging.resident(one, 0x4000_1000), None, "the pages before it are revoked");
}

#[test]
fn views_run_out_and_unknown_ones_are_refused() {
    let mut paging = paging(32, Mode::Sv39);
    for asid in 0..8 {
        paging.open_view(asid).unwrap();
    }

    assert_eq!(paging.open_view(9).err(), Some(PlatformError::View(ViewError::Capacity)));
    let unknown = molt::riscv::paging::AddressView { index: 12, asid: 0 };
    assert_eq!(
        paging.revoke(unknown, Extent { start: 0, level: 0, leaves: 1 }),
        Err(PlatformError::View(ViewError::Unknown))
    );
}

#[test]
fn backing_too_small_for_the_extent_is_refused() {
    let mut paging = paging(16, Mode::Sv39);
    let view = paging.open_view(1).unwrap();

    let granted = paging.grant(
        view,
        Extent { start: 0x4000_0000, level: 0, leaves: 2 },
        Span { start: 0x9000_0000, bytes: 4096 },
        READ_WRITE,
    );

    assert_eq!(granted, Err(PlatformError::View(ViewError::Backing)));
}

#[test]
fn device_windows_are_bumped_and_never_executable() {
    let mut paging = paging(32, Mode::Sv39);
    let window = Span { start: 0x3000_0000, bytes: 0x2000 };

    assert_eq!(
        paging.map_device(window, Rights { read: true, write: true, execute: true }),
        Err(MappingError::InvalidPermissions)
    );
    let first = paging.map_device(window, READ_WRITE).unwrap();
    let second = paging.map_device(window, READ_WRITE).unwrap();

    assert_eq!(first, paging::DEVICE_REGION);
    assert_eq!(second, paging::DEVICE_REGION + 0x20_0000);
    assert_eq!(paging.log.as_slice().len(), 2);
    let (entry, _) = paging.tables.lookup(paging.root, first + 0x1000).unwrap();
    assert_eq!(paging::physical(entry), 0x3000_1000);
}

#[test]
fn image_and_ram_map_to_themselves_with_their_rights() {
    let mut tables = tables(64, 2);
    let root = tables.open_root().unwrap();
    let mut log = MappingLog::new();
    let image = Image {
        text: (0x8020_0000, 0x8020_1800),
        rodata: (0x8020_2000, 0x8020_3000),
        data: (0x8020_3000, 0x8020_5000),
    };

    tables.build(root, &mut log, image, &[(0x8040_0000, 0x8080_0000)]).unwrap();

    let rights = |va: u64| {
        let (entry, level) = tables.lookup(root, va).expect("a mapped address");
        assert_eq!(paging::physical(entry), va / (4096 << (9 * level)) * (4096 << (9 * level)));
        let found = paging::protection(entry, Kind::Ram);
        (found.read, found.write, found.execute)
    };
    assert_eq!(rights(0x8020_1000), (true, false, true));
    assert_eq!(rights(0x8020_2000), (true, false, false));
    assert_eq!(rights(0x8020_4000), (true, true, false));
    assert_eq!(rights(0x8050_0000), (true, true, false));
    assert_eq!(tables.lookup(root, 0x8050_0000).unwrap().1, 1, "RAM takes large leaves");
    assert_eq!(tables.lookup(root, 0x8030_0000), None);
    assert_eq!(
        log.as_slice(),
        &[
            MappedRange::section(ImageSection::Text, 0x8020_0000, 0x8020_2000),
            MappedRange::section(ImageSection::Rodata, 0x8020_2000, 0x8020_3000),
            MappedRange::section(ImageSection::Data, 0x8020_3000, 0x8020_5000),
            MappedRange::ram(0x8040_0000, 0x8080_0000),
        ]
    );
}

#[test]
fn deeper_roots_keep_every_translation() {
    for mode in Mode::WIDEST {
        let mut tables = tables(16, 2);
        let built = tables.open_root().unwrap();
        tables.map_leaf(built, 0x8000_0000, 0x8000_0000, leaf_flags(READ_WRITE), 0).unwrap();
        let candidates = tables.candidates(built).unwrap();

        let root = tables.deepen(candidates, mode);

        assert_eq!(tables.top, mode.level());
        assert_eq!(
            tables.lookup(root, 0x8000_0123).map(|(entry, _)| paging::physical(entry)),
            Some(0x8000_0000)
        );
        assert_eq!(tables.lookup(root, 0x4000_0000), None);
    }
}

#[test]
fn probe_leaves_nothing_behind() {
    let mut paging = paging(16, Mode::Sv48);

    let va = paging.open_probe(0x9000_0000).unwrap();

    assert_eq!(va, Mode::Sv48.probe_va());
    assert!(paging.tables.lookup(paging.root, va).is_some());
    paging.close_probe();
    assert_eq!(paging.tables.lookup(paging.root, va), None);
    assert_eq!(Paging::<Ram>::probed(0x004d_4f4c_545f_5758), Ok(()));
    assert_eq!(
        Paging::<Ram>::probed(0),
        Err(PlatformError::Mapping(MappingError::Backend))
    );
}

#[test]
fn console_window_is_mapped_and_declared() {
    let mut paging = paging(16, Mode::Sv39);

    assert_eq!(
        paging.map_uart(&[(0x1000_0800, 0x2000_0000)]),
        Err(PlatformError::Mapping(MappingError::InvalidAddress)),
        "RAM was mapped as a device"
    );
    paging.map_uart(&[(0x8000_0000, 0x9000_0000)]).unwrap();

    let (entry, level) = paging.tables.lookup(paging.root, 0x3000_0000).unwrap();
    assert_eq!((paging::physical(entry), level), (0x1000_0000, 0));
    assert_eq!(paging.log.as_slice(), &[MappedRange::device(0x3000_0000, 0x3000_1000)]);
    assert_eq!(paging.asid_bits, 16);
}

#[test]
fn largest_leaf_is_found_and_holes_stop_the_walk() {
    let mut paging = paging(32, Mode::Sv39);
    let root = paging.root;
    paging.tables.map_leaf(root, 0x8000_0000, 0x8000_0000, leaf_flags(READ_WRITE), 1).unwrap();
    paging.tables.map_leaf(root, 0x8020_0000, 0x8020_0000, leaf_flags(READ_WRITE), 0).unwrap();

    let largest = paging.largest_ram_leaf(&[(0x8000_0000, 0x8020_1000)]).unwrap();

    assert_eq!((largest.start, largest.size), (0x8000_0000, 0x20_0000));
    paging.tables.map_leaf(root, 0x8040_0000, 0x8040_0000, leaf_flags(READ_WRITE), 1).unwrap();
    let ranges = [(0x8000_0000, 0x8020_1000), (0x8040_0000, 0x8060_0000)];
    assert_eq!(paging.largest_ram_leaf(&ranges), Ok(largest), "the first of two as large");
    assert_eq!(
        paging.largest_ram_leaf(&[(0x8000_0000, 0x8020_2000)]),
        Err(PlatformError::Mapping(MappingError::Unmapped))
    );
}

#[test]
fn leaves_come_in_address_order() {
    let mut tables = tables(16, 2);
    let root = tables.open_root().unwrap();
    tables.map_leaf(root, 0x8020_1000, 0x9000_0000, leaf_flags(READ_WRITE), 0).unwrap();
    tables.map_leaf(root, 0x4000_0000, 0x4000_0000, leaf_flags(READ_WRITE), 2).unwrap();

    let found: Vec<(u64, usize)> =
        tables.leaves(root).iter().map(|leaf| (leaf.start, leaf.level)).collect();

    assert_eq!(found, [(0x4000_0000, 2), (0x8020_1000, 0)]);
}

#[test]
fn satp_composes_its_fields() {
    let composed = satp::compose(Mode::Sv48, 0x12, 0x8000_3000);

    assert_eq!(composed, 9 << 60 | 0x12 << 44 | 0x8_0003);
}

// Traps, consoles, harts.

#[test]
fn traps_are_counted_stepped_or_fatal() {
    let mut trapped = Trapped::new();

    assert_eq!(trapped.handle(csr::CAUSE_INTERRUPT | 5), Action::Disarm);
    assert_eq!(trapped.ticks(), 1);
    assert_eq!(trapped.handle(3), Action::Step);
    assert!(trapped.breakpoint_seen);
    assert_eq!(trapped.handle(csr::CAUSE_INTERRUPT | 9), Action::UnexpectedInterrupt);
    assert_eq!(trapped.handle(13), Action::UnexpectedException);
    assert_eq!(trapped.ticks(), 1);
    assert_eq!(trap::report(Action::UnexpectedException), Some("unexpected exception"));
    assert_eq!(trap::report(Action::Step), None);
}

#[test]
fn breakpoints_resume_past_either_width() {
    assert_eq!(trap::resume(0x8000_0000, 0x9002), 0x8000_0002, "a compressed ebreak");
    assert_eq!(trap::resume(0x8000_0000, 0x0073), 0x8000_0004);
    assert_eq!(csr::direct_vector(0x8000_0003), 0x8000_0000);
}

#[test]
fn console_falls_back_on_an_error_and_on_no_progress() {
    let mut serial = SbiSerial::new();
    assert_eq!(serial.next(0, 5), Call::Probe);

    serial.init(true);
    assert_eq!(serial.console(), Console::Debug);
    assert_eq!(serial.next(0, 5), Call::Write);
    let written = serial.answered(0, Ok(3));
    assert_eq!((written, serial.next(written, 5)), (3, Call::Write));
    let written = serial.answered(written, Ok(0));
    assert_eq!((written, serial.next(written, 5)), (3, Call::Putchar));
    assert_eq!(serial.next(5, 5), Call::Done);
    serial.init(true);
    assert_eq!(serial.console(), Console::Legacy, "a settled console was probed again");

    let mut serial = SbiSerial::default();
    serial.init(true);
    assert_eq!(serial.answered(2, Err(SbiError::Failed)), 2);
    assert_eq!(serial.console(), Console::Legacy);
}

#[test]
fn harts_are_started_once_and_only_where_they_can_be() {
    let idle = Percpu { id: 3, ..Percpu::new() };
    let running = Percpu { up: true, ..idle };

    assert_eq!(ap::prepare(None, true, Some(1)), Err(SmpError::Unknown));
    assert_eq!(ap::prepare(Some(running), true, Some(1)), Err(SmpError::Running));
    assert_eq!(ap::prepare(Some(idle), false, Some(1)), Err(SmpError::Unsupported));
    assert_eq!(ap::prepare(Some(idle), true, None), Err(SmpError::Unsupported));
    assert_eq!(ap::prepare(Some(idle), true, Some(7)), Ok(7));
    assert_eq!(idle.hart(), 3);

    assert_eq!(ap::refused(SbiError::InvalidParam), SmpError::Unknown);
    assert_eq!(ap::refused(SbiError::AlreadyStarted), SmpError::Running);
    assert_eq!(ap::refused(SbiError::NotSupported), SmpError::Unsupported);
    assert_eq!(ap::refused(SbiError::Other(-40)), SmpError::Refused);
    assert_eq!(ap::started(Ok(()), true), Ok(()));
    assert_eq!(ap::started(Ok(()), false), Err(SmpError::Refused));
    let params = ap::Params { satp: 1, stack: 2, enter: 3, cpu: 4, hand: 5 };
    assert_eq!(params.words(), [1, 2, 3, 4, 5]);
}

#[test]
fn domain_context_names_its_registers() {
    let start = DomainStart { entry: 0x1000, stack: 0x2000, arguments: [1, 2, 3, 4, 5, 6] };

    let writes = domain::enter(0x9, 0x8_0122, start);

    assert_eq!(writes.len(), 10);
    assert_eq!(writes[0], Saved { offset: 0x28, value: 0x9 });
    assert_eq!(writes[2], Saved { offset: 0x58, value: 0x8_0002 });
    assert_eq!(writes[3], Saved { offset: 0x90, value: 0x2000 });
    assert_eq!(writes[9], Saved { offset: 0x80 + 15 * 8, value: 6 });
    assert_eq!(domain_exit(0, 0, 0, 0), DomainExit::Ring);
    assert_eq!(domain_exit(1, -7, 0, 0), DomainExit::Exited(-7));
    assert_eq!(domain_exit(2, 0, 13, 0xf00), DomainExit::Fault { cause: 13, address: 0xf00 });
}

#[test]
fn buses_follow_from_the_aperture() {
    assert_eq!(pci::last_bus(0x1000_0000), Ok(255));
    assert_eq!(pci::last_bus(0x30_0000), Ok(2));
    assert_eq!(pci::last_bus(0x8000_0000), Ok(255));
    assert_eq!(pci::last_bus(0xf_ffff), Err(PlatformError::InvalidHardware));
    assert_eq!(pci::span(1), 0x20_0000);
}

#[test]
fn ram_starts_past_the_image() {
    let map = RiscVMemoryMap::new(0x8021_2345);

    assert_eq!(map.len(), 1);
    assert_eq!(
        map.region(0),
        Some(MemoryRegion::new(0x8021_3000, RAM_END, MemoryRegionKind::Usable))
    );
    assert_eq!(map.region(1), None);
}

#[test]
fn modes_are_tried_widest_first() {
    let mut refused = None;
    let mut tried = Vec::new();
    while let Ok(mode) = next_mode(refused) {
        tried.push(mode);
        refused = Some(mode);
    }

    assert_eq!(tried, Mode::WIDEST);
    assert_eq!(next_mode(refused), Err(PlatformError::Mapping(MappingError::Backend)));
    assert!(kept(Mode::Sv48, 0x8020_0000, (9 << 60) | 0x8_0200));
    assert!(!kept(Mode::Sv57, 0x8020_0000, (9 << 60) | 0x8_0200), "another mode was kept");
    assert_eq!(Tag::all((9 << 60) | (5 << 44) | 7), (9 << 60) | Tag::MASK | 7);
    assert!(uart_ready(0x60) && !uart_ready(0x1f));
}

#[test]
fn small_answers_are_what_firmware_and_callers_expect() {
    assert_eq!((sbi::reset_reason(true), sbi::reset_reason(false)), (0, 1));
    let inner = MappingError::Unexpected;
    assert_eq!(paging::mapping_error(PlatformError::Mapping(inner)), inner);
    assert_eq!(paging::mapping_error(PlatformError::Unsupported), MappingError::Backend);
}

/// A hart that knows modes up to `widest` and `bits` tag bits, as its `satp`
/// reads back.
fn hart_reads(widest: Mode, bits: u32, live: u64, written: u64) -> u64 {
    match Mode::of(written) {
        Some(mode) if mode.level() <= widest.level() => {
            written & !(Tag::MASK & !Tag::field(((1u32 << bits) - 1) as u16))
        },
        _ => live,
    }
}

const SMALL: Image = Image {
    text: (0x8020_0000, 0x8020_1000),
    rodata: (0x8020_1000, 0x8020_1800),
    data: (0x8020_2000, 0x8020_3000),
};

#[test]
fn boot_tree_is_rooted_where_the_hart_allows() {
    for (widest, bits) in [(Mode::Sv39, 0), (Mode::Sv48, 9), (Mode::Sv57, 16)] {
        let mut tables = tables(16, 2);
        let mut log = MappingLog::new();
        let ranges = [(0x8040_0000, 0x8080_0000)];
        let candidates = tables.init(&mut log, SMALL, &ranges).unwrap();
        let mut live = 0;
        let mut refused = None;
        let mode = loop {
            let mode = next_mode(refused).unwrap();
            live = hart_reads(widest, bits, live, wanted(candidates, mode));
            if kept(mode, candidates[mode.level() - 2], live) {
                break mode;
            }
            refused = Some(mode);
        };
        let tagged = hart_reads(widest, bits, live, Tag::all(live));

        let paging = tables.enable(log, candidates, mode, tagged);

        assert_eq!((paging.mode(), paging.asid_bits(), paging.satp()), (widest, bits, live));
        assert_eq!(paging.log.as_slice().len(), 4);
        let (entry, level) = paging.tables.lookup(paging.root, 0x8020_0123).unwrap();
        assert_eq!((paging::physical(entry), level), (0x8020_0000, 0));
        assert_eq!((entry & PTE_W, entry & PTE_X), (0, PTE_X), "text is writable");
        let (entry, _) = paging.tables.lookup(paging.root, 0x8020_2000).unwrap();
        assert_eq!((entry & PTE_W, entry & PTE_X), (PTE_W, 0), "data is executable");
        let (_, level) = paging.tables.lookup(paging.root, 0x8040_0000).unwrap();
        assert_eq!(level, 1, "aligned RAM was not mapped by large leaves");
        assert_eq!(paging.tables.lookup(paging.root, 0x8100_0000), None);
    }
}

#[test]
fn boot_trees_that_cannot_be_built_refused() {
    let init = |frames: u64, ranges: &[(u64, u64)]| {
        tables(frames, 2).init(&mut MappingLog::new(), SMALL, ranges)
    };
    let refused = |error| Err(PlatformError::Mapping(error));

    assert_eq!(init(0, &[]), refused(MappingError::OutOfFrames), "no frame for the root");
    assert_eq!(init(2, &[]), refused(MappingError::OutOfFrames), "no frame for a table");
    assert_eq!(init(4, &[]), refused(MappingError::OutOfFrames), "no frame for a deeper root");
    assert!(init(5, &[]).is_ok());
    let endless = [(0x8040_0000, u64::MAX)];
    assert_eq!(init(16, &endless), refused(MappingError::InvalidAddress));
    let many = [(0x8040_0000, 0x8060_0000); CAPACITY];
    assert_eq!(init(16, &many), refused(MappingError::Backend), "the log has no room");
}
