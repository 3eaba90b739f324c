use bootloader_api::info::{
    MemoryRegion as BootMemoryRegion, MemoryRegionKind as BootMemoryRegionKind, MemoryRegions,
};
use molt::arch::{
    report, vectors, Cache, Contents, DomainStart, ExitStatus, FabricError, MappedRange, MappingError,
    MemoryRegion, MemoryRegionKind, MsiMessage, PlatformError, Probed, Rights, Saved, Span,
};
use molt::hex;
use molt::memory::Ram;
use molt::smp::{CpuId, Cpus, Percpu, SmpError};
use molt::window::{Buffer, MmioError, Window};
use molt::x86::acpi::{self, entries, madt, mcfg, rsdp, AcpiError, Held, Root};
use molt::x86::ap::{self, Next, Params, Start, Trampoline, FRAME};
use molt::x86::apic::{self, Apic};
use molt::x86::boot::{self, BootloaderMemoryMap};
use molt::x86::domain;
use molt::x86::flags;
use molt::x86::interrupts;
use molt::x86::memory::{self, Devices, Plan};
use molt::x86::msi::{Bank, VECTORS};
use molt::x86::pci;
use molt::x86::space::{Live, Log, Page, Sheet, Space, DECLARED};
use molt::x86::walk;

// ACPI.

/// Writes the byte that makes `covered` bytes sum to zero.
fn checksum(bytes: &mut [u8], index: usize, covered: usize) {
    bytes[index] = 0;
    let sum = bytes[..covered].iter().fold(0u8, |sum, &byte| sum.wrapping_add(byte));
    bytes[index] = sum.wrapping_neg();
}

fn rsdp_image(xsdt: u64, rsdt: u32, revision: u8) -> [u8; 36] {
    let mut bytes = [0u8; 36];
    bytes[..8].copy_from_slice(b"RSD PTR ");
    bytes[15] = revision;
    bytes[16..20].copy_from_slice(&rsdt.to_le_bytes());
    bytes[20..24].copy_from_slice(&36u32.to_le_bytes());
    bytes[24..32].copy_from_slice(&xsdt.to_le_bytes());
    checksum(&mut bytes, 8, 20);
    checksum(&mut bytes, 32, 36);
    bytes
}

fn xsdt_image(entries: [u64; 2]) -> [u8; 52] {
    let mut bytes = [0u8; 52];
    bytes[..4].copy_from_slice(b"XSDT");
    bytes[4..8].copy_from_slice(&52u32.to_le_bytes());
    bytes[36..44].copy_from_slice(&entries[0].to_le_bytes());
    bytes[44..52].copy_from_slice(&entries[1].to_le_bytes());
    checksum(&mut bytes, 9, 52);
    bytes
}

fn rsdt_image(entries: [u32; 2]) -> [u8; 44] {
    let mut bytes = [0u8; 44];
    bytes[..4].copy_from_slice(b"RSDT");
    bytes[4..8].copy_from_slice(&44u32.to_le_bytes());
    bytes[36..40].copy_from_slice(&entries[0].to_le_bytes());
    bytes[40..44].copy_from_slice(&entries[1].to_le_bytes());
    checksum(&mut bytes, 9, 44);
    bytes
}

fn mcfg_image(base: u64, segment: u16, first_bus: u8, last_bus: u8) -> [u8; 60] {
    let mut bytes = [0u8; 60];
    bytes[..4].copy_from_slice(b"MCFG");
    bytes[4..8].copy_from_slice(&60u32.to_le_bytes());
    bytes[44..52].copy_from_slice(&base.to_le_bytes());
    bytes[52..54].copy_from_slice(&segment.to_le_bytes());
    bytes[54] = first_bus;
    bytes[55] = last_bus;
    checksum(&mut bytes, 9, 60);
    bytes
}

/// A MADT of one processor record per `(apic, flags)` pair, plus an I/O APIC
/// record between them that the walk must step over.
fn madt_image(processors: &[(u8, u32)]) -> Vec<u8> {
    let mut bytes = vec![0u8; 44];
    bytes[..4].copy_from_slice(b"APIC");
    for &(apic, flags) in processors {
        bytes.extend_from_slice(&[0, 8, apic, apic]);
        bytes.extend_from_slice(&flags.to_le_bytes());
        bytes.extend_from_slice(&[1, 12, 0, 0, 0, 0, 0, 0, 0, 0, 0, 0]);
    }
    let length = bytes.len() as u32;
    bytes[4..8].copy_from_slice(&length.to_le_bytes());
    let covered = bytes.len();
    checksum(&mut bytes, 9, covered);
    bytes
}

#[test]
fn madt_reports_startable_processors() -> Result<(), AcpiError> {
    let bytes = madt_image(&[(0, 1), (2, 0), (4, 2)]);
    let mut ids = [0; 4];

    let count = madt(&bytes, &mut ids)?;

    assert_eq!(&ids[..count], &[0, 4], "a processor firmware called unusable");
    Ok(())
}

#[test]
fn madt_stops_at_the_room_given() -> Result<(), AcpiError> {
    let bytes = madt_image(&[(0, 1), (1, 1), (2, 1)]);
    let mut ids = [0; 2];

    assert_eq!(madt(&bytes, &mut ids)?, 2);
    Ok(())
}

#[test]
fn rsdp_reports_xsdt_address() {
    let bytes = rsdp_image(0x7fff_0000, 0x7ffe_0000, 2);

    let root = rsdp(&bytes);

    assert_eq!(root, Ok(Root::Xsdt(0x7fff_0000)), "the wider pointer wins where both exist");
}

#[test]
fn bad_checksum_refused() {
    let mut bytes = rsdp_image(0x7fff_0000, 0, 2);

    bytes[24] ^= 0xff;

    assert_eq!(rsdp(&bytes), Err(AcpiError::Checksum));
}

#[test]
fn acpi_one_rsdp_reports_rsdt() {
    let bytes = rsdp_image(0, 0x7fff_0000, 0);

    let root = rsdp(&bytes);

    assert_eq!(root, Ok(Root::Rsdt(0x7fff_0000)), "a legacy BIOS names only the 32-bit table");
}

#[test]
fn rsdp_naming_no_root_table_refused() {
    let bytes = rsdp_image(0, 0, 2);

    assert_eq!(rsdp(&bytes), Err(AcpiError::Revision), "neither width points anywhere");
}

#[test]
fn rsdp_without_its_signature_refused() {
    let mut bytes = rsdp_image(0x7fff_0000, 0, 2);
    bytes[0] = b'X';

    assert_eq!(rsdp(&bytes), Err(AcpiError::Rsdp));
    assert_eq!(rsdp(&bytes[..19]), Err(AcpiError::Truncated));
    let extended = rsdp_image(0x7fff_0000, 0, 2);
    for len in 20..36 {
        assert_eq!(rsdp(&extended[..len]), Err(AcpiError::Truncated), "cut short at {len}");
    }
}

#[test]
fn rsdt_entries_read_32_bit_addresses() -> Result<(), AcpiError> {
    let bytes = rsdt_image([0x7fff_1000, 0x7fff_2000]);

    let listed: Vec<u64> = entries(Root::Rsdt(0), &bytes)?;

    assert_eq!(listed, [0x7fff_1000, 0x7fff_2000]);
    Ok(())
}

#[test]
fn root_table_of_other_width_refused() {
    let bytes = rsdt_image([0x7fff_1000, 0x7fff_2000]);

    let listed = entries(Root::Xsdt(0), &bytes).map(|listed| listed.len());

    assert_eq!(listed.err(), Some(AcpiError::Signature), "an RSDT is not an XSDT");
}

#[test]
fn truncated_mcfg_is_refused() {
    let bytes = mcfg_image(0xb000_0000, 0, 0, 0xff);

    let space = mcfg(&bytes[..50]);

    assert_eq!(space, Err(AcpiError::Truncated), "the length reaches past the bytes");
}

#[test]
fn mcfg_reports_ecam_window() -> Result<(), AcpiError> {
    let bytes = mcfg_image(0xb000_0000, 1, 0x10, 0x20);

    let space = mcfg(&bytes)?;

    assert_eq!(space.span().unwrap().start(), 0xb000_0000);
    assert_eq!((space.segment(), space.first_bus(), space.last_bus()), (1, 0x10, 0x20));
    Ok(())
}

#[test]
fn mcfg_with_inverted_buses_refused() {
    assert_eq!(mcfg(&mcfg_image(0xb000_0000, 0, 9, 8)), Err(AcpiError::Range));
}

#[test]
fn unaligned_xsdt_entries_read() -> Result<(), AcpiError> {
    let image = xsdt_image([0x7fff_1000, 0x7fff_2000]);
    let mut buffer = [0u8; 55];
    buffer[3..].copy_from_slice(&image);

    let listed: Vec<u64> = entries(Root::Xsdt(0), &buffer[3..])?;

    assert_eq!(listed, [0x7fff_1000, 0x7fff_2000], "entries at odd addresses");
    Ok(())
}

/// Physical memory with an RSDP, an XSDT, a MADT and an MCFG in it.
fn firmware() -> Vec<u8> {
    let mut bytes = vec![0u8; 0x1000];
    let mut place = |at: usize, image: &[u8]| bytes[at..at + image.len()].copy_from_slice(image);
    place(0, &rsdp_image(0x1_0100, 0, 2));
    place(0x100, &xsdt_image([0x1_0200, 0x1_0400]));
    place(0x200, &madt_image(&[(7, 1), (3, 1)]));
    place(0x400, &mcfg_image(0xb000_0000, 0, 0, 0x3f));
    bytes
}

#[test]
fn tables_are_found_from_the_root_down() {
    let bytes = firmware();
    let memory = Held { base: 0x1_0000, bytes: &bytes };
    let mut ids = [0; 8];

    assert_eq!(acpi::config_space(&memory, 0x1_0000).unwrap().last_bus(), 0x3f);
    assert_eq!(acpi::processors(&memory, 0x1_0000, &mut ids), Ok(2));
    assert_eq!(&ids[..3], &[7, 3, 0]);
}

#[test]
fn tables_that_are_not_there_are_missing_or_absent() {
    let mut bytes = firmware();
    bytes[0x400] = b'X';
    let memory = Held { base: 0x1_0000, bytes: &bytes };

    assert_eq!(acpi::config_space(&memory, 0x1_0000), Err(AcpiError::Missing));
    assert_eq!(acpi::config_space(&memory, 0x9_0000), Err(AcpiError::Absent));
    assert_eq!(
        acpi::reason(AcpiError::Missing),
        "ACPI lists no table of the signature molt asked for"
    );
}

// Vectors.

fn claim(bank: &mut Bank) -> Option<u16> {
    bank.allocate(0).ok().map(|(line, _)| line)
}

#[test]
fn hands_out_each_vector_once_reuses_released() {
    let mut bank = Bank::new();
    let first = claim(&mut bank).expect("an empty bank");
    let second = claim(&mut bank).expect("a bank with room");
    assert_ne!(first, second, "one vector was handed to two owners");

    assert_eq!(bank.release(first), Ok(()));
    assert_eq!(bank.release(first), Err(FabricError::Unknown), "a line was released twice");
    assert_eq!(claim(&mut bank), Some(first), "a released vector was not reused");
    assert_eq!(bank.release(VECTORS.into()), Err(FabricError::Unknown), "a line off the end");

    let mut claimed = 2;
    while claim(&mut bank).is_some() {
        claimed += 1;
        assert!(claimed <= VECTORS, "the bank handed out more vectors than it has");
    }
    assert_eq!(bank.taken.iter().filter(|taken| **taken).count(), usize::from(VECTORS));

    for line in 0..u16::from(VECTORS) {
        assert_eq!(bank.release(line), Ok(()));
    }
    assert_eq!(bank.taken, [false; 16], "the bank did not come back empty");
}

#[test]
fn message_names_the_core_and_the_vector() {
    let mut bank = Bank::new();
    bank.allocate(3).unwrap();

    let (line, message) = bank.allocate(3).unwrap();

    assert_eq!(line, 1);
    assert_eq!(message, MsiMessage { address: 0xfee0_3000, data: 0x51 });
    for _ in 0..14 {
        bank.allocate(0).unwrap();
    }
    assert_eq!(bank.allocate(0).err(), Some(FabricError::Exhausted));
}

// Cores.

#[test]
fn params_fit_what_asm_reads() {
    assert_eq!(size_of::<Params>(), 40, "the trampoline reads five words");
    assert!(size_of::<Params>() < FRAME);
}

#[test]
fn cores_are_numbered_boot_core_first() {
    let mut cpus = Cpus::new();

    assert_eq!(cpus.declare_apics(&[4, 2, 0, 6], 2), 4);

    let apics: Vec<u8> = (0..4).map(|cpu| cpus.of(CpuId::new(cpu)).unwrap().apic()).collect();
    assert_eq!(apics, [2, 4, 0, 6]);
    assert_eq!(cpus.of(CpuId::new(4)), None);
    assert_eq!(cpus.declare_apics(&[0, 1, 2, 3, 4, 5, 6, 7, 8, 9], 9), 8, "more than blocks");
    assert_eq!(cpus.of(CpuId::new(7)).unwrap().apic(), 6);
    cpus.attach(CpuId::new(1), 4);
    assert!(cpus.of(CpuId::new(1)).unwrap().up());
    assert_eq!(cpus.of(CpuId::new(1)).unwrap().cpu(), CpuId::new(1));
    cpus.attach(CpuId::new(99), 4);
    assert_eq!(cpus.count(), 8);
}

#[test]
fn a_core_is_woken_once_however_often_it_is_rung() {
    let mut core = Percpu::new();

    assert!(core.ring(), "an idle core was thought told");
    assert!(!core.ring());
    assert!(core.answered());
    assert!(!core.answered(), "one wake was answered twice");
    core.tick();
    assert_eq!(core.ticks(), 1);
    core.set_block(0x1000);
    assert_eq!(core.block(), 0x1000);
    core.ticks = u64::MAX - 1;
    for _ in 0..3 {
        core.tick();
        core.ring();
    }
    assert_eq!(core.ticks(), 1, "three more, round 64 bits");
}

#[test]
fn a_core_is_up_once_it_arrives_and_ever_after() {
    let mut cpus = Cpus::new();
    let cpu = CpuId::new(1);

    cpus.declare(&[7, 3], 3);
    assert!(!cpus.of(cpu).unwrap().up(), "numbering a core does not start it");
    cpus.attach(cpu, 7);
    cpus.declare(&[7, 3], 3);
    cpus.cpus[1].answered();

    let core = cpus.of(cpu).unwrap();
    assert!(core.up());
    assert_eq!(core.cpu(), cpu);
    assert!(!cpus.of(CpuId::new(0)).unwrap().up());
}

#[test]
fn cores_start_only_where_they_can() {
    let idle = Percpu { id: 3, ..Percpu::new() };
    let pad = Trampoline { physical: 0x8000, root: 0x1000_0000 };
    let high = Trampoline { root: 0x1_0000_0000, ..pad };

    assert_eq!(ap::start(None, Some(pad), 512), Err(SmpError::Unknown));
    assert_eq!(ap::start(Some(Percpu { up: true, ..idle }), Some(pad), 512), Err(SmpError::Running));
    assert_eq!(ap::start(Some(idle), None, 512), Err(SmpError::Unsupported));
    assert_eq!(ap::start(Some(idle), Some(high), 512), Err(SmpError::Unsupported));
    assert_eq!(ap::start(Some(idle), Some(pad), 4097), Err(SmpError::Unsupported));
    assert_eq!(ap::start(Some(idle), Some(pad), 512), Ok(pad));
    assert_eq!(ap::vector(pad.physical()), 8);
}

#[test]
fn startup_goes_out_twice_and_no_more() {
    let mut start = Start::Reset;
    assert_eq!(start.step(true, false), Next::Startup);
    assert_eq!(start.step(true, false), Next::Startup);
    assert_eq!(start.step(true, false), Next::Refused);

    let mut start = Start::Reset;
    assert_eq!(start.step(true, false), Next::Startup);
    assert_eq!(start.step(true, true), Next::Up);

    let mut start = Start::Reset;
    assert_eq!(start.step(false, false), Next::Refused, "the reset was not sent");
}

// The local APIC.

#[test]
fn apic_registers_are_written() {
    let mut local = Apic::new(Buffer::new(vec![0u8; 0x1000])).ok().unwrap();

    local.init().unwrap();
    local.arm(1000).unwrap();
    assert_eq!(local.arm(0), Err(PlatformError::InvalidHardware));
    local.ipi(5, 0x41).unwrap();
    local.eoi();

    let word = |at: usize| {
        u32::from_le_bytes(local.window.contents()[at..at + 4].try_into().unwrap())
    };
    assert_eq!(word(0xf0), 0x1ff);
    assert_eq!(word(0x320), 0x40);
    assert_eq!(word(0x3e0), 3);
    assert_eq!(word(0x380), 1000);
    assert_eq!((word(0x310), word(0x300)), (5 << 24, 0x4041));
    assert!(Apic::new(Buffer::new(vec![0u8; 16])).is_err());
}

#[test]
fn apic_window_is_tried_out() {
    let mut bytes = vec![0u8; 0x1000];
    bytes[0x23] = 6;
    bytes[0x80] = 0x30;
    let mut local = Apic::new(Buffer::new(bytes)).ok().unwrap();

    assert_eq!(local.verify(7), Err(PlatformError::InvalidHardware), "another core's APIC");
    assert_eq!(local.verify(6), Ok(()));
    assert_eq!(local.window.contents()[0x80], 0x30, "the task priority was not put back");
}

#[test]
fn apic_is_where_the_window_maps_it() {
    assert_eq!(apic::enabled(0xfee0_0100), 0xfee0_0900);
    assert_eq!(apic::placed(0xfee0_0900), Ok(()));
    assert_eq!(apic::placed(0xfed0_0900), Err(PlatformError::InvalidHardware));
    assert_eq!(apic::present(1 << 9), Ok(()));
    assert_eq!(apic::present(1 << 8), Err(PlatformError::InvalidHardware));
    assert_eq!(apic::boot_id(0x0500_1234), 5);
}

// The boot map, and other things firmware says.

#[test]
fn bootloader_memory() {
    let raw = Box::leak(Box::new([
        BootMemoryRegion { start: 0, end: 4096, kind: BootMemoryRegionKind::Bootloader },
        BootMemoryRegion { start: 4096, end: 8192, kind: BootMemoryRegionKind::Usable },
        BootMemoryRegion { start: 8192, end: 12288, kind: BootMemoryRegionKind::UnknownUefi(7) },
    ]));
    let regions = MemoryRegions::from(&mut raw[..]);
    let map = BootloaderMemoryMap::new(&regions);

    assert_eq!(map.len(), 3);
    assert_eq!(map.region(0), Some(MemoryRegion::new(0, 4096, MemoryRegionKind::Bootloader)));
    assert_eq!(map.region(1), Some(MemoryRegion::new(4096, 8192, MemoryRegionKind::Usable)));
    assert_eq!(
        map.region(2),
        Some(MemoryRegion::new(8192, 12288, MemoryRegionKind::Firmware(7)))
    );
    assert_eq!(map.region(3), None);
}

#[test]
fn selectors_name_ring_three() {
    assert_eq!(interrupts::user_selectors(4, 3), (0x23, 0x1b));
    assert_eq!(interrupts::bounds(0x1000, 0x200), (0x1000, 0x1200));
}

#[test]
fn machine_is_ended_and_spoken_to() {
    assert_eq!(boot::exit_code(ExitStatus::Success), 0x10);
    assert_eq!(boot::exit_code(ExitStatus::Failure), 0x11);
    assert_eq!(boot::serial_setup()[5], (0x3fa, 0xc7));
    assert!(boot::serial_ready(0x60) && !boot::serial_ready(0x40));
}

#[test]
fn numbers_print_in_sixteen_digits() {
    assert_eq!(hex::digits(0xffff_8000_dead_beef), b"ffff8000deadbeef");
    assert_eq!(hex::digits(7), b"0000000000000007");
}

#[test]
fn ring_three_context_names_its_registers() {
    let start = DomainStart { entry: 0x1000, stack: 0x2000, arguments: [1, 2, 3, 4, 5, 6] };

    let writes = domain::enter(0x9000, 0x23, 0x1b, start);

    assert_eq!(writes.len(), 12);
    assert_eq!(writes[0], Saved { offset: 0x40, value: 0x9000 });
    assert_eq!(writes[3], Saved { offset: 0x78, value: 2 });
    assert_eq!(writes[4], Saved { offset: 0x80, value: 0x23 });
    assert_eq!(writes[6], Saved { offset: 0xb8, value: 1 });
    assert_eq!(writes[11], Saved { offset: 0xd0, value: 6 });
}

/// A message table whose mask bit does not move, or whose datum does not.
struct Stubborn {
    entry: Buffer,
    control: Option<u32>,
    data: Option<u32>,
}

impl Window for Stubborn {
    fn len(&self) -> u64 {
        self.entry.len()
    }

    fn read_u8(&mut self, at: u64) -> Result<u8, MmioError> {
        self.entry.read_u8(at)
    }

    fn read_u16(&mut self, at: u64) -> Result<u16, MmioError> {
        self.entry.read_u16(at)
    }

    fn read_u32(&mut self, at: u64) -> Result<u32, MmioError> {
        let held = self.entry.read_u32(at)?;
        Ok(match at {
            pci::ENTRY_CONTROL => self.control.unwrap_or(held),
            pci::ENTRY_DATA => self.data.unwrap_or(held),
            _ => held,
        })
    }

    fn read_u64(&mut self, at: u64) -> Result<u64, MmioError> {
        self.entry.read_u64(at)
    }

    fn write_u8(&mut self, at: u64, value: u8) -> Result<(), MmioError> {
        self.entry.write_u8(at, value)
    }

    fn write_u16(&mut self, at: u64, value: u16) -> Result<(), MmioError> {
        self.entry.write_u16(at, value)
    }

    fn write_u32(&mut self, at: u64, value: u32) -> Result<(), MmioError> {
        self.entry.write_u32(at, value)
    }

    fn write_u64(&mut self, at: u64, value: u64) -> Result<(), MmioError> {
        self.entry.write_u64(at, value)
    }

    fn load(&mut self, at: u64, into: &mut [u8]) -> Result<(), MmioError> {
        self.entry.load(at, into)
    }

    fn store(&mut self, at: u64, from: &[u8]) -> Result<(), MmioError> {
        self.entry.store(at, from)
    }

    fn zero(&mut self) {
        self.entry.zero()
    }
}

#[test]
fn message_tables_that_do_not_answer_refused() {
    let message = MsiMessage { address: 0xfee0_0000, data: 0x41 };
    for (control, data, left) in [
        (Some(0), None, 1),
        (Some(1), None, 0),
        (None, Some(0x42), 1),
    ] {
        let mut table = Stubborn { entry: Buffer::new(vec![0u8; 16]), control, data };

        let refused = pci::verify_message_table(&mut table, message);

        assert_eq!(refused, Err(PlatformError::InvalidHardware));
        // The mask is only lifted off an entry that held its message.
        assert_eq!(table.entry.contents()[12], left);
    }
}

#[test]
fn functions_and_their_vectors() {
    let sweep = [(0x8086, 0x1237), (0x1234, 0x11e8), (0x1234, 0x11e8)];

    assert_eq!(pci::find(&sweep, (pci::EDU_VENDOR, pci::EDU_DEVICE)), Some(1));
    assert_eq!(pci::find(&sweep, (1, 2)), None);
    assert_eq!(vectors(Some(5), Some(1)), 5);
    assert_eq!(vectors(None, Some(1)), 1);
    assert_eq!(vectors(None, None), 0);
    let probed = Probed {
        bus: 1,
        device: 2,
        function: 3,
        vendor: 0x1234,
        id: 0x11e8,
        class: 0xff,
        subclass: 4,
        bars: 6,
        msix: None,
        msi: Some(1),
    };
    let reported = report(probed);
    assert_eq!((reported.bus, reported.device, reported.function), (1, 2, 3));
    assert_eq!((reported.vendor, reported.id), (0x1234, 0x11e8));
    assert_eq!((reported.class, reported.subclass), (0xff, 4));
    assert_eq!((reported.windows, reported.vectors), (6, 1));
    let mut window = Buffer::new(vec![0u8; 0x68]);
    assert_eq!(pci::raise(&mut window), Ok(()));
    assert_eq!(&window.contents()[0x60..], &[1, 0, 0, 0, 0xff, 0xff, 0xff, 0xff]);
    assert!(pci::raise(&mut Buffer::new(vec![0u8; 0x64])).is_err());
    let message = MsiMessage { address: 1, data: 2 };
    let mut table = Buffer::new(vec![0xffu8; 32]);
    assert_eq!(pci::verify_message_table(&mut table, message), Ok(()));
    assert_eq!(&table.contents()[..16], &[1, 0, 0, 0, 0, 0, 0, 0, 2, 0, 0, 0, 1, 0, 0, 0]);
    assert_eq!(&table.contents()[16..], &[0xffu8; 16]);
    let mut short = Buffer::new(vec![0u8; 15]);
    assert_eq!(
        pci::verify_message_table(&mut short, message),
        Err(PlatformError::InvalidHardware)
    );
    assert_eq!(short.contents(), &[0u8; 15]);
}

// Page-table entries and address spaces.

const READ_WRITE: Rights = Rights { read: true, write: true, execute: false };
const READ_EXECUTE: Rights = Rights { read: true, write: false, execute: true };

#[test]
fn flags_read_back() {
    let device = flags::leaf_flags(READ_WRITE, Cache::Device);
    assert_eq!(device, 0x8000_0000_0000_001b);
    let found = flags::protection(device);
    assert!(found.read && found.write && !found.execute);
    assert_eq!(found.cache, Cache::Device);
    assert_eq!(flags::protection(0x1).cache, Cache::WriteBack);
    assert_eq!(flags::leaf_flags(READ_EXECUTE, Cache::WriteBack), 0x1);
    let both = flags::protection(0x3);
    assert_eq!(flags::rights_of(both), Err(MappingError::InvalidPermissions));
}

#[test]
fn entries_part_into_frame_and_flags() {
    let entry = 0x8000_0123_4567_8083;

    assert_eq!(flags::frame(entry), 0x0000_0123_4567_8000);
    assert_eq!(flags::flags(entry), 0x8000_0000_0000_0083);
    assert_eq!(flags::canonical(0x0000_8000_0000_0000), 0xffff_8000_0000_0000);
    assert_eq!(flags::canonical(0x0000_7fff_ffff_f000), 0x0000_7fff_ffff_f000);
    assert_eq!(flags::widths(false, 1 << 17), (48, 12));
    assert_eq!(flags::widths(true, 0), (57, 0));
}

fn page(va: u64, pa: u64, flags: u64) -> Page {
    Page { va, pa, size: 4096, flags }
}

#[test]
fn a_log_without_room_stops_the_map_where_it_is() {
    let apart = |at: u64| (0x2000 * at, 0x2000 * at + 0x1000);
    let regions: Vec<(u64, u64)> = (1..=DECLARED as u64 + 3).map(apart).collect();
    let mut space = Sheet::new();
    let mut log = Log::new();

    let full = memory::direct_map(&mut space, &mut log, &regions, 0);

    assert_eq!(full, Err(PlatformError::Mapping(MappingError::Backend)));
    assert_eq!(log.as_slice().len(), DECLARED);
    assert_eq!(log.as_slice()[DECLARED - 1].start, 0x2000 * DECLARED as u64);
    assert_eq!(space.pages().len(), DECLARED + 1, "the page that could not be declared is in");

    let window = memory::device_window(&mut space, &mut log, &regions, 0xfee0_0000, 0x7000_0000);
    assert_eq!(window, Err(PlatformError::Mapping(MappingError::Backend)));
    assert_eq!((space.pages().len(), log.as_slice().len()), (DECLARED + 2, DECLARED));
}

#[test]
fn direct_map_takes_large_pages_where_they_fit() {
    let mut space = Sheet::new();
    let mut log = Log::new();
    let offset = 0xffff_8000_0000_0000;

    memory::direct_map(&mut space, &mut log, &[(0x1f_e123, 0x40_1fff), (0x100, 0x200)], offset)
        .unwrap();

    let sizes: Vec<(u64, u64)> =
        space.pages().iter().map(|page| (page.va - offset, page.size)).collect();
    assert_eq!(sizes, [(0x1f_f000, 0x1000), (0x20_0000, 0x20_0000), (0x40_0000, 0x1000)]);
    assert!(space.pages().iter().all(|page| page.pa == page.va - offset));
    assert_eq!(log.as_slice(), &[MappedRange::ram(offset + 0x1f_f000, offset + 0x40_1000)]);
    assert_eq!(
        memory::direct_map(
            &mut Sheet::new(),
            &mut Log::new(),
            &[(0, 0x2000)],
            0xffff_ffff_ffff_f000
        ),
        Err(PlatformError::Mapping(MappingError::InvalidAddress))
    );
}

#[test]
fn clone_keeps_rights_and_holes() {
    let mut live = Sheet::new();
    live.map(page(0x40_0000, 0x9000_0000, 0x1)).unwrap();
    live.map(page(0x40_2000, 0x9000_5000, 0x8000_0000_0000_0003)).unwrap();
    let mut space = Sheet::new();
    let mut log = Log::new();

    memory::clone(&mut space, &mut log, &live, 0x40_0123, 0x40_3000, Contents::Image).unwrap();

    assert_eq!(
        space.pages(),
        &[
            page(0x40_0000, 0x9000_0000, 0x1),
            page(0x40_2000, 0x9000_5000, 0x8000_0000_0000_0003)
        ]
    );
    assert_eq!(log.as_slice().len(), 2);

    live.map(page(0x40_3000, 0x9000_6000, 0x3)).unwrap();
    assert_eq!(
        memory::clone(&mut Sheet::new(), &mut log, &live, 0x40_3000, 0x40_4000, Contents::Image),
        Err(PlatformError::Mapping(MappingError::InvalidPermissions)),
        "a page both writable and executable"
    );
}

#[test]
fn address_space_is_built_whole() {
    let mut live = Sheet::new();
    for at in 0..3u64 {
        live.map(page(0xffff_a000_0000_0000 + at * 4096, 0x10_0000 + at * 4096, 0x1)).unwrap();
    }
    live.map(page(boot::STACK_BASE + 4096, 0x20_0000, 0x8000_0000_0000_0003)).unwrap();
    live.map(page(boot::BOOT_INFO_BASE, 0x30_0000, 0x8000_0000_0000_0001)).unwrap();
    let plan = Plan {
        offset: 0xffff_8000_0000_0000,
        image_start: 0xffff_a000_0000_0000,
        image_end: 0xffff_a000_0000_1234,
        trampoline: Some(0x8000),
    };
    let mut space = Sheet::new();
    let mut log = Log::new();

    let window = memory::build(&mut space, &mut log, &live, &[(0x1000, 0x3000)], plan).unwrap();

    assert_eq!(window, memory::APIC_WINDOW);
    assert_eq!(space.pages().len(), 2 + 3 + 1 + 1 + 1 + 1);
    assert_eq!(space.translate(window).unwrap().pa, 0xfee0_0000);
    assert_eq!(space.translate(0x8000).unwrap().flags, 0x1);
    assert_eq!(
        space.translate(0xffff_a000_0000_2000).unwrap().pa,
        0x10_2000,
        "the zero-fill page past the file"
    );
    assert_eq!(log.as_slice().len(), 1 + 1 + 1 + 1 + 1 + 1, "pages side by side are one range");
    assert_eq!(memory::set_aside(Some(0x8000), Some(0x9000)), Ok((0x9000, Some(0x8000))));
    assert_eq!(memory::set_aside(Some(0x10_0000), None), Ok((0x10_0000, None)));
    assert_eq!(
        memory::set_aside(None, None),
        Err(PlatformError::Mapping(MappingError::OutOfFrames))
    );
}

#[test]
fn windows_are_mapped_uncached_and_never_twice() {
    let mut devices = Devices {
        space: Sheet::new(),
        log: Log::new(),
        next: memory::DEVICE_REGION,
    };
    let window = Span { start: 0xfeb0_0000, bytes: 0x1800 };

    let base = devices.map(window, READ_WRITE).unwrap();

    assert_eq!(base, memory::DEVICE_REGION);
    assert_eq!(devices.space.pages().len(), 2);
    assert_eq!(devices.space.translate(base + 0x1000).unwrap().pa, 0xfeb0_1000);
    assert_eq!(
        devices.map(window, READ_EXECUTE),
        Err(MappingError::InvalidPermissions)
    );
    let next = devices.next;
    devices.space.map(page(next + 0x1000, 0x1000, 0x1)).unwrap();
    assert_eq!(devices.map(window, READ_WRITE), Err(MappingError::Unexpected));
    assert_eq!(devices.space.translate(next + 0x1000), Some(page(next + 0x1000, 0x1000, 0x1)));
    assert_eq!(devices.space.pages().len(), 4, "the page before the one in the way is in");
    assert_eq!((devices.next, devices.log.as_slice().len()), (next, 1));
    assert_eq!(
        devices.map(Span { start: 0, bytes: 1 << 31 }, READ_WRITE),
        Err(MappingError::OutOfFrames)
    );
}

#[test]
fn largest_leaf_of_the_direct_map() {
    let mut space = Sheet::new();
    let offset = 0xffff_8000_0000_0000;
    let regions = [(0x1f_f000, 0x40_1000)];
    memory::direct_map(&mut space, &mut Log::new(), &regions, offset).unwrap();

    let largest = memory::largest_ram_leaf(&space, &regions, offset).unwrap();

    assert_eq!((largest.start, largest.size), (offset + 0x20_0000, 0x20_0000));
    let twins = [(0x60_0000, 0xa0_0000)];
    memory::direct_map(&mut space, &mut Log::new(), &twins, offset).unwrap();
    let first = memory::largest_ram_leaf(&space, &twins, offset).unwrap();
    assert_eq!(first.start, offset + 0x60_0000, "the first of two as large");
    assert_eq!(
        memory::largest_ram_leaf(&space, &[(0x1f_f000, 0x40_2000)], offset),
        Err(PlatformError::Mapping(MappingError::Unmapped))
    );
}

#[test]
fn tables_are_swept_leaf_by_leaf() {
    let mut words = vec![0u64; 4 * 512];
    // The root's last entry, a 1 GiB leaf, then a 2 MiB leaf and a page below
    // the first.
    words[511] = 0x1000 | 0x3;
    words[512] = 0x4000_0000 | 0x83;
    words[512 + 1] = 0x2000 | 0x3;
    words[1024 + 5] = 0x60_0000 | 0x81;
    words[1024 + 6] = 0x3000 | 0x3;
    words[1536 + 7] = 0x8000_0000_0000_9000 | 0x1;
    let memory = Ram::new(0, words);

    let leaves: Vec<(u64, u64)> =
        walk::sweep(&memory, 0).iter().map(|leaf| (leaf.start, leaf.size)).collect();

    assert_eq!(
        leaves,
        [
            (0xffff_ff80_0000_0000, 0x4000_0000),
            (0xffff_ff80_40a0_0000, 0x20_0000),
            (0xffff_ff80_40c0_7000, 0x1000),
        ]
    );
}

#[test]
fn image_of_many_pages_is_one_range() {
    let mut live = Sheet::new();
    for at in 0..200u64 {
        live.map(page(0x40_0000 + at * 4096, 0x9000_0000 + at * 4096, 0x1)).unwrap();
    }
    let mut log = Log::new();

    memory::clone(&mut Sheet::new(), &mut log, &live, 0x40_0000, 0x4c_8000, Contents::Image)
        .unwrap();

    assert_eq!(log.as_slice(), &[MappedRange::image(0x40_0000, 0x4c_8000)]);
}

#[test]
fn full_log_refuses_another_range() {
    let mut log = Log::new();
    for at in 0..DECLARED as u64 {
        log.push(MappedRange::ram(at * 0x2000, at * 0x2000 + 0x1000)).unwrap();
    }

    let end = DECLARED as u64 * 0x2000;
    assert_eq!(log.push(MappedRange::ram(end, end + 0x1000)), Err(MappingError::Backend));
    assert_eq!(log.push(MappedRange::ram(end - 0x1000, end)), Ok(()), "the last range goes on");
    assert_eq!(log.as_slice().len(), DECLARED);
}

#[test]
fn owned_page_is_tried_out_and_removed() {
    let mut space = Sheet::new();
    space.map(page(0x1000, 0x1000, 0x1)).unwrap();
    let mut window = Buffer::new(vec![0; 4096]);

    assert_eq!(memory::verify_owned_mapping(&mut space, &mut window, Some(0x7000)), Ok(()));

    assert_eq!(window.contents()[..8], 0x4d4f_4c54_5f57_585e_u64.to_le_bytes());
    assert_eq!(space.pages(), &[page(0x1000, 0x1000, 0x1)]);
    assert_eq!(space.translate(memory::TEST_PAGE), None);
    assert_eq!(
        memory::verify_owned_mapping(&mut space, &mut window, None),
        Err(PlatformError::Mapping(MappingError::OutOfFrames))
    );
    space.map(page(memory::TEST_PAGE, 0x2000, 0x1)).unwrap();
    assert_eq!(
        memory::verify_owned_mapping(&mut space, &mut window, Some(0x7000)),
        Err(PlatformError::Mapping(MappingError::Backend)),
        "something is in the way"
    );
    assert_eq!(space.pages().len(), 2);
}

#[test]
fn plan_needs_a_direct_map_and_an_image() {
    assert_eq!(
        Plan::new(None, Some((1, 2)), None),
        Err(PlatformError::MissingPhysicalMemoryMap)
    );
    assert_eq!(
        Plan::new(Some(0x1000), None, None),
        Err(PlatformError::Mapping(MappingError::Unmapped))
    );
    assert_eq!(
        Plan::new(Some(0x1000), Some((1, 2)), Some(0x8000)),
        Ok(Plan { offset: 0x1000, image_start: 1, image_end: 2, trampoline: Some(0x8000) })
    );
}

#[test]
fn ram_is_no_device_window() {
    let ram = [(0xfee0_0800, 0xfee0_0900)];
    assert_eq!(
        memory::device_window(
            &mut Sheet::new(),
            &mut Log::new(),
            &ram,
            0xfee0_0000,
            memory::APIC_WINDOW
        ),
        Err(PlatformError::Mapping(MappingError::InvalidAddress))
    );
}
