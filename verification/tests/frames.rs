use molt::arch::{MappingError, MemoryRegion, MemoryRegionKind, PlatformError, Span};
use molt::frames::{self, FrameAllocator, FrameCursor};
use molt::memory::FramePool;

const OUT: PlatformError = PlatformError::Mapping(MappingError::OutOfFrames);

#[test]
fn usable_memory_is_clipped_to_the_floor() {
    let regions = [
        MemoryRegion::new(0, 0x1000, MemoryRegionKind::Usable),
        MemoryRegion::new(0x1000, 0x9000, MemoryRegionKind::Reserved),
        MemoryRegion::new(0x9000, 0xf000, MemoryRegionKind::Usable),
        MemoryRegion::new(0xf000, 0x1_0000, MemoryRegionKind::Firmware(3)),
        MemoryRegion::new(0x2_0000, 0x3_0000, MemoryRegionKind::Usable),
    ];

    assert_eq!(frames::usable(&regions, 0xa800), [(0xa800, 0xf000), (0x2_0000, 0x3_0000)]);
    assert_eq!(frames::usable(&regions, 0).len(), 3);
}

#[test]
fn frames_are_handed_out_once_lowest_first() {
    let ranges = [(0x2_0000, 0x2_2000), (0x8001, 0xafff)];
    let mut frames = FrameAllocator::above(&ranges, 0);

    let handed: Vec<u64> = std::iter::from_fn(|| frames.allocate()).collect();

    assert_eq!(handed, [0x9000, 0x2_0000, 0x2_1000]);
    assert_eq!(frames.cursor(), FrameCursor { next: 0x2_2000 });
    let mut resumed = FrameAllocator::resume(&ranges, FrameCursor { next: 0x2_0001 });
    assert_eq!(resumed.allocate(), Some(0x2_1000));
}

#[test]
fn claims_do_not_overlap() {
    let ranges = [(0x1000, 0x4000), (0x1_0000, 0x2_0000)];
    let mut cursor = FrameCursor { next: 0 };

    let first = frames::claim_ram(&ranges, &mut cursor, 2).unwrap();
    assert_eq!(first, Span { start: 0x1000, bytes: 0x2000 });
    let second = frames::claim_ram(&ranges, &mut cursor, 2).unwrap();
    assert_eq!(second, Span { start: 0x1_0000, bytes: 0x2000 }, "a run lies in one range");

    assert_eq!(frames::claim_ram(&ranges, &mut cursor, 15), Err(OUT));
    assert_eq!(frames::claim_ram(&ranges, &mut cursor, u64::MAX), Err(OUT));
    assert_eq!(cursor, FrameCursor { next: 0x1_2000 }, "a refused claim moved the cursor");
}

#[test]
fn pools_are_filled_from_what_is_left() {
    let ranges = [(0x1000, 0x5000)];
    let mut frames = FrameAllocator::above(&ranges, 0);
    let mut pool = FramePool::empty();
    frames.allocate();

    frames.fill(&mut pool, 2);
    assert_eq!((pool.take(), pool.take(), pool.take()), (Some(0x3000), Some(0x2000), None));

    frames.fill(&mut pool, 9);
    assert_eq!((pool.take(), pool.take()), (Some(0x4000), None));
    assert_eq!(frames.allocate(), None);
}

#[test]
fn devices_share_no_address_with_memory() {
    let ranges = [(0x8000_0000, 0x9000_0000)];
    let below = Span { start: 0x7fff_f000, bytes: 0x1000 };

    assert_eq!(frames::device(&ranges, below), Ok(below));
    assert_eq!(
        frames::device(&ranges, Span { bytes: 0x1001, ..below }),
        Err(MappingError::InvalidAddress)
    );
}
