use molt::crc::{crc32c, Crc};
use molt::fs::error::FsError;
use molt::fs::layout::{Area, Kind, Region, Super, BLOCK, MAX_NAME};
use molt::fs::log::{headers_crc, Record, HEADER};
use molt::fs::name::Name;
use molt::fs::slots::{Slot, Slots, SLOTS};
use molt::fs::survey::{newest, Checkpoint, Next, Survey};
use molt::fs::volume::{self, Fetch, Placement, Volume};
use molt::fs::walk::{committed, LogWalk, Want};
use molt::virtio::error::BlockError;

/// Where the superblock's fields sit.
const VERSION: usize = 8;
const ROOT: usize = 32;
const CRC: usize = 216;

fn sound() -> Super {
    let mut parsed = Super {
        generation: 7,
        blocks: 32,
        root: 0,
        log_blocks: 4,
        tree_at: 2,
        tree_blocks: 18,
        ..Super::default()
    };
    parsed.set_region(Area::Log, Region { at: 20, bytes: 0, crc: 0 });
    parsed
}

#[test]
fn superblock_survives_round_trip() {
    let mut block = [0u8; BLOCK];
    let written = sound();

    written.encode(&mut block);

    assert_eq!(Super::parse(&block), Ok(written));
}

#[test]
fn torn_superblock_refused() {
    let mut block = [0u8; BLOCK];
    sound().encode(&mut block);

    block[ROOT] ^= 1;

    assert_eq!(Super::parse(&block), Err(FsError::Checksum));
}

#[test]
fn any_flipped_bit_of_a_superblock_is_caught() {
    let mut block = [0u8; BLOCK];
    sound().encode(&mut block);

    for at in 0..CRC + 4 {
        for bit in 0..8 {
            let mut damaged = block;
            damaged[at] ^= 1 << bit;
            let caught = if at < VERSION { FsError::Magic } else { FsError::Checksum };
            assert_eq!(Super::parse(&damaged), Err(caught), "bit {bit} of byte {at}");
        }
    }
    block[CRC + 4] ^= 1;
    assert_eq!(Super::parse(&block), Ok(sound()), "the rest of the block does not matter");
}

#[test]
fn foreign_block_refused() {
    assert_eq!(Super::parse(&[0u8; BLOCK]), Err(FsError::Magic));
}

#[test]
fn future_version_refused() {
    let mut block = [0u8; BLOCK];
    sound().encode(&mut block);
    block[VERSION] = 9;
    let crc = crc32c(&block[..CRC]);
    block[CRC..CRC + 4].copy_from_slice(&crc.to_le_bytes());

    assert_eq!(Super::parse(&block), Err(FsError::Version(9)));
}

#[test]
fn region_past_end_refused() {
    let mut block = [0u8; BLOCK];
    let mut parsed = sound();
    parsed.set_region(Area::Log, Region { at: 31, bytes: 2 * BLOCK as u64, crc: 0 });
    parsed.encode(&mut block);

    assert_eq!(Super::parse(&block), Err(FsError::Corrupt));
}

#[test]
fn tree_over_log_refused() {
    let mut block = [0u8; BLOCK];
    let mut parsed = sound();
    parsed.tree_blocks += 1;
    parsed.encode(&mut block);

    assert_eq!(Super::parse(&block), Err(FsError::Corrupt));
}

#[test]
fn tree_root_outside_arena_refused() {
    let mut block = [0u8; BLOCK];
    let mut parsed = sound();
    parsed.tree_root = parsed.tree_at + u64::from(parsed.tree_blocks);
    parsed.encode(&mut block);

    assert_eq!(Super::parse(&block), Err(FsError::Corrupt));
}

#[test]
fn truncated_superblock_refused() {
    let mut block = [0u8; BLOCK];
    sound().encode(&mut block);

    assert_eq!(Super::parse(&block[..219]), Err(FsError::Corrupt));
    assert_eq!(Super::parse(&block[..220]), Ok(sound()));
}

#[test]
fn log_banks_follow_from_the_end() {
    let parsed = sound();

    assert_eq!(parsed.log_bank(0), Ok(20));
    assert_eq!(parsed.log_bank(2), Ok(28));
    assert_eq!(parsed.log_bank(3), Err(FsError::Corrupt));
    assert_eq!(Region { at: 20, bytes: 4097, crc: 0 }.blocks(), 2);
    assert_eq!((Kind::Dir.byte(), Kind::File.byte()), (0, 1));
}

// Names.

#[test]
fn name_keeps_its_bytes() -> Result<(), FsError> {
    let name = Name::new(b"molt.txt")?;

    assert_eq!(name.as_str(), Some("molt.txt"));
    Ok(())
}

#[test]
fn overlong_name_refused() {
    assert_eq!(Name::new(&[b'a'; MAX_NAME + 1]), Err(FsError::Name));
}

#[test]
fn empty_name_refused() {
    assert_eq!(Name::new(b""), Err(FsError::Name));
}

#[test]
fn separator_refused() {
    assert_eq!(Name::new(b"dir/file"), Err(FsError::Name));
}

#[test]
fn padding_does_not_affect_equality() -> Result<(), FsError> {
    assert_eq!(Name::new(b"a")?, Name::new(b"a")?);
    assert_ne!(Name::new(b"a")?, Name::new(b"ab")?);
    Ok(())
}

#[test]
fn overlong_text_is_no_name() {
    assert_eq!(Name::try_from(&"a".repeat(MAX_NAME + 1)), Err(FsError::Name));
}

#[test]
fn name_that_is_no_text_keeps_its_bytes() -> Result<(), FsError> {
    let name = Name::new(&[0xff, 0xfe])?;

    assert_eq!(name.as_str(), None);
    assert_eq!(name.as_bytes(), &[0xff, 0xfe]);
    assert_eq!((name.len(), name.is_empty()), (2, false));
    assert_eq!(Name::new(&[1, 0, 2]), Err(FsError::Name), "a null inside");
    Ok(())
}

// The payload log.

#[test]
fn write_span_covers_padding() -> Result<(), FsError> {
    let record = Record::write(3, 7, 600)?;

    assert_eq!(record.span(), Ok(1024));
    assert_eq!(record.payload_at(), Ok(36));
    let mut bytes = [0; 1024];
    record.encode(&mut bytes[..HEADER]);
    assert_eq!(Record::parse(&bytes), Ok(record));
    assert!(headers_crc(&bytes).is_ok());
    Ok(())
}

#[test]
fn record_chunks() -> Result<(), FsError> {
    let record = Record::write(1, 0, 2 * BLOCK + 7)?;

    assert_eq!(record.chunks(), 3);
    assert_eq!(record.chunk(0), Ok((0, BLOCK as u32)));
    assert_eq!(record.chunk(2), Ok((2 * BLOCK as u64, 7)));
    assert_eq!(record.chunk(3), Err(FsError::Range));
    assert_eq!(record.checksum_at(2), Ok(40));
    assert_eq!(record.checksum_at(3), Err(FsError::Range));
    assert_eq!(record.payload(), 2 * BLOCK as u32 + 7);
    assert_eq!(Record::write(1, 0, 0), Err(FsError::Range));
    assert_eq!(Record::checked(1, 0, 0), Err(FsError::Range));
    Ok(())
}

#[test]
fn record_with_a_stray_byte_refused() -> Result<(), FsError> {
    let mut header = [0u8; HEADER];
    Record::write(3, 7, 600)?.encode(&mut header);

    for at in [0, 4, 6, 17, 29] {
        let mut torn = header;
        torn[at] ^= 0x80;
        assert_eq!(Record::parse(&torn), Err(FsError::Corrupt), "byte {at}");
    }
    assert_eq!(Record::parse(&header[..31]), Err(FsError::Corrupt));
    Ok(())
}

/// A log of two records, the second right behind the first.
fn two_records() -> Vec<u8> {
    let first = Record::write(1, 0, 600).unwrap();
    let second = Record::write(2, 64, 5000).unwrap();
    let mut bytes = vec![0u8; (first.span().unwrap() + second.span().unwrap()) as usize];
    first.encode(&mut bytes[..HEADER]);
    let at = first.span().unwrap() as usize;
    second.encode(&mut bytes[at..at + HEADER]);
    bytes
}

#[test]
fn walking_the_disk_agrees_with_walking_the_image() {
    let bytes = two_records();
    let mut walk = LogWalk::new(Region { at: 20, bytes: bytes.len() as u64, crc: 0 });

    let mut reads = 0;
    let sum = loop {
        match walk.next() {
            Want::Header { block, within } => {
                let at = (block - 20) as usize * BLOCK + within;
                walk.take(&bytes[at..at + HEADER]).unwrap();
                reads += 1;
            }
            Want::Done(sum) => break sum,
            Want::Failed(error) => panic!("a sound log was refused: {error:?}"),
        }
    };

    assert_eq!(reads, 2);
    assert_eq!(headers_crc(&bytes), Ok(sum));
}

#[test]
fn log_that_records_do_not_fill_refused() {
    let bytes = two_records();
    let short = &bytes[..bytes.len() - 512];

    assert_eq!(headers_crc(short), Err(FsError::Corrupt));

    let mut walk = LogWalk::new(Region { at: 20, bytes: short.len() as u64, crc: 0 });
    walk.take(&bytes[..HEADER]).unwrap();
    walk.take(&bytes[1024..1024 + HEADER]).unwrap();
    assert_eq!(walk.next(), Want::Failed(FsError::Corrupt));
    assert_eq!(headers_crc(&[]), Ok(0), "an empty log");
}

// Checksums.

#[test]
fn checksum_of_the_check_string() {
    assert_eq!(crc32c(b"123456789"), 0xe306_9283);
    assert_eq!(crc32c(b""), 0);

    let mut crc = Crc::new();
    crc.update(b"1234");
    crc.update(b"56789");
    assert_eq!(crc.finish(), 0xe306_9283, "the cut changed the sum");
}

// Which checkpoint is mounted.

fn block_of(value: &Super) -> Vec<u8> {
    let mut block = vec![0u8; BLOCK];
    value.encode(&mut block);
    block
}

fn generation(generation: u64, tree_root: u64) -> Super {
    Super { generation, tree_root, ..sound() }
}

#[test]
fn newest_generation_is_mounted_with_the_one_before() {
    let older = generation(4, 3);
    let newer = generation(5, 0);
    let (mut survey, next) = Survey::begin(&block_of(&older), &block_of(&newer), 256);

    assert_eq!(next, Next::Verify(1, newer));
    let next = survey.verified(Ok(()));
    assert_eq!(next, Next::Verify(0, older));
    let next = survey.verified(Ok(()));

    assert_eq!(
        next,
        Next::Settled(Checkpoint {
            superblock: newer,
            active_copy: 1,
            previous_log: Some(20),
            previous_tree: Some(3),
        })
    );
}

#[test]
fn torn_copy_leaves_the_other() {
    let mut first = block_of(&generation(5, 0));
    first[0] ^= 0xff;
    let older = generation(4, 0);

    let (mut survey, next) = Survey::begin(&first, &block_of(&older), 256);

    assert_eq!(next, Next::Verify(1, older));
    assert_eq!(
        survey.verified(Ok(())),
        Next::Settled(Checkpoint {
            superblock: older,
            active_copy: 1,
            previous_log: None,
            previous_tree: None,
        })
    );
}

#[test]
fn copies_that_fail_are_passed_over() {
    let newer = generation(5, 0);
    let older = generation(4, 0);
    let (mut survey, next) = Survey::begin(&block_of(&newer), &block_of(&older), 256);

    assert_eq!(next, Next::Verify(0, newer));
    assert_eq!(survey.verified(Err(FsError::Checksum)), Next::Verify(1, older));
    assert_eq!(survey.verified(Err(FsError::Corrupt)), Next::Failed(FsError::Corrupt));
}

#[test]
fn volume_without_a_sound_copy_fails() {
    let blank = vec![0u8; BLOCK];
    let (_, next) = Survey::begin(&blank, &blank, 256);
    assert_eq!(next, Next::Failed(FsError::Magic));

    // Both copies describe more than the device has.
    let (_, next) = Survey::begin(&block_of(&sound()), &block_of(&sound()), 255);
    assert_eq!(next, Next::Failed(FsError::Corrupt));
}

#[test]
fn ties_go_to_the_lower_copy() {
    let copies = [Some(generation(4, 0)), Some(generation(4, 3))];

    assert_eq!(newest(&copies, &[false, false]), Some(0));
    assert_eq!(newest(&copies, &[true, false]), Some(1));
    assert_eq!(newest(&copies, &[true, true]), None);
}

// Where writes go, and what a commit keeps.

#[test]
fn committed_checkpoint_is_mounted_and_the_last_one_kept() {
    let mut mounted = Volume::new(256);
    assert_eq!(mounted.checkpoint().blocks, 32);
    mounted.adopt(Checkpoint {
        superblock: generation(4, 3),
        active_copy: 0,
        previous_log: None,
        previous_tree: None,
    });

    let mut next = generation(5, 4);
    next.set_region(Area::Log, Region { at: 24, bytes: 0, crc: 0 });
    mounted.commit(1, next);

    assert_eq!((mounted.generation(), mounted.active_copy()), (5, 1));
    assert_eq!((mounted.previous_log(), mounted.previous_tree()), (Some(20), Some(3)));
    mounted.forget();
    assert_eq!((mounted.generation(), mounted.root()), (0, 0));
}

#[test]
fn written_checkpoint_is_read_back() {
    let (sector, bytes) = volume::write_checkpoint(1, &sound()).unwrap();

    assert_eq!((sector, bytes.len()), (8, 512));
    assert_eq!(Super::parse(&bytes), Ok(sound()));
    assert_eq!(volume::write_checkpoint(2, &sound()).err(), Some(FsError::Corrupt));
}

#[test]
fn aligned_writes_are_placed() {
    assert_eq!(
        volume::write_aligned(20, 4096 + 512, 4096),
        Ok(Placement { sector: 169, first: 21, end: 23 })
    );
    assert_eq!(volume::write_aligned(20, 100, 512), Err(FsError::Corrupt));
    assert_eq!(volume::write_aligned(20, 0, 100), Err(FsError::Corrupt));
    assert_eq!(volume::write_aligned(20, 0, 8192), Err(FsError::Corrupt));
    assert_eq!(volume::write_aligned(u64::MAX, 0, 512), Err(FsError::Corrupt));
}

#[test]
fn tree_blocks_stay_in_the_arena() {
    let mut mounted = Volume::new(256);
    mounted.superblock = sound();

    assert_eq!(mounted.tree_block(19), Ok(Placement { sector: 152, first: 19, end: 20 }));
    assert_eq!(mounted.tree_block(20), Err(FsError::Corrupt));
    assert_eq!(mounted.tree_block(1), Err(FsError::Corrupt));
}

// The slots.

fn here(slots: &Slots, at: usize) -> Option<u64> {
    match &slots.slots[at] {
        Slot::Here { block, .. } => *block,
        _ => None,
    }
}

#[test]
fn a_block_is_fetched_once_and_kept() {
    let mut slots = Slots::new();
    assert_eq!(slots.find(5), None);
    assert!(slots.wants());
    let at = slots.free(Some(vec![0; BLOCK])).unwrap();

    let buffer = slots.lend(at).unwrap();
    slots.fly(at, 5, 77);
    assert_eq!(slots.find(5), Some(at), "a block in flight was not found");
    assert_eq!(slots.awaited(at), Some((5, 77)));
    slots.land(at, Some(buffer), Ok(())).unwrap();

    assert_eq!(here(&slots, at), Some(5));
    assert_eq!(slots.resident(at).map(<[u8]>::len), Ok(BLOCK));
    assert!(slots.covers(at, 5, 6) && !slots.covers(at, 6, 9));
    slots.drop_block(at);
    assert_eq!(slots.find(5), None);
}

#[test]
fn a_refused_read_leaves_nothing_behind() {
    let mut slots = Slots::new();
    let at = slots.free(Some(vec![0; BLOCK])).unwrap();
    let buffer = slots.lend(at).unwrap();
    slots.fly(at, 5, 1);

    assert_eq!(slots.land(at, None, Ok(())), Err(FsError::Corrupt), "the buffer was lost");
    assert_eq!(
        slots.land(at, Some(buffer), Err(BlockError::Device)),
        Err(FsError::Device(BlockError::Device))
    );
    assert_eq!(here(&slots, at), None);
    assert_eq!(slots.lend(at).map(|buffer| buffer.len()), Ok(BLOCK));
    assert_eq!(slots.lend(at).err(), Some(FsError::Corrupt), "a buffer was lent twice");
}

#[test]
fn the_hand_comes_round_only_when_the_pool_is_full() {
    let mut slots = Slots::new();
    for block in 0..SLOTS as u64 {
        let at = slots.free(Some(vec![0; 8])).unwrap();
        let buffer = slots.lend(at).unwrap();
        slots.fly(at, block, block);
        slots.land(at, Some(buffer), Ok(())).unwrap();
    }

    assert!(!slots.wants());
    assert_eq!(slots.free(Some(vec![0; 8])), Some(0));
    assert_eq!(slots.free(None), Some(1), "the hand did not move on");
    slots.lend(2).unwrap();
    assert_eq!(slots.free(None), Some(3), "a lent slot was taken");
    slots.drop_block(6);
    assert_eq!(slots.free(None), Some(6), "an empty slot goes first");
}

#[test]
fn blocks_are_fetched_into_the_slots() {
    let mut mounted = Volume::new(256);
    assert_eq!(mounted.block(32, None), Err(FsError::Corrupt), "past the end");
    assert_eq!(mounted.block(31, None), Err(FsError::Memory), "no buffer at all");

    assert_eq!(mounted.block(31, Some(vec![0; BLOCK])), Ok(Fetch::Spare(0)));
    let (sector, buffer) = mounted.start(0, 31).unwrap();
    assert_eq!(sector, 248);
    mounted.slots.fly(0, 31, 7);

    assert_eq!(mounted.block(31, None), Ok(Fetch::Held(0)));
    assert_eq!(mounted.block(30, None), Ok(Fetch::Await(0)), "every buffer is at the device");
    assert_eq!(mounted.start(0, u64::MAX).err(), Some(FsError::Corrupt));
    mounted.slots.land(0, Some(buffer), Ok(())).unwrap();
    assert_eq!(mounted.block(30, None), Ok(Fetch::Spare(0)), "a resident block gives way");
}

#[test]
fn prefetch_takes_only_what_is_free() {
    let mut mounted = Volume::new(256);
    assert_eq!(mounted.prefetch(32, Some(vec![0; BLOCK])), None);
    assert_eq!(mounted.prefetch(3, None), None);
    assert_eq!(mounted.prefetch(3, Some(vec![0; BLOCK])), Some(0));
    let (sector, _) = mounted.start(0, 3).unwrap();
    mounted.slots.fly(0, 3, 1);

    assert_eq!(sector, 24);
    assert_eq!(mounted.prefetch(3, Some(vec![0; BLOCK])), None, "already in flight");
    assert_eq!(mounted.prefetch(4, None), None, "the buffer is at the device");
    assert_eq!(mounted.start(0, 4).err(), Some(FsError::Corrupt));
}

#[test]
fn writes_drop_only_the_blocks_they_cover() {
    let mut slots = Slots::new();
    for block in [4, 9, 5] {
        let at = slots.free(Some(vec![0; 8])).unwrap();
        let buffer = slots.lend(at).unwrap();
        slots.fly(at, block, block);
        slots.land(at, Some(buffer), Ok(())).unwrap();
    }

    let mut from = 0;
    let mut dropped = Vec::new();
    while let Some(at) = slots.stale(from, 4, 6) {
        slots.drop_block(at);
        dropped.push(at);
        from = at + 1;
    }

    assert_eq!(dropped, [0, 2]);
    assert_eq!((slots.find(4), slots.find(9), slots.find(5)), (None, Some(1), None));
}

#[test]
fn log_that_hashes_otherwise_refused() {
    let region = Region { at: 20, bytes: 512, crc: 0x1234 };

    assert_eq!(committed(region, 0x1234), Ok(()));
    assert_eq!(committed(region, 0x1235), Err(FsError::Checksum));
}
