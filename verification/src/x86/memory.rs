//! Kernel-owned translation tables.
//!
//! [`build`] maps usable RAM, clones the live image and boot windows, and adds
//! an uncacheable APIC window. Owning the exact declared set is what lets an
//! audit go both ways without inheriting the loader's mappings.
use vstd::prelude::*;

use crate::align;
use crate::arch::{
    Cache, Contents, Leaf, MappedRange, MappingError, PlatformError, Rights, Span,
};
use crate::x86::apic::APIC_MMIO;
use crate::x86::boot::{BOOT_INFO_BASE, BOOT_INFO_WINDOW, STACK_BASE, STACK_SIZE};
use crate::x86::flags::{self, flags_for, permitted};
use crate::frames;
use crate::window::{self, Window};
use crate::x86::space::{
    self, all_noted, begun, entered, flat, goes_on, halted, noted, overfull, overlaid, partly, ranges_of, reached,
    stopped, Live, Log, Page, Piece, Space, DECLARED,
};

verus! {

pub const PAGE_4K: u64 = 0x1000;

pub const PAGE_2M: u64 = 0x20_0000;

/// Maximum contiguous mapping scanned beyond the image's reported file length.
pub const IMAGE_LIMIT: u64 = 0x400_0000;

pub const APIC_WINDOW: u64 = 0xffff_9200_0000_0000;

/// Where [`Devices::map`] puts the windows a driver asks for, and how far it
/// may go.
pub const DEVICE_REGION: u64 = 0xffff_9300_0000_0000;

pub const DEVICE_REGION_END: u64 = 0xffff_9300_4000_0000;

/// How far up an application processor's first instruction may live: a core
/// coming out of reset starts at `vector << 12`, and the vector is one byte.
pub const TRAMPOLINE_LIMIT: u64 = 0x10_0000;

/// Which frames the tables are rooted in and cores are started from.
///
/// The lowest usable frame is the only candidate for the trampoline, and it is
/// taken first so nothing else can be handed it. A machine that left none under
/// a megabyte keeps the frame as a table instead and boots one core.
pub fn set_aside(first: Option<u64>, second: Option<u64>) -> (chosen: Result<
    (u64, Option<u64>),
    PlatformError,
>)
    ensures
        chosen == match (first, second) {
            (Some(first), second) => if first >= TRAMPOLINE_LIMIT {
                Ok::<(u64, Option<u64>), PlatformError>((first, None))
            } else {
                match second {
                    Some(root) => Ok::<(u64, Option<u64>), PlatformError>((root, Some(first))),
                    None => Err::<(u64, Option<u64>), PlatformError>(
                        PlatformError::Mapping(MappingError::OutOfFrames),
                    ),
                }
            },
            (None, _) => Err::<(u64, Option<u64>), PlatformError>(
                PlatformError::Mapping(MappingError::OutOfFrames),
            ),
        },
{
    match first {
        None => Err(PlatformError::Mapping(MappingError::OutOfFrames)),
        Some(first) => {
            if first >= TRAMPOLINE_LIMIT {
                return Ok((first, None));
            }
            match second {
                Some(root) => Ok((root, Some(first))),
                None => Err(PlatformError::Mapping(MappingError::OutOfFrames)),
            }
        },
    }
}

/// Whether a 2 MiB page fits where the direct map has got to.
pub open spec fn large(offset: int, at: int, end: int) -> bool {
    (offset + at) % 0x20_0000 == 0 && at % 0x20_0000 == 0 && end - at >= 0x20_0000
}

/// The page the direct map puts at `at`: as large as fits.
pub open spec fn slice(offset: int, at: int, end: int) -> Page {
    Page {
        va: (offset + at) as u64,
        pa: at as u64,
        size: if large(offset, at, end) {
            PAGE_2M
        } else {
            PAGE_4K
        },
        flags: flags_for(
            Rights { read: true, write: true, execute: false },
            Cache::WriteBack,
        ) as u64,
    }
}

/// The pages that map `at..end` at its offset.
pub open spec fn sliced(offset: int, at: int, end: int) -> Seq<Page>
    decreases
            if at < end {
                end - at
            } else {
                0
            },
{
    if at >= end {
        seq![]
    } else {
        let page = slice(offset, at, end);
        seq![page] + sliced(offset, at + page.size, end)
    }
}

/// The whole pages of a region.
pub open spec fn whole(region: (u64, u64)) -> (int, int) {
    (align::up(region.0 as int, 4096), align::down(region.1 as int, 4096))
}

/// Whether a region's pages have addresses at the offset.
pub open spec fn direct(offset: u64, region: (u64, u64)) -> bool {
    let (start, end) = whole(region);
    start <= u64::MAX && (start < end ==> offset + end <= u64::MAX)
}

/// The pages of the first `n` regions.
pub open spec fn all_sliced(offset: u64, regions: Seq<(u64, u64)>, n: int) -> Seq<Page>
    decreases n,
{
    if n <= 0 {
        seq![]
    } else {
        let (start, end) = whole(regions[n - 1]);
        all_sliced(offset, regions, n - 1) + sliced(offset as int, start, end)
    }
}

/// What is declared of the first `n` regions: those that hold a page.
pub open spec fn all_declared(offset: u64, regions: Seq<(u64, u64)>, n: int) -> Seq<MappedRange>
    decreases n,
{
    if n <= 0 {
        seq![]
    } else {
        let (start, end) = whole(regions[n - 1]);
        let before = all_declared(offset, regions, n - 1);
        if start < end {
            before.push(
                MappedRange {
                    start: (offset + start) as u64,
                    end: (offset + end) as u64,
                    contents: Contents::Ram,
                },
            )
        } else {
            before
        }
    }
}

/// A region as it is put in and declared.
pub open spec fn region_piece(offset: u64, region: (u64, u64)) -> Piece {
    let (start, end) = whole(region);
    Piece {
        pages: sliced(offset as int, start, end),
        range: MappedRange {
            start: (offset + start) as u64,
            end: (offset + end) as u64,
            contents: Contents::Ram,
        },
    }
}

/// The first `n` regions as they are put in and declared: those that hold a
/// page.
pub open spec fn region_pieces(offset: u64, regions: Seq<(u64, u64)>, n: int) -> Seq<Piece>
    decreases n,
{
    if n <= 0 {
        seq![]
    } else {
        let (start, end) = whole(regions[n - 1]);
        let before = region_pieces(offset, regions, n - 1);
        if start < end {
            before.push(region_piece(offset, regions[n - 1]))
        } else {
            before
        }
    }
}

proof fn lemma_region_pieces(offset: u64, regions: Seq<(u64, u64)>, n: int)
    ensures
        flat(region_pieces(offset, regions, n)) == all_sliced(offset, regions, n),
        ranges_of(region_pieces(offset, regions, n)) == all_declared(offset, regions, n),
    decreases n,
{
    if n <= 0 {
        assert(ranges_of(seq![]) =~= Seq::<MappedRange>::empty());
    } else {
        lemma_region_pieces(offset, regions, n - 1);
        let (start, end) = whole(regions[n - 1]);
        let before = region_pieces(offset, regions, n - 1);
        let pieces = region_pieces(offset, regions, n);
        if start < end {
            assert(pieces.drop_last() =~= before);
            assert(ranges_of(pieces) =~= all_declared(offset, regions, n));
        } else {
            assert(all_sliced(offset, regions, n) =~= all_sliced(offset, regions, n - 1));
        }
    }
}

/// The pieces of the first regions come first.
proof fn lemma_pieces_first(offset: u64, regions: Seq<(u64, u64)>, i: int, n: int)
    requires
        0 <= i <= n,
    ensures
        region_pieces(offset, regions, i).len() <= region_pieces(offset, regions, n).len(),
        region_pieces(offset, regions, n) == region_pieces(offset, regions, i) + region_pieces(
            offset,
            regions,
            n,
        ).skip(region_pieces(offset, regions, i).len() as int),
    decreases n - i,
{
    let all = region_pieces(offset, regions, n);
    let first = region_pieces(offset, regions, i);
    if i < n {
        lemma_pieces_first(offset, regions, i, n - 1);
    }
    assert(all =~= first + all.skip(first.len() as int));
}

/// Nothing is put in with no pieces.
proof fn lemma_nothing<S: Space>(space: S, log: Seq<MappedRange>)
    ensures
        entered(space, log, seq![], space, log),
{
    assert(space.mapped() + flat(seq![]) =~= space.mapped());
    assert(ranges_of(seq![]) =~= Seq::<MappedRange>::empty());
}

/// Whatever the middle of some pieces came to, the whole came to.
proof fn lemma_phase<S: Space>(
    base: S,
    log: Seq<MappedRange>,
    head: Seq<Piece>,
    held: S,
    held_log: Seq<MappedRange>,
    middle: Seq<Piece>,
    tail: Seq<Piece>,
    after: S,
    log_after: Seq<MappedRange>,
)
    requires
        entered(base, log, head, held, held_log),
    ensures
        stopped(held, held_log, middle, after, log_after) ==> stopped(
            base,
            log,
            head + middle + tail,
            after,
            log_after,
        ),
        overfull(held, held_log, middle, after, log_after) ==> overfull(
            base,
            log,
            head + middle + tail,
            after,
            log_after,
        ),
        partly(held, held_log, middle, after, log_after) ==> partly(
            base,
            log,
            head + middle + tail,
            after,
            log_after,
        ),
        entered(held, held_log, middle, after, log_after) ==> entered(
            base,
            log,
            head + middle,
            after,
            log_after,
        ),
{
    if stopped(held, held_log, middle, after, log_after) {
        space::lemma_stopped(base, log, head, held, held_log, middle, tail, after, log_after);
    }
    if overfull(held, held_log, middle, after, log_after) {
        space::lemma_overfull(base, log, head, held, held_log, middle, tail, after, log_after);
    }
    if partly(held, held_log, middle, after, log_after) {
        space::lemma_partly(base, log, head, held, held_log, middle, tail, after, log_after);
    }
    if entered(held, held_log, middle, after, log_after) {
        space::lemma_entered(base, log, head, held, held_log, middle, after, log_after);
    }
}

/// One piece whose page was refused stopped there.
proof fn lemma_piece_stopped<S: Space>(
    held: S,
    log: Seq<MappedRange>,
    piece: Piece,
    after: S,
)
    requires
        halted(held, piece.pages, after),
    ensures
        stopped(held, log, seq![piece], after, log),
{
    let n = choose|n: int|
        {
            &&& 0 <= n < piece.pages.len()
            &&& after.mapped() == held.mapped() + #[trigger] piece.pages.take(n)
            &&& after.refused() == held.refused().push(piece.pages[n])
        };
    space::lemma_one_piece(piece);
    let one = seq![piece];
    assert(flat(one.take(0)) + piece.pages.take(n) =~= piece.pages.take(n));
    assert(reached(held, log, one, 0, n, after, log));
}

/// One piece that was put in and found no room to be declared.
proof fn lemma_piece_overfull<S: Space>(
    held: S,
    log: Seq<MappedRange>,
    piece: Piece,
    after: S,
)
    requires
        after.mapped() == held.mapped() + piece.pages,
        after.refused() == held.refused(),
        log.len() >= DECLARED,
        !goes_on(log, piece.range),
    ensures
        overfull(held, log, seq![piece], after, log),
{
    space::lemma_one_piece(piece);
    let one = seq![piece];
    let n = piece.pages.len() as int;
    assert(piece.pages.take(n) =~= piece.pages);
    assert(flat(one.take(0)) + piece.pages.take(n) =~= piece.pages);
    assert(reached(held, log, one, 0, n, after, log));
}

/// One piece that was put in and declared.
proof fn lemma_piece_entered<S: Space>(
    held: S,
    log: Seq<MappedRange>,
    piece: Piece,
    after: S,
)
    requires
        after.mapped() == held.mapped() + piece.pages,
        after.refused() == held.refused(),
    ensures
        entered(held, log, seq![piece], after, noted(log, piece.range)),
{
    space::lemma_one_piece(piece);
    assert(all_noted(log, seq![piece.range].drop_last()) == log);
}

/// The direct map reaches every page of a region at its offset, and nothing
/// else: page after page, from the region's first address to its last.
pub proof fn law_direct_map_is_whole(offset: int, at: int, end: int, address: int)
    requires
        0 <= offset,
        0 <= at <= address < end,
        at % 4096 == 0,
        end % 4096 == 0,
        offset % 4096 == 0,
        offset + end <= u64::MAX,
    ensures
        exists|i: int|
            0 <= i < sliced(offset, at, end).len() && {
                let page = #[trigger] sliced(offset, at, end)[i];
                &&& page.va == offset + page.pa
                &&& page.pa <= address < page.pa + page.size
                &&& at <= page.pa
                &&& page.pa + page.size <= end
            },
    decreases end - at,
{
    let page = slice(offset, at, end);
    let rest = sliced(offset, at + page.size, end);
    assert(sliced(offset, at, end) =~= seq![page] + rest);
    if address < at + page.size {
        assert(sliced(offset, at, end)[0] == page);
    } else {
        law_direct_map_is_whole(offset, at + page.size, end, address);
        let i = choose|i: int|
            0 <= i < rest.len() && {
                let page = #[trigger] rest[i];
                &&& page.va == offset + page.pa
                &&& page.pa <= address < page.pa + page.size
                &&& at <= page.pa
                &&& page.pa + page.size <= end
            };
        assert(sliced(offset, at, end)[i + 1] == rest[i]);
    }
}

/// Stopping in the middle of some pages is stopping in the whole.
proof fn lemma_halted<S: Space>(
    base: S,
    head: Seq<Page>,
    held: S,
    middle: Seq<Page>,
    tail: Seq<Page>,
    after: S,
)
    requires
        held.mapped() == base.mapped() + head,
        held.refused() == base.refused(),
        halted(held, middle, after),
    ensures
        halted(base, head + middle + tail, after),
{
    let n = choose|n: int|
        {
            &&& 0 <= n < middle.len()
            &&& after.mapped() == held.mapped() + #[trigger] middle.take(n)
            &&& after.refused() == held.refused().push(middle[n])
        };
    let all = head + middle + tail;
    let m = head.len() + n;
    assert(all.take(m) =~= head + middle.take(n));
    assert(base.mapped() + all.take(m) =~= after.mapped());
    assert(all[m] == middle[n]);
}

/// Stopping at the next page is stopping in the whole.
proof fn lemma_halted_at<S: Space>(
    base: S,
    head: Seq<Page>,
    held: S,
    page: Page,
    tail: Seq<Page>,
    after: S,
)
    requires
        held.mapped() == base.mapped() + head,
        held.refused() == base.refused(),
        after.mapped() == held.mapped(),
        after.refused() == held.refused().push(page),
    ensures
        halted(base, head + (seq![page] + tail), after),
{
    let one = seq![page];
    assert(held.mapped() + one.take(0) =~= after.mapped());
    assert(halted(held, one, after));
    lemma_halted(base, head, held, one, tail, after);
    assert(head + one + tail =~= head + (one + tail));
}

/// Direct-maps only firmware-usable RAM.
pub fn direct_map<S: Space>(
    space: &mut S,
    log: &mut Log,
    regions: &[(u64, u64)],
    offset: u64,
) -> (done: Result<(), PlatformError>)
    requires
        offset as int % 4096 == 0,
        forall|i: int|
            0 <= i < regions@.len() ==> offset + whole(#[trigger] regions@[i]).1 != u64::MAX + 1,
    ensures
        overlaid(*old(space), *final(space)),
        match done {
            Ok(()) => {
                &&& forall|i: int|
                    0 <= i < regions@.len() ==> direct(offset, #[trigger] regions@[i])
                &&& final(space).mapped() == old(space).mapped() + all_sliced(
                    offset,
                    regions@,
                    regions@.len() as int,
                )
                &&& final(space).refused() == old(space).refused()
                &&& final(log)@ == all_noted(
                    old(log)@,
                    all_declared(offset, regions@, regions@.len() as int),
                )
            },
            Err(error) => {
                let pieces = region_pieces(offset, regions@, regions@.len() as int);
                ||| {
                    &&& error == PlatformError::Mapping(MappingError::InvalidAddress)
                    &&& partly(*old(space), old(log)@, pieces, *final(space), final(log)@)
                    &&& exists|i: int|
                        0 <= i < regions@.len() && !direct(offset, #[trigger] regions@[i])
                }
                ||| {
                    &&& error == PlatformError::Mapping(MappingError::Backend)
                    &&& stopped(*old(space), old(log)@, pieces, *final(space), final(log)@)
                }
                ||| {
                    &&& error == PlatformError::Mapping(MappingError::Backend)
                    &&& overfull(*old(space), old(log)@, pieces, *final(space), final(log)@)
                }
            },
        },
{
    let ghost before = *space;
    let ghost declared = log@;
    let ghost all = region_pieces(offset, regions@, regions@.len() as int);
    let mut i: usize = 0;
    proof {
        lemma_nothing(before, declared);
        space::lemma_as_it_was(before);
    }
    while i < regions.len()
        invariant
            i <= regions@.len(),
            before == *old(space),
            overlaid(before, *space),
            declared == old(log)@,
            all == region_pieces(offset, regions@, regions@.len() as int),
            offset as int % 4096 == 0,
            forall|k: int|
                0 <= k < regions@.len() ==> offset + whole(#[trigger] regions@[k]).1 != u64::MAX
                    + 1,
            forall|k: int| 0 <= k < i ==> direct(offset, #[trigger] regions@[k]),
            entered(before, declared, region_pieces(offset, regions@, i as int), *space, log@),
        decreases regions.len() - i,
    {
        let (from, to) = regions[i];
        assert(regions@[i as int] == (from, to));
        let ghost head = region_pieces(offset, regions@, i as int);
        let ghost earlier = *space;
        let ghost logged = log@;
        proof {
            align::lemma_up(from as int, 4096);
            align::lemma_down(to as int, 4096);
            lemma_pieces_first(offset, regions@, i as int, regions@.len() as int);
            lemma_pieces_first(offset, regions@, i + 1, regions@.len() as int);
            lemma_nothing(earlier, logged);
            let rest = all.skip(head.len() as int);
            lemma_phase(before, declared, head, earlier, logged, seq![], rest, earlier, logged);
            assert(head + Seq::<Piece>::empty() + rest =~= all);
        }
        let start: u64 = match align::align_up(from, PAGE_4K) {
            Some(start) => start,
            None => {
                assert(!direct(offset, regions@[i as int]));
                return Err(PlatformError::Mapping(MappingError::InvalidAddress));
            },
        };
        let end: u64 = align::align_down(to, PAGE_4K);
        let ghost slices = sliced(offset as int, start as int, end as int);
        if start < end {
            let ghost piece = region_piece(offset, regions@[i as int]);
            let ghost one = seq![piece];
            let ghost tail = all.skip(region_pieces(offset, regions@, i + 1).len() as int);
            let mapped = map_slices(space, start, end, offset);
            proof {
                space::lemma_overlaid(before, earlier, *space);
                assert(region_pieces(offset, regions@, i + 1) =~= head + one);
                assert(head + one + tail =~= all);
                if halted(earlier, slices, *space) {
                    lemma_piece_stopped(earlier, logged, piece, *space);
                }
                if mapped is Err && !halted(earlier, slices, *space) {
                    let n = choose|n: int|
                        0 <= n <= slices.len() && space.mapped() == earlier.mapped()
                            + #[trigger] slices.take(n);
                    space::lemma_one_piece(piece);
                    assert(flat(one.take(0)) + piece.pages.take(n) =~= slices.take(n));
                    assert(reached(earlier, logged, one, 0, n, *space, logged));
                }
                lemma_phase(before, declared, head, earlier, logged, one, tail, *space, logged);
            }
            mapped?;
            let range = MappedRange::ram(offset + start, offset + end);
            let told = log.push(range);
            proof {
                if told is Err {
                    lemma_piece_overfull(earlier, logged, piece, *space);
                } else {
                    lemma_piece_entered(earlier, logged, piece, *space);
                }
                lemma_phase(before, declared, head, earlier, logged, one, tail, *space, log@);
            }
            if let Err(error) = told {
                return Err(PlatformError::Mapping(error));
            }
        }
        i = i + 1;
    }
    proof {
        lemma_region_pieces(offset, regions@, regions@.len() as int);
    }
    Ok(())
}

/// The page the direct map puts at `physical`, of a region that ends at `end`.
fn next_slice(offset: u64, physical: u64, end: u64) -> (page: Page)
    requires
        physical < end,
        physical as int % 4096 == 0,
        end as int % 4096 == 0,
        offset as int % 4096 == 0,
        offset + physical <= u64::MAX,
        offset + end != u64::MAX + 1,
    ensures
        page == slice(offset as int, physical as int, end as int),
        page.wf(),
        physical + page.size <= end,
        (physical + page.size) % 4096 == 0,
        offset + physical + page.size <= u64::MAX + 1,
{
    let virtual_address: u64 = offset + physical;
    let fits = virtual_address % PAGE_2M == 0 && physical % PAGE_2M == 0 && end - physical
        >= PAGE_2M;
    let size: u64 = if fits {
        PAGE_2M
    } else {
        PAGE_4K
    };
    let flags: u64 = flags::leaf_flags(Rights::new(true, true, false), Cache::WriteBack);
    Page { va: virtual_address, pa: physical, size, flags }
}

/// Direct-maps the pages of one region.
fn map_slices<S: Space>(space: &mut S, start: u64, end: u64, offset: u64) -> (done: Result<
    (),
    PlatformError,
>)
    requires
        start < end,
        start as int % 4096 == 0,
        end as int % 4096 == 0,
        offset as int % 4096 == 0,
        offset + end != u64::MAX + 1,
    ensures
        overlaid(*old(space), *final(space)),
        match done {
            Ok(()) => {
                &&& offset + end <= u64::MAX
                &&& final(space).mapped() == old(space).mapped() + sliced(
                    offset as int,
                    start as int,
                    end as int,
                )
                &&& final(space).refused() == old(space).refused()
            },
            Err(error) => {
                ||| {
                    &&& error == PlatformError::Mapping(MappingError::InvalidAddress)
                    &&& final(space).refused() == old(space).refused()
                    &&& offset + end > u64::MAX
                    &&& begun(
                        *old(space),
                        sliced(offset as int, start as int, end as int),
                        *final(space),
                    )
                }
                ||| {
                    &&& error == PlatformError::Mapping(MappingError::Backend)
                    &&& halted(
                        *old(space),
                        sliced(offset as int, start as int, end as int),
                        *final(space),
                    )
                }
            },
        },
{
    let ghost before = *space;
    let ghost all = sliced(offset as int, start as int, end as int);
    let ghost mut put: Seq<Page> = seq![];
    let mut physical: u64 = start;
    proof {
        assert(before.mapped() + put =~= before.mapped());
        assert(put + all =~= all);
        space::lemma_as_it_was(before);
    }
    while physical < end
        invariant
            start <= physical <= end,
            before == *old(space),
            overlaid(before, *space),
            physical as int % 4096 == 0,
            end as int % 4096 == 0,
            offset as int % 4096 == 0,
            offset + end != u64::MAX + 1,
            physical > start ==> offset + physical <= u64::MAX + 1,
            space.mapped() == before.mapped() + put,
            space.refused() == before.refused(),
            all == sliced(offset as int, start as int, end as int),
            all == put + sliced(offset as int, physical as int, end as int),
        decreases end - physical,
    {
        if offset > u64::MAX - physical {
            assert(all.take(put.len() as int) =~= put);
            return Err(PlatformError::Mapping(MappingError::InvalidAddress));
        }
        let page = next_slice(offset, physical, end);
        let ghost held = *space;
        let ghost rest = sliced(offset as int, physical + page.size, end as int);
        let tried = space.map(page);
        proof {
            space::lemma_overlaid_on(before, held, page, *space);
        }
        if let Err(error) = tried {
            proof {
                lemma_halted_at(before, put, held, page, rest, *space);
            }
            return Err(PlatformError::Mapping(error));
        }
        proof {
            assert((before.mapped() + put).push(page) =~= before.mapped() + put.push(page));
            assert(put + (seq![page] + rest) =~= put.push(page) + rest);
            put = put.push(page);
        }
        physical = physical + page.size;
    }
    assert(put + sliced(offset as int, end as int, end as int) =~= put);
    Ok(())
}

/// The page that maps one page of a live address space anew.
pub open spec fn copied(at: int, page: Page) -> Page {
    let live = permitted(page.flags as int);
    Page {
        va: at as u64,
        pa: (page.pa + (at - page.va) / 4096 * 4096) as u64,
        size: PAGE_4K,
        flags: flags_for(
            Rights { read: live.read, write: live.write, execute: live.execute },
            Cache::WriteBack,
        ) as u64,
    }
}

/// Whether a page may be both written and executed.
pub open spec fn mixed(page: Page) -> bool {
    permitted(page.flags as int).write && permitted(page.flags as int).execute
}

/// Whether no page of a live address space from `at` to `end` may be both
/// written and executed.
pub open spec fn sound<L: Live>(live: L, at: int, end: int) -> bool
    decreases
            if at < end {
                end - at
            } else {
                0
            },
{
    if at >= end {
        true
    } else {
        (live.at(at as u64) matches Some(page) ==> !mixed(page)) && sound(live, at + 4096, end)
    }
}

/// The pages that clone a live address space from `at` to `end`, holes kept, up
/// to the first page that may be both written and executed.
pub open spec fn clones<L: Live>(live: L, at: int, end: int) -> Seq<Page>
    decreases
            if at < end {
                end - at
            } else {
                0
            },
{
    if at >= end {
        seq![]
    } else {
        match live.at(at as u64) {
            None => clones(live, at + 4096, end),
            Some(page) => if mixed(page) {
                seq![]
            } else {
                seq![copied(at, page)] + clones(live, at + 4096, end)
            },
        }
    }
}

/// What is declared of cloned pages: each for itself.
pub open spec fn declares(pages: Seq<Page>, contents: Contents) -> Seq<MappedRange> {
    pages.map_values(
        |page: Page| MappedRange { start: page.va, end: (page.va + 4096) as u64, contents },
    )
}

/// Cloned pages as they are put in and declared: each for itself.
pub open spec fn clone_pieces(pages: Seq<Page>, contents: Contents) -> Seq<Piece> {
    pages.map_values(
        |page: Page|
            Piece {
                pages: seq![page],
                range: MappedRange { start: page.va, end: (page.va + 4096) as u64, contents },
            },
    )
}

proof fn lemma_clone_pieces(pages: Seq<Page>, contents: Contents)
    ensures
        flat(clone_pieces(pages, contents)) == pages,
        ranges_of(clone_pieces(pages, contents)) == declares(pages, contents),
    decreases pages.len(),
{
    let pieces = clone_pieces(pages, contents);
    assert(ranges_of(pieces) =~= declares(pages, contents));
    if pages.len() > 0 {
        lemma_clone_pieces(pages.drop_last(), contents);
        assert(pieces.drop_last() =~= clone_pieces(pages.drop_last(), contents));
        assert(pages.drop_last() + seq![pages.last()] =~= pages);
    }
}

/// Clones mapped pages and their live rights, preserving holes.
pub fn clone<S: Space, L: Live>(
    space: &mut S,
    log: &mut Log,
    live: &L,
    start: u64,
    end: u64,
    contents: Contents,
) -> (done: Result<(), PlatformError>)
    requires
        end <= u64::MAX - 4095,
    ensures
        overlaid(*old(space), *final(space)),
        ({
            let from = align::down(start as int, 4096);
            let pages = clones(*live, from, end as int);
            match done {
                Ok(()) => {
                    &&& sound(*live, from, end as int)
                    &&& final(space).mapped() == old(space).mapped() + pages
                    &&& final(space).refused() == old(space).refused()
                    &&& final(log)@ == all_noted(old(log)@, declares(pages, contents))
                },
                Err(error) => {
                    ||| {
                        &&& error == PlatformError::Mapping(MappingError::InvalidPermissions)
                        &&& !sound(*live, from, end as int)
                        &&& entered(
                            *old(space),
                            old(log)@,
                            clone_pieces(pages, contents),
                            *final(space),
                            final(log)@,
                        )
                    }
                    ||| {
                        &&& error == PlatformError::Mapping(MappingError::Backend)
                        &&& stopped(
                            *old(space),
                            old(log)@,
                            clone_pieces(pages, contents),
                            *final(space),
                            final(log)@,
                        )
                    }
                    ||| {
                        &&& error == PlatformError::Mapping(MappingError::Backend)
                        &&& overfull(
                            *old(space),
                            old(log)@,
                            clone_pieces(pages, contents),
                            *final(space),
                            final(log)@,
                        )
                    }
                },
            }
        }),
{
    proof {
        align::lemma_down(start as int, 4096);
        space::lemma_as_it_was(*space);
    }
    let from: u64 = align::align_down(start, PAGE_4K);
    let mut at: u64 = from;
    let ghost before = *space;
    let ghost declared = log@;
    let ghost all = clones(*live, from as int, end as int);
    let ghost mut done: Seq<Page> = seq![];
    assert(before.mapped() + done =~= before.mapped());
    assert(declares(done, contents) =~= seq![]);
    assert(done + all =~= all);
    while at < end
        invariant
            from <= at,
            before == *old(space),
            overlaid(before, *space),
            at as int % 4096 == 0,
            end <= u64::MAX - 4095,
            space.mapped() == before.mapped() + done,
            space.refused() == before.refused(),
            log@ == all_noted(declared, declares(done, contents)),
            declared == old(log)@,
            all == clones(*live, from as int, end as int),
            all == done + clones(*live, at as int, end as int),
            sound(*live, from as int, end as int) == sound(*live, at as int, end as int),
            from == align::down(start as int, 4096),
        decreases end + 4096 - at,
    {
        match live.translate(at) {
            None => {},
            Some(page) => {
                let granted = flags::protection(page.flags);
                let rights = match flags::rights_of(granted) {
                    Ok(rights) => rights,
                    Err(error) => {
                        proof {
                            assert(done + Seq::<Page>::empty() =~= done);
                            lemma_clone_pieces(done, contents);
                        }
                        return Err(PlatformError::Mapping(error));
                    },
                };
                let inside: u64 = at - page.va;
                let copy = Page {
                    va: at,
                    pa: page.pa + inside / PAGE_4K * PAGE_4K,
                    size: PAGE_4K,
                    flags: flags::leaf_flags(rights, Cache::WriteBack),
                };
                assert(copy == copied(at as int, page));
                assert(inside as int % 4096 == 0) by {
                    lemma_multiple(page.va as int, page.size as int);
                }
                let ghost held = *space;
                let ghost rest = clones(*live, at + 4096, end as int);
                let ghost logged = log@;
                let ghost head = clone_pieces(done, contents);
                let ghost piece = clone_pieces(seq![copy], contents)[0];
                let ghost tail = clone_pieces(rest, contents);
                proof {
                    lemma_clone_pieces(done, contents);
                    assert(head + seq![piece] + tail =~= clone_pieces(all, contents));
                }
                let tried = space.map(copy);
                proof {
                    space::lemma_overlaid_on(before, held, copy, *space);
                }
                if let Err(error) = tried {
                    proof {
                        assert(piece.pages.take(0) =~= Seq::<Page>::empty());
                        assert(held.mapped() + piece.pages.take(0) =~= held.mapped());
                        lemma_piece_stopped(held, logged, piece, *space);
                        lemma_phase(
                            before,
                            declared,
                            head,
                            held,
                            logged,
                            seq![piece],
                            tail,
                            *space,
                            logged,
                        );
                    }
                    return Err(PlatformError::Mapping(error));
                }
                let range = MappedRange::new(at, at + PAGE_4K, contents);
                let told = log.push(range);
                proof {
                    if told is Err {
                        assert(space.mapped() =~= held.mapped() + piece.pages);
                        lemma_piece_overfull(held, logged, piece, *space);
                        lemma_phase(
                            before,
                            declared,
                            head,
                            held,
                            logged,
                            seq![piece],
                            tail,
                            *space,
                            logged,
                        );
                    }
                }
                if let Err(error) = told {
                    return Err(PlatformError::Mapping(error));
                }
                proof {
                    let next = done.push(copy);
                    assert(before.mapped() + next =~= (before.mapped() + done).push(copy));
                    assert(declares(next, contents) =~= declares(done, contents).push(range));
                    assert(declares(next, contents).drop_last() =~= declares(done, contents));
                    assert(next + rest =~= done + (seq![copy] + rest));
                    done = next;
                }
            },
        }
        at = at + PAGE_4K;
    }
    assert(done + Seq::<Page>::empty() =~= done);
    Ok(())
}

proof fn lemma_multiple(va: int, size: int)
    requires
        va >= 0,
        size > 0,
        size % 4096 == 0,
        va % size == 0,
    ensures
        va % 4096 == 0,
{
    let k = va / size;
    let n = size / 4096;
    vstd::arithmetic::div_mod::lemma_fundamental_div_mod(va, size);
    assert(va == (k * n) * 4096) by (nonlinear_arith)
        requires
            va == size * k,
            size == 4096 * n,
    ;
    vstd::arithmetic::div_mod::lemma_mod_multiples_basic(k * n, 4096);
}

/// Whether `past` ends an image that the loader reports at `start..end`: every
/// page from its reported end on is mapped, and the next one is not or is too
/// far out.
pub open spec fn ends_image<L: Live>(live: L, start: u64, end: u64, past: u64) -> bool {
    &&& align::up(end as int, 4096) <= past
    &&& past % 4096 == 0
    &&& forall|va: u64|
        align::up(end as int, 4096) <= va < past && va % 4096 == 0 ==> #[trigger] live.at(
            va,
        ) is Some
    &&& live.at(past) is None || past - start >= IMAGE_LIMIT
    &&& past > align::up(end as int, 4096) ==> past - 4096 - start < IMAGE_LIMIT
}

/// Extends the file-backed image end through its contiguous zero-fill mapping.
pub fn mapped_end<L: Live>(live: &L, start: u64, end: u64) -> (past: Result<u64, PlatformError>)
    requires
        start <= end,
        start + IMAGE_LIMIT + 4096 <= u64::MAX + 1,
    ensures
        match past {
            Ok(past) => ends_image(*live, start, end, past) && past <= u64::MAX - 4095,
            Err(error) => {
                &&& align::up(end as int, 4096) > u64::MAX
                &&& error == PlatformError::Mapping(MappingError::InvalidAddress)
            },
        },
{
    proof {
        align::lemma_up(end as int, 4096);
    }
    let first: u64 = match align::align_up(end, PAGE_4K) {
        Some(first) => first,
        None => return Err(PlatformError::Mapping(MappingError::InvalidAddress)),
    };
    let mut past: u64 = first;
    while past - start < IMAGE_LIMIT && live.translate(past).is_some()
        invariant
            start <= end <= first <= past,
            first == align::up(end as int, 4096),
            past as int % 4096 == 0,
            start + IMAGE_LIMIT + 4096 <= u64::MAX + 1,
            past - 4096 - start < IMAGE_LIMIT || past == first,
            forall|va: u64|
                first <= va < past && va % 4096 == 0 ==> #[trigger] live.at(va) is Some,
        decreases start + IMAGE_LIMIT + 4096 - past,
    {
        past = past + PAGE_4K;
    }
    Ok(past)
}

/// The page a device frame is mapped with.
pub open spec fn window_page(physical: u64, virtual_address: u64) -> Page {
    Page {
        va: virtual_address,
        pa: physical,
        size: PAGE_4K,
        flags: flags_for(
            Rights { read: true, write: true, execute: false },
            Cache::Device,
        ) as u64,
    }
}

/// Maps one MMIO frame, which must not be RAM.
pub fn device_window<S: Space>(
    space: &mut S,
    log: &mut Log,
    regions: &[(u64, u64)],
    physical: u64,
    virtual_address: u64,
) -> (done: Result<(), PlatformError>)
    requires
        physical <= u64::MAX - 4096,
        virtual_address as int % 4096 == 0,
        virtual_address <= u64::MAX - 4096,
    ensures
        overlaid(*old(space), *final(space)),
        ({
            let page = window_page(physical, virtual_address);
            let ram = frames::in_ram(regions@, Span { start: physical, bytes: 4096 });
            match done {
                Ok(()) => {
                    &&& !ram
                    &&& final(space).mapped() == old(space).mapped().push(page)
                    &&& final(space).refused() == old(space).refused()
                    &&& final(log)@ == noted(
                        old(log)@,
                        MappedRange {
                            start: virtual_address,
                            end: (virtual_address + 4096) as u64,
                            contents: Contents::Device,
                        },
                    )
                },
                Err(error) => {
                    ||| {
                        &&& error == PlatformError::Mapping(MappingError::InvalidAddress)
                        &&& ram
                        &&& *final(space) == *old(space)
                        &&& final(log)@ == old(log)@
                    }
                    ||| {
                        &&& error == PlatformError::Mapping(MappingError::Backend)
                        &&& !ram
                        &&& final(space).mapped() == old(space).mapped()
                        &&& final(space).refused() == old(space).refused().push(page)
                        &&& final(log)@ == old(log)@
                    }
                    ||| {
                        &&& error == PlatformError::Mapping(MappingError::Backend)
                        &&& !ram
                        &&& final(space).mapped() == old(space).mapped().push(page)
                        &&& final(space).refused() == old(space).refused()
                        &&& final(log)@ == old(log)@
                        &&& old(log)@.len() >= DECLARED
                        &&& !goes_on(
                            old(log)@,
                            MappedRange {
                                start: virtual_address,
                                end: (virtual_address + 4096) as u64,
                                contents: Contents::Device,
                            },
                        )
                    }
                },
            }
        }),
{
    let ghost before = *space;
    proof {
        space::lemma_as_it_was(before);
    }
    if let Err(error) = frames::device(regions, Span { start: physical, bytes: PAGE_4K }) {
        return Err(PlatformError::Mapping(error));
    }
    let flags: u64 = flags::leaf_flags(Rights::new(true, true, false), Cache::Device);
    let page = Page { va: virtual_address, pa: physical, size: PAGE_4K, flags };
    let tried = space.map(page);
    proof {
        space::lemma_overlaid_on(before, before, page, *space);
    }
    if let Err(error) = tried {
        return Err(PlatformError::Mapping(error));
    }
    match log.push(MappedRange::device(virtual_address, virtual_address + PAGE_4K)) {
        Ok(()) => Ok(()),
        Err(error) => Err(PlatformError::Mapping(error)),
    }
}

/// What an address space is built for: the direct map's offset, the image as
/// the loader reports it, and the frame cores are started in.
#[derive(Clone, Copy, Debug, PartialEq, Eq, Structural)]
pub struct Plan {
    pub offset: u64,
    pub image_start: u64,
    pub image_end: u64,
    pub trampoline: Option<u64>,
}

impl Plan {
    /// A plan from what the loader reports: where it put its direct map, and
    /// where the image is.
    pub fn new(offset: Option<u64>, image: Option<(u64, u64)>, trampoline: Option<u64>) -> (plan:
        Result<Self, PlatformError>)
        ensures
            plan == match (offset, image) {
                (None, _) => Err::<Plan, PlatformError>(PlatformError::MissingPhysicalMemoryMap),
                (Some(_), None) => Err::<Plan, PlatformError>(
                    PlatformError::Mapping(MappingError::Unmapped),
                ),
                (Some(offset), Some(image)) => Ok::<Plan, PlatformError>(
                    Plan { offset, image_start: image.0, image_end: image.1, trampoline },
                ),
            },
    {
        let offset: u64 = match offset {
            Some(offset) => offset,
            None => return Err(PlatformError::MissingPhysicalMemoryMap),
        };
        match image {
            Some((image_start, image_end)) => Ok(
                Plan { offset, image_start, image_end, trampoline },
            ),
            None => Err(PlatformError::Mapping(MappingError::Unmapped)),
        }
    }
}

/// The page a core that has just loaded `CR3` is still fetching from.
pub open spec fn trampoline_page(physical: u64) -> Page {
    Page {
        va: physical,
        pa: physical,
        size: PAGE_4K,
        flags: flags_for(
            Rights { read: true, write: false, execute: true },
            Cache::WriteBack,
        ) as u64,
    }
}

/// The boot windows that are cloned: the stack with its upper page, and the
/// loader's boot info.
pub open spec fn stack_window() -> (int, int) {
    (STACK_BASE as int, STACK_BASE + STACK_SIZE + 2 * PAGE_4K)
}

pub open spec fn boot_window() -> (int, int) {
    (BOOT_INFO_BASE as int, BOOT_INFO_BASE + BOOT_INFO_WINDOW)
}

/// Everything the kernel runs on, in the order it is put in: RAM, the image up
/// to `past`, the stack, the boot info, the APIC, and the trampoline if there is
/// one.
pub open spec fn planned<L: Live>(
    plan: Plan,
    regions: Seq<(u64, u64)>,
    live: L,
    past: u64,
) -> Seq<Page> {
    all_sliced(plan.offset, regions, regions.len() as int) + clones(
        live,
        align::down(plan.image_start as int, 4096),
        past as int,
    ) + clones(live, stack_window().0, stack_window().1) + clones(
        live,
        boot_window().0,
        boot_window().1,
    ) + seq![window_page(APIC_MMIO, APIC_WINDOW)] + match plan.trampoline {
        Some(physical) => seq![trampoline_page(physical)],
        None => seq![],
    }
}

/// What is declared of everything the kernel runs on, in the same order.
pub open spec fn declared<L: Live>(
    plan: Plan,
    regions: Seq<(u64, u64)>,
    live: L,
    past: u64,
) -> Seq<MappedRange> {
    all_declared(plan.offset, regions, regions.len() as int) + declares(
        clones(live, align::down(plan.image_start as int, 4096), past as int),
        Contents::Image,
    ) + declares(clones(live, stack_window().0, stack_window().1), Contents::Ram) + declares(
        clones(live, boot_window().0, boot_window().1),
        Contents::Ram,
    ) + seq![
        MappedRange {
            start: APIC_WINDOW,
            end: (APIC_WINDOW + PAGE_4K) as u64,
            contents: Contents::Device,
        },
    ] + match plan.trampoline {
        Some(physical) => seq![
            MappedRange {
                start: physical,
                end: (physical + PAGE_4K) as u64,
                contents: Contents::Image,
            },
        ],
        None => seq![],
    }
}

/// The APIC's registers as they are put in and declared.
pub open spec fn apic_piece() -> Piece {
    Piece {
        pages: seq![window_page(APIC_MMIO, APIC_WINDOW)],
        range: MappedRange {
            start: APIC_WINDOW,
            end: (APIC_WINDOW + PAGE_4K) as u64,
            contents: Contents::Device,
        },
    }
}

/// The trampoline, if there is one, as it is put in and declared.
pub open spec fn pad_pieces(plan: Plan) -> Seq<Piece> {
    match plan.trampoline {
        Some(physical) => seq![
            Piece {
                pages: seq![trampoline_page(physical)],
                range: MappedRange {
                    start: physical,
                    end: (physical + PAGE_4K) as u64,
                    contents: Contents::Image,
                },
            },
        ],
        None => seq![],
    }
}

/// Everything the kernel runs on, as it is put in and declared.
pub open spec fn plan_pieces<L: Live>(
    plan: Plan,
    regions: Seq<(u64, u64)>,
    live: L,
    past: u64,
) -> Seq<Piece> {
    region_pieces(plan.offset, regions, regions.len() as int) + clone_pieces(
        clones(live, align::down(plan.image_start as int, 4096), past as int),
        Contents::Image,
    ) + clone_pieces(clones(live, stack_window().0, stack_window().1), Contents::Ram)
        + clone_pieces(clones(live, boot_window().0, boot_window().1), Contents::Ram) + seq![
        apic_piece(),
    ] + pad_pieces(plan)
}

proof fn lemma_plan_pieces<L: Live>(
    plan: Plan,
    regions: Seq<(u64, u64)>,
    live: L,
    past: u64,
)
    ensures
        flat(plan_pieces(plan, regions, live, past)) == planned(plan, regions, live, past),
        ranges_of(plan_pieces(plan, regions, live, past)) == declared(plan, regions, live, past),
{
    let ram = region_pieces(plan.offset, regions, regions.len() as int);
    let image_pages = clones(live, align::down(plan.image_start as int, 4096), past as int);
    let stack_pages = clones(live, stack_window().0, stack_window().1);
    let boot_pages = clones(live, boot_window().0, boot_window().1);
    let image = clone_pieces(image_pages, Contents::Image);
    let stack = clone_pieces(stack_pages, Contents::Ram);
    let boot = clone_pieces(boot_pages, Contents::Ram);
    let apic = seq![apic_piece()];
    lemma_region_pieces(plan.offset, regions, regions.len() as int);
    lemma_clone_pieces(image_pages, Contents::Image);
    lemma_clone_pieces(stack_pages, Contents::Ram);
    lemma_clone_pieces(boot_pages, Contents::Ram);
    space::lemma_one_piece(apic_piece());
    space::lemma_flat(ram, image);
    space::lemma_flat(ram + image, stack);
    space::lemma_flat(ram + image + stack, boot);
    space::lemma_flat(ram + image + stack + boot, apic);
    space::lemma_flat(ram + image + stack + boot + apic, pad_pieces(plan));
    match plan.trampoline {
        Some(_) => {
            space::lemma_one_piece(pad_pieces(plan)[0]);
            assert(pad_pieces(plan) =~= seq![pad_pieces(plan)[0]]);
        },
        None => {
            assert(ranges_of(pad_pieces(plan)) =~= Seq::<MappedRange>::empty());
        },
    }
}

/// Whether everything that is cloned keeps writing and executing apart.
pub open spec fn all_sound<L: Live>(plan: Plan, live: L, past: u64) -> bool {
    &&& sound(live, align::down(plan.image_start as int, 4096), past as int)
    &&& sound(live, stack_window().0, stack_window().1)
    &&& sound(live, boot_window().0, boot_window().1)
}

/// Whether everything the plan names has an address, and the APIC is no RAM.
pub open spec fn placeable(plan: Plan, regions: Seq<(u64, u64)>) -> bool {
    &&& forall|i: int| 0 <= i < regions.len() ==> direct(plan.offset, #[trigger] regions[i])
    &&& align::up(plan.image_end as int, 4096) <= u64::MAX
    &&& !frames::in_ram(regions, Span { start: APIC_MMIO, bytes: 4096 })
}

/// Whether no page of a list may be both written and executed.
pub open spec fn unmixed(pages: Seq<Page>) -> bool {
    forall|i: int| 0 <= i < pages.len() ==> !mixed(#[trigger] pages[i])
}

proof fn lemma_sliced_unmixed(offset: int, at: int, end: int)
    ensures
        unmixed(sliced(offset, at, end)),
    decreases
            if at < end {
                end - at
            } else {
                0
            },
{
    if at < end {
        let page = slice(offset, at, end);
        let rest = sliced(offset, at + page.size, end);
        lemma_sliced_unmixed(offset, at + page.size, end);
        flags::law_flags_read_back(
            Rights { read: true, write: true, execute: false },
            Cache::WriteBack,
        );
        assert forall|i: int| 0 <= i < sliced(offset, at, end).len() implies !mixed(
            #[trigger] sliced(offset, at, end)[i],
        ) by {
            if i > 0 {
                assert(sliced(offset, at, end)[i] == rest[i - 1]);
            }
        }
    }
}

proof fn lemma_all_sliced_unmixed(offset: u64, regions: Seq<(u64, u64)>, n: int)
    ensures
        unmixed(all_sliced(offset, regions, n)),
    decreases n,
{
    if n > 0 {
        let (start, end) = whole(regions[n - 1]);
        lemma_all_sliced_unmixed(offset, regions, n - 1);
        lemma_sliced_unmixed(offset as int, start, end);
    }
}

proof fn lemma_clones_unmixed<L: Live>(live: L, at: int, end: int)
    ensures
        unmixed(clones(live, at, end)),
    decreases
            if at < end {
                end - at
            } else {
                0
            },
{
    if at < end {
        lemma_clones_unmixed(live, at + 4096, end);
        let rest = clones(live, at + 4096, end);
        if let Some(page) = live.at(at as u64) {
            let granted = permitted(page.flags as int);
            flags::law_flags_read_back(
                Rights { read: granted.read, write: granted.write, execute: granted.execute },
                Cache::WriteBack,
            );
            assert forall|i: int| 0 <= i < clones(live, at, end).len() implies !mixed(
                #[trigger] clones(live, at, end)[i],
            ) by {
                if i > 0 {
                    assert(clones(live, at, end)[i] == rest[i - 1]);
                }
            }
        }
    }
}

/// No page of the address space that is built may be both written and
/// executed, whatever the loader's tables allow.
pub proof fn law_built_space_keeps_write_and_execute_apart<L: Live>(
    plan: Plan,
    regions: Seq<(u64, u64)>,
    live: L,
    past: u64,
)
    ensures
        unmixed(planned(plan, regions, live, past)),
{
    lemma_all_sliced_unmixed(plan.offset, regions, regions.len() as int);
    lemma_clones_unmixed(live, align::down(plan.image_start as int, 4096), past as int);
    lemma_clones_unmixed(live, stack_window().0, stack_window().1);
    lemma_clones_unmixed(live, boot_window().0, boot_window().1);
    flags::law_flags_read_back(
        Rights { read: true, write: true, execute: false },
        Cache::Device,
    );
    flags::law_flags_read_back(
        Rights { read: true, write: false, execute: true },
        Cache::WriteBack,
    );
}

/// Builds the kernel address space.
#[verifier::rlimit(40)]
pub fn build<S: Space, L: Live>(
    space: &mut S,
    log: &mut Log,
    live: &L,
    regions: &[(u64, u64)],
    plan: Plan,
) -> (done: Result<u64, PlatformError>)
    requires
        plan.offset as int % 4096 == 0,
        forall|i: int|
            0 <= i < regions@.len() ==> plan.offset + whole(#[trigger] regions@[i]).1 != u64::MAX
                + 1,
        plan.image_start <= plan.image_end,
        plan.image_start + IMAGE_LIMIT + 4096 <= u64::MAX + 1,
        plan.trampoline matches Some(physical) ==> physical as int % 4096 == 0 && physical
            < TRAMPOLINE_LIMIT,
    ensures
        overlaid(*old(space), *final(space)),
        match done {
            Ok(window) => {
                &&& window == APIC_WINDOW
                &&& placeable(plan, regions@)
                &&& final(space).refused() == old(space).refused()
                &&& exists|past: u64|
                    {
                        &&& #[trigger] ends_image(*live, plan.image_start, plan.image_end, past)
                        &&& all_sound(plan, *live, past)
                        &&& final(space).mapped() == old(space).mapped() + planned(
                            plan,
                            regions@,
                            *live,
                            past,
                        )
                        &&& final(log)@ == all_noted(
                            old(log)@,
                            declared(plan, regions@, *live, past),
                        )
                    }
            },
            Err(error) => {
                let ram = region_pieces(plan.offset, regions@, regions@.len() as int);
                ||| {
                    &&& error == PlatformError::Mapping(MappingError::InvalidAddress)
                    &&& !placeable(plan, regions@)
                    &&& {
                        ||| partly(*old(space), old(log)@, ram, *final(space), final(log)@)
                        ||| exists|past: u64|
                            {
                                &&& #[trigger] ends_image(
                                    *live,
                                    plan.image_start,
                                    plan.image_end,
                                    past,
                                )
                                &&& partly(
                                    *old(space),
                                    old(log)@,
                                    plan_pieces(plan, regions@, *live, past),
                                    *final(space),
                                    final(log)@,
                                )
                            }
                    }
                }
                ||| {
                    &&& error == PlatformError::Mapping(MappingError::InvalidPermissions)
                    &&& exists|past: u64|
                        {
                            &&& #[trigger] ends_image(
                                *live,
                                plan.image_start,
                                plan.image_end,
                                past,
                            )
                            &&& !all_sound(plan, *live, past)
                            &&& partly(
                                *old(space),
                                old(log)@,
                                plan_pieces(plan, regions@, *live, past),
                                *final(space),
                                final(log)@,
                            )
                        }
                }
                ||| {
                    &&& error == PlatformError::Mapping(MappingError::Backend)
                    &&& {
                        ||| stopped(*old(space), old(log)@, ram, *final(space), final(log)@)
                        ||| overfull(*old(space), old(log)@, ram, *final(space), final(log)@)
                        ||| exists|past: u64|
                            {
                                let pieces = plan_pieces(plan, regions@, *live, past);
                                &&& #[trigger] ends_image(
                                    *live,
                                    plan.image_start,
                                    plan.image_end,
                                    past,
                                )
                                &&& stopped(
                                    *old(space),
                                    old(log)@,
                                    pieces,
                                    *final(space),
                                    final(log)@,
                                ) || overfull(
                                    *old(space),
                                    old(log)@,
                                    pieces,
                                    *final(space),
                                    final(log)@,
                                )
                            }
                    }
                }
            },
        },
{
    let ghost before = *space;
    let ghost logged = log@;
    proof {
        assert(STACK_BASE as int % 4096 == 0);
        assert(BOOT_INFO_BASE as int % 4096 == 0);
    }
    direct_map(space, log, regions, plan.offset)?;
    let ghost ram = region_pieces(plan.offset, regions@, regions@.len() as int);
    proof {
        lemma_region_pieces(plan.offset, regions@, regions@.len() as int);
        assert(entered(before, logged, ram, *space, log@));
    }
    // The live virtual addresses and observed rights survive the switch. The
    // reported file length excludes mapped zero-fill sections such as `.bss`.
    let past: u64 = mapped_end(live, plan.image_start, plan.image_end)?;
    assert(ends_image(*live, plan.image_start, plan.image_end, past));
    let ghost image_pages = clones(*live, align::down(plan.image_start as int, 4096), past as int);
    let ghost stack_pages = clones(*live, stack_window().0, stack_window().1);
    let ghost boot_pages = clones(*live, boot_window().0, boot_window().1);
    let ghost image = clone_pieces(image_pages, Contents::Image);
    let ghost stack = clone_pieces(stack_pages, Contents::Ram);
    let ghost boot = clone_pieces(boot_pages, Contents::Ram);
    let ghost apic = seq![apic_piece()];
    let ghost pad = pad_pieces(plan);
    let ghost all = plan_pieces(plan, regions@, *live, past);
    let ghost (held, told) = (*space, log@);
    let cloned = clone(space, log, live, plan.image_start, past, Contents::Image);
    proof {
        lemma_clone_pieces(image_pages, Contents::Image);
        let tail = stack + boot + apic + pad;
        lemma_phase(before, logged, ram, held, told, image, tail, *space, log@);
        space::lemma_overlaid(before, held, *space);
        assert(ram + image + tail =~= all);
    }
    cloned?;
    // Includes the stack's upper page while preserving the unmapped guard page.
    let stack_end: u64 = STACK_BASE + STACK_SIZE + 2 * PAGE_4K;
    let ghost (held, told) = (*space, log@);
    let cloned = clone(space, log, live, STACK_BASE, stack_end, Contents::Ram);
    proof {
        lemma_clone_pieces(stack_pages, Contents::Ram);
        let head = ram + image;
        let tail = boot + apic + pad;
        lemma_phase(before, logged, head, held, told, stack, tail, *space, log@);
        space::lemma_overlaid(before, held, *space);
        assert(head + stack + tail =~= all);
    }
    cloned?;
    let boot_info_end: u64 = BOOT_INFO_BASE + BOOT_INFO_WINDOW;
    let ghost (held, told) = (*space, log@);
    let cloned = clone(space, log, live, BOOT_INFO_BASE, boot_info_end, Contents::Ram);
    proof {
        lemma_clone_pieces(boot_pages, Contents::Ram);
        let head = ram + image + stack;
        let tail = apic + pad;
        lemma_phase(before, logged, head, held, told, boot, tail, *space, log@);
        space::lemma_overlaid(before, held, *space);
        assert(head + boot + tail =~= all);
    }
    cloned?;
    let ghost (held, told) = (*space, log@);
    let windowed = device_window(space, log, regions, APIC_MMIO, APIC_WINDOW);
    proof {
        lemma_window_phase(held, told, *space, log@);
        let head = ram + image + stack + boot;
        lemma_phase(before, logged, head, held, told, apic, pad, *space, log@);
        space::lemma_overlaid(before, held, *space);
        assert(head + apic + pad =~= all);
    }
    windowed?;
    let ghost (held, told) = (*space, log@);
    let ghost head = ram + image + stack + boot + apic;
    if let Some(physical) = plan.trampoline {
        // Identity, because a core that has just loaded `CR3` is still fetching
        // by physical address. Executable and not writable: the boot core
        // writes the code through the direct map, the starting core only runs
        // it.
        let flags: u64 = flags::leaf_flags(Rights::new(true, false, true), Cache::WriteBack);
        let page = Page { va: physical, pa: physical, size: PAGE_4K, flags };
        let ghost piece = pad[0];
        assert(pad =~= seq![piece]);
        let put = space.map(page);
        proof {
            space::lemma_overlaid_on(before, held, page, *space);
            if put is Err {
                assert(held.mapped() + piece.pages.take(0) =~= held.mapped());
                lemma_piece_stopped(held, told, piece, *space);
                lemma_phase(before, logged, head, held, told, pad, seq![], *space, told);
                assert(head + pad + Seq::<Piece>::empty() =~= all);
            }
        }
        if let Err(error) = put {
            return Err(PlatformError::Mapping(error));
        }
        assert(space.mapped() =~= held.mapped() + piece.pages);
        let range = MappedRange::image(physical, physical + PAGE_4K);
        let declared = log.push(range);
        proof {
            if declared is Err {
                lemma_piece_overfull(held, told, piece, *space);
            } else {
                lemma_piece_entered(held, told, piece, *space);
            }
            lemma_phase(before, logged, head, held, told, pad, seq![], *space, log@);
            assert(head + pad + Seq::<Piece>::empty() =~= all);
        }
        if let Err(error) = declared {
            return Err(PlatformError::Mapping(error));
        }
    } else {
        assert(head + pad =~= head);
    }
    proof {
        assert(head + pad =~= all);
        lemma_plan_pieces(plan, regions@, *live, past);
    }
    Ok(APIC_WINDOW)
}

/// What mapping the APIC's registers came to, as one piece.
proof fn lemma_window_phase<S: Space>(
    held: S,
    told: Seq<MappedRange>,
    after: S,
    log_after: Seq<MappedRange>,
)
    ensures
        ({
            let apic = seq![apic_piece()];
            let page = window_page(APIC_MMIO, APIC_WINDOW);
            &&& after == held && log_after == told ==> partly(held, told, apic, after, log_after)
            &&& after.mapped() == held.mapped() && after.refused() == held.refused().push(page)
                && log_after == told ==> stopped(held, told, apic, after, log_after)
            &&& after.mapped() == held.mapped().push(page) && after.refused() == held.refused()
                && log_after == told && told.len() >= DECLARED && !goes_on(
                told,
                apic_piece().range,
            ) ==> overfull(held, told, apic, after, log_after)
            &&& after.mapped() == held.mapped().push(page) && after.refused() == held.refused()
                && log_after == noted(told, apic_piece().range) ==> entered(
                held,
                told,
                apic,
                after,
                log_after,
            )
        }),
{
    let piece = apic_piece();
    let page = window_page(APIC_MMIO, APIC_WINDOW);
    let one = seq![piece];
    space::lemma_one_piece(piece);
    assert(held.mapped() + piece.pages =~= held.mapped().push(page));
    assert(held.mapped() + piece.pages.take(0) =~= held.mapped());
    assert(flat(one.take(0)) + piece.pages.take(0) =~= Seq::<Page>::empty());
    if after == held && log_after == told {
        assert(reached(held, told, one, 0, 0, after, log_after));
    }
    if after.mapped() == held.mapped() && after.refused() == held.refused().push(page) {
        assert(halted(held, piece.pages, after));
        lemma_piece_stopped(held, told, piece, after);
    }
    if after.mapped() == held.mapped().push(page) && after.refused() == held.refused() {
        if told.len() >= DECLARED && !goes_on(told, piece.range) {
            lemma_piece_overfull(held, told, piece, after);
        }
        lemma_piece_entered(held, told, piece, after);
    }
}

/// A page nothing else uses, mapped to show that the tables are the ones the
/// machine walks, and what is written through it.
pub const TEST_PAGE: u64 = 0x0000_5555_5555_0000;

pub const TEST_VALUE: u64 = 0x4d4f_4c54_5f57_585e;

/// The page a test maps, in a frame of its own.
pub open spec fn test_page(frame: u64) -> Page {
    Page {
        va: TEST_PAGE,
        pa: frame,
        size: PAGE_4K,
        flags: flags_for(
            Rights { read: true, write: true, execute: false },
            Cache::WriteBack,
        ) as u64,
    }
}

/// Maps a page of its own, writes through it, reads it back, and removes it.
/// `window` is memory at the page's address.
pub fn verify_owned_mapping<S: Space, W: Window>(
    space: &mut S,
    window: &mut W,
    frame: Option<u64>,
) -> (done: Result<(), PlatformError>)
    requires
        old(window).span() >= 8,
        frame matches Some(frame) ==> frame <= u64::MAX - 4096,
    ensures
        final(window).span() == old(window).span(),
        match frame {
            None => {
                &&& done == Err::<(), PlatformError>(
                    PlatformError::Mapping(MappingError::OutOfFrames),
                )
                &&& *final(space) == *old(space)
                &&& *final(window) == *old(window)
            },
            Some(frame) => {
                &&& final(space).mapped() == old(space).mapped()
                &&& {
                    ||| {
                        &&& final(space).refused() == old(space).refused().push(test_page(frame))
                        &&& done == Err::<(), PlatformError>(
                            PlatformError::Mapping(MappingError::Backend),
                        )
                        &&& *final(window) == *old(window)
                        &&& forall|va: u64| #[trigger] final(space).at(va) == old(space).at(va)
                    }
                    ||| {
                        &&& final(space).refused() == old(space).refused()
                        &&& forall|va: u64| #[trigger]
                            final(space).at(va) == if test_page(frame).covers(va) {
                                None
                            } else {
                                old(space).at(va)
                            }
                        &&& exists|read: u64|
                            {
                                &&& final(window).trace() == old(window).trace().push(
                                    window::write(0, 8, TEST_VALUE as int),
                                ).push(#[trigger] window::read(0, 8, read as int))
                                &&& done == if read == TEST_VALUE {
                                    Ok::<(), PlatformError>(())
                                } else {
                                    Err::<(), PlatformError>(
                                        PlatformError::Mapping(MappingError::Backend),
                                    )
                                }
                            }
                    }
                }
            },
        },
{
    let frame: u64 = match frame {
        Some(frame) => frame,
        None => return Err(PlatformError::Mapping(MappingError::OutOfFrames)),
    };
    let flags: u64 = flags::leaf_flags(Rights::new(true, true, false), Cache::WriteBack);
    let page = Page { va: TEST_PAGE, pa: frame, size: PAGE_4K, flags };
    assert(page.wf());
    if let Err(error) = space.map(page) {
        return Err(PlatformError::Mapping(error));
    }
    let ghost held = *space;
    let _ = window.write_u64(0, TEST_VALUE);
    let read = window.read_u64(0);
    space.unmap();
    assert(held.mapped().drop_last() =~= old(space).mapped());
    match read {
        Ok(value) => {
            if value == TEST_VALUE {
                Ok(())
            } else {
                Err(PlatformError::Mapping(MappingError::Backend))
            }
        },
        Err(_) => Err(PlatformError::Mapping(MappingError::Backend)),
    }
}

/// Nothing is left of a test that ran: an address space that had nothing at the
/// test's page translates every address as before.
pub proof fn law_test_leaves_no_trace<S: Space>(before: S, after: S, frame: u64, va: u64)
    requires
        test_page(frame).covers(va) ==> before.at(va) is None,
        after.at(va) == if test_page(frame).covers(va) {
            None
        } else {
            before.at(va)
        },
    ensures
        after.at(va) == before.at(va),
{
}

/// The device windows of a live address space.
pub struct Devices<S: Space> {
    pub space: S,
    pub log: Log,
    /// The next free device address; bumps forward and never back, so a window
    /// is never re-issued at an address a previous one used to hold.
    pub next: u64,
}

/// How many pages a device window takes.
pub open spec fn pages_of(window: Span) -> int {
    (window.bytes + 4095) / 4096
}

/// The pages of a device window.
pub open spec fn window_pages(base: u64, window: Span, rights: Rights) -> Seq<Page> {
    Seq::new(
        pages_of(window) as nat,
        |i: int|
            Page {
                va: (base + 4096 * i) as u64,
                pa: (window.start + 4096 * i) as u64,
                size: PAGE_4K,
                flags: flags_for(rights, Cache::Device) as u64,
            },
    )
}

impl<S: Space> Devices<S> {
    pub open spec fn wf(&self) -> bool {
        &&& DEVICE_REGION <= self.next <= DEVICE_REGION_END
        &&& self.next % PAGE_2M == 0
    }

    /// Maps `window` into the live address space and says where.
    ///
    /// A page that is already translated is refused: nothing else may live
    /// where a window goes.
    pub fn map(&mut self, window: Span, rights: Rights) -> (base: Result<u64, MappingError>)
        requires
            old(self).wf(),
            window.start + window.bytes <= u64::MAX - 8192,
        ensures
            final(self).wf(),
            overlaid(old(self).space, final(self).space),
            if rights.execute || !(rights.read || rights.write) {
                base == Err::<u64, MappingError>(MappingError::InvalidPermissions) && *final(self)
                    == *old(self)
            } else if old(self).next + window.bytes > DEVICE_REGION_END {
                &&& base == Err::<u64, MappingError>(
                    if old(self).next + window.bytes > u64::MAX {
                        MappingError::InvalidAddress
                    } else {
                        MappingError::OutOfFrames
                    },
                )
                &&& *final(self) == *old(self)
            } else {
                match base {
                    Ok(base) => {
                        &&& base == old(self).next
                        &&& final(self).next == align::up(base + window.bytes, 0x20_0000)
                        &&& final(self).space.mapped() == old(self).space.mapped() + window_pages(
                            base,
                            window,
                            rights,
                        )
                        &&& final(self).space.refused() == old(self).space.refused()
                        &&& old(self).vacant(pages_of(window))
                        &&& final(self).log@ == noted(old(self).log@, old(self).range_of(window))
                    },
                    Err(error) => {
                        &&& final(self).next == old(self).next
                        &&& final(self).log@ == old(self).log@
                        &&& {
                            ||| {
                                &&& error == MappingError::Unexpected
                                &&& final(self).space.refused() == old(self).space.refused()
                                &&& exists|i: int|
                                    {
                                        &&& 0 <= i < pages_of(window)
                                        &&& #[trigger] old(self).occupied(i)
                                        &&& old(self).vacant(i)
                                        &&& final(self).space.mapped() == old(self).space.mapped()
                                            + window_pages(old(self).next, window, rights).take(i)
                                    }
                            }
                            ||| {
                                &&& error == MappingError::Backend
                                &&& exists|i: int|
                                    {
                                        &&& 0 <= i < pages_of(window)
                                        &&& old(self).vacant(i + 1)
                                        &&& final(self).space.mapped() == old(self).space.mapped()
                                            + #[trigger] window_pages(
                                            old(self).next,
                                            window,
                                            rights,
                                        ).take(i)
                                        &&& final(self).space.refused() == old(
                                            self,
                                        ).space.refused().push(
                                            window_pages(old(self).next, window, rights)[i],
                                        )
                                    }
                            }
                            ||| {
                                &&& error == MappingError::Backend
                                &&& final(self).space.refused() == old(self).space.refused()
                                &&& old(self).vacant(pages_of(window))
                                &&& final(self).space.mapped() == old(self).space.mapped()
                                    + window_pages(old(self).next, window, rights)
                                &&& old(self).log@.len() >= DECLARED
                                &&& !goes_on(old(self).log@, old(self).range_of(window))
                            }
                        }
                    },
                }
            },
    {
        proof {
            space::lemma_as_it_was(self.space);
        }
        if rights.is_execute() || !(rights.is_read() || rights.is_write()) {
            return Err(MappingError::InvalidPermissions);
        }
        let base: u64 = self.next;
        if base > u64::MAX - window.bytes {
            return Err(MappingError::InvalidAddress);
        }
        let end: u64 = base + window.bytes;
        if end > DEVICE_REGION_END {
            return Err(MappingError::OutOfFrames);
        }
        let flags: u64 = flags::leaf_flags(rights, Cache::Device);
        let count: u64 = (window.bytes + 4095) / 4096;
        let ghost all = window_pages(base, window, rights);
        let ghost before = self.space.mapped();
        let mut i: u64 = 0;
        assert(before + all.take(0) =~= before);
        while i < count
            invariant
                i <= count,
                count == (window.bytes + 4095) / 4096,
                base == old(self).next,
                base as int % 4096 == 0,
                DEVICE_REGION <= base,
                base + window.bytes <= DEVICE_REGION_END,
                window.start + window.bytes <= u64::MAX - 8192,
                !rights.execute,
                rights.read || rights.write,
                flags == flags_for(rights, Cache::Device),
                all == window_pages(base, window, rights),
                self.next == base,
                self.wf(),
                self.log == old(self).log,
                overlaid(old(self).space, self.space),
                self.space.mapped() == before + all.take(i as int),
                self.space.refused() == old(self).space.refused(),
                before == old(self).space.mapped(),
                old(self).vacant(i as int),
                forall|k: int|
                    i <= k < count ==> (#[trigger] self.occupied(k) <==> old(self).occupied(k)),
            decreases count - i,
        {
            let va: u64 = base + 4096 * i;
            if self.space.translate(va).is_some() {
                assert(self.occupied(i as int));
                assert(old(self).occupied(i as int));
                return Err(MappingError::Unexpected);
            }
            assert(!self.occupied(i as int));
            assert(!old(self).occupied(i as int));
            let page = Page { va, pa: window.start + 4096 * i, size: PAGE_4K, flags };
            let ghost held = *self;
            let put = self.space.map(page);
            assert(all[i as int] == page);
            proof {
                space::lemma_overlaid_on(old(self).space, held.space, page, self.space);
                if put is Err {
                    assert(self.space.mapped() == before + all.take(i as int));
                    assert(self.space.refused() == old(self).space.refused().push(all[i as int]));
                }
            }
            put?;
            assert forall|k: int| i + 1 <= k < count implies (#[trigger] self.occupied(k)
                <==> old(self).occupied(k)) by {
                assert(held.occupied(k) <==> old(self).occupied(k));
            }
            assert(all.take(i + 1) =~= all.take(i as int).push(page));
            assert(before + all.take(i + 1) =~= (before + all.take(i as int)).push(page));
            i = i + 1;
        }
        assert(all.take(count as int) =~= all);
        self.log.push(MappedRange::device(base, end))?;
        proof {
            align::lemma_up(end as int, 0x20_0000);
        }
        self.next = match align::align_up(end, PAGE_2M) {
            Some(next) => next,
            None => end,
        };
        Ok(base)
    }

    /// Whether something is mapped where page `i` of the next window goes.
    pub open spec fn occupied(&self, i: int) -> bool {
        self.space.at((self.next + 4096 * i) as u64) is Some
    }

    /// Whether nothing is mapped where the first `n` pages of the next window
    /// go.
    pub open spec fn vacant(&self, n: int) -> bool {
        forall|i: int| 0 <= i < n ==> !#[trigger] self.occupied(i)
    }

    /// The next window, as it is declared.
    pub open spec fn range_of(&self, window: Span) -> MappedRange {
        MappedRange {
            start: self.next,
            end: (self.next + window.bytes) as u64,
            contents: Contents::Device,
        }
    }
}

/// A window that was mapped is reached page for page where it was put, and every
/// other address is translated as before.
pub proof fn law_window_is_where_it_was_put<S: Space>(
    before: S,
    after: S,
    base: u64,
    window: Span,
    rights: Rights,
    va: u64,
)
    requires
        overlaid(before, after),
        after.mapped() == before.mapped() + window_pages(base, window, rights),
        base as int % 4096 == 0,
        base + window.bytes + 4096 <= u64::MAX,
        window.start + window.bytes + 4096 <= u64::MAX,
    ensures
        after.at(va) == if base <= va < base + 4096 * pages_of(window) {
            Some(window_pages(base, window, rights)[(va - base) / 4096])
        } else {
            before.at(va)
        },
{
    let pages = window_pages(base, window, rights);
    assert(after.mapped().skip(before.mapped().len() as int) =~= pages);
    assert(space::tiled(pages)) by {
        assert forall|i: int| 0 <= i < pages.len() implies (#[trigger] pages[i]).wf() by {}
    }
    if base <= va < base + 4096 * pages_of(window) {
        let i = (va - base) / 4096;
        assert(pages[i].covers(va));
        space::lemma_found(pages, i, va);
    } else {
        assert forall|k: int| 0 <= k < pages.len() implies !(#[trigger] pages[k]).covers(va) by {}
        space::lemma_absent(pages, va);
    }
}

/// The leaf an address is translated through.
pub open spec fn leaf_of(page: Page, address: u64) -> Leaf {
    Leaf {
        start: page.va,
        size: page.size,
        protection: permitted(page.flags as int),
    }
}

/// Reads the leaf an address is translated through, its huge size kept so that
/// an audit sees crossed boundaries.
pub fn leaf<L: Live>(live: &L, address: u64) -> (leaf: Option<Leaf>)
    ensures
        leaf == match live.at(address) {
            Some(page) => Some(leaf_of(page, address)),
            None => None,
        },
{
    match live.translate(address) {
        Some(page) => Some(Leaf::new(page.va, page.size, flags::protection(page.flags))),
        None => None,
    }
}

/// Whether an address of the direct map is one of region `i`'s.
pub open spec fn direct_address(offset: u64, regions: Seq<(u64, u64)>, i: int, va: u64) -> bool {
    0 <= i < regions.len() && offset + whole(regions[i]).0 <= va < offset + whole(regions[i]).1
}

/// Whether a leaf is at least as large as every leaf below `until` of region
/// `n`, and of every region before it; and is the first of them that large.
pub open spec fn surveyed<L: Live>(
    live: L,
    offset: u64,
    regions: Seq<(u64, u64)>,
    n: int,
    until: int,
    largest: Option<Leaf>,
) -> bool {
    &&& forall|i: int, va: u64|
        #![trigger direct_address(offset, regions, i, va), live.at(va)]
        direct_address(offset, regions, i, va) && (i < n || (i == n && va < until)) ==> {
            &&& live.at(va) is Some
            &&& largest is Some
            &&& (live.at(va)->0).size <= (largest->0).size
        }
    &&& largest matches Some(leaf) ==> exists|i: int, va: u64|
        #![trigger direct_address(offset, regions, i, va), live.at(va)]
        {
            &&& direct_address(offset, regions, i, va)
            &&& live.at(va) is Some
            &&& leaf == leaf_of(live.at(va)->0, va)
            &&& outgrown(live, offset, regions, i, va as int, leaf.size)
        }
}

/// Whether every leaf below `until` of region `n`, and of every region before
/// it, is smaller than `size`.
pub open spec fn outgrown<L: Live>(
    live: L,
    offset: u64,
    regions: Seq<(u64, u64)>,
    n: int,
    until: int,
    size: u64,
) -> bool {
    forall|i: int, va: u64|
        #![trigger direct_address(offset, regions, i, va), live.at(va)]
        direct_address(offset, regions, i, va) && (i < n || (i == n && va < until)) ==> (
        live.at(va) matches Some(page) && page.size < size)
}

/// The largest leaf covering RAM, found by walking the live tables.
///
/// Every address of every direct-mapped range is accounted for, one leaf at a
/// time, so the answer cannot come from a lucky probe: a hole inside a range
/// the direct map claims stops the walk instead of being stepped over on the
/// way to the bigger leaf next door.
pub fn largest_ram_leaf<L: Live>(live: &L, regions: &[(u64, u64)], offset: u64) -> (largest: Result<
    Leaf,
    PlatformError,
>)
    requires
        forall|i: int| 0 <= i < regions@.len() ==> direct(offset, #[trigger] regions@[i]),
        forall|i: int|
            0 <= i < regions@.len() ==> offset + whole(#[trigger] regions@[i]).0 <= u64::MAX,
    ensures
        match largest {
            Ok(largest) => surveyed(
                *live,
                offset,
                regions@,
                regions@.len() as int,
                0,
                Some(largest),
            ),
            Err(error) => {
                &&& error == PlatformError::Mapping(MappingError::Unmapped)
                &&& (forall|i: int, va: u64| !#[trigger] direct_address(offset, regions@, i, va))
                    || exists|i: int, va: u64|
                    #![trigger direct_address(offset, regions@, i, va), live.at(va)]
                    direct_address(offset, regions@, i, va) && live.at(va) is None
            },
        },
{
    let mut largest: Option<Leaf> = None;
    let mut i: usize = 0;
    while i < regions.len()
        invariant
            i <= regions@.len(),
            forall|k: int| 0 <= k < regions@.len() ==> direct(offset, #[trigger] regions@[k]),
            forall|k: int|
                0 <= k < regions@.len() ==> offset + whole(#[trigger] regions@[k]).0 <= u64::MAX,
            surveyed(*live, offset, regions@, i as int, 0, largest),
        decreases regions.len() - i,
    {
        let (from, to) = regions[i];
        assert(regions@[i as int] == (from, to));
        proof {
            align::lemma_up(from as int, 4096);
            align::lemma_down(to as int, 4096);
        }
        let start: u64 = match align::align_up(from, PAGE_4K) {
            Some(start) => start,
            None => return Err(PlatformError::Mapping(MappingError::InvalidAddress)),
        };
        let end: u64 = align::align_down(to, PAGE_4K);
        if start < end {
            let last: u64 = offset + end;
            let mut address: u64 = offset + start;
            while address < last
                invariant
                    i < regions@.len(),
                    whole(regions@[i as int]) == (start as int, end as int),
                    last == offset + end,
                    offset + start <= address,
                    surveyed(*live, offset, regions@, i as int, address as int, largest),
                decreases last - address,
            {
                assert(direct_address(offset, regions@, i as int, address));
                let page = match live.translate(address) {
                    Some(page) => page,
                    None => return Err(PlatformError::Mapping(MappingError::Unmapped)),
                };
                let found = Leaf::new(page.va, page.size, flags::protection(page.flags));
                let ghost held = largest;
                let bigger = match largest {
                    None => true,
                    Some(largest) => largest.size < found.size,
                };
                if bigger {
                    largest = Some(found);
                    assert(outgrown(
                        *live,
                        offset,
                        regions@,
                        i as int,
                        address as int,
                        found.size,
                    ));
                }
                let left: u64 = page.size - (address - page.va);
                let next: u64 = if left > last - address {
                    last
                } else {
                    address + left
                };
                proof {
                    assert(live.at(address) == Some(page));
                    assert forall|k: int, va: u64|
                        #![trigger direct_address(offset, regions@, k, va), live.at(va)]
                        direct_address(offset, regions@, k, va) && (k < i || (k == i && va
                            < next)) implies {
                        &&& live.at(va) is Some
                        &&& largest is Some
                        &&& (live.at(va)->0).size <= (largest->0).size
                    } by {
                        if k == i && va >= address {
                            assert(page.covers(va));
                        }
                    }
                }
                address = next;
            }
        }
        i = i + 1;
    }
    match largest {
        Some(largest) => Ok(largest),
        None => {
            assert forall|k: int, va: u64| !#[trigger] direct_address(offset, regions@, k, va) by {
                assert(live.at(va) == live.at(va));
            }
            Err(PlatformError::Mapping(MappingError::Unmapped))
        },
    }
}

/// Every page of the direct map, in numbers: 4096 or 2097152 bytes, on a boundary
/// of its own size on both sides, `offset` above the memory it shows, inside the
/// run, and present, writable and not to be run. It is a large one wherever that
/// fits.
pub proof fn law_direct_map_pages_in_numbers(offset: int, at: int, end: int, i: int)
    requires
        0 <= offset,
        0 <= at,
        at % 4096 == 0,
        end % 4096 == 0,
        offset % 4096 == 0,
        offset + end <= u64::MAX,
        0 <= i < sliced(offset, at, end).len(),
    ensures
        ({
            let page = sliced(offset, at, end)[i];
            &&& page.va == offset + page.pa
            &&& at <= page.pa
            &&& page.pa + page.size <= end
            &&& page.flags == 0x8000_0000_0000_0003
            &&& page.size == if page.pa % 2097152 == 0 && page.va % 2097152 == 0 && page.pa
                + 2097152 <= end {
                2097152u64
            } else {
                4096u64
            }
        }),
    decreases end - at,
{
    if at < end {
        let page = slice(offset, at, end);
        if i > 0 {
            law_direct_map_pages_in_numbers(offset, at + page.size, end, i - 1);
            assert(sliced(offset, at, end)[i] == sliced(offset, at + page.size, end)[i - 1]);
        }
    }
}

/// The direct map of some regions shows every byte of their whole pages, where
/// `offset` puts it, and nothing else.
pub proof fn law_direct_map_is_of_the_regions(
    offset: u64,
    regions: Seq<(u64, u64)>,
    n: int,
    address: int,
)
    requires
        0 <= n <= regions.len(),
        offset as int % 4096 == 0,
        forall|r: int| 0 <= r < n ==> direct(offset, #[trigger] regions[r]),
    ensures
        shown(all_sliced(offset, regions, n), offset, address) <==> exists|r: int|
            0 <= r < n && spans(#[trigger] regions[r], address),
    decreases n,
{
    if n > 0 {
        law_direct_map_is_of_the_regions(offset, regions, n - 1, address);
        let (start, end) = whole(regions[n - 1]);
        assert(direct(offset, regions[n - 1]));
        lemma_region_is_shown(offset, regions[n - 1], address);
        lemma_shown_joins(
            all_sliced(offset, regions, n - 1),
            sliced(offset as int, start, end),
            offset,
            address,
        );
        if exists|r: int| 0 <= r < n && spans(#[trigger] regions[r], address) {
            let r = choose|r: int| 0 <= r < n && spans(#[trigger] regions[r], address);
            assert(r < n - 1 || r == n - 1);
        }
    }
}

proof fn lemma_region_is_shown(offset: u64, region: (u64, u64), address: int)
    requires
        offset as int % 4096 == 0,
        direct(offset, region),
    ensures
        shown(sliced(offset as int, whole(region).0, whole(region).1), offset, address) <==> spans(
            region,
            address,
        ),
{
    let (start, end) = whole(region);
    let pages = sliced(offset as int, start, end);
    align::lemma_up(region.0 as int, 4096);
    align::lemma_down(region.1 as int, 4096);
    assert(spans(region, address) <==> start <= address < end);
    if start <= address < end {
        law_direct_map_is_whole(offset as int, start, end, address);
        let i = choose|i: int|
            0 <= i < pages.len() && {
                let page = #[trigger] pages[i];
                &&& page.va == offset + page.pa
                &&& page.pa <= address < page.pa + page.size
                &&& start <= page.pa
                &&& page.pa + page.size <= end
            };
        assert(pages[i].shows(offset, address));
    }
    if shown(pages, offset, address) {
        let i = choose|i: int| 0 <= i < pages.len() && #[trigger] pages[i].shows(offset, address);
        law_direct_map_pages_in_numbers(offset as int, start, end, i);
    }
}

proof fn lemma_shown_joins(a: Seq<Page>, b: Seq<Page>, offset: u64, address: int)
    ensures
        shown(a + b, offset, address) <==> shown(a, offset, address) || shown(b, offset, address),
{
    if shown(a, offset, address) {
        let i = choose|i: int| 0 <= i < a.len() && #[trigger] a[i].shows(offset, address);
        assert((a + b)[i].shows(offset, address));
    }
    if shown(b, offset, address) {
        let i = choose|i: int| 0 <= i < b.len() && #[trigger] b[i].shows(offset, address);
        assert((a + b)[a.len() + i].shows(offset, address));
    }
    if shown(a + b, offset, address) {
        let i = choose|i: int| 0 <= i < (a + b).len() && #[trigger] (a + b)[i].shows(offset, address);
        if i < a.len() {
            assert(a[i].shows(offset, address));
        } else {
            assert(b[i - a.len()].shows(offset, address));
        }
    }
}

/// Whether the whole pages of a region have an address: its page starts no
/// earlier than the region does and ends no later.
pub open spec fn spans(region: (u64, u64), address: int) -> bool {
    let page = address - address % 4096;
    region.0 <= page && page + 4096 <= region.1
}

impl Page {
    /// Whether a page shows an address `offset` above where it is.
    pub open spec fn shows(self, offset: u64, address: int) -> bool {
        self.va == offset + self.pa && self.pa <= address < self.pa + self.size
    }
}

/// Whether one of some pages shows an address.
pub open spec fn shown(pages: Seq<Page>, offset: u64, address: int) -> bool {
    exists|i: int| 0 <= i < pages.len() && #[trigger] pages[i].shows(offset, address)
}

/// A copy of a live page leads where the page led from that address, is 4096
/// bytes long, is never a device's, and grants what the page granted: to write
/// where bit 1 is set, to run where bit 63 is not.
pub proof fn law_copy_leads_where_the_page_led(at: u64, page: Page)
    requires
        at % 4096 == 0,
        page.va % 4096 == 0,
        page.va <= at < page.va + page.size,
        page.pa + page.size <= u64::MAX,
    ensures
        copied(at as int, page).va == at,
        copied(at as int, page).pa == page.pa + (at - page.va),
        copied(at as int, page).size == 4096,
        copied(at as int, page).flags == 1 + (if page.flags / 2 % 2 == 1 {
            2int
        } else {
            0
        }) + (if page.flags / 0x8000_0000_0000_0000 == 1 {
            0x8000_0000_0000_0000int
        } else {
            0
        }),
        mixed(page) <==> page.flags / 2 % 2 == 1 && page.flags / 0x8000_0000_0000_0000 == 0,
{
}

/// What is copied of a stretch of live memory is every page of it that is there,
/// once and in order, unless one is both writable and executable.
pub proof fn law_every_live_page_is_copied<L: Live>(live: L, at: int, end: int)
    requires
        0 <= at,
        sound(live, at, end),
    ensures
        forall|i: int|
            0 <= i < clones(live, at, end).len() ==> came_from(
                live,
                at,
                end,
                #[trigger] clones(live, at, end)[i],
            ),
        forall|k: int|
            0 <= k && at + 4096 * k < end && #[trigger] live.at((at + 4096 * k) as u64) is Some
                ==> clones(live, at, end).contains(
                copied(at + 4096 * k, live.at((at + 4096 * k) as u64)->0),
            ),
    decreases
            if at < end {
                end - at
            } else {
                0
            },
{
    if at < end {
        law_every_live_page_is_copied(live, at + 4096, end);
        let rest = clones(live, at + 4096, end);
        let all = clones(live, at, end);
        let head = if live.at(at as u64) is Some {
            seq![copied(at, live.at(at as u64)->0)]
        } else {
            seq![]
        };
        assert(all =~= head + rest);
        assert forall|i: int| 0 <= i < all.len() implies came_from(live, at, end, #[trigger] all[i]) by {
            if i < head.len() {
                assert(at + 4096 * 0 == at);
                assert(came_at(live, at, end, all[i], 0));
            } else {
                assert(all[i] == rest[i - head.len()]);
                let k = choose|k: int| #[trigger] came_at(live, at + 4096, end, rest[i - head.len()], k);
                assert(at + 4096 + 4096 * k == at + 4096 * (k + 1));
                assert(came_at(live, at, end, all[i], k + 1));
            }
        }
        assert forall|k: int|
            0 <= k && at + 4096 * k < end && #[trigger] live.at(
                (at + 4096 * k) as u64,
            ) is Some implies all.contains(
            copied(at + 4096 * k, live.at((at + 4096 * k) as u64)->0),
        ) by {
            if k == 0 {
                assert(all[0] == copied(at, live.at(at as u64)->0));
            } else {
                let j = k - 1;
                assert(at + 4096 + 4096 * j == at + 4096 * k);
                let wanted = copied(at + 4096 * k, live.at((at + 4096 * k) as u64)->0);
                assert(live.at((at + 4096 + 4096 * j) as u64) is Some);
                assert(rest.contains(wanted));
                let i = choose|i: int| 0 <= i < rest.len() && rest[i] == wanted;
                assert(all[head.len() + i] == wanted);
            }
        }
    }
}

/// Whether a page is the copy of the `k`th live page of a stretch.
pub open spec fn came_at<L: Live>(live: L, at: int, end: int, page: Page, k: int) -> bool {
    &&& 0 <= k
    &&& at + 4096 * k < end
    &&& live.at((at + 4096 * k) as u64) is Some
    &&& page == copied(at + 4096 * k, live.at((at + 4096 * k) as u64)->0)
}

/// Whether a page is the copy of a live page of a stretch.
pub open spec fn came_from<L: Live>(live: L, at: int, end: int, page: Page) -> bool {
    exists|k: int| #[trigger] came_at(live, at, end, page, k)
}

/// What is built, part by part and in numbers: the direct map, the image, the
/// boot stack with its guards, what the boot left to read, the APIC's registers
/// uncached in a window of their own, and the trampoline where it is, to be run
/// and not written.
pub proof fn law_build_in_numbers<L: Live>(
    plan: Plan,
    regions: Seq<(u64, u64)>,
    live: L,
    past: u64,
)
    ensures
        planned(plan, regions, live, past) == all_sliced(
            plan.offset,
            regions,
            regions.len() as int,
        ) + clones(live, plan.image_start - plan.image_start as int % 4096, past as int) + clones(
            live,
            0xffff_9000_0000_0000,
            0xffff_9000_0002_2000,
        ) + clones(live, 0xffff_9100_0000_0000, 0xffff_9100_0020_0000) + seq![
            Page {
                va: 0xffff_9200_0000_0000,
                pa: 0xfee0_0000,
                size: 4096,
                flags: 0x8000_0000_0000_001b,
            },
        ] + match plan.trampoline {
            Some(physical) => seq![Page { va: physical, pa: physical, size: 4096, flags: 1 }],
            None => seq![],
        },
        IMAGE_LIMIT == 0x400_0000,
        TRAMPOLINE_LIMIT == 0x10_0000,
        DEVICE_REGION == 0xffff_9300_0000_0000,
        DEVICE_REGION_END == DEVICE_REGION + 0x4000_0000,
{
}

/// The largest leaf is as large as the one behind any address of the whole pages
/// of any region, every one of which is mapped; and it is the leaf of one of them,
/// from where its page starts, as long as that is.
pub proof fn law_no_ram_leaf_is_larger<L: Live>(
    live: L,
    offset: u64,
    regions: Seq<(u64, u64)>,
    largest: Leaf,
    i: int,
    address: int,
)
    requires
        surveyed(live, offset, regions, regions.len() as int, 0, Some(largest)),
        0 <= i < regions.len(),
        address >= 0,
        offset + address <= u64::MAX,
        spans(regions[i], address),
    ensures
        live.at((offset + address) as u64) matches Some(page) && page.size <= largest.size,
        exists|va: u64|
            (#[trigger] live.at(va) matches Some(page) && page.va == largest.start && page.size
                == largest.size),
{
    align::lemma_up(regions[i].0 as int, 4096);
    align::lemma_down(regions[i].1 as int, 4096);
    let page = address - address % 4096;
    assert(page % 4096 == 0);
    assert(direct_address(offset, regions, i, (offset + address) as u64));
    assert(live.at((offset + address) as u64) is Some);
    let (j, va) = choose|j: int, va: u64|
        #![trigger direct_address(offset, regions, j, va), live.at(va)]
        {
            &&& direct_address(offset, regions, j, va)
            &&& live.at(va) is Some
            &&& largest == leaf_of(live.at(va)->0, va)
            &&& outgrown(live, offset, regions, j, va as int, largest.size)
        };
    assert(live.at(va) is Some);
}

/// The leaf an address has is its page: where it starts, how long it is, and what
/// bits 1 and 63 of its entry grant.
pub proof fn law_leaf_is_its_page(page: Page, address: u64)
    ensures
        leaf_of(page, address).start == page.va,
        leaf_of(page, address).size == page.size,
        leaf_of(page, address).protection.write == (page.flags as int / 2 % 2 == 1),
        leaf_of(page, address).protection.execute == (page.flags as int
            / 0x8000_0000_0000_0000 % 2 == 0),
{
}

} // verus!
