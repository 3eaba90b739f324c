//! Frames of usable RAM, each handed out at most once.
use vstd::prelude::*;

use crate::align;
use crate::arch::{MappingError, MemoryRegion, MemoryRegionKind, PlatformError, Span};
use crate::memory::FramePool;

verus! {

/// The part of a region at `floor` and above, if it is RAM that may be used.
pub open spec fn clipped(region: MemoryRegion, floor: u64) -> Option<(u64, u64)> {
    if region.kind == MemoryRegionKind::Usable && region.end > floor && region.start < region.end {
        Some(
            (
                if region.start < floor {
                    floor
                } else {
                    region.start
                },
                region.end,
            ),
        )
    } else {
        None
    }
}

/// The usable RAM at `floor` and above among the first `n` regions, in their
/// order.
pub open spec fn usable_above(regions: Seq<MemoryRegion>, floor: u64, n: int) -> Seq<(u64, u64)>
    decreases n,
{
    if n <= 0 {
        seq![]
    } else {
        let before = usable_above(regions, floor, n - 1);
        match clipped(regions[n - 1], floor) {
            Some(range) => before.push(range),
            None => before,
        }
    }
}

/// The usable RAM of a memory map at `floor` and above.
pub fn usable(regions: &[MemoryRegion], floor: u64) -> (ranges: Vec<(u64, u64)>)
    ensures
        ranges@ == usable_above(regions@, floor, regions@.len() as int),
{
    let mut ranges: Vec<(u64, u64)> = Vec::new();
    let mut i: usize = 0;
    while i < regions.len()
        invariant
            i <= regions@.len(),
            ranges@ == usable_above(regions@, floor, i as int),
        decreases regions.len() - i,
    {
        let region = regions[i];
        if region.kind == MemoryRegionKind::Usable && region.end > floor && region.start
            < region.end {
            let start: u64 = if region.start < floor {
                floor
            } else {
                region.start
            };
            ranges.push((start, region.end));
        }
        i = i + 1;
    }
    ranges
}

/// Whether a span shares an address with usable RAM.
pub open spec fn in_ram(ranges: Seq<(u64, u64)>, span: Span) -> bool {
    exists|i: int|
        {
            &&& 0 <= i < ranges.len()
            &&& (#[trigger] ranges[i]).0 < span.start + span.bytes
            &&& span.start < ranges[i].1
        }
}

/// The span of a device: one that shares no address with usable RAM, whose
/// accesses hardware would cache whatever a mapping asks for.
pub fn device(ranges: &[(u64, u64)], span: Span) -> (window: Result<Span, MappingError>)
    requires
        span.start + span.bytes <= u64::MAX,
    ensures
        window == if in_ram(ranges@, span) {
            Err::<Span, MappingError>(MappingError::InvalidAddress)
        } else {
            Ok::<Span, MappingError>(span)
        },
{
    let end: u64 = span.start + span.bytes;
    let mut i: usize = 0;
    while i < ranges.len()
        invariant
            i <= ranges@.len(),
            end == span.start + span.bytes,
            forall|k: int|
                0 <= k < i ==> !((#[trigger] ranges@[k]).0 < end && span.start < ranges@[k].1),
        decreases ranges.len() - i,
    {
        let (from, to) = ranges[i];
        if from < end && span.start < to {
            assert(ranges@[i as int].0 < end && span.start < ranges@[i as int].1);
            return Err(MappingError::InvalidAddress);
        }
        i = i + 1;
    }
    Ok(span)
}

/// Whether `bytes` bytes at `start` are whole frames at `floor` or above, all
/// of them in one range.
pub open spec fn available(
    ranges: Seq<(u64, u64)>,
    floor: int,
    bytes: int,
    n: int,
    start: int,
) -> bool {
    &&& floor <= start
    &&& start % 4096 == 0
    &&& exists|i: int|
        {
            &&& 0 <= i < n
            &&& (#[trigger] ranges[i]).0 <= start
            &&& start + bytes <= ranges[i].1
        }
}

/// Where the lowest frame of a range at `floor` or above starts.
pub open spec fn first_in(range: (u64, u64), floor: int) -> int {
    align::up(
        if range.0 < floor {
            floor
        } else {
            range.0 as int
        },
        4096,
    )
}

/// The lowest frame at `floor` or above with `bytes` bytes behind it in one of
/// the first `n` ranges.
pub open spec fn lowest(ranges: Seq<(u64, u64)>, floor: int, bytes: int, n: int) -> Option<int>
    decreases n,
{
    if n <= 0 {
        None
    } else {
        let before = lowest(ranges, floor, bytes, n - 1);
        let start = first_in(ranges[n - 1], floor);
        if start + bytes <= ranges[n - 1].1 && (before is None || start < before->0) {
            Some(start)
        } else {
            before
        }
    }
}

/// What is called lowest is available, nothing lower is, and where anything is
/// available something is lowest.
pub proof fn law_lowest_is_lowest(ranges: Seq<(u64, u64)>, floor: int, bytes: int, n: int)
    requires
        0 <= n <= ranges.len(),
        0 <= floor,
        0 <= bytes,
    ensures
        match lowest(ranges, floor, bytes, n) {
            Some(at) => available(ranges, floor, bytes, n, at) && forall|start: int|
                #[trigger] available(ranges, floor, bytes, n, start) ==> at <= start,
            None => forall|start: int| !#[trigger] available(ranges, floor, bytes, n, start),
        },
    decreases n,
{
    if n > 0 {
        law_lowest_is_lowest(ranges, floor, bytes, n - 1);
        let range = ranges[n - 1];
        let first = first_in(range, floor);
        align::lemma_up(
            if range.0 < floor {
                floor
            } else {
                range.0 as int
            },
            4096,
        );
        assert forall|start: int| #[trigger] available(ranges, floor, bytes, n, start) implies {
            ||| available(ranges, floor, bytes, n - 1, start)
            ||| first <= start && first + bytes <= range.1
        } by {
            let i = choose|i: int|
                {
                    &&& 0 <= i < n
                    &&& (#[trigger] ranges[i]).0 <= start
                    &&& start + bytes <= ranges[i].1
                };
            if i < n - 1 {
                assert(available(ranges, floor, bytes, n - 1, start));
            } else {
                assert(start % 4096 == 0);
            }
        }
        if first + bytes <= range.1 {
            assert(ranges[n - 1].0 <= first);
            assert(available(ranges, floor, bytes, n, first));
        }
        if let Some(at) = lowest(ranges, floor, bytes, n - 1) {
            assert(available(ranges, floor, bytes, n - 1, at));
            assert(available(ranges, floor, bytes, n, at));
        }
    }
}

/// How far RAM was handed out: nothing at this address or above was.
#[derive(Clone, Copy, Debug, PartialEq, Eq, Structural)]
pub struct FrameCursor {
    pub next: u64,
}

/// Hands out the frames of some ranges of RAM, lowest first.
pub struct FrameAllocator<'map> {
    pub ranges: &'map [(u64, u64)],
    pub next: u64,
}

/// The claim on `count` frames that leaves the cursor at `after`.
pub open spec fn claimed(
    ranges: Seq<(u64, u64)>,
    before: u64,
    count: u64,
    span: Span,
    after: u64,
) -> bool {
    &&& lowest(ranges, before as int, count * 4096, ranges.len() as int) == Some(span.start as int)
    &&& span.bytes == count * 4096
    &&& after == span.start + span.bytes
}

/// The frames at `next` and above, lowest first, no more than `limit` of them.
pub open spec fn drained(ranges: Seq<(u64, u64)>, next: int, limit: nat) -> Seq<u64>
    decreases limit,
{
    if limit == 0 {
        seq![]
    } else {
        match lowest(ranges, next, 4096, ranges.len() as int) {
            None => seq![],
            Some(frame) => seq![frame as u64] + drained(ranges, frame + 4096, (limit - 1) as nat),
        }
    }
}

impl<'map> FrameAllocator<'map> {
    /// An allocator of the frames at `floor` and above.
    pub fn above(ranges: &'map [(u64, u64)], floor: u64) -> (frames: Self)
        ensures
            frames.ranges == ranges,
            frames.next == floor,
    {
        FrameAllocator { ranges, next: floor }
    }

    /// An allocator that goes on where another one stopped.
    pub fn resume(ranges: &'map [(u64, u64)], cursor: FrameCursor) -> (frames: Self)
        ensures
            frames.ranges == ranges,
            frames.next == cursor.next,
    {
        FrameAllocator { ranges, next: cursor.next }
    }

    pub fn cursor(&self) -> (cursor: FrameCursor)
        ensures
            cursor.next == self.next,
    {
        FrameCursor { next: self.next }
    }

    /// The lowest frame with `bytes` bytes behind it.
    fn find(&self, bytes: u64) -> (start: Option<u64>)
        ensures
            match start {
                Some(start) => {
                    &&& lowest(
                        self.ranges@,
                        self.next as int,
                        bytes as int,
                        self.ranges@.len() as int,
                    ) == Some(start as int)
                    &&& start + bytes <= u64::MAX
                },
                None => lowest(
                    self.ranges@,
                    self.next as int,
                    bytes as int,
                    self.ranges@.len() as int,
                ) is None,
            },
    {
        let mut found: Option<u64> = None;
        let mut i: usize = 0;
        while i < self.ranges.len()
            invariant
                i <= self.ranges@.len(),
                match found {
                    Some(start) => {
                        &&& lowest(self.ranges@, self.next as int, bytes as int, i as int) == Some(
                            start as int,
                        )
                        &&& start + bytes <= u64::MAX
                    },
                    None => lowest(self.ranges@, self.next as int, bytes as int, i as int) is None,
                },
            decreases self.ranges.len() - i,
        {
            let (from, to) = self.ranges[i];
            let floor: u64 = if from < self.next {
                self.next
            } else {
                from
            };
            if let Some(start) = align::align_up(floor, 4096) {
                if start <= to && to - start >= bytes {
                    let lower = match found {
                        None => true,
                        Some(held) => start < held,
                    };
                    if lower {
                        found = Some(start);
                    }
                }
            }
            i = i + 1;
        }
        found
    }

    /// The lowest frame not handed out yet.
    pub fn allocate(&mut self) -> (frame: Option<u64>)
        ensures
            final(self).ranges == old(self).ranges,
            match frame {
                Some(frame) => claimed(
                    old(self).ranges@,
                    old(self).next,
                    1,
                    Span { start: frame, bytes: 4096 },
                    final(self).next,
                ),
                None => {
                    &&& lowest(
                        old(self).ranges@,
                        old(self).next as int,
                        4096,
                        old(self).ranges@.len() as int,
                    ) is None
                    &&& *final(self) == *old(self)
                },
            },
    {
        match self.find(4096) {
            Some(start) => {
                self.next = start + 4096;
                Some(start)
            },
            None => None,
        }
    }

    /// The lowest `count` frames not handed out yet that lie side by side.
    pub fn run(&mut self, count: u64) -> (span: Result<Span, PlatformError>)
        ensures
            final(self).ranges == old(self).ranges,
            match span {
                Ok(span) => claimed(
                    old(self).ranges@,
                    old(self).next,
                    count,
                    span,
                    final(self).next,
                ),
                Err(error) => {
                    &&& error == PlatformError::Mapping(MappingError::OutOfFrames)
                    &&& lowest(
                        old(self).ranges@,
                        old(self).next as int,
                        count * 4096,
                        old(self).ranges@.len() as int,
                    ) is None
                    &&& *final(self) == *old(self)
                },
            },
    {
        if count > u64::MAX / 4096 {
            proof {
                let n = self.ranges@.len() as int;
                law_lowest_is_lowest(self.ranges@, self.next as int, count * 4096, n);
            }
            return Err(PlatformError::Mapping(MappingError::OutOfFrames));
        }
        let bytes: u64 = count * 4096;
        match self.find(bytes) {
            Some(start) => {
                self.next = start + bytes;
                Ok(Span { start, bytes })
            },
            None => Err(PlatformError::Mapping(MappingError::OutOfFrames)),
        }
    }

    /// Moves up to `limit` frames into a pool of tables yet to be built.
    pub fn fill(&mut self, pool: &mut FramePool, limit: usize)
        ensures
            final(self).ranges == old(self).ranges,
            final(pool)@ == old(pool)@ + drained(
                old(self).ranges@,
                old(self).next as int,
                limit as nat,
            ),
            drained(old(self).ranges@, old(self).next as int, limit as nat).len() == 0
                ==> final(self).next == old(self).next,
            drained(old(self).ranges@, old(self).next as int, limit as nat).len() > 0
                ==> final(self).next == final(pool)@.last() + 4096,
    {
        let ghost ranges = self.ranges@;
        let ghost from = self.next as int;
        let ghost held = pool@;
        let mut taken: usize = 0;
        let mut going = true;
        proof {
            assert(held + drained(ranges, from, limit as nat) =~= held + drained(
                ranges,
                self.next as int,
                (limit - taken) as nat,
            ));
        }
        while going && taken < limit
            invariant
                taken <= limit,
                self.ranges == old(self).ranges,
                ranges == self.ranges@,
                held.len() <= pool@.len(),
                held + drained(ranges, from, limit as nat) == pool@ + if going {
                    drained(ranges, self.next as int, (limit - taken) as nat)
                } else {
                    seq![]
                },
                pool@.len() == held.len() ==> self.next == from,
                pool@.len() > held.len() ==> self.next == pool@.last() + 4096,
            decreases
                    (limit - taken) + if going {
                        1int
                    } else {
                        0
                    },
        {
            let ghost before = pool@;
            let ghost rest = drained(ranges, self.next as int, (limit - taken) as nat);
            match self.allocate() {
                Some(frame) => {
                    pool.give(frame);
                    taken = taken + 1;
                    proof {
                        let left = drained(ranges, self.next as int, (limit - taken) as nat);
                        assert(rest == seq![frame] + left);
                        assert(before + rest =~= pool@ + left);
                    }
                },
                None => {
                    going = false;
                    assert(before + rest =~= pool@ + Seq::<u64>::empty());
                },
            }
        }
        proof {
            let all = drained(ranges, from, limit as nat);
            assert(pool@ =~= held + all);
        }
    }
}

/// Hands out `count` frames and moves the cursor past them.
///
/// The move is the point and it is permanent: the frames are the caller's for
/// good, no later claim can be handed the same ones, and a cursor read before
/// this call is stale.
pub fn claim_ram(ranges: &[(u64, u64)], cursor: &mut FrameCursor, count: u64) -> (span: Result<
    Span,
    PlatformError,
>)
    ensures
        match span {
            Ok(span) => claimed(ranges@, old(cursor).next, count, span, final(cursor).next),
            Err(error) => {
                &&& error == PlatformError::Mapping(MappingError::OutOfFrames)
                &&& lowest(
                    ranges@,
                    old(cursor).next as int,
                    count * 4096,
                    ranges@.len() as int,
                ) is None
                &&& *final(cursor) == *old(cursor)
            },
        },
{
    let mut frames = FrameAllocator::resume(ranges, *cursor);
    let span = frames.run(count)?;
    *cursor = frames.cursor();
    Ok(span)
}

/// A claim is whole frames of one range, and no later claim shares any of them:
/// it starts where the earlier one ended or above.
pub proof fn law_claims_are_apart(
    ranges: Seq<(u64, u64)>,
    start: u64,
    first_count: u64,
    first: Span,
    between: u64,
    later: u64,
    second_count: u64,
    second: Span,
    end: u64,
)
    requires
        claimed(ranges, start, first_count, first, between),
        between <= later,
        claimed(ranges, later, second_count, second, end),
    ensures
        first.start + first.bytes <= second.start,
        start <= between <= end,
        first.start as int % 4096 == 0,
        exists|i: int|
            {
                &&& 0 <= i < ranges.len()
                &&& (#[trigger] ranges[i]).0 <= first.start
                &&& first.start + first.bytes <= ranges[i].1
            },
{
    let n = ranges.len() as int;
    law_lowest_is_lowest(ranges, start as int, first_count * 4096, n);
    law_lowest_is_lowest(ranges, later as int, second_count * 4096, n);
}

/// Whether an address lies in one of some ranges.
pub open spec fn covered(ranges: Seq<(u64, u64)>, address: int) -> bool {
    exists|i: int| 0 <= i < ranges.len() && (#[trigger] ranges[i]).0 <= address < ranges[i].1
}

/// The RAM found usable is, address by address, what some region calls usable at
/// the floor and above: nothing below, nothing of another kind, and nothing left
/// out.
pub proof fn law_usable_ram_address_by_address(
    regions: Seq<MemoryRegion>,
    floor: u64,
    n: int,
    address: int,
)
    requires
        0 <= n <= regions.len(),
    ensures
        covered(usable_above(regions, floor, n), address) <==> floor <= address && exists|i: int|
            0 <= i < n && (#[trigger] regions[i]).kind == MemoryRegionKind::Usable
                && regions[i].start <= address < regions[i].end,
    decreases n,
{
    if n > 0 {
        law_usable_ram_address_by_address(regions, floor, n - 1, address);
        let before = usable_above(regions, floor, n - 1);
        let all = usable_above(regions, floor, n);
        let region = regions[n - 1];
        if covered(before, address) {
            let i = choose|i: int|
                0 <= i < before.len() && (#[trigger] before[i]).0 <= address < before[i].1;
            assert(all[i] == before[i]);
            assert(covered(all, address));
        }
        if covered(all, address) {
            let i = choose|i: int|
                0 <= i < all.len() && (#[trigger] all[i]).0 <= address < all[i].1;
            if i < before.len() {
                assert(before[i] == all[i]);
                assert(covered(before, address));
            } else {
                assert(clipped(region, floor) == Some(all[i]));
            }
        }
        if floor <= address && region.kind == MemoryRegionKind::Usable && region.start <= address
            < region.end {
            assert(all[before.len() as int] == clipped(region, floor)->0);
            assert(covered(all, address));
        }
    }
}

/// The ranges of usable RAM come in the order of their regions, one for each
/// that has any: another region behind the others adds its own at the end.
pub proof fn law_usable_ram_keeps_its_order(regions: Seq<MemoryRegion>, floor: u64, n: int)
    requires
        0 <= n < regions.len(),
    ensures
        usable_above(regions, floor, n).is_prefix_of(usable_above(regions, floor, n + 1)),
        usable_above(regions, floor, n + 1).len() <= usable_above(regions, floor, n).len() + 1,
{
}

/// A device's span is refused exactly where it has an address in usable RAM.
pub proof fn law_devices_are_outside_ram(ranges: Seq<(u64, u64)>, span: Span)
    requires
        span.bytes > 0,
        forall|i: int| 0 <= i < ranges.len() ==> (#[trigger] ranges[i]).0 < ranges[i].1,
    ensures
        in_ram(ranges, span) <==> exists|address: int|
            span.start <= address < span.start + span.bytes && #[trigger] covered(ranges, address),
{
    if in_ram(ranges, span) {
        let i = choose|i: int|
            {
                &&& 0 <= i < ranges.len()
                &&& (#[trigger] ranges[i]).0 < span.start + span.bytes
                &&& span.start < ranges[i].1
            };
        let common = if ranges[i].0 > span.start {
            ranges[i].0 as int
        } else {
            span.start as int
        };
        assert(ranges[i].0 <= common < ranges[i].1);
        assert(covered(ranges, common));
    }
    if exists|address: int|
        span.start <= address < span.start + span.bytes && #[trigger] covered(ranges, address) {
        let address = choose|address: int|
            span.start <= address < span.start + span.bytes && #[trigger] covered(ranges, address);
        let i = choose|i: int|
            0 <= i < ranges.len() && (#[trigger] ranges[i]).0 <= address < ranges[i].1;
        assert(ranges[i].0 < span.start + span.bytes && span.start < ranges[i].1);
    }
}

} // verus!
