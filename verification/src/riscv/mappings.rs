//! Every range the boot address space declared, and the memory attributes that
//! belong to it.
//!
//! The log exists so an audit can be handed the exact set of ranges the kernel
//! claims to have mapped. It carries two more jobs that only look incidental:
//!
//! - It is the record that refuses a second mapping of a window already mapped.
//!   A register window is a *unique* handle, so handing out two windows over
//!   one range would break that promise silently, at the first pair of
//!   concurrent register writes rather than here.
//! - It is where the cacheability of a leaf comes from. Sv39 without the
//!   Svpbmt extension has no memory-type bits in a page-table entry at all, so
//!   reading the live tables back can never recover "this leaf is uncached".
//!   The attribute belongs to the physical address, and the only thing that
//!   knows which physical ranges are device holes is the set of windows that
//!   were proved not to be RAM. That set is this log.
use vstd::prelude::*;

use crate::arch::{Cache, Contents, MappedRange, MappingError};

verus! {

/// The largest number of usable free-RAM ranges the audit stores inline.
///
/// The QEMU `virt` build exposes one contiguous span, and no plausible RISC-V
/// board grows this to double digits; growing it here is a one-line change.
pub const MAX_RAM_RANGES: usize = 8;

/// The largest number of device windows the kernel may map.
///
/// One ECAM window plus a handful of BARs is what the kernel asks for. A board
/// that wants more gets [`MappingError::Backend`] from [`MappingLog::push`]
/// rather than a mapping nobody declared.
pub const MAX_DEVICE_RANGES: usize = 8;

/// `.text`, `.rodata`, and the writable image span, plus RAM and devices.
pub const CAPACITY: usize = 3 + MAX_RAM_RANGES + MAX_DEVICE_RANGES;

/// Every mapped range the boot address space declares, in one array so
/// the image audit can hand them to a portable check.
pub struct MappingLog {
    ranges: [MappedRange; 19],
    len: usize,
}

/// Whether a range shares an address with `start..end`.
pub open spec fn shares(range: MappedRange, start: u64, end: u64) -> bool {
    start < range.end && range.start < end
}

/// Whether a range is a device window over `address`.
pub open spec fn windows(range: MappedRange, address: u64) -> bool {
    range.contents is Device && range.start <= address < range.end
}

impl MappingLog {
    /// No more is declared than there is room for.
    #[verifier::type_invariant]
    spec fn within(self) -> bool {
        self.len <= 19
    }

    /// The declared ranges, oldest first.
    pub closed spec fn view(&self) -> Seq<MappedRange> {
        self.ranges@.take(self.len as int)
    }

    pub fn new() -> (log: Self)
        ensures
            log@ == Seq::<MappedRange>::empty(),
    {
        let ranges = [MappedRange::ram(0, 0);19];
        let log = MappingLog { ranges, len: 0 };
        assert(log@ =~= Seq::<MappedRange>::empty());
        log
    }

    /// Records one declared range, or reports that the log is full.
    pub fn push(&mut self, range: MappedRange) -> (done: Result<(), MappingError>)
        ensures
            match done {
                Ok(()) => old(self)@.len() < CAPACITY && final(self)@ == old(self)@.push(range),
                Err(error) => {
                    &&& old(self)@.len() >= CAPACITY
                    &&& error == MappingError::Backend
                    &&& *final(self) == *old(self)
                },
            },
    {
        proof {
            use_type_invariant(&*self);
        }
        let ghost before = *self;
        if self.len >= 19 {
            return Err(MappingError::Backend);
        }
        self.ranges[self.len] = range;
        self.len = self.len + 1;
        assert(self@ =~= before@.push(range));
        Ok(())
    }

    pub fn as_slice(&self) -> (ranges: &[MappedRange])
        ensures
            ranges@ == self@,
    {
        proof {
            use_type_invariant(self);
        }
        let whole: &[MappedRange] = &self.ranges;
        vstd::slice::slice_subrange(whole, 0, self.len)
    }

    /// Whether any declared range shares an address with `start..end`.
    ///
    /// Asked before a device window is mapped: overlapping an existing range
    /// means either a second window over registers someone already holds, or a
    /// window that reaches into the image, and neither is something the mapper
    /// should quietly do.
    pub fn overlaps(&self, start: u64, end: u64) -> (any: bool)
        ensures
            any == exists|i: int|
                0 <= i < self@.len() && shares(#[trigger] self@[i], start, end),
    {
        let ranges = self.as_slice();
        let mut i: usize = 0;
        while i < ranges.len()
            invariant
                i <= ranges@.len(),
                ranges@ == self@,
                forall|k: int| 0 <= k < i ==> !shares(#[trigger] self@[k], start, end),
            decreases ranges.len() - i,
        {
            let range = ranges[i];
            if start < range.end && range.start < end {
                assert(shares(self@[i as int], start, end));
                return true;
            }
            i = i + 1;
        }
        false
    }

    /// The memory type an access to `address` actually gets.
    ///
    /// Not read out of the page-table entry, because Sv39 has no bits to read
    /// it from: it is a property of the physical address, and the declared
    /// device windows are the kernel's record of which physical addresses are
    /// device holes rather than RAM.
    pub fn cache(&self, address: u64) -> (cache: Cache)
        ensures
            cache == if exists|i: int|
                0 <= i < self@.len() && windows(#[trigger] self@[i], address) {
                Cache::Device
            } else {
                Cache::WriteBack
            },
    {
        let ranges = self.as_slice();
        let mut i: usize = 0;
        while i < ranges.len()
            invariant
                i <= ranges@.len(),
                ranges@ == self@,
                forall|k: int| 0 <= k < i ==> !windows(#[trigger] self@[k], address),
            decreases ranges.len() - i,
        {
            let range = ranges[i];
            let device = matches!(range.contents, Contents::Device);
            if device && range.start <= address && address < range.end {
                assert(windows(self@[i as int], address));
                return Cache::Device;
            }
            i = i + 1;
        }
        Cache::WriteBack
    }
}

impl Default for MappingLog {
    fn default() -> (log: Self)
        ensures
            log@ == Seq::<MappedRange>::empty(),
    {
        MappingLog::new()
    }
}

/// A window that was declared is refused a second time, whole or in part.
pub proof fn law_declared_windows_overlap(
    declared: Seq<MappedRange>,
    window: MappedRange,
    start: u64,
    end: u64,
    address: u64,
)
    requires
        start <= address < end,
        window.start <= address < window.end,
    ensures
        exists|i: int|
            0 <= i < declared.push(window).len() && shares(
                #[trigger] declared.push(window)[i],
                start,
                end,
            ),
{
    assert(shares(declared.push(window)[declared.len() as int], start, end));
}

/// A declared range overlaps another exactly where they share an address.
pub proof fn law_overlap_is_a_shared_address(range: MappedRange, start: u64, end: u64)
    requires
        start < end,
        range.start < range.end,
    ensures
        shares(range, start, end) <==> exists|address: u64|
            #![trigger within_both(range, start, end, address)]
            within_both(range, start, end, address),
{
    if shares(range, start, end) {
        let common = if range.start > start {
            range.start
        } else {
            start
        };
        assert(within_both(range, start, end, common));
    }
}

/// Whether an address lies in a range and between two bounds.
pub open spec fn within_both(range: MappedRange, start: u64, end: u64, address: u64) -> bool {
    range.start <= address < range.end && start <= address < end
}

} // verus!
