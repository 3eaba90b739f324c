//! What the boot target has in memory.
use vstd::prelude::*;

use crate::align;
use crate::arch::{MemoryRegion, MemoryRegionKind};
use crate::riscv::range::PAGE_4K;

verus! {

/// One past the top of the QEMU `virt` board's default 128 MiB of RAM.
pub const RAM_END: u64 = 0x8800_0000;

/// The single usable RAM span left after the loaded kernel image.
#[derive(Clone, Copy, Debug, PartialEq, Eq, Structural)]
pub struct RiscVMemoryMap {
    pub usable_start: u64,
}

impl RiscVMemoryMap {
    /// The map of a board whose image and boot stack end at `end`.
    pub fn new(end: u64) -> (map: Self)
        requires
            end + 4095 <= u64::MAX,
        ensures
            map.usable_start == align::up(end as int, 4096),
    {
        proof {
            align::lemma_up(end as int, 4096);
        }
        let usable_start: u64 = match align::align_up(end, PAGE_4K) {
            Some(start) => start,
            None => end,
        };
        RiscVMemoryMap { usable_start }
    }

    pub fn len(&self) -> (len: usize)
        ensures
            len == 1,
    {
        1
    }

    pub fn region(&self, index: usize) -> (region: Option<MemoryRegion>)
        ensures
            region == if index == 0 {
                Some(
                    MemoryRegion {
                        start: self.usable_start,
                        end: RAM_END,
                        kind: MemoryRegionKind::Usable,
                    },
                )
            } else {
                None
            },
    {
        if index == 0 {
            Some(MemoryRegion::new(self.usable_start, RAM_END, MemoryRegionKind::Usable))
        } else {
            None
        }
    }
}

} // verus!
