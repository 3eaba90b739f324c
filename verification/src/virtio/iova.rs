//! The device addresses an IOMMU hands out.
use vstd::prelude::*;

use crate::align;
use crate::dma::{DmaError, Iova};

verus! {

/// One reserved run of addresses.
#[derive(Clone, Copy, Debug, PartialEq, Eq, Structural)]
pub struct Run {
    pub start: u64,
    pub len: u64,
}

impl Run {
    /// Whether two runs share an address.
    pub open spec fn overlaps(self, start: int, len: int) -> bool {
        self.start < start + len && start < self.start + self.len
    }
}

/// Up to `N` disjoint runs out of `start..end`.
pub struct IovaSpace<const N: usize> {
    pub start: u64,
    pub end: u64,
    pub runs: [Option<Run>; N],
}

impl<const N: usize> IovaSpace<N> {
    /// Every run is nonempty and inside the space, and no two share an address.
    pub open spec fn wf(&self) -> bool {
        &&& forall|i: int|
            0 <= i < N ==> (#[trigger] self.runs@[i] matches Some(run) ==> {
                &&& run.len > 0
                &&& self.start <= run.start
                &&& run.start + run.len <= self.end
            })
        &&& forall|i: int, j: int|
            #![trigger self.runs@[i], self.runs@[j]]
            0 <= i < j < N && self.runs@[i] is Some && self.runs@[j] is Some
                ==> !self.runs@[i]->0.overlaps(
                self.runs@[j]->0.start as int,
                self.runs@[j]->0.len as int,
            )
    }

    /// Whether `len` addresses at `start` could be reserved.
    pub open spec fn fits(&self, start: int, len: int, page: int) -> bool {
        &&& self.start <= start
        &&& start % page == 0
        &&& start + len <= self.end
        &&& forall|i: int|
            0 <= i < N ==> (#[trigger] self.runs@[i] matches Some(run) ==> !run.overlaps(
                start,
                len,
            ))
    }

    /// Whether these are the lowest `len` addresses that could be reserved.
    pub open spec fn lowest(&self, iova: Iova, len: u64, page: u64) -> bool {
        &&& self.fits(iova.address as int, len as int, page as int)
        &&& forall|lower: int|
            lower < iova.address ==> !#[trigger] self.fits(lower, len as int, page as int)
    }

    /// Whether no run can be reserved: the table is full, or nothing fits.
    pub open spec fn crowded(&self, len: u64, page: u64) -> bool {
        ||| forall|i: int| 0 <= i < N ==> #[trigger] self.runs@[i] is Some
        ||| forall|any: int| !#[trigger] self.fits(any, len as int, page as int)
    }

    /// Whether exactly this run is reserved.
    pub open spec fn holds(&self, iova: Iova, len: u64) -> bool {
        exists|i: int|
            0 <= i < N && #[trigger] self.runs@[i] == Some(Run { start: iova.address, len })
    }

    /// The space once one more run was reserved.
    pub open spec fn reserved(&self, iova: Iova, len: u64, after: Self) -> bool {
        &&& after.start == self.start
        &&& after.end == self.end
        &&& exists|slot: int|
            {
                &&& 0 <= slot < N
                &&& #[trigger] self.runs@[slot] is None
                &&& after.runs@ == self.runs@.update(
                    slot,
                    Some(Run { start: iova.address, len }),
                )
            }
    }

    /// The space once one run was given back.
    pub open spec fn released(&self, iova: Iova, len: u64, after: Self) -> bool {
        &&& after.start == self.start
        &&& after.end == self.end
        &&& exists|slot: int|
            {
                &&& 0 <= slot < N
                &&& #[trigger] self.runs@[slot] == Some(Run { start: iova.address, len })
                &&& after.runs@ == self.runs@.update(slot, None)
            }
    }

    pub fn new(start: Iova, end: Iova) -> (space: Self)
        ensures
            space.wf(),
            space.start == start.address,
            space.end == end.address,
            space.runs@ == Seq::new(N as nat, |i: int| None::<Run>),
    {
        let runs: [Option<Run>; N] = [None;N];
        IovaSpace { start: start.address, end: end.address, runs }
    }

    /// Reserves the lowest `len` free addresses that start on a page.
    pub fn reserve(&mut self, len: u64, page: u64) -> (iova: Result<Iova, DmaError>)
        requires
            old(self).wf(),
            len > 0,
            page > 0,
        ensures
            final(self).wf(),
            final(self).start == old(self).start,
            final(self).end == old(self).end,
            match iova {
                Ok(iova) => {
                    &&& old(self).lowest(iova, len, page)
                    &&& old(self).reserved(iova, len, *final(self))
                },
                Err(error) => {
                    &&& error == DmaError::OutOfSpace
                    &&& *final(self) == *old(self)
                    &&& old(self).crowded(len, page)
                },
            },
    {
        let ghost before = *self;
        let slot: usize = match self.empty_slot() {
            Some(slot) => slot,
            None => return Err(DmaError::OutOfSpace),
        };
        proof {
            align::lemma_up(self.start as int, page as int);
        }
        let mut at: u64 = match align::align_up(self.start, page) {
            Some(at) => at,
            None => {
                assert forall|any: int| !#[trigger] self.fits(any, len as int, page as int) by {
                    if self.fits(any, len as int, page as int) {
                        assert(any % page as int == 0);
                    }
                }
                return Err(DmaError::OutOfSpace);
            },
        };
        assert forall|lower: int| lower < at implies !#[trigger] self.fits(
            lower,
            len as int,
            page as int,
        ) by {
            if self.fits(lower, len as int, page as int) {
                assert(lower % page as int == 0);
            }
        }
        while at <= self.end && len <= self.end - at
            invariant
                before == *self,
                before == *old(self),
                self.wf(),
                len > 0,
                page > 0,
                slot < N,
                self.runs@[slot as int] is None,
                self.start <= at,
                at % page == 0,
                forall|lower: int|
                    lower < at ==> !#[trigger] self.fits(lower, len as int, page as int),
            decreases u64::MAX - at,
        {
            match self.conflict(at, len) {
                None => {
                    assert(before.fits(at as int, len as int, page as int));
                    self.runs[slot] = Some(Run { start: at, len });
                    assert forall|i: int| 0 <= i < N && i != slot && before.runs@[i] is Some implies
                        !(#[trigger] before.runs@[i]->0).overlaps(at as int, len as int) by {
                        assert(before.runs@[i] is Some);
                    }
                    return Ok(Iova { address: at });
                },
                Some(run) => {
                    let past: u64 = run.start + run.len;
                    proof {
                        align::lemma_up(past as int, page as int);
                    }
                    assert forall|lower: int| lower < align::up(past as int, page as int) implies
                        !#[trigger] self.fits(lower, len as int, page as int) by {
                        if self.fits(lower, len as int, page as int) && lower >= at {
                            assert(lower % page as int == 0);
                            assert(lower < past);
                            assert(run.overlaps(lower, len as int));
                        }
                    }
                    match align::align_up(past, page) {
                        Some(next) => {
                            at = next;
                        },
                        None => {
                            assert forall|any: int| !#[trigger] self.fits(
                                any,
                                len as int,
                                page as int,
                            ) by {}
                            return Err(DmaError::OutOfSpace);
                        },
                    }
                },
            }
        }
        assert forall|any: int| !#[trigger] self.fits(any, len as int, page as int) by {}
        Err(DmaError::OutOfSpace)
    }

    fn empty_slot(&self) -> (slot: Option<usize>)
        ensures
            match slot {
                Some(slot) => slot < N && self.runs@[slot as int] is None,
                None => forall|i: int| 0 <= i < N ==> #[trigger] self.runs@[i] is Some,
            },
    {
        let mut i: usize = 0;
        while i < N
            invariant
                i <= N,
                forall|k: int| 0 <= k < i ==> #[trigger] self.runs@[k] is Some,
            decreases N - i,
        {
            if self.runs[i].is_none() {
                return Some(i);
            }
            i = i + 1;
        }
        None
    }

    /// A run that shares an address with `len` addresses at `at`.
    fn conflict(&self, at: u64, len: u64) -> (run: Option<Run>)
        requires
            self.wf(),
            at + len <= u64::MAX,
        ensures
            match run {
                Some(run) => {
                    &&& run.overlaps(at as int, len as int)
                    &&& run.start + run.len <= self.end
                    &&& exists|i: int| 0 <= i < N && #[trigger] self.runs@[i] == Some(run)
                },
                None => forall|i: int|
                    0 <= i < N ==> (#[trigger] self.runs@[i] matches Some(run) ==> !run.overlaps(
                        at as int,
                        len as int,
                    )),
            },
    {
        let mut i: usize = 0;
        while i < N
            invariant
                self.wf(),
                at + len <= u64::MAX,
                i <= N,
                forall|k: int|
                    0 <= k < i ==> (#[trigger] self.runs@[k] matches Some(run) ==> !run.overlaps(
                        at as int,
                        len as int,
                    )),
            decreases N - i,
        {
            if let Some(run) = self.runs[i] {
                assert(self.runs@[i as int] == Some(run));
                if run.start < at + len && at < run.start + run.len {
                    return Some(run);
                }
            }
            i = i + 1;
        }
        None
    }

    /// Gives a reserved run back.
    pub fn release(&mut self, iova: Iova, len: u64) -> (done: Result<(), DmaError>)
        requires
            old(self).wf(),
        ensures
            final(self).wf(),
            final(self).start == old(self).start,
            final(self).end == old(self).end,
            match done {
                Ok(()) => old(self).released(iova, len, *final(self)),
                Err(error) => {
                    &&& error == DmaError::NotMapped
                    &&& !old(self).holds(iova, len)
                    &&& *final(self) == *old(self)
                },
            },
    {
        let mut i: usize = 0;
        while i < N
            invariant
                *self == *old(self),
                self.wf(),
                i <= N,
                forall|k: int|
                    0 <= k < i ==> #[trigger] self.runs@[k] != Some(
                        Run { start: iova.address, len },
                    ),
            decreases N - i,
        {
            if let Some(run) = self.runs[i] {
                if run.start == iova.address && run.len == len {
                    assert(old(self).runs@[i as int] == Some(Run { start: iova.address, len }));
                    self.runs[i] = None;
                    return Ok(());
                }
            }
            i = i + 1;
        }
        Err(DmaError::NotMapped)
    }
}

/// Giving back what was just reserved leaves the space as it was.
pub proof fn law_release_undoes_reserve<const N: usize>(
    before: IovaSpace<N>,
    held: IovaSpace<N>,
    after: IovaSpace<N>,
    iova: Iova,
    len: u64,
)
    requires
        held.wf(),
        before.reserved(iova, len, held),
        held.released(iova, len, after),
    ensures
        after.runs@ == before.runs@,
        after.start == before.start,
        after.end == before.end,
{
    let run = Some(Run { start: iova.address, len });
    let taken = choose|slot: int|
        {
            &&& 0 <= slot < N
            &&& #[trigger] before.runs@[slot] is None
            &&& held.runs@ == before.runs@.update(slot, run)
        };
    let given = choose|slot: int|
        {
            &&& 0 <= slot < N
            &&& #[trigger] held.runs@[slot] == run
            &&& after.runs@ == held.runs@.update(slot, None)
        };
    assert(held.runs@[taken] == run && held.runs@[given] == run);
    assert(taken == given);
    assert(after.runs@ =~= before.runs@);
}

/// The addresses reserved are free ones, the lowest run of them that starts on a
/// page and stays inside the space, address by address.
pub proof fn law_lowest_free_addresses_are_taken<const N: usize>(
    space: IovaSpace<N>,
    iova: Iova,
    len: u64,
    page: u64,
)
    requires
        space.wf(),
        len > 0,
        page > 0,
        space.lowest(iova, len, page),
    ensures
        iova.address as int % page as int == 0,
        space.start <= iova.address,
        iova.address + len <= space.end,
        forall|address: int|
            iova.address <= address < iova.address + len ==> #[trigger] space.unused(address),
        forall|start: int|
            space.start <= start && #[trigger] (start % page as int) == 0 && start + len
                <= space.end && (forall|address: int|
                start <= address < start + len ==> #[trigger] space.unused(address)) ==> iova.address
                <= start,
{
    assert forall|address: int| iova.address <= address < iova.address + len implies #[trigger]
        space.unused(address) by {}
    assert forall|start: int|
        space.start <= start && #[trigger] (start % page as int) == 0 && start + len <= space.end
            && (forall|address: int|
            start <= address < start + len ==> #[trigger] space.unused(
                address,
            )) implies iova.address <= start by {
        if start < iova.address {
            assert(!space.fits(start, len as int, page as int));
            let i = choose|i: int|
                0 <= i < N && (#[trigger] space.runs@[i] matches Some(run) && run.overlaps(
                    start,
                    len as int,
                ));
            let run = space.runs@[i]->0;
            let shared = if run.start > start {
                run.start as int
            } else {
                start
            };
            assert(space.unused(shared));
        }
    }
}

impl<const N: usize> IovaSpace<N> {
    /// Whether an address belongs to no reserved run.
    pub open spec fn unused(&self, address: int) -> bool {
        forall|i: int|
            0 <= i < N ==> (#[trigger] self.runs@[i] matches Some(run) ==> !(run.start <= address
                < run.start + run.len))
    }
}

} // verus!
