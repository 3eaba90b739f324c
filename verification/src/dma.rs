//! Memory a device may reach, and the addresses it reaches it by.
use vstd::prelude::*;

use crate::window::Window;

verus! {

/// Why a DMA request was refused.
#[derive(Clone, Copy, Debug, PartialEq, Eq, Structural)]
pub enum DmaError {
    /// An offset or length outside the region.
    Range,
    /// The mapping does not grant the device this access.
    Permission,
    /// The device has no such mapping.
    NotMapped,
    /// A region that does not start and end on a page.
    Alignment,
    /// No address or table entry left.
    OutOfSpace,
    /// The translation hardware refused.
    Backend,
}

/// The endpoint number translation hardware knows a device by.
#[derive(Clone, Copy, Debug, PartialEq, Eq, Structural)]
pub struct DeviceId {
    pub id: u32,
}

impl DeviceId {
    pub fn new(id: u32) -> (device: Self)
        ensures
            device.id == id,
    {
        DeviceId { id }
    }

    pub fn get(self) -> (id: u32)
        ensures
            id == self.id,
    {
        self.id
    }
}

/// An address as a device sees it.
#[derive(Clone, Copy, Debug, PartialEq, Eq, Structural)]
pub struct Iova {
    pub address: u64,
}

impl Iova {
    pub fn new(address: u64) -> (iova: Self)
        ensures
            iova.address == address,
    {
        Iova { address }
    }

    pub fn get(self) -> (address: u64)
        ensures
            address == self.address,
    {
        self.address
    }
}

/// What a mapping lets its device do.
#[derive(Clone, Copy, Debug, PartialEq, Eq, Structural)]
pub enum DmaPerm {
    Read,
    Write,
    ReadWrite,
}

impl DmaPerm {
    pub open spec fn reads(self) -> bool {
        !(self is Write)
    }

    pub open spec fn writes(self) -> bool {
        !(self is Read)
    }

    pub fn can_read(self) -> (can: bool)
        ensures
            can == self.reads(),
    {
        !matches!(self, DmaPerm::Write)
    }

    pub fn can_write(self) -> (can: bool)
        ensures
            can == self.writes(),
    {
        !matches!(self, DmaPerm::Read)
    }
}

/// Memory nobody has mapped for a device yet.
pub struct Region<W: Window> {
    pub window: W,
    pub physical: u64,
}

/// One checked run of a mapping, as a descriptor names it.
#[derive(Clone, Copy, Debug, PartialEq, Eq, Structural)]
pub struct DmaSlice {
    pub iova: Iova,
    pub len: u32,
    pub writable: bool,
}

/// Memory one device reaches at `iova`.
pub struct Mapping<W: Window> {
    pub window: W,
    pub device: DeviceId,
    pub iova: Iova,
    pub perm: DmaPerm,
    /// Where the memory is, for whoever takes the mapping down.
    pub physical: u64,
}

/// A request to map memory that failed, and the memory.
pub struct MapError<W: Window> {
    pub error: DmaError,
    pub region: Region<W>,
}

/// A request to unmap memory that failed, and the mapping.
pub struct UnmapError<W: Window> {
    pub error: DmaError,
    pub mapping: Mapping<W>,
}

/// The run `offset..offset + len` of a mapping, if it holds one.
pub open spec fn slice_of<W: Window>(
    mapping: Mapping<W>,
    offset: u64,
    len: u32,
    writable: bool,
) -> Result<DmaSlice, DmaError> {
    if offset + len > mapping.window.span() || mapping.iova.address + offset > u64::MAX {
        Err(DmaError::Range)
    } else if writable && !mapping.perm.writes() || !writable && !mapping.perm.reads() {
        Err(DmaError::Permission)
    } else {
        Ok(
            DmaSlice {
                iova: Iova { address: (mapping.iova.address + offset) as u64 },
                len,
                writable,
            },
        )
    }
}

impl<W: Window> Mapping<W> {
    pub fn len(&self) -> (len: u64)
        ensures
            len == self.window.span(),
    {
        self.window.len()
    }

    fn slice(&self, offset: u64, len: u32, writable: bool) -> (slice: Result<DmaSlice, DmaError>)
        ensures
            slice == slice_of(*self, offset, len, writable),
    {
        let span: u64 = self.window.len();
        if offset > span || len as u64 > span - offset || self.iova.address > u64::MAX - offset {
            return Err(DmaError::Range);
        }
        let granted = if writable { self.perm.can_write() } else { self.perm.can_read() };
        if !granted {
            return Err(DmaError::Permission);
        }
        Ok(DmaSlice { iova: Iova { address: self.iova.address + offset }, len, writable })
    }

    /// A run the device only reads.
    pub fn readable(&self, offset: u64, len: u32) -> (slice: Result<DmaSlice, DmaError>)
        ensures
            slice == slice_of(*self, offset, len, false),
    {
        self.slice(offset, len, false)
    }

    /// A run the device may write.
    pub fn writable(&self, offset: u64, len: u32) -> (slice: Result<DmaSlice, DmaError>)
        ensures
            slice == slice_of(*self, offset, len, true),
    {
        self.slice(offset, len, true)
    }
}

/// Whether the addresses a device is given are translated on their way out.
///
/// As for a [`Window`], a model left out is any at all.
pub trait Translation: Sized {
    closed spec fn translates(&self) -> bool {
        arbitrary()
    }

    /// Whether devices must be told their addresses are translated.
    fn access_platform(&self) -> (translated: bool)
        ensures
            translated == self.translates(),
    ;
}

/// Whether a window that starts at `start` ends before addresses do.
pub open spec fn bounded<W: Window>(start: u64, window: W) -> bool {
    start + window.span() <= u64::MAX + 1
}

/// Whoever turns memory into addresses a device can use.
pub trait Mapper<W: Window>: Translation {
    /// Every error a request was refused with, in order.
    closed spec fn refusals(&self) -> Seq<DmaError> {
        arbitrary()
    }

    /// Every device memory was asked to be mapped for, and how, in order, of a
    /// mapper that translates.
    closed spec fn asked(&self) -> Seq<(DeviceId, DmaPerm)> {
        arbitrary()
    }

    /// Every mapping that was made, in order, of a mapper that translates.
    closed spec fn issued(&self) -> Seq<Mapping<W>> {
        arbitrary()
    }

    /// Every mapping that was taken down, in order, of a mapper that translates.
    closed spec fn removed(&self) -> Seq<Mapping<W>> {
        arbitrary()
    }

    /// Whether whatever is asked for `device` is granted.
    closed spec fn grants(&self, device: DeviceId) -> bool {
        arbitrary()
    }

    /// Gives `device` the access `perm` names to `region`.
    fn map(&mut self, device: DeviceId, region: Region<W>, perm: DmaPerm) -> (mapped: Result<
        Mapping<W>,
        MapError<W>,
    >)
        ensures
            final(self).translates() == old(self).translates(),
            old(self).translates() ==> final(self).asked() == old(self).asked().push(
                (device, perm),
            ) && final(self).removed() == old(self).removed(),
            old(self).grants(device) ==> mapped is Ok && final(self).grants(device),
            match mapped {
                Ok(mapping) => {
                    &&& mapping.window == region.window
                    &&& mapping.physical == region.physical
                    &&& mapping.device == device
                    &&& mapping.perm == perm
                    &&& bounded(region.physical, region.window) ==> bounded(
                        mapping.iova.address,
                        mapping.window,
                    )
                    &&& if old(self).translates() {
                        final(self).issued() == old(self).issued().push(mapping)
                    } else {
                        mapping.iova.address == region.physical
                    }
                    &&& final(self).refusals() == old(self).refusals()
                },
                Err(refused) => {
                    &&& refused.region == region
                    &&& old(self).translates() ==> final(self).issued() == old(self).issued()
                    &&& final(self).refusals() == old(self).refusals().push(refused.error)
                },
            },
    ;

    /// Takes the memory back from its device.
    fn unmap(&mut self, mapping: Mapping<W>) -> (unmapped: Result<Region<W>, UnmapError<W>>)
        ensures
            final(self).translates() == old(self).translates(),
            old(self).translates() ==> final(self).asked() == old(self).asked()
                && final(self).issued() == old(self).issued() && final(self).removed() == if unmapped is Ok {
                old(self).removed().push(mapping)
            } else {
                old(self).removed()
            },
            match unmapped {
                Ok(region) => {
                    &&& region == region_of(mapping)
                    &&& final(self).refusals() == old(self).refusals()
                },
                Err(refused) => {
                    &&& refused.mapping == mapping
                    &&& final(self).refusals() == old(self).refusals().push(refused.error)
                },
            },
    ;
}

/// The memory behind a mapping.
pub open spec fn region_of<W: Window>(mapping: Mapping<W>) -> Region<W> {
    Region { window: mapping.window, physical: mapping.physical }
}

/// No translation: a device reaches memory at its physical address.
#[derive(Clone, Copy, Debug)]
pub struct Identity;

impl Translation for Identity {
    open spec fn translates(&self) -> bool {
        false
    }

    fn access_platform(&self) -> bool {
        false
    }
}

impl<W: Window> Mapper<W> for Identity {
    open spec fn refusals(&self) -> Seq<DmaError> {
        seq![]
    }

    open spec fn asked(&self) -> Seq<(DeviceId, DmaPerm)> {
        seq![]
    }

    open spec fn issued(&self) -> Seq<Mapping<W>> {
        seq![]
    }

    open spec fn removed(&self) -> Seq<Mapping<W>> {
        seq![]
    }

    open spec fn grants(&self, device: DeviceId) -> bool {
        true
    }

    fn map(&mut self, device: DeviceId, region: Region<W>, perm: DmaPerm) -> (mapped: Result<
        Mapping<W>,
        MapError<W>,
    >)
        ensures
            mapped is Ok,
    {
        Ok(
            Mapping {
                window: region.window,
                device,
                iova: Iova { address: region.physical },
                perm,
                physical: region.physical,
            },
        )
    }

    fn unmap(&mut self, mapping: Mapping<W>) -> (unmapped: Result<Region<W>, UnmapError<W>>)
        ensures
            unmapped is Ok,
    {
        Ok(Region { window: mapping.window, physical: mapping.physical })
    }
}

/// Where a driver's DMA memory comes from and goes back to.
pub trait Arena<W: Window>: Sized {
    /// Every region that was handed out, in order.
    closed spec fn given(&self) -> Seq<Region<W>> {
        arbitrary()
    }

    /// Every region that came back since the last reset, in order.
    closed spec fn returned(&self) -> Seq<Region<W>> {
        arbitrary()
    }

    /// Every error a request was refused with, in order.
    closed spec fn refusals(&self) -> Seq<DmaError> {
        arbitrary()
    }

    /// Every size a region was asked of, in order.
    closed spec fn asked(&self) -> Seq<u64> {
        arbitrary()
    }

    /// Whether regions of these sizes, asked for one after another, are all to
    /// be had.
    closed spec fn holds(&self, sizes: Seq<u64>) -> bool {
        arbitrary()
    }

    /// A region of at least `bytes` bytes.
    fn region(&mut self, bytes: u64) -> (region: Result<Region<W>, DmaError>)
        ensures
            final(self).returned() == old(self).returned(),
            final(self).asked() == old(self).asked().push(bytes),
            forall|rest: Seq<u64>| #[trigger]
                old(self).holds(seq![bytes] + rest) ==> region is Ok && final(self).holds(rest),
            match region {
                Ok(region) => {
                    &&& region.window.span() >= bytes
                    &&& bounded(region.physical, region.window)
                    &&& final(self).given() == old(self).given().push(region)
                    &&& final(self).refusals() == old(self).refusals()
                },
                Err(error) => {
                    &&& final(self).given() == old(self).given()
                    &&& final(self).refusals() == old(self).refusals().push(error)
                },
            },
    ;

    /// Takes a region back.
    fn release(&mut self, region: Region<W>) -> (done: Result<(), DmaError>)
        ensures
            final(self).asked() == old(self).asked(),
            final(self).given() == old(self).given(),
            match done {
                Ok(()) => {
                    &&& final(self).returned() == old(self).returned().push(region)
                    &&& final(self).refusals() == old(self).refusals()
                },
                Err(error) => {
                    &&& final(self).returned() == old(self).returned()
                    &&& final(self).refusals() == old(self).refusals().push(error)
                },
            },
    ;

    /// Makes everything that came back ready to be handed out again.
    fn reset(&mut self)
        ensures
            final(self).returned() == Seq::<Region<W>>::empty(),
            final(self).refusals() == old(self).refusals(),
            final(self).asked() == old(self).asked(),
            final(self).given() == old(self).given(),
    ;
}

/// Whether `bytes` bytes can be had of a region: it is large enough, and it is
/// real memory.
pub open spec fn serves<W: Window>(region: Region<W>, bytes: u64) -> bool {
    region.window.span() >= bytes && bounded(region.physical, region.window)
}

/// A driver's memory, kept as the regions it is cut into. The first one large
/// enough is handed out.
pub struct Shelf<W: Window> {
    regions: Vec<Region<W>>,
    back: Vec<Region<W>>,
    refusals: Ghost<Seq<DmaError>>,
    asked: Ghost<Seq<u64>>,
    given: Ghost<Seq<Region<W>>>,
}

/// Whether regions of these sizes, each the first that is large enough, can be
/// taken one after another.
pub open spec fn fits<W: Window>(regions: Seq<Region<W>>, sizes: Seq<u64>) -> bool
    decreases sizes.len(),
{
    sizes.len() == 0 || exists|i: int|
        {
            &&& 0 <= i < regions.len()
            &&& serves(#[trigger] regions[i], sizes[0])
            &&& forall|k: int| 0 <= k < i ==> !serves(#[trigger] regions[k], sizes[0])
            &&& fits(regions.remove(i), sizes.skip(1))
        }
}

impl<W: Window> Shelf<W> {
    /// The regions there are to hand out, in order.
    pub closed spec fn view(&self) -> Seq<Region<W>> {
        self.regions@
    }

    pub closed spec fn back(&self) -> Seq<Region<W>> {
        self.back@
    }

    pub closed spec fn errors(&self) -> Seq<DmaError> {
        self.refusals@
    }

    pub closed spec fn sizes(&self) -> Seq<u64> {
        self.asked@
    }

    pub closed spec fn lent(&self) -> Seq<Region<W>> {
        self.given@
    }

    pub fn new(regions: Vec<Region<W>>) -> (shelf: Self)
        ensures
            shelf@ == regions@,
            shelf.back() == Seq::<Region<W>>::empty(),
            shelf.errors() == Seq::<DmaError>::empty(),
            shelf.sizes() == Seq::<u64>::empty(),
            shelf.lent() == Seq::<Region<W>>::empty(),
    {
        Shelf {
            regions,
            back: Vec::new(),
            refusals: Ghost(Seq::empty()),
            asked: Ghost(Seq::empty()),
            given: Ghost(Seq::empty()),
        }
    }

    /// How many regions there are to hand out.
    pub fn len(&self) -> (len: usize)
        ensures
            len == self@.len(),
    {
        self.regions.len()
    }
}

impl<W: Window> Arena<W> for Shelf<W> {
    open spec fn given(&self) -> Seq<Region<W>> {
        self.lent()
    }

    open spec fn returned(&self) -> Seq<Region<W>> {
        self.back()
    }

    open spec fn refusals(&self) -> Seq<DmaError> {
        self.errors()
    }

    open spec fn asked(&self) -> Seq<u64> {
        self.sizes()
    }

    open spec fn holds(&self, sizes: Seq<u64>) -> bool {
        fits(self@, sizes)
    }

    fn region(&mut self, bytes: u64) -> (region: Result<Region<W>, DmaError>)
        ensures
            match region {
                Ok(region) => exists|i: int|
                    {
                        &&& 0 <= i < old(self)@.len()
                        &&& region == #[trigger] old(self)@[i]
                        &&& final(self)@ == old(self)@.remove(i)
                        &&& forall|k: int|
                            0 <= k < i ==> !serves(#[trigger] old(self)@[k], bytes)
                    },
                Err(error) => {
                    &&& error == DmaError::OutOfSpace
                    &&& final(self)@ == old(self)@
                    &&& forall|k: int|
                        0 <= k < old(self)@.len() ==> !serves(#[trigger] old(self)@[k], bytes)
                },
            },
    {
        let ghost held = self.regions@;
        self.asked = Ghost(self.asked@.push(bytes));
        let mut i: usize = 0;
        while i < self.regions.len()
            invariant
                self.regions@ == held,
                held == old(self)@,
                self.back == old(self).back,
                self.refusals == old(self).refusals,
                self.given == old(self).given,
                self.asked@ == old(self).asked@.push(bytes),
                i <= self.regions@.len(),
                forall|k: int| 0 <= k < i ==> !serves(#[trigger] self.regions@[k], bytes),
            decreases self.regions.len() - i,
        {
            let len: u64 = self.regions[i].window.len();
            if len >= bytes && (len == 0 || len - 1 <= u64::MAX - self.regions[i].physical) {
                assert(serves(old(self)@[i as int], bytes));
                let region = self.regions.remove(i);
                assert forall|rest: Seq<u64>| #[trigger]
                    fits(held, seq![bytes] + rest) implies fits(self.regions@, rest) by {
                    let sizes = seq![bytes] + rest;
                    assert(sizes.skip(1) =~= rest);
                    let k = choose|k: int|
                        {
                            &&& 0 <= k < held.len()
                            &&& serves(#[trigger] held[k], sizes[0])
                            &&& forall|j: int| 0 <= j < k ==> !serves(#[trigger] held[j], sizes[0])
                            &&& fits(held.remove(k), sizes.skip(1))
                        };
                    assert(k == i);
                }
                self.given = Ghost(self.given@.push(region));
                return Ok(region);
            }
            i = i + 1;
        }
        assert forall|rest: Seq<u64>| !#[trigger] fits(held, seq![bytes] + rest) by {
            assert((seq![bytes] + rest)[0] == bytes);
        }
        self.refusals = Ghost(self.refusals@.push(DmaError::OutOfSpace));
        Err(DmaError::OutOfSpace)
    }

    fn release(&mut self, region: Region<W>) -> (done: Result<(), DmaError>)
        ensures
            done is Ok,
            final(self)@ == old(self)@,
    {
        self.back.push(region);
        Ok(())
    }

    fn reset(&mut self)
        ensures
            final(self)@ == old(self)@ + old(self).back(),
    {
        self.regions.append(&mut self.back);
    }
}

/// Whether neither mapper nor arena refused anything.
pub open spec fn unrefused<W: Window, M: Mapper<W>, A: Arena<W>>(
    mapper: M,
    mapper_after: M,
    arena: A,
    arena_after: A,
) -> bool {
    mapper_after.refusals() == mapper.refusals() && arena_after.refusals() == arena.refusals()
}

/// Memory a driver needs: how much of it, and what its device does with it.
pub struct Need {
    pub bytes: u64,
    pub perm: DmaPerm,
}

/// What an arena is asked for by some needs.
pub open spec fn sizes(needs: Seq<Need>) -> Seq<u64> {
    needs.map_values(|need: Need| need.bytes)
}

/// What a mapper is asked for by some needs of one device.
pub open spec fn accesses(device: DeviceId, needs: Seq<Need>) -> Seq<(DeviceId, DmaPerm)> {
    needs.map_values(|need: Need| (device, need.perm))
}

/// A mapper that was asked for some needs of one device, and nothing else.
pub open spec fn sought<W: Window, M: Mapper<W>>(
    mapper: M,
    after: M,
    device: DeviceId,
    needs: Seq<Need>,
) -> bool {
    &&& after.translates() == mapper.translates()
    &&& mapper.translates() ==> after.asked() == mapper.asked() + accesses(device, needs)
}

/// Whether some needs of one device were asked for, in order, and all met.
pub open spec fn met<W: Window, M: Mapper<W>, A: Arena<W>>(
    mapper: M,
    mapper_after: M,
    arena: A,
    arena_after: A,
    device: DeviceId,
    needs: Seq<Need>,
) -> bool {
    &&& unrefused(mapper, mapper_after, arena, arena_after)
    &&& sought(mapper, mapper_after, device, needs)
    &&& arena_after.asked() == arena.asked() + sizes(needs)
    &&& mapper.grants(device) ==> mapper_after.grants(device)
    &&& forall|rest: Seq<u64>| #[trigger]
        arena.holds(sizes(needs) + rest) ==> arena_after.holds(rest)
}

/// Whether some needs of one device were asked for, in order, up to the one at
/// `n`, which was refused.
pub open spec fn unmet_at<W: Window, M: Mapper<W>, A: Arena<W>>(
    mapper: M,
    mapper_after: M,
    arena: A,
    arena_after: A,
    device: DeviceId,
    needs: Seq<Need>,
    n: int,
    error: DmaError,
) -> bool {
    &&& 0 <= n < needs.len()
    &&& arena_after.asked() == arena.asked() + sizes(needs.take(n + 1))
    &&& {
        ||| {
            &&& sought(mapper, mapper_after, device, needs.take(n + 1))
            &&& mapper_after.refusals() == mapper.refusals().push(error)
            &&& arena_after.refusals() == arena.refusals()
        }
        ||| {
            &&& sought(mapper, mapper_after, device, needs.take(n))
            &&& mapper_after.refusals() == mapper.refusals()
            &&& arena_after.refusals() == arena.refusals().push(error)
        }
    }
}

/// Whether one of some needs of a device was refused: there is not the memory,
/// or the mapper does not grant whatever it is asked.
pub open spec fn unmet<W: Window, M: Mapper<W>, A: Arena<W>>(
    mapper: M,
    mapper_after: M,
    arena: A,
    arena_after: A,
    device: DeviceId,
    needs: Seq<Need>,
    error: DmaError,
) -> bool {
    &&& exists|n: int| #[trigger]
        unmet_at(mapper, mapper_after, arena, arena_after, device, needs, n, error)
    &&& !(arena.holds(sizes(needs)) && mapper.grants(device))
    &&& forall|rest: Seq<u64>| #[trigger]
        arena.holds(sizes(needs) + rest) ==> !mapper.grants(device)
}

proof fn lemma_joined(device: DeviceId, first: Seq<Need>, second: Seq<Need>)
    ensures
        sizes(first + second) == sizes(first) + sizes(second),
        accesses(device, first + second) == accesses(device, first) + accesses(device, second),
        forall|rest: Seq<u64>| #[trigger]
            (sizes(first + second) + rest) == sizes(first) + (sizes(second) + rest),
{
    assert(sizes(first + second) =~= sizes(first) + sizes(second));
    assert(accesses(device, first + second) =~= accesses(device, first) + accesses(device, second));
    assert forall|rest: Seq<u64>| #[trigger]
        (sizes(first + second) + rest) == sizes(first) + (sizes(second) + rest) by {
        assert(sizes(first + second) + rest =~= sizes(first) + (sizes(second) + rest));
    }
}

/// Needs met after needs met.
pub proof fn lemma_met_both<W: Window, M: Mapper<W>, A: Arena<W>>(
    mapper: M,
    between: M,
    mapper_after: M,
    arena: A,
    middle: A,
    arena_after: A,
    device: DeviceId,
    first: Seq<Need>,
    second: Seq<Need>,
)
    requires
        met(mapper, between, arena, middle, device, first),
        met(between, mapper_after, middle, arena_after, device, second),
    ensures
        met(mapper, mapper_after, arena, arena_after, device, first + second),
{
    lemma_joined(device, first, second);
    assert(mapper.translates() ==> mapper_after.asked() =~= mapper.asked() + accesses(
        device,
        first + second,
    ));
    assert(arena_after.asked() =~= arena.asked() + sizes(first + second));
    assert forall|rest: Seq<u64>| #[trigger]
        arena.holds(sizes(first + second) + rest) implies arena_after.holds(rest) by {
        assert(sizes(first + second) + rest == sizes(first) + (sizes(second) + rest));
        assert(middle.holds(sizes(second) + rest));
    }
}

/// A need refused after needs met.
pub proof fn lemma_unmet_after<W: Window, M: Mapper<W>, A: Arena<W>>(
    mapper: M,
    between: M,
    mapper_after: M,
    arena: A,
    middle: A,
    arena_after: A,
    device: DeviceId,
    first: Seq<Need>,
    second: Seq<Need>,
    error: DmaError,
)
    requires
        met(mapper, between, arena, middle, device, first),
        unmet(between, mapper_after, middle, arena_after, device, second, error),
    ensures
        unmet(mapper, mapper_after, arena, arena_after, device, first + second, error),
{
    let needs = first + second;
    let n = choose|n: int| #[trigger]
        unmet_at(between, mapper_after, middle, arena_after, device, second, n, error);
    let m = first.len() + n;
    assert(needs.take(m + 1) =~= first + second.take(n + 1));
    assert(needs.take(m) =~= first + second.take(n));
    lemma_joined(device, first, second.take(n + 1));
    lemma_joined(device, first, second.take(n));
    assert(arena_after.asked() =~= arena.asked() + sizes(needs.take(m + 1)));
    assert(mapper.translates() ==> between.asked() + accesses(device, second.take(n))
        =~= mapper.asked() + accesses(device, needs.take(m)));
    assert(mapper.translates() ==> between.asked() + accesses(device, second.take(n + 1))
        =~= mapper.asked() + accesses(device, needs.take(m + 1)));
    assert(unmet_at(mapper, mapper_after, arena, arena_after, device, needs, m, error));
    lemma_joined(device, first, second);
    assert forall|rest: Seq<u64>| #[trigger]
        arena.holds(sizes(needs) + rest) implies !mapper.grants(device) by {
        assert(sizes(needs) + rest == sizes(first) + (sizes(second) + rest));
        assert(middle.holds(sizes(second) + rest));
    }
    assert(sizes(needs) + Seq::<u64>::empty() =~= sizes(needs));
    assert(arena.holds(sizes(needs) + Seq::<u64>::empty()) == arena.holds(sizes(needs)));
}

/// A need refused before more were asked for.
pub proof fn lemma_unmet_before<W: Window, M: Mapper<W>, A: Arena<W>>(
    mapper: M,
    mapper_after: M,
    arena: A,
    arena_after: A,
    device: DeviceId,
    first: Seq<Need>,
    second: Seq<Need>,
    error: DmaError,
)
    requires
        unmet(mapper, mapper_after, arena, arena_after, device, first, error),
    ensures
        unmet(mapper, mapper_after, arena, arena_after, device, first + second, error),
{
    let needs = first + second;
    let n = choose|n: int| #[trigger]
        unmet_at(mapper, mapper_after, arena, arena_after, device, first, n, error);
    assert(needs.take(n + 1) =~= first.take(n + 1));
    assert(needs.take(n) =~= first.take(n));
    assert(unmet_at(mapper, mapper_after, arena, arena_after, device, needs, n, error));
    lemma_joined(device, first, second);
    assert forall|rest: Seq<u64>| #[trigger]
        arena.holds(sizes(needs) + rest) implies !mapper.grants(device) by {
        assert(sizes(needs) + rest == sizes(first) + (sizes(second) + rest));
    }
    assert(sizes(needs) + Seq::<u64>::empty() =~= sizes(needs));
    assert(arena.holds(sizes(needs) + Seq::<u64>::empty()) == arena.holds(sizes(needs)));
}

/// The memory behind some mappings.
pub open spec fn regions_of<W: Window>(mappings: Seq<Mapping<W>>) -> Seq<Region<W>> {
    mappings.map_values(|mapping: Mapping<W>| region_of(mapping))
}

/// Whether some mappings are of memory `arena` handed out, one after another,
/// at the addresses `mapper` gave it.
pub open spec fn furnished<W: Window, M: Mapper<W>, A: Arena<W>>(
    mapper: M,
    mapper_after: M,
    arena: A,
    arena_after: A,
    had: Seq<Mapping<W>>,
) -> bool {
    &&& mapper_after.translates() == mapper.translates()
    &&& arena_after.given() == arena.given() + regions_of(had)
    &&& if mapper.translates() {
        mapper_after.issued() == mapper.issued() + had
    } else {
        forall|i: int| 0 <= i < had.len() ==> (#[trigger] had[i]).iova.address == had[i].physical
    }
}

/// Mappings made after mappings made.
pub proof fn lemma_furnished_both<W: Window, M: Mapper<W>, A: Arena<W>>(
    mapper: M,
    between: M,
    mapper_after: M,
    arena: A,
    middle: A,
    arena_after: A,
    first: Seq<Mapping<W>>,
    second: Seq<Mapping<W>>,
)
    requires
        furnished(mapper, between, arena, middle, first),
        furnished(between, mapper_after, middle, arena_after, second),
    ensures
        furnished(mapper, mapper_after, arena, arena_after, first + second),
{
    assert(regions_of(first + second) =~= regions_of(first) + regions_of(second));
    assert(arena_after.given() =~= arena.given() + regions_of(first + second));
    if mapper.translates() {
        assert(mapper_after.issued() =~= mapper.issued() + (first + second));
    }
}

/// An arena that everything behind some mappings came back to.
pub open spec fn emptied<W: Window, A: Arena<W>>(
    before: A,
    mappings: Seq<Mapping<W>>,
    after: A,
) -> bool {
    &&& after.returned() == before.returned() + regions_of(mappings)
    &&& after.refusals() == before.refusals()
    &&& after.asked() == before.asked()
    &&& after.given() == before.given()
}

/// An arena that can hand out again what came back to it.
pub open spec fn readied<W: Window, A: Arena<W>>(before: A, after: A) -> bool {
    &&& after.returned() == Seq::<Region<W>>::empty()
    &&& after.refusals() == before.refusals()
    &&& after.asked() == before.asked()
    &&& after.given() == before.given()
}

/// Whether mappings were taken down and nothing was asked of their mapper
/// otherwise.
pub open spec fn unbound<W: Window, M: Mapper<W>>(
    mapper: M,
    after: M,
    mappings: Seq<Mapping<W>>,
) -> bool {
    &&& after.translates() == mapper.translates()
    &&& mapper.translates() ==> {
        &&& after.asked() == mapper.asked()
        &&& after.removed() == mapper.removed() + mappings
    }
}

/// Whether mappings were taken down, in order, and their memory came back.
pub open spec fn dismantled<W: Window, M: Mapper<W>, A: Arena<W>>(
    mapper: M,
    mapper_after: M,
    arena: A,
    arena_after: A,
    mappings: Seq<Mapping<W>>,
) -> bool {
    &&& mapper_after.refusals() == mapper.refusals()
    &&& unbound(mapper, mapper_after, mappings)
    &&& emptied(arena, mappings, arena_after)
}

/// Whether mappings were taken down, in order, up to one that was refused: its
/// own taking down, or its memory coming back.
pub open spec fn broken_off<W: Window, M: Mapper<W>, A: Arena<W>>(
    mapper: M,
    mapper_after: M,
    arena: A,
    arena_after: A,
    mappings: Seq<Mapping<W>>,
    error: DmaError,
) -> bool {
    exists|n: int|
        {
            &&& 0 <= n < mappings.len()
            &&& arena_after.returned() == arena.returned() + regions_of(#[trigger] mappings.take(n))
            &&& arena_after.asked() == arena.asked()
            &&& arena_after.given() == arena.given()
            &&& {
                ||| {
                    &&& mapper_after.refusals() == mapper.refusals().push(error)
                    &&& arena_after.refusals() == arena.refusals()
                    &&& unbound(mapper, mapper_after, mappings.take(n))
                }
                ||| {
                    &&& mapper_after.refusals() == mapper.refusals()
                    &&& arena_after.refusals() == arena.refusals().push(error)
                    &&& unbound(mapper, mapper_after, mappings.take(n + 1))
                }
            }
        }
}

/// Takes mappings down and gives their memory back, one after the other.
#[verifier::loop_isolation(false)]
pub fn teardown<W: Window, M: Mapper<W>, A: Arena<W>>(
    mappings: Vec<Mapping<W>>,
    mapper: &mut M,
    arena: &mut A,
) -> (done: Result<(), DmaError>)
    ensures
        match done {
            Ok(()) => dismantled(
                *old(mapper),
                *final(mapper),
                *old(arena),
                *final(arena),
                mappings@,
            ),
            Err(error) => broken_off(
                *old(mapper),
                *final(mapper),
                *old(arena),
                *final(arena),
                mappings@,
                error,
            ),
        },
{
    let ghost all = mappings@;
    let mut mappings = mappings;
    let ghost mut n: int = 0;
    assert(all.skip(0) =~= all);
    assert(arena.returned() + regions_of(all.take(0)) =~= arena.returned());
    assert(mapper.removed() + all.take(0) =~= mapper.removed());
    while mappings.len() > 0
        invariant
            0 <= n <= all.len(),
            mappings@ == all.skip(n),
            unbound(*old(mapper), *mapper, all.take(n)),
            mapper.refusals() == old(mapper).refusals(),
            arena.refusals() == old(arena).refusals(),
            arena.asked() == old(arena).asked(),
            arena.given() == old(arena).given(),
            arena.returned() == old(arena).returned() + regions_of(all.take(n)),
        decreases mappings@.len(),
    {
        let mapping = mappings.remove(0);
        assert(mapping == all[n]);
        assert(mappings@ =~= all.skip(n + 1));
        assert(all.take(n + 1) =~= all.take(n).push(mapping));
        assert(old(mapper).removed() + all.take(n + 1) =~= (old(mapper).removed() + all.take(
            n,
        )).push(mapping));
        let region = match mapper.unmap(mapping) {
            Ok(region) => region,
            Err(refused) => return Err(refused.error),
        };
        if let Err(error) = arena.release(region) {
            return Err(error);
        }
        proof {
            assert(regions_of(all.take(n + 1)) =~= regions_of(all.take(n)).push(region));
            assert(arena.returned() =~= old(arena).returned() + regions_of(all.take(n + 1)));
            n = n + 1;
        }
    }
    assert(all.take(n) =~= all);
    Ok(())
}

/// What each permission lets a device do.
pub proof fn law_permissions_are_what_they_say(perm: DmaPerm)
    ensures
        perm.reads() <==> perm is Read || perm is ReadWrite,
        perm.writes() <==> perm is Write || perm is ReadWrite,
{
}

/// A run of a mapping lies inside it, where the device sees it, and is one the
/// device may use as it says: `offset` into the memory is `offset` past the
/// mapping's own address.
pub proof fn law_slice_is_inside_its_mapping<W: Window>(
    mapping: Mapping<W>,
    offset: u64,
    len: u32,
    writable: bool,
)
    ensures
        slice_of(mapping, offset, len, writable) matches Ok(slice) ==> {
            &&& offset + len <= mapping.window.span()
            &&& slice.iova.address == mapping.iova.address + offset
            &&& slice.len == len
            &&& slice.writable == writable
            &&& writable ==> mapping.perm !is Read
            &&& !writable ==> mapping.perm !is Write
        },
        offset + len <= mapping.window.span() && mapping.iova.address + mapping.window.span()
            <= u64::MAX && mapping.perm is ReadWrite ==> slice_of(mapping, offset, len, writable)
            is Ok,
{
}

/// Memory taken down comes back as it was mapped, one region for each mapping
/// and in their order: the same bytes at the same physical address.
pub proof fn law_memory_comes_back_as_it_was<W: Window, M: Mapper<W>, A: Arena<W>>(
    mapper: M,
    mapper_after: M,
    arena: A,
    arena_after: A,
    mappings: Seq<Mapping<W>>,
    i: int,
)
    requires
        dismantled(mapper, mapper_after, arena, arena_after, mappings),
        0 <= i < mappings.len(),
    ensures
        arena_after.returned().len() == arena.returned().len() + mappings.len(),
        arena_after.returned()[arena.returned().len() + i].window == mappings[i].window,
        arena_after.returned()[arena.returned().len() + i].physical == mappings[i].physical,
        mapper.translates() ==> mapper_after.removed()[mapper.removed().len() + i] == mappings[i],
{
}

} // verus!
