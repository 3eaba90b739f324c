//! The steps every driver takes to bring its device up.
use vstd::prelude::*;

use crate::dma::{
    self, bounded, furnished, met, unmet, unmet_at, Arena, DeviceId, DmaError, DmaPerm, DmaSlice, Mapper,
    Mapping, Need, Region,
};
use crate::virtio::config::{self, added, grew, negotiated, reset_ran, ringed, Common};
use crate::virtio::error::VirtioError;
use crate::virtio::queue::{self, Queue};
use crate::window::{self, Access, MmioError, Window};

verus! {

/// How often a configuration field is read again while the device changes it.
pub const CONFIG_SPINS: u32 = 16;

/// The device was reset, acknowledged and told a driver is here.
pub open spec fn greeted(t: Seq<Access>, reset: Seq<Access>, first: u8, second: u8) -> bool {
    &&& reset_ran(reset, true)
    &&& t =~= reset + added(first, config::ACKNOWLEDGE) + added(second, config::DRIVER)
}

/// The device was reset and said it was done.
pub open spec fn silenced<W: Window>(before: W) -> bool {
    exists|after: W, t: Seq<Access>| #[trigger] grew(before, after, t) && reset_ran(t, true)
}

/// The device was reset and never said it was done.
pub open spec fn stuck<W: Window>(before: W) -> bool {
    exists|after: W, t: Seq<Access>| #[trigger] grew(before, after, t) && reset_ran(t, false)
}

/// The device was greeted and its features were asked for, which came to
/// `accepted`.
pub open spec fn shook<W: Window>(
    before: W,
    after: W,
    wanted: u64,
    accepted: Result<u64, VirtioError>,
) -> bool {
    exists|
        middle: W,
        t: Seq<Access>,
        reset: Seq<Access>,
        first: u8,
        second: u8,
        asked: Seq<Access>,
        low: u32,
        high: u32,
        status: u8,
        confirmed: u8,
    |
        #![trigger grew(before, middle, t), greeted(t, reset, first, second), negotiated(asked, wanted, low, high, status, confirmed, accepted)]
        {
            &&& grew(before, middle, t)
            &&& greeted(t, reset, first, second)
            &&& grew(middle, after, asked)
            &&& negotiated(asked, wanted, low, high, status, confirmed, accepted)
        }
}

/// Resets the device and announces the driver.
pub fn greet<W: Window>(common: &mut Common<W>) -> (done: Result<(), VirtioError>)
    ensures
        final(common).window.span() == old(common).window.span(),
        done is Ok ==> config::DEVICE_STATUS < old(common).window.span() && exists|
            t: Seq<Access>,
            reset: Seq<Access>,
            first: u8,
            second: u8,
        |
            grew(old(common).window, final(common).window, t) && #[trigger] greeted(
                t,
                reset,
                first,
                second,
            ),
        done matches Err(error) ==> if config::DEVICE_STATUS < old(common).window.span() {
            error == VirtioError::Device && stuck(old(common).window)
        } else {
            error == VirtioError::Mmio(MmioError::Range)
        },
{
    let ghost before = common.window;
    common.reset()?;
    let ghost reset = choose|t: Seq<Access>|
        #![trigger grew(before, common.window, t)]
        grew(before, common.window, t) && reset_ran(t, true);
    let ghost one = common.window;
    common.add_status(config::ACKNOWLEDGE)?;
    let ghost first = choose|status: u8|
        #![trigger added(status, config::ACKNOWLEDGE)]
        grew(one, common.window, added(status, config::ACKNOWLEDGE));
    let ghost two = common.window;
    common.add_status(config::DRIVER)?;
    proof {
        let second = choose|status: u8|
            #![trigger added(status, config::DRIVER)]
            grew(two, common.window, added(status, config::DRIVER));
        let t = reset + added(first, config::ACKNOWLEDGE) + added(second, config::DRIVER);
        assert(grew(before, common.window, t));
        assert(greeted(t, reset, first, second));
    }
    Ok(())
}

/// The largest power-of-two queue no larger than `limit` that a device with
/// room for `device_max` descriptors can have.
pub open spec fn clamped(device_max: u16, limit: u16) -> Result<u16, VirtioError> {
    let size = if device_max < limit { device_max } else { limit };
    if queue::valid_size(size as int) {
        Ok(size)
    } else {
        Err(VirtioError::Device)
    }
}

/// Cuts a device's queue down to `limit`, refusing a size no split ring has.
pub fn clamp<const LIMIT: u16>(device_max: u16) -> (size: Result<u16, VirtioError>)
    requires
        LIMIT <= queue::MAX_SIZE,
    ensures
        size == clamped(device_max, LIMIT),
{
    let size: u16 = if device_max < LIMIT {
        device_max
    } else {
        LIMIT
    };
    if size == 1 || size == 2 || size == 4 || size == 8 || size == 16 || size == 32 {
        Ok(size)
    } else {
        Err(VirtioError::Device)
    }
}

/// Maps `region` for `endpoint`.
pub fn mapped<W: Window, M: Mapper<W>>(
    mapper: &mut M,
    endpoint: DeviceId,
    region: Region<W>,
    perm: DmaPerm,
) -> (mapping: Result<Mapping<W>, VirtioError>)
    ensures
        final(mapper).translates() == old(mapper).translates(),
        old(mapper).translates() ==> final(mapper).asked() == old(mapper).asked().push(
            (endpoint, perm),
        ) && final(mapper).removed() == old(mapper).removed(),
        old(mapper).grants(endpoint) ==> mapping is Ok && final(mapper).grants(endpoint),
        match mapping {
            Ok(mapping) => {
                &&& mapping.window == region.window
                &&& mapping.physical == region.physical
                &&& mapping.device == endpoint
                &&& mapping.perm == perm
                &&& bounded(region.physical, region.window) ==> bounded(
                    mapping.iova.address,
                    mapping.window,
                )
                &&& if old(mapper).translates() {
                    final(mapper).issued() == old(mapper).issued().push(mapping)
                } else {
                    mapping.iova.address == region.physical
                }
                &&& final(mapper).refusals() == old(mapper).refusals()
            },
            Err(error) => {
                &&& error matches VirtioError::Dma(error)
                &&& final(mapper).refusals() == old(mapper).refusals().push(error)
            },
        },
{
    match mapper.map(endpoint, region, perm) {
        Ok(mapping) => Ok(mapping),
        Err(refused) => Err(VirtioError::Dma(refused.error)),
    }
}

/// Takes at least `bytes` bytes out of `arena` and maps them for `endpoint`.
pub fn allot<W: Window, M: Mapper<W>, A: Arena<W>>(
    arena: &mut A,
    mapper: &mut M,
    endpoint: DeviceId,
    bytes: u64,
    perm: DmaPerm,
) -> (mapping: Result<Mapping<W>, VirtioError>)
    ensures
        match mapping {
            Ok(mapping) => {
                &&& mapping.window.span() >= bytes
                &&& bounded(mapping.iova.address, mapping.window)
                &&& mapping.device == endpoint
                &&& mapping.perm == perm
                &&& met(
                    *old(mapper),
                    *final(mapper),
                    *old(arena),
                    *final(arena),
                    endpoint,
                    seq![Need { bytes, perm }],
                )
                &&& furnished(
                    *old(mapper),
                    *final(mapper),
                    *old(arena),
                    *final(arena),
                    seq![mapping],
                )
            },
            Err(error) => {
                &&& error matches VirtioError::Dma(error)
                &&& unmet(
                    *old(mapper),
                    *final(mapper),
                    *old(arena),
                    *final(arena),
                    endpoint,
                    seq![Need { bytes, perm }],
                    error,
                )
            },
        },
{
    let ghost needs = seq![Need { bytes, perm }];
    let ghost lender = *arena;
    let ghost translator = *mapper;
    proof {
        assert(dma::sizes(needs) =~= seq![bytes]);
        assert(dma::accesses(endpoint, needs) =~= seq![(endpoint, perm)]);
        assert(needs.take(1) =~= needs);
        assert(dma::accesses(endpoint, needs.take(0)) =~= Seq::<(DeviceId, DmaPerm)>::empty());
        assert(lender.holds(dma::sizes(needs)) ==> lender.holds(
            seq![bytes] + Seq::<u64>::empty(),
        )) by {
            assert(seq![bytes] + Seq::<u64>::empty() =~= seq![bytes]);
        }
    }
    match arena.region(bytes) {
        Ok(region) => {
            assert(arena.asked() =~= lender.asked() + seq![bytes]);
            let mapping = mapped(mapper, endpoint, region, perm);
            proof {
                assert(translator.asked() + seq![(endpoint, perm)] =~= translator.asked().push(
                    (endpoint, perm),
                ));
                let made = mapping->Ok_0;
                assert(mapping is Ok ==> dma::regions_of(seq![made]) =~= seq![region]);
                assert(lender.given() + seq![region] =~= lender.given().push(region));
                assert(translator.issued() + seq![made] =~= translator.issued().push(made));
                if let Err(VirtioError::Dma(error)) = mapping {
                    assert(unmet_at(
                        translator,
                        *mapper,
                        lender,
                        *arena,
                        endpoint,
                        needs,
                        0,
                        error,
                    ));
                }
            }
            mapping
        },
        Err(error) => {
            proof {
                assert(arena.asked() =~= lender.asked() + seq![bytes]);
                assert(translator.asked() + Seq::<(DeviceId, DmaPerm)>::empty()
                    =~= translator.asked());
                assert(unmet_at(translator, *mapper, lender, *arena, endpoint, needs, 0, error));
            }
            Err(VirtioError::Dma(error))
        },
    }
}

/// The memory a queue of `size` descriptors is laid over.
pub open spec fn rings(size: u16) -> Seq<Need> {
    seq![
        Need { bytes: (16 * size) as u64, perm: DmaPerm::Read },
        Need { bytes: (4 + 2 * size + 2) as u64, perm: DmaPerm::Read },
        Need { bytes: (4 + 8 * size + 2) as u64, perm: DmaPerm::ReadWrite },
    ]
}

/// More buffers for a queue.
pub proof fn lemma_built<W: Window, M: Mapper<W>, A: Arena<W>>(
    mapper: M,
    between: M,
    mapper_after: M,
    arena: A,
    middle: A,
    arena_after: A,
    queue: Queue<W>,
    buffers: Seq<Mapping<W>>,
    more: Seq<Mapping<W>>,
)
    requires
        built(mapper, between, arena, middle, queue, buffers),
        furnished(between, mapper_after, middle, arena_after, more),
    ensures
        built(mapper, mapper_after, arena, arena_after, queue, buffers + more),
{
    let raw = choose|raw: Seq<Mapping<W>>|
        {
            &&& #[trigger] over(queue, raw)
            &&& furnished(mapper, between, arena, middle, raw + buffers)
        };
    dma::lemma_furnished_both(
        mapper,
        between,
        mapper_after,
        arena,
        middle,
        arena_after,
        raw + buffers,
        more,
    );
    assert(raw + buffers + more =~= raw + (buffers + more));
}

/// Takes the memory of one more need out of `arena`, after `had` were met: the
/// request that follows, or all that was needed refused.
pub proof fn lemma_allotted<W: Window, M: Mapper<W>, A: Arena<W>>(
    mapper: M,
    between: M,
    mapper_after: M,
    arena: A,
    middle: A,
    arena_after: A,
    endpoint: DeviceId,
    had: Seq<Need>,
    needs: Seq<Need>,
    error: Option<DmaError>,
)
    requires
        met(mapper, between, arena, middle, endpoint, had),
        match error {
            None => met(between, mapper_after, middle, arena_after, endpoint, needs),
            Some(error) => unmet(
                between,
                mapper_after,
                middle,
                arena_after,
                endpoint,
                needs,
                error,
            ),
        },
    ensures
        match error {
            None => met(mapper, mapper_after, arena, arena_after, endpoint, had + needs),
            Some(error) => unmet(
                mapper,
                mapper_after,
                arena,
                arena_after,
                endpoint,
                had + needs,
                error,
            ),
        },
{
    match error {
        None => dma::lemma_met_both(
            mapper,
            between,
            mapper_after,
            arena,
            middle,
            arena_after,
            endpoint,
            had,
            needs,
        ),
        Some(error) => dma::lemma_unmet_after(
            mapper,
            between,
            mapper_after,
            arena,
            middle,
            arena_after,
            endpoint,
            had,
            needs,
            error,
        ),
    }
}

/// The refusal, if there is one.
pub open spec fn refusal<T>(made: Result<T, VirtioError>) -> Option<DmaError> {
    match made {
        Ok(_) => None,
        Err(error) => Some(error->Dma_0),
    }
}

/// Whether a window was cleared, and nothing was done to it since.
pub open spec fn cleared<W: Window>(window: W) -> bool {
    exists|raw: W| #[trigger] grew(raw, window, seq![Access::Clear])
}

/// A queue laid over cleared memory of its own, with the grants its parts need.
pub open spec fn fresh<W: Window>(queue: Queue<W>, size: u16, endpoint: DeviceId) -> bool {
    &&& queue.wf()
    &&& queue.size == size
    &&& queue.available == size
    &&& queue.stack() == Seq::new(size as nat, |i: int| (size - 1 - i) as u16)
    &&& queue.avail_idx == 0
    &&& queue.used_seen == 0
    &&& queue.descriptors.device == endpoint
    &&& queue.descriptors.perm == DmaPerm::Read
    &&& queue.driver.device == endpoint
    &&& queue.driver.perm == DmaPerm::Read
    &&& queue.device.device == endpoint
    &&& queue.device.perm == DmaPerm::ReadWrite
    &&& cleared(queue.descriptors.window)
    &&& cleared(queue.driver.window)
    &&& cleared(queue.device.window)
}

/// The same mapping, its memory cleared.
pub open spec fn wiped<W: Window>(raw: Mapping<W>, mapping: Mapping<W>) -> bool {
    &&& mapping == (Mapping { window: mapping.window, ..raw })
    &&& grew(raw.window, mapping.window, seq![Access::Clear])
}

/// A queue laid over three mappings: its descriptors, what the driver offers,
/// and what the device returns.
pub open spec fn over<W: Window>(queue: Queue<W>, raw: Seq<Mapping<W>>) -> bool {
    &&& raw.len() == 3
    &&& wiped(raw[0], queue.descriptors)
    &&& wiped(raw[1], queue.driver)
    &&& wiped(raw[2], queue.device)
}

/// A queue and the buffers that go with it: memory `arena` handed out in that
/// order, at the addresses `mapper` gave it.
pub open spec fn built<W: Window, M: Mapper<W>, A: Arena<W>>(
    mapper: M,
    mapper_after: M,
    arena: A,
    arena_after: A,
    queue: Queue<W>,
    buffers: Seq<Mapping<W>>,
) -> bool {
    exists|raw: Seq<Mapping<W>>|
        {
            &&& #[trigger] over(queue, raw)
            &&& furnished(mapper, mapper_after, arena, arena_after, raw + buffers)
        }
}

/// Lays a queue of `size` descriptors over three regions of `arena`.
pub fn lay<W: Window, M: Mapper<W>, A: Arena<W>>(
    arena: &mut A,
    mapper: &mut M,
    endpoint: DeviceId,
    size: u16,
) -> (queue: Result<Queue<W>, VirtioError>)
    requires
        queue::valid_size(size as int),
    ensures
        match queue {
            Ok(queue) => {
                &&& fresh(queue, size, endpoint)
                &&& met(
                    *old(mapper),
                    *final(mapper),
                    *old(arena),
                    *final(arena),
                    endpoint,
                    rings(size),
                )
                &&& built(
                    *old(mapper),
                    *final(mapper),
                    *old(arena),
                    *final(arena),
                    queue,
                    seq![],
                )
            },
            Err(error) => {
                &&& error matches VirtioError::Dma(error)
                &&& unmet(
                    *old(mapper),
                    *final(mapper),
                    *old(arena),
                    *final(arena),
                    endpoint,
                    rings(size),
                    error,
                )
            },
        },
{
    let ghost all = rings(size);
    let ghost (a0, m0) = (*arena, *mapper);
    let made = allot(arena, mapper, endpoint, queue::descriptor_bytes(size), DmaPerm::Read);
    let ghost (a1, m1) = (*arena, *mapper);
    proof {
        assert(all.take(1) =~= seq![all[0]]);
        assert(all =~= all.take(1) + all.skip(1));
        if made is Err {
            let error = made->Err_0->Dma_0;
            dma::lemma_unmet_before(m0, m1, a0, a1, endpoint, all.take(1), all.skip(1), error);
        }
    }
    let descriptors = made?;
    let made = allot(arena, mapper, endpoint, queue::driver_bytes(size), DmaPerm::Read);
    let ghost (a2, m2) = (*arena, *mapper);
    proof {
        let more = seq![all[1]];
        lemma_allotted(m0, m1, m2, a0, a1, a2, endpoint, all.take(1), more, refusal(made));
        assert(all.take(2) =~= all.take(1) + more);
        assert(all =~= all.take(2) + all.skip(2));
        if made is Err {
            let error = made->Err_0->Dma_0;
            dma::lemma_unmet_before(m0, m2, a0, a2, endpoint, all.take(2), all.skip(2), error);
        }
    }
    let driver = made?;
    let made = allot(arena, mapper, endpoint, queue::device_bytes(size), DmaPerm::ReadWrite);
    proof {
        let more = seq![all[2]];
        lemma_allotted(m0, m2, *mapper, a0, a2, *arena, endpoint, all.take(2), more, refusal(made));
        assert(all =~= all.take(2) + more);
    }
    let device = made?;
    let ghost raw = seq![descriptors, driver, device];
    proof {
        let (first, second) = (seq![descriptors], seq![driver]);
        dma::lemma_furnished_both(m0, m1, m2, a0, a1, a2, first, second);
        dma::lemma_furnished_both(
            m0,
            m2,
            *mapper,
            a0,
            a2,
            *arena,
            first + second,
            seq![device],
        );
        assert(first + second + seq![device] =~= raw + Seq::<Mapping<W>>::empty());
    }
    let queue = Queue::new(size, descriptors, driver, device);
    assert(queue is Ok && over(queue->Ok_0, raw));
    queue
}

/// The registers that hand a selected queue to the device.
pub open spec fn programmed(
    size: u16,
    vector: u16,
    descriptors: u64,
    driver: u64,
    device: u64,
    notify_off: u16,
) -> Seq<Access> {
    seq![
        window::write(config::QUEUE_SIZE, 2, size as int),
        window::write(config::QUEUE_VECTOR, 2, vector as int),
    ] + ringed(descriptors, driver, device) + seq![
        window::write(config::QUEUE_ENABLE, 2, 1),
        window::read(config::QUEUE_NOTIFY_OFF, 2, notify_off as int),
    ]
}

/// Hands the selected queue to the device and reports its notification offset.
pub fn program<W: Window>(common: &mut Common<W>, queue: &Queue<W>, vector: u16) -> (offset: Result<
    u16,
    VirtioError,
>)
    ensures
        final(common).window.span() == old(common).window.span(),
        match offset {
            Ok(offset) => {
                &&& old(common).window.span() >= config::BYTES
                &&& grew(
                    old(common).window,
                    final(common).window,
                    programmed(
                        queue.size,
                        vector,
                        queue.descriptors.iova.address,
                        queue.driver.iova.address,
                        queue.device.iova.address,
                        offset,
                    ),
                )
            },
            Err(error) => old(common).window.span() < config::BYTES && error == VirtioError::Mmio(
                MmioError::Range,
            ),
        },
{
    common.set_queue_size(queue.size())?;
    common.set_queue_vector(vector)?;
    common.set_queue_rings(
        queue.descriptors_iova().get(),
        queue.driver_iova().get(),
        queue.device_iova().get(),
    )?;
    common.enable_queue()?;
    common.queue_notify_off()
}

/// A queue selected, and its size read.
pub open spec fn selected(index: u16, max: u16) -> Seq<Access> {
    seq![
        window::write(config::QUEUE_SELECT, 2, index as int),
        window::read(config::QUEUE_SIZE, 2, max as int),
    ]
}

/// Everything written and read to hand queue `index` to the device.
pub open spec fn handed_over<W: Window>(
    index: u16,
    max: u16,
    vector: u16,
    queue: Queue<W>,
    notify_off: u16,
) -> Seq<Access> {
    selected(index, max) + programmed(
        queue.size,
        vector,
        queue.descriptors.iova.address,
        queue.driver.iova.address,
        queue.device.iova.address,
        notify_off,
    )
}

/// The configuration generation read before and after each round.
pub open spec fn generation_reads(rounds: Seq<(u8, u8)>) -> Seq<Access>
    decreases rounds.len(),
{
    if rounds.len() == 0 {
        seq![]
    } else {
        generation_reads(rounds.drop_last()) + seq![
            window::read(config::CONFIG_GENERATION, 1, rounds.last().0 as int),
            window::read(config::CONFIG_GENERATION, 1, rounds.last().1 as int),
        ]
    }
}

/// Rounds of reading something the device may be changing: its generation
/// changed during every round but, if `settled`, the last.
pub open spec fn unsettled(rounds: Seq<(u8, u8)>, settled: bool) -> bool {
    &&& if settled {
        1 <= rounds.len() <= CONFIG_SPINS
    } else {
        rounds.len() == CONFIG_SPINS
    }
    &&& forall|r: int|
        0 <= r < rounds.len() ==> {
            let round = #[trigger] rounds[r];
            (round.0 == round.1) == (settled && r == rounds.len() - 1)
        }
}

pub proof fn lemma_generation_reads(rounds: Seq<(u8, u8)>, first: u8, second: u8)
    ensures
        generation_reads(rounds.push((first, second))) == generation_reads(rounds) + seq![
            window::read(config::CONFIG_GENERATION, 1, first as int),
            window::read(config::CONFIG_GENERATION, 1, second as int),
        ],
{
    assert(rounds.push((first, second)).drop_last() =~= rounds);
}

/// The buffer of `slot`, `bytes` bytes long, as the device may write it.
pub open spec fn buffer_of<W: Window>(buffers: Mapping<W>, slot: int, bytes: int) -> Result<
    DmaSlice,
    DmaError,
> {
    dma::slice_of(buffers, (slot * bytes) as u64, bytes as u32, true)
}

/// The step at which the buffer of slot `i` was offered.
pub open spec fn offered<W: Window>(
    path: Seq<Queue<W>>,
    i: int,
    buffers: Mapping<W>,
    bytes: int,
) -> bool {
    &&& buffer_of(buffers, i, bytes) is Ok
    &&& path[i].pushed(seq![buffer_of(buffers, i, bytes)->Ok_0], path[i + 1])
}

/// A queue that the first buffers were offered through, one after another.
pub open spec fn stocked<W: Window>(
    path: Seq<Queue<W>>,
    before: Queue<W>,
    after: Queue<W>,
    buffers: Mapping<W>,
    bytes: int,
) -> bool {
    &&& path.len() >= 1
    &&& path[0] == before
    &&& path.last() == after
    &&& forall|i: int| 0 <= i < path.len() - 1 ==> #[trigger] offered(path, i, buffers, bytes)
}

/// One more buffer offered.
pub proof fn lemma_stocked<W: Window>(
    path: Seq<Queue<W>>,
    before: Queue<W>,
    held: Queue<W>,
    after: Queue<W>,
    buffers: Mapping<W>,
    bytes: int,
)
    requires
        stocked(path, before, held, buffers, bytes),
        buffer_of(buffers, path.len() - 1, bytes) is Ok,
        held.pushed(seq![buffer_of(buffers, path.len() - 1, bytes)->Ok_0], after),
    ensures
        stocked(path.push(after), before, after, buffers, bytes),
{
    let longer = path.push(after);
    assert forall|i: int| 0 <= i < longer.len() - 1 implies #[trigger] offered(
        longer,
        i,
        buffers,
        bytes,
    ) by {
        if i < path.len() - 1 {
            assert(offered(path, i, buffers, bytes));
            assert(longer[i] == path[i] && longer[i + 1] == path[i + 1]);
        } else {
            assert(longer[i] == held && longer[i + 1] == after);
        }
    }
}

} // verus!
