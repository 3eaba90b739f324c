//! A VirtIO block device: brought up, driven through one translated queue, and
//! torn down with every frame accounted for.
use vstd::prelude::*;

use crate::dma::{
    self, broken_off, dismantled, met, readied, unmet, Arena, DeviceId, DmaPerm, Identity, Mapper, Mapping,
    Need,
};
use crate::virtio::config::{self, added, grew, joined, negotiated, Common};
use crate::virtio::engine::{Engine, Flight, Reaped, CONTROL_BYTES, DATA_BYTES, REQUESTS};
use crate::virtio::error::VirtioError;
use crate::virtio::notify::Notify;
use crate::virtio::queue::{self, Queue};
use crate::virtio::request::{Requests, Slot, State};
use crate::virtio::sector::{BlockDone, BlockOp, RequestId};
use crate::virtio::setup::{self, generation_reads, greeted, unsettled, CONFIG_SPINS};
use crate::window::{self, Access, MmioError, Window};

verus! {

/// The device takes no writes.
pub const VIRTIO_BLK_F_RO: u64 = 0x20;

/// The device takes flush requests.
pub const VIRTIO_BLK_F_FLUSH: u64 = 0x200;

/// The addresses the device is given are translated.
pub const VIRTIO_F_ACCESS_PLATFORM: u64 = 0x2_0000_0000;

/// The features asked for, with and without translation.
pub const WANTED: u64 = 0x220;

pub const WANTED_TRANSLATED: u64 = 0x2_0000_0220;

/// What the driver asks for, given whether addresses are translated.
pub open spec fn wanted(platform: bool) -> u64 {
    if platform {
        WANTED_TRANSLATED
    } else {
        WANTED
    }
}

pub const CAPACITY_AT: u64 = 0;

/// A block device driven through one translated queue.
pub struct Block<W: Window, A: Arena<W>, M: Mapper<W>> {
    pub common: Common<W>,
    pub engine: Engine<W>,
    pub mapper: M,
    pub arena: A,
    /// The number the next request of the driver's own goes by.
    pub direct: u64,
}

/// One operation on its way to its answer.
#[derive(Debug)]
pub enum Run {
    /// Not taken by the device's queue yet.
    Held(BlockOp),
    /// Taken, not answered.
    Sent,
    /// Answered.
    Over(BlockDone),
}

/// The two halves of the capacity read in each round.
pub open spec fn capacity_reads(halves: Seq<(u32, u32)>) -> Seq<Access>
    decreases halves.len(),
{
    if halves.len() == 0 {
        seq![]
    } else {
        capacity_reads(halves.drop_last()) + seq![
            window::read(CAPACITY_AT, 4, halves.last().0 as int),
            window::read((CAPACITY_AT + 4) as u64, 4, halves.last().1 as int),
        ]
    }
}

/// The capacity came from the one round during which nothing changed.
pub open spec fn sized(rounds: Seq<(u8, u8)>, halves: Seq<(u32, u32)>, capacity: u64) -> bool {
    &&& unsettled(rounds, true)
    &&& halves.len() == rounds.len()
    &&& capacity == joined(halves.last().0, halves.last().1)
}

/// Both windows once the capacity was read out of them.
pub open spec fn measured<W: Window>(
    common: W,
    common_after: W,
    device: W,
    device_after: W,
    capacity: u64,
) -> bool {
    exists|rounds: Seq<(u8, u8)>, halves: Seq<(u32, u32)>|
        {
            &&& grew(common, common_after, generation_reads(rounds))
            &&& grew(device, device_after, capacity_reads(halves))
            &&& #[trigger] sized(rounds, halves, capacity)
        }
}

/// Reads the capacity, again while the device is changing it.
pub fn capacity<W: Window>(common: &mut Common<W>, device: &mut W) -> (capacity: Result<
    u64,
    VirtioError,
>)
    ensures
        final(common).window.span() == old(common).window.span(),
        final(device).span() == old(device).span(),
        match capacity {
            Ok(capacity) => {
                &&& old(common).window.span() > config::CONFIG_GENERATION
                &&& old(device).span() >= 8
                &&& measured(
                    old(common).window,
                    final(common).window,
                    *old(device),
                    *final(device),
                    capacity,
                )
            },
            Err(error) => if old(common).window.span() > config::CONFIG_GENERATION && old(
                device,
            ).span() >= 8 {
                &&& error == VirtioError::Device
                &&& exists|rounds: Seq<(u8, u8)>|
                    {
                        &&& grew(
                            old(common).window,
                            final(common).window,
                            generation_reads(rounds),
                        )
                        &&& #[trigger] unsettled(rounds, false)
                    }
            } else {
                error == VirtioError::Mmio(MmioError::Range)
            },
        },
{
    let ghost before = common.window;
    let ghost shown = *device;
    let ghost mut rounds: Seq<(u8, u8)> = seq![];
    let ghost mut halves: Seq<(u32, u32)> = seq![];
    let mut spin: u32 = 0;
    while spin < CONFIG_SPINS
        invariant
            spin <= CONFIG_SPINS,
            before == old(common).window,
            shown == *old(device),
            spin > 0 ==> before.span() > config::CONFIG_GENERATION && shown.span() >= 8,
            grew(before, common.window, generation_reads(rounds)),
            grew(shown, *device, capacity_reads(halves)),
            rounds.len() == spin,
            halves.len() == spin,
            forall|r: int| 0 <= r < spin ==> (#[trigger] rounds[r]).0 != rounds[r].1,
        decreases CONFIG_SPINS - spin,
    {
        let first: u8 = common.config_generation()?;
        let low: u32 = match device.read_u32(CAPACITY_AT) {
            Ok(low) => low,
            Err(error) => return Err(VirtioError::from(error)),
        };
        let high: u32 = match device.read_u32(CAPACITY_AT + 4) {
            Ok(high) => high,
            Err(error) => return Err(VirtioError::from(error)),
        };
        let second: u8 = common.config_generation()?;
        proof {
            setup::lemma_generation_reads(rounds, first, second);
            assert(halves.push((low, high)).drop_last() =~= halves);
            rounds = rounds.push((first, second));
            halves = halves.push((low, high));
            assert(grew(before, common.window, generation_reads(rounds)));
            assert(grew(shown, *device, capacity_reads(halves)));
        }
        if first == second {
            let value: u64 = high as u64 * 0x1_0000_0000 + low as u64;
            assert(sized(rounds, halves, value));
            return Ok(value);
        }
        spin = spin + 1;
    }
    assert(unsettled(rounds, false));
    Err(VirtioError::Device)
}

/// The queue size this driver runs a device's queue at.
pub fn clamp_queue(device_max: u16) -> (size: Result<u16, VirtioError>)
    ensures
        size == setup::clamped(device_max, queue::MAX_SIZE),
{
    setup::clamp::<32>(device_max)
}

/// Whether the features a device agreed to are ones it can be driven with: it
/// takes writes and flushes, and translated addresses where they are translated.
pub fn require_features(features: u64, platform: bool) -> (met: Result<(), VirtioError>)
    ensures
        met == serves(features, platform),
{
    if features & VIRTIO_BLK_F_RO != 0 {
        return Err(VirtioError::ReadOnly);
    }
    if features & VIRTIO_BLK_F_FLUSH == 0 || platform && features & VIRTIO_F_ACCESS_PLATFORM == 0 {
        return Err(VirtioError::Features);
    }
    Ok(())
}

/// Whether a device with these features can be driven.
pub open spec fn serves(features: u64, platform: bool) -> Result<(), VirtioError> {
    if features & VIRTIO_BLK_F_RO != 0 {
        Err(VirtioError::ReadOnly)
    } else if features & VIRTIO_BLK_F_FLUSH == 0 || (platform && features
        & VIRTIO_F_ACCESS_PLATFORM == 0) {
        Err(VirtioError::Features)
    } else {
        Ok(())
    }
}

/// How many requests of three descriptors a queue has room for.
pub open spec fn room(size: u16) -> int {
    if size / 3 < REQUESTS {
        (size / 3) as int
    } else {
        REQUESTS as int
    }
}

/// How many requests a queue of `size` descriptors carries at once. A queue
/// that cannot carry two is refused.
pub fn depth_of(size: u16) -> (depth: Result<usize, VirtioError>)
    ensures
        match depth {
            Ok(depth) => depth == room(size) && room(size) >= 2,
            Err(error) => room(size) < 2 && error == VirtioError::Device,
        },
{
    let third: usize = size as usize / 3;
    let depth: usize = if third < REQUESTS {
        third
    } else {
        REQUESTS
    };
    if depth < 2 {
        return Err(VirtioError::Device);
    }
    Ok(depth)
}

/// Everything read and written to bring a device up, in order.
pub struct Bringup {
    pub hello: Seq<Access>,
    pub reset: Seq<Access>,
    pub first: u8,
    pub second: u8,
    pub features: Seq<Access>,
    pub low: u32,
    pub high: u32,
    pub status: u8,
    pub confirmed: u8,
    pub accepted: u64,
    pub rounds: Seq<(u8, u8)>,
    pub halves: Seq<(u32, u32)>,
    pub max: u16,
    pub last: u8,
}

impl Bringup {
    /// The accesses to the common configuration.
    pub open spec fn trace<W: Window>(self, vector: u16, engine: Engine<W>) -> Seq<Access> {
        self.hello + self.features + generation_reads(self.rounds) + seq![
            window::write(config::QUEUE_SELECT, 2, 0),
            window::read(config::QUEUE_SIZE, 2, self.max as int),
        ] + setup::programmed(
            engine.queue.size,
            vector,
            engine.queue.descriptors.iova.address,
            engine.queue.driver.iova.address,
            engine.queue.device.iova.address,
            engine.notify_off,
        ) + added(self.last, config::DRIVER_OK)
    }

    /// The handshake asked for what the driver wants and got what it needs.
    pub open spec fn agreed(self, platform: bool) -> bool {
        &&& greeted(self.hello, self.reset, self.first, self.second)
        &&& negotiated(
            self.features,
            wanted(platform),
            self.low,
            self.high,
            self.status,
            self.confirmed,
            Ok(self.accepted),
        )
        &&& self.accepted & VIRTIO_BLK_F_RO == 0
        &&& self.accepted & VIRTIO_BLK_F_FLUSH != 0
        &&& platform ==> self.accepted & VIRTIO_F_ACCESS_PLATFORM != 0
    }
}

/// Whether a queue of at most `max` descriptors is too small to be driven.
pub open spec fn cramped(max: u16) -> bool {
    match setup::clamped(max, queue::MAX_SIZE) {
        Ok(size) => room(size) < 2,
        Err(_) => true,
    }
}

/// A device that could be driven once its features were settled, and whose
/// generation was read in `rounds`.
pub open spec fn asked_of<W: Window>(
    common: W,
    after: W,
    platform: bool,
    rounds: Seq<(u8, u8)>,
) -> bool {
    exists|one: W, accepted: u64|
        {
            &&& #[trigger] setup::shook(common, one, wanted(platform), Ok(accepted))
            &&& serves(accepted, platform) is Ok
            &&& grew(one, after, generation_reads(rounds))
        }
}

/// A device that could be driven and whose capacity is known, and which said its
/// queue has at most `max` descriptors.
pub open spec fn sized_up<W: Window>(common: W, after: W, platform: bool, max: u16) -> bool {
    exists|two: W, rounds: Seq<(u8, u8)>|
        {
            &&& #[trigger] asked_of(common, two, platform, rounds)
            &&& unsettled(rounds, true)
            &&& grew(two, after, setup::selected(0, max))
        }
}

/// The memory a device is driven with over a queue of `size` descriptors.
pub open spec fn needs(size: u16) -> Seq<Need> {
    setup::rings(size) + seq![
        Need { bytes: CONTROL_BYTES, perm: DmaPerm::ReadWrite },
        Need { bytes: DATA_BYTES, perm: DmaPerm::ReadWrite },
    ]
}

/// Why a device was not brought up: a window too short for its registers, an
/// answer of the device's that will not do, or memory that was refused.
pub open spec fn turned_down<W: Window, M: Mapper<W>, A: Arena<W>>(
    common: W,
    device: W,
    endpoint: DeviceId,
    mapper: M,
    arena: A,
    error: VirtioError,
) -> bool {
    let platform = mapper.translates();
    ||| {
        &&& error == VirtioError::Mmio(MmioError::Range)
        &&& common.span() < config::BYTES || device.span() < 8
    }
    ||| error == VirtioError::Device && setup::stuck(common)
    ||| exists|after: W| #[trigger] setup::shook(common, after, wanted(platform), Err(error))
    ||| exists|after: W, accepted: u64|
        {
            &&& #[trigger] setup::shook(common, after, wanted(platform), Ok(accepted))
            &&& serves(accepted, platform) == Err::<(), VirtioError>(error)
        }
    ||| exists|after: W, rounds: Seq<(u8, u8)>|
        {
            &&& #[trigger] asked_of(common, after, platform, rounds)
            &&& unsettled(rounds, false)
            &&& error == VirtioError::Device
        }
    ||| exists|after: W, max: u16|
        {
            &&& #[trigger] sized_up(common, after, platform, max)
            &&& cramped(max)
            &&& error == VirtioError::Device
        }
    ||| exists|after: W, max: u16, mapper_after: M, arena_after: A, size: u16|
        {
            &&& #[trigger] sized_up(common, after, platform, max)
            &&& setup::clamped(max, queue::MAX_SIZE) == Ok::<u16, VirtioError>(size)
            &&& error is Dma
            &&& #[trigger] unmet(
                mapper,
                mapper_after,
                arena,
                arena_after,
                endpoint,
                needs(size),
                error->Dma_0,
            )
        }
}

/// Takes everything a queue of `size` descriptors and its requests need out of
/// `arena`, mapped for `endpoint`.
fn supply<W: Window, M: Mapper<W>, A: Arena<W>>(
    arena: &mut A,
    mapper: &mut M,
    endpoint: DeviceId,
    size: u16,
) -> (supplied: Result<(Queue<W>, Mapping<W>, Mapping<W>), VirtioError>)
    requires
        queue::valid_size(size as int),
    ensures
        match supplied {
            Ok((queue, control, data)) => {
                &&& setup::fresh(queue, size, endpoint)
                &&& control.window.span() >= CONTROL_BYTES
                &&& control.device == endpoint
                &&& control.perm == DmaPerm::ReadWrite
                &&& data.window.span() >= DATA_BYTES
                &&& data.device == endpoint
                &&& data.perm == DmaPerm::ReadWrite
                &&& met(
                    *old(mapper),
                    *final(mapper),
                    *old(arena),
                    *final(arena),
                    endpoint,
                    needs(size),
                )
                &&& setup::built(
                    *old(mapper),
                    *final(mapper),
                    *old(arena),
                    *final(arena),
                    queue,
                    seq![control, data],
                )
            },
            Err(error) => {
                &&& error is Dma
                &&& unmet(
                    *old(mapper),
                    *final(mapper),
                    *old(arena),
                    *final(arena),
                    endpoint,
                    needs(size),
                    error->Dma_0,
                )
            },
        },
{
    let ghost all = needs(size);
    let ghost (a0, m0) = (*arena, *mapper);
    let made = setup::lay(arena, mapper, endpoint, size);
    let ghost (a1, m1) = (*arena, *mapper);
    proof {
        assert(all.take(3) =~= setup::rings(size));
        assert(all =~= all.take(3) + all.skip(3));
        if made is Err {
            let error = made->Err_0->Dma_0;
            dma::lemma_unmet_before(m0, m1, a0, a1, endpoint, all.take(3), all.skip(3), error);
        }
    }
    let queue = made?;
    let made = setup::allot(arena, mapper, endpoint, CONTROL_BYTES, DmaPerm::ReadWrite);
    let ghost (a2, m2) = (*arena, *mapper);
    proof {
        let more = seq![all[3]];
        let refusal = setup::refusal(made);
        setup::lemma_allotted(m0, m1, m2, a0, a1, a2, endpoint, all.take(3), more, refusal);
        assert(all.take(4) =~= all.take(3) + more);
        assert(all =~= all.take(4) + all.skip(4));
        if made is Err {
            let error = made->Err_0->Dma_0;
            dma::lemma_unmet_before(m0, m2, a0, a2, endpoint, all.take(4), all.skip(4), error);
        }
    }
    let control = made?;
    let made = setup::allot(arena, mapper, endpoint, DATA_BYTES, DmaPerm::ReadWrite);
    proof {
        let more = seq![all[4]];
        let refusal = setup::refusal(made);
        setup::lemma_allotted(
            m0,
            m2,
            *mapper,
            a0,
            a2,
            *arena,
            endpoint,
            all.take(4),
            more,
            refusal,
        );
        assert(all =~= all.take(4) + more);
    }
    let data = made?;
    proof {
        let none = Seq::<Mapping<W>>::empty();
        let one = seq![control];
        setup::lemma_built(m0, m1, m2, a0, a1, a2, queue, none, one);
        assert(none + one =~= one);
        setup::lemma_built(m0, m2, *mapper, a0, a2, *arena, queue, one, seq![data]);
        assert(one + seq![data] =~= seq![control, data]);
    }
    Ok((queue, control, data))
}

/// Where there is the memory a queue of any size needs, and the mapper grants
/// it, no device is turned down for want of memory.
pub proof fn law_memory_at_hand_is_had<W: Window, M: Mapper<W>, A: Arena<W>>(
    common: W,
    device: W,
    endpoint: DeviceId,
    mapper: M,
    arena: A,
    error: VirtioError,
)
    requires
        turned_down(common, device, endpoint, mapper, arena, error),
        mapper.grants(endpoint),
        forall|size: u16|
            queue::valid_size(size as int) ==> arena.holds(#[trigger] dma::sizes(needs(size))),
    ensures
        !(error is Dma),
{
}

/// An engine nothing was asked of yet.
pub open spec fn untouched<W: Window>(engine: Engine<W>) -> bool {
    &&& engine.wf()
    &&& forall|i: int| 0 <= i < REQUESTS ==> #[trigger] engine.flights@[i] is None
    &&& forall|i: int| 0 <= i < REQUESTS ==> #[trigger] engine.ready@[i] is None
    &&& engine.requests@ == Seq::new(
        32,
        |i: int| Slot { state: State::Free, generation: 0 },
    )
    &&& engine.depth == room(engine.queue.size)
    &&& engine.depth >= 2
}

impl<W: Window, A: Arena<W>> Block<W, A, Identity> {
    /// Starts a block device that addresses physical memory directly.
    pub fn start(
        common: W,
        notify: W,
        device: W,
        notify_multiplier: u32,
        vector: u16,
        endpoint: DeviceId,
        arena: A,
    ) -> (block: Result<Self, VirtioError>)
        ensures
            match block {
                Ok(block) => {
                    &&& block.started(
                        common,
                        notify,
                        notify_multiplier,
                        vector,
                        endpoint,
                        false,
                        device,
                    )
                    &&& common.span() >= config::BYTES && device.span() >= 8
                    &&& met(
                        Identity,
                        block.mapper,
                        arena,
                        block.arena,
                        endpoint,
                        needs(block.engine.queue.size),
                    )
                    &&& setup::built(
                        Identity,
                        block.mapper,
                        arena,
                        block.arena,
                        block.engine.queue,
                        seq![block.engine.control, block.engine.data],
                    )
                },
                Err(error) => turned_down(common, device, endpoint, Identity, arena, error),
            },
            common.span() <= config::DEVICE_STATUS ==> block == Err::<Self, VirtioError>(
                VirtioError::Mmio(MmioError::Range),
            ),
    {
        Block::start_mapped(
            common,
            notify,
            device,
            notify_multiplier,
            vector,
            endpoint,
            arena,
            Identity,
        )
    }
}

impl<W: Window, A: Arena<W>, M: Mapper<W>> Block<W, A, M> {
    /// A device that was brought up, with its queue handed over and nothing
    /// asked of it yet.
    pub open spec fn started(
        &self,
        common: W,
        notify: W,
        notify_multiplier: u32,
        vector: u16,
        endpoint: DeviceId,
        platform: bool,
        device: W,
    ) -> bool {
        &&& untouched(self.engine)
        &&& self.direct == 0
        &&& setup::fresh(self.engine.queue, self.engine.queue.size, endpoint)
        &&& self.engine.notify == (Notify { window: notify, multiplier: notify_multiplier })
        &&& self.engine.control.device == endpoint
        &&& self.engine.control.perm == DmaPerm::ReadWrite
        &&& self.engine.data.device == endpoint
        &&& self.engine.data.perm == DmaPerm::ReadWrite
        &&& exists|bringup: Bringup, device_after: W|
            {
                &&& #[trigger] bringup.agreed(platform)
                &&& #[trigger] grew(device, device_after, capacity_reads(bringup.halves))
                &&& sized(bringup.rounds, bringup.halves, self.engine.capacity)
                &&& setup::clamped(bringup.max, queue::MAX_SIZE) == Ok::<u16, VirtioError>(
                    self.engine.queue.size,
                )
                &&& grew(common, self.common.window, bringup.trace(vector, self.engine))
            }
    }

    /// Starts a block device in `endpoint`'s DMA address space.
    ///
    /// The device is refused if it is read-only, will not flush, or will not
    /// have its addresses translated where they are.
    pub fn start_mapped(
        common: W,
        notify: W,
        device: W,
        notify_multiplier: u32,
        vector: u16,
        endpoint: DeviceId,
        arena: A,
        mapper: M,
    ) -> (block: Result<Self, VirtioError>)
        ensures
            match block {
                Ok(block) => {
                    &&& block.started(
                        common,
                        notify,
                        notify_multiplier,
                        vector,
                        endpoint,
                        mapper.translates(),
                        device,
                    )
                    &&& common.span() >= config::BYTES && device.span() >= 8
                    &&& met(
                        mapper,
                        block.mapper,
                        arena,
                        block.arena,
                        endpoint,
                        needs(block.engine.queue.size),
                    )
                    &&& setup::built(
                        mapper,
                        block.mapper,
                        arena,
                        block.arena,
                        block.engine.queue,
                        seq![block.engine.control, block.engine.data],
                    )
                },
                Err(error) => turned_down(common, device, endpoint, mapper, arena, error),
            },
            common.span() <= config::DEVICE_STATUS ==> block == Err::<Self, VirtioError>(
                VirtioError::Mmio(MmioError::Range),
            ),
    {
        let ghost window = common;
        let ghost lender = arena;
        let ghost translator = mapper;
        let ghost platform_asked = mapper.translates();
        let mut arena = arena;
        let mut mapper = mapper;
        let mut device = device;
        let ghost shown = device;
        let mut common = Common::new(common);
        setup::greet(&mut common)?;
        let ghost (hello, reset, first, second) = choose|
            t: Seq<Access>,
            reset: Seq<Access>,
            first: u8,
            second: u8,
        |
            grew(window, common.window, t) && #[trigger] greeted(t, reset, first, second);
        let platform = mapper.access_platform();
        let hoped: u64 = if platform {
            WANTED_TRANSLATED
        } else {
            WANTED
        };
        let ghost one = common.window;
        let asked = common.negotiate(hoped);
        assert(hoped == wanted(platform_asked));
        assert(setup::shook(window, common.window, wanted(platform_asked), asked));
        let features: u64 = asked?;
        let ghost (t, low, high, status, confirmed) = choose|
            t: Seq<Access>,
            low: u32,
            high: u32,
            status: u8,
            confirmed: u8,
        |
            #![trigger negotiated(t, hoped, low, high, status, confirmed, Ok(features))]
            grew(one, common.window, t) && negotiated(
                t,
                hoped,
                low,
                high,
                status,
                confirmed,
                Ok(features),
            );
        require_features(features, platform)?;
        let ghost two = common.window;
        let measured = capacity(&mut common, &mut device);
        proof {
            if measured is Err && window.span() > config::CONFIG_GENERATION && shown.span() >= 8 {
                let rounds = choose|rounds: Seq<(u8, u8)>|
                    {
                        &&& grew(two, common.window, generation_reads(rounds))
                        &&& #[trigger] unsettled(rounds, false)
                    };
                assert(asked_of(window, common.window, platform_asked, rounds));
            }
        }
        let sectors: u64 = measured?;
        let ghost (rounds, halves) = choose|rounds: Seq<(u8, u8)>, halves: Seq<(u32, u32)>|
            {
                &&& grew(two, common.window, generation_reads(rounds))
                &&& grew(shown, device, capacity_reads(halves))
                &&& #[trigger] sized(rounds, halves, sectors)
            };
        let ghost known = common.window;
        assert(asked_of(window, known, platform_asked, rounds));
        common.select_queue(0)?;
        let max: u16 = common.queue_size()?;
        assert(grew(known, common.window, setup::selected(0, max)));
        assert(sized_up(window, common.window, platform_asked, max));
        let size: u16 = clamp_queue(max)?;
        let depth: usize = depth_of(size)?;
        let supplied = supply(&mut arena, &mut mapper, endpoint, size);
        assert(supplied matches Err(error) ==> unmet(
            translator,
            mapper,
            lender,
            arena,
            endpoint,
            needs(size),
            error->Dma_0,
        ));
        let (queue, control, data) = supplied?;
        let notify_off: u16 = setup::program(&mut common, &queue, vector)?;
        let ghost three = common.window;
        common.add_status(config::DRIVER_OK)?;
        let ghost last = choose|status: u8|
            #![trigger added(status, config::DRIVER_OK)]
            grew(three, common.window, added(status, config::DRIVER_OK));

        let mut flights: Vec<Option<Flight>> = Vec::new();
        let mut ready: Vec<Option<(RequestId, BlockDone)>> = Vec::new();
        let mut slot: usize = 0;
        while slot < REQUESTS
            invariant
                slot <= REQUESTS,
                flights@.len() == slot,
                ready@.len() == slot,
                forall|i: int| 0 <= i < slot ==> #[trigger] flights@[i] is None,
                forall|i: int| 0 <= i < slot ==> #[trigger] ready@[i] is None,
            decreases REQUESTS - slot,
        {
            flights.push(None);
            ready.push(None);
            slot = slot + 1;
        }
        let engine = Engine {
            notify: Notify::new(notify, notify_multiplier),
            queue,
            requests: Requests::new(),
            control,
            data,
            flights,
            ready,
            notify_off,
            capacity: sectors,
            depth,
        };
        proof {
            let bringup = Bringup {
                hello,
                reset,
                first,
                second,
                features: t,
                low,
                high,
                status,
                confirmed,
                accepted: features,
                rounds,
                halves,
                max,
                last,
            };
            assert(bringup.agreed(platform_asked));
            assert(grew(shown, device, capacity_reads(bringup.halves)));
            assert(grew(window, common.window, bringup.trace(vector, engine)));
        }
        Ok(Block { common, engine, mapper, arena, direct: 0 })
    }

    pub fn capacity(&self) -> (sectors: u64)
        ensures
            sectors == self.engine.capacity,
    {
        self.engine.capacity
    }

    pub fn sectors(&self) -> (sectors: u64)
        ensures
            sectors == self.engine.capacity,
    {
        self.engine.capacity
    }

    pub fn depth(&self) -> (depth: usize)
        ensures
            depth == self.engine.depth,
    {
        self.engine.depth
    }

    /// The translation backend that owns this device's DMA address space.
    pub fn mapper(&self) -> (mapper: &M)
        ensures
            *mapper == self.mapper,
    {
        &self.mapper
    }

    /// A number for a request of the driver's own.
    pub fn next_id(&mut self) -> (id: RequestId)
        ensures
            id.id == old(self).direct,
            *final(self) == (Block {
                direct: if old(self).direct == u64::MAX {
                    0
                } else {
                    (old(self).direct + 1) as u64
                },
                ..*old(self)
            }),
    {
        let id = RequestId::new(self.direct);
        self.direct = if self.direct == u64::MAX {
            0
        } else {
            self.direct + 1
        };
        id
    }

    /// Takes an operation one step on its way: offers it to the queue until it
    /// is taken, then drains answers until one comes. An operation that was not
    /// taken while somebody else's answer came ends with that answer.
    pub fn execute(&mut self, id: RequestId, run: Run) -> (next: Run)
        requires
            old(self).engine.wf(),
        ensures
            final(self).engine.wf(),
            *final(self) == (Block { engine: final(self).engine, ..*old(self) }),
            old(self).engine.advanced(id, run, final(self).engine, next),
    {
        let ghost before = self.engine;
        match run {
            Run::Over(done) => Run::Over(done),
            Run::Held(op) => match self.engine.start(id, op) {
                Ok(()) => Run::Sent,
                Err(op) => {
                    let ghost offered = self.engine;
                    assert(before.asked(id, op, offered, Err(op)));
                    match self.engine.reap() {
                        Reaped::Done(_, done) => Run::Over(done),
                        _ => Run::Held(op),
                    }
                },
            },
            Run::Sent => match self.engine.reap() {
                Reaped::Done(_, done) => Run::Over(done),
                _ => Run::Sent,
            },
        }
    }

    /// Stops the device, removes every mapping, and reclaims its arena.
    pub fn reset(self) -> (given: Result<M, VirtioError>)
        ensures
            match given {
                Ok(mapper) => {
                    &&& self.common.window.span() > config::DEVICE_STATUS
                    &&& setup::silenced(self.common.window)
                    &&& exists|emptied: A, arena: A|
                        {
                            &&& dismantled(
                                self.mapper,
                                mapper,
                                self.arena,
                                emptied,
                                self.engine.regions(),
                            )
                            &&& #[trigger] readied(emptied, arena)
                        }
                },
                Err(error) => if self.common.window.span() <= config::DEVICE_STATUS {
                    error == VirtioError::Mmio(MmioError::Range)
                } else {
                    ||| error == VirtioError::Device && setup::stuck(self.common.window)
                    ||| exists|mapper_after: M, arena_after: A|
                        {
                            &&& error is Dma
                            &&& #[trigger] broken_off(
                                self.mapper,
                                mapper_after,
                                self.arena,
                                arena_after,
                                self.engine.regions(),
                                error->Dma_0,
                            )
                        }
                },
            },
    {
        let Block { mut common, engine, mut mapper, mut arena, .. } = self;
        common.reset()?;
        if let Err(error) = dma::teardown(engine.mappings(), &mut mapper, &mut arena) {
            assert(broken_off(
                self.mapper,
                mapper,
                self.arena,
                arena,
                self.engine.regions(),
                error,
            ));
            return Err(VirtioError::Dma(error));
        }
        let ghost emptied = arena;
        arena.reset();
        let given = Ok(mapper);
        assert(dismantled(
            self.mapper,
            given->Ok_0,
            self.arena,
            emptied,
            self.engine.regions(),
        ));
        assert(readied(emptied, arena));
        given
    }
}

impl<W: Window> Engine<W> {
    /// One step of an operation on its way.
    pub open spec fn advanced(&self, id: RequestId, run: Run, after: Self, next: Run) -> bool {
        match run {
            Run::Over(_) => after == *self && next == run,
            Run::Held(op) => {
                ||| self.asked(id, op, after, Ok(())) && next is Sent
                ||| exists|offered: Self, out: Reaped|
                    {
                        &&& self.asked(id, op, offered, Err(op))
                        &&& #[trigger] offered.reaped(after, out)
                        &&& next == answer(out, run)
                    }
            },
            Run::Sent => exists|out: Reaped|
                #[trigger] self.reaped(after, out) && next == answer(out, run),
        }
    }
}

/// Where an operation gets with what draining came to.
pub open spec fn answer(out: Reaped, run: Run) -> Run {
    match out {
        Reaped::Done(_, done) => Run::Over(done),
        _ => run,
    }
}

/// A disk is brought up in order: greeted, its features agreed on, its length
/// read, queue 0 selected, sized, placed and switched on, and only then told
/// that its driver is ready (4).
pub proof fn law_disk_is_brought_up_in_order<W: Window>(
    bringup: Bringup,
    vector: u16,
    engine: Engine<W>,
)
    ensures
        bringup.trace(vector, engine) == bringup.hello + bringup.features + generation_reads(
            bringup.rounds,
        ) + seq![
            Access::Write { at: 22, width: 2, value: 0 },
            Access::Read { at: 24, width: 2, value: bringup.max as u64 },
            Access::Write { at: 24, width: 2, value: engine.queue.size as u64 },
            Access::Write { at: 26, width: 2, value: vector as u64 },
            Access::Write { at: 32, width: 8, value: engine.queue.descriptors.iova.address },
            Access::Write { at: 40, width: 8, value: engine.queue.driver.iova.address },
            Access::Write { at: 48, width: 8, value: engine.queue.device.iova.address },
            Access::Write { at: 28, width: 2, value: 1 },
            Access::Read { at: 30, width: 2, value: engine.notify_off as u64 },
            Access::Read { at: 20, width: 1, value: bringup.last as u64 },
            Access::Write { at: 20, width: 1, value: (bringup.last | 4u8) as u64 },
        ],
{
    assert(bringup.trace(vector, engine) =~= bringup.hello + bringup.features + generation_reads(
        bringup.rounds,
    ) + seq![
        Access::Write { at: 22, width: 2, value: 0 },
        Access::Read { at: 24, width: 2, value: bringup.max as u64 },
        Access::Write { at: 24, width: 2, value: engine.queue.size as u64 },
        Access::Write { at: 26, width: 2, value: vector as u64 },
        Access::Write { at: 32, width: 8, value: engine.queue.descriptors.iova.address },
        Access::Write { at: 40, width: 8, value: engine.queue.driver.iova.address },
        Access::Write { at: 48, width: 8, value: engine.queue.device.iova.address },
        Access::Write { at: 28, width: 2, value: 1 },
        Access::Read { at: 30, width: 2, value: engine.notify_off as u64 },
        Access::Read { at: 20, width: 1, value: bringup.last as u64 },
        Access::Write { at: 20, width: 1, value: (bringup.last | 4u8) as u64 },
    ]);
}

/// A disk serves where it is not read-only (bit 5), can flush (bit 9), and, if
/// its accesses are translated, knows it (bit 33). Those are what is asked for.
pub proof fn law_disk_features_in_numbers(features: u64, platform: bool)
    ensures
        serves(features, platform) == if features / 32 % 2 == 1 {
            Err::<(), VirtioError>(VirtioError::ReadOnly)
        } else if features / 512 % 2 == 0 || (platform && features / 0x2_0000_0000 % 2 == 0) {
            Err(VirtioError::Features)
        } else {
            Ok(())
        },
        wanted(false) == 32 + 512,
        wanted(true) == 32 + 512 + 0x2_0000_0000,
{
    assert((features & 0x20 != 0) == (features / 32 % 2 == 1)) by (bit_vector);
    assert((features & 0x200 == 0) == (features / 512 % 2 == 0)) by (bit_vector);
    assert((features & 0x2_0000_0000 == 0) == (features / 0x2_0000_0000 % 2 == 0)) by (bit_vector);
}

/// The memory a disk is driven with: sixteen bytes a descriptor that it reads,
/// what the driver offers, which it reads, what it returns, which it reads and
/// writes, 32 control bytes and 4096 data bytes for each of eight requests.
pub proof fn law_disk_memory_in_numbers(size: u16)
    ensures
        needs(size) == seq![
            Need { bytes: (16 * size) as u64, perm: DmaPerm::Read },
            Need { bytes: (6 + 2 * size) as u64, perm: DmaPerm::Read },
            Need { bytes: (6 + 8 * size) as u64, perm: DmaPerm::ReadWrite },
            Need { bytes: 256, perm: DmaPerm::ReadWrite },
            Need { bytes: 32768, perm: DmaPerm::ReadWrite },
        ],
{
    assert(needs(size) =~= seq![
        Need { bytes: (16 * size) as u64, perm: DmaPerm::Read },
        Need { bytes: (6 + 2 * size) as u64, perm: DmaPerm::Read },
        Need { bytes: (6 + 8 * size) as u64, perm: DmaPerm::ReadWrite },
        Need { bytes: 256, perm: DmaPerm::ReadWrite },
        Need { bytes: 32768, perm: DmaPerm::ReadWrite },
    ]);
}

/// A disk's length is what its first eight bytes hold while they stand still.
pub proof fn law_length_is_what_the_disk_shows(
    rounds: Seq<(u8, u8)>,
    halves: Seq<(u32, u32)>,
    capacity: u64,
)
    requires
        sized(rounds, halves, capacity),
    ensures
        capacity == halves.last().0 + 0x1_0000_0000 * halves.last().1,
        rounds.last().0 == rounds.last().1,
        capacity_reads(halves).len() >= 2,
        capacity_reads(halves)[capacity_reads(halves).len() - 2] == (Access::Read {
            at: 0,
            width: 4,
            value: halves.last().0 as u64,
        }),
        capacity_reads(halves).last() == (Access::Read {
            at: 4,
            width: 4,
            value: halves.last().1 as u64,
        }),
{
    let last = rounds[rounds.len() - 1];
}

/// As many requests are in flight as have three descriptors each, eight at most;
/// a queue that has room for fewer than two is refused.
pub proof fn law_depth_in_numbers(size: u16)
    ensures
        3 * room(size) <= size,
        room(size) <= 8,
        room(size) == 8 || 3 * (room(size) + 1) > size,
{
}

} // verus!
