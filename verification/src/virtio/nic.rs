//! A VirtIO network device with preposted receive buffers and a staged
//! transmit ring.
use vstd::prelude::*;

use crate::dma::{
    self, bounded, broken_off, dismantled, met, readied, unmet, Arena, DeviceId, DmaPerm, Mapper,
    Mapping, Need,
};
use crate::net::addr::MacAddr;
use crate::net::link::{Link, LinkError, FRAME};
use crate::virtio::config::{self, added, grew, negotiated, Common};
use crate::virtio::error::VirtioError;
use crate::virtio::net::{
    self, kicked, Receive, Transmit, BUFFER, NETWORK_SIZE, RECEIVE_QUEUE, REQUIRED_FEATURES,
    TRANSMIT_QUEUE,
};
use crate::virtio::notify::Notify;
use crate::virtio::queue::Queue;
use crate::virtio::setup::{
    self, generation_reads, greeted, handed_over, unsettled, CONFIG_SPINS,
};
use crate::window::{self, Access, MmioError, Window};

verus! {

/// The registers of a network device, and the address it answers to.
pub struct Nic<W: Window> {
    pub common: Common<W>,
    pub notify: Notify<W>,
    pub mac: MacAddr,
}

/// A VirtIO network device with preposted RX buffers and a staged TX ring.
pub struct Net<W: Window, M: Mapper<W>, A: Arena<W>> {
    pub mapper: M,
    pub nic: Nic<W>,
    pub receive: Receive<W>,
    pub transmit: Transmit<W>,
    pub arena: A,
}

/// The six octets of the address, read one by one.
pub open spec fn octet_reads(octets: Seq<u8>) -> Seq<Access> {
    Seq::new(octets.len(), |i: int| window::read(i as u64, 1, octets[i] as int))
}

/// The address read in each round.
pub open spec fn mac_reads(rounds: Seq<Seq<u8>>) -> Seq<Access>
    decreases rounds.len(),
{
    if rounds.len() == 0 {
        seq![]
    } else {
        mac_reads(rounds.drop_last()) + octet_reads(rounds.last())
    }
}

/// Both windows once the address was read out of them: it came from the one
/// round during which nothing changed.
pub open spec fn addressed<W: Window>(
    common: W,
    common_after: W,
    device: W,
    device_after: W,
    mac: MacAddr,
) -> bool {
    exists|rounds: Seq<(u8, u8)>, read: Seq<Seq<u8>>|
        {
            &&& grew(common, common_after, generation_reads(rounds))
            &&& grew(device, device_after, #[trigger] mac_reads(read))
            &&& #[trigger] unsettled(rounds, true)
            &&& read.len() == rounds.len()
            &&& mac.octets@ == read.last()
        }
}

/// Reads the device's address, again while the device is changing it.
pub fn mac<W: Window>(common: &mut Common<W>, device: &mut W) -> (mac: Result<MacAddr, VirtioError>)
    ensures
        final(common).window.span() == old(common).window.span(),
        final(device).span() == old(device).span(),
        match mac {
            Ok(mac) => {
                &&& old(common).window.span() > config::CONFIG_GENERATION
                &&& old(device).span() >= 6
                &&& addressed(
                    old(common).window,
                    final(common).window,
                    *old(device),
                    *final(device),
                    mac,
                )
            },
            Err(error) => if old(common).window.span() > config::CONFIG_GENERATION && old(
                device,
            ).span() >= 6 {
                error == VirtioError::Device && exists|rounds: Seq<(u8, u8)>|
                    #[trigger] unsettled(rounds, false) && grew(
                        old(common).window,
                        final(common).window,
                        generation_reads(rounds),
                    )
            } else {
                error == VirtioError::Mmio(MmioError::Range)
            },
        },
{
    let ghost before = common.window;
    let ghost shown = *device;
    let ghost mut rounds: Seq<(u8, u8)> = seq![];
    let ghost mut read: Seq<Seq<u8>> = seq![];
    let mut spin: u32 = 0;
    while spin < CONFIG_SPINS
        invariant
            spin <= CONFIG_SPINS,
            before == old(common).window,
            shown == *old(device),
            spin > 0 ==> before.span() > config::CONFIG_GENERATION && shown.span() >= 6,
            grew(before, common.window, generation_reads(rounds)),
            grew(shown, *device, mac_reads(read)),
            rounds.len() == spin,
            read.len() == spin,
            forall|r: int| 0 <= r < spin ==> (#[trigger] rounds[r]).0 != rounds[r].1,
        decreases CONFIG_SPINS - spin,
    {
        let first: u8 = common.config_generation()?;
        let ghost earlier = *device;
        let mut octets: [u8; 6] = [0;6];
        let mut offset: usize = 0;
        assert(octet_reads(octets@.take(0)) =~= seq![]);
        while offset < 6
            invariant
                offset <= 6,
                before == old(common).window,
                shown == *old(device),
                before.span() > config::CONFIG_GENERATION,
                common.window.span() == before.span(),
                earlier.span() == shown.span(),
                offset > 0 ==> shown.span() >= offset,
                grew(earlier, *device, octet_reads(octets@.take(offset as int))),
            decreases 6 - offset,
        {
            let octet: u8 = match device.read_u8(offset as u64) {
                Ok(octet) => octet,
                Err(error) => return Err(VirtioError::from(error)),
            };
            let ghost taken = octets@.take(offset as int);
            octets[offset] = octet;
            offset = offset + 1;
            assert(octets@.take(offset as int) =~= taken.push(octet));
            assert(octet_reads(taken.push(octet)) =~= octet_reads(taken).push(
                window::read((offset - 1) as u64, 1, octet as int),
            ));
        }
        assert(octets@.take(6) =~= octets@);
        let second: u8 = common.config_generation()?;
        proof {
            setup::lemma_generation_reads(rounds, first, second);
            assert(read.push(octets@).drop_last() =~= read);
            rounds = rounds.push((first, second));
            read = read.push(octets@);
            assert(grew(before, common.window, generation_reads(rounds)));
            assert(grew(shown, *device, mac_reads(read)));
        }
        if first == second {
            assert(unsettled(rounds, true));
            return Ok(MacAddr::new(octets));
        }
        spin = spin + 1;
    }
    assert(unsettled(rounds, false));
    Err(VirtioError::Device)
}

/// Lays out queue `index` and hands it to the device.
pub fn queue<W: Window, M: Mapper<W>, A: Arena<W>>(
    common: &mut Common<W>,
    arena: &mut A,
    mapper: &mut M,
    endpoint: DeviceId,
    index: u16,
    vector: u16,
) -> (queue: Result<(Queue<W>, u16), VirtioError>)
    ensures
        final(common).window.span() == old(common).window.span(),
        match queue {
            Ok((queue, notify_off)) => {
                &&& old(common).window.span() >= config::BYTES
                &&& setup::fresh(queue, queue.size, endpoint)
                &&& given_over(
                    old(common).window,
                    final(common).window,
                    index,
                    vector,
                    queue,
                    notify_off,
                )
                &&& met(
                    *old(mapper),
                    *final(mapper),
                    *old(arena),
                    *final(arena),
                    endpoint,
                    setup::rings(queue.size),
                )
                &&& setup::built(
                    *old(mapper),
                    *final(mapper),
                    *old(arena),
                    *final(arena),
                    queue,
                    seq![],
                )
                &&& exists|asked: W| #[trigger]
                    queue_of(old(common).window, asked, index, queue.size)
            },
            Err(VirtioError::Dma(error)) => exists|size: u16|
                {
                    &&& #[trigger] queue_of(old(common).window, final(common).window, index, size)
                    &&& unmet(
                        *old(mapper),
                        *final(mapper),
                        *old(arena),
                        *final(arena),
                        endpoint,
                        setup::rings(size),
                        error,
                    )
                },
            Err(error) => {
                ||| {
                    &&& error == VirtioError::Mmio(MmioError::Range)
                    &&& old(common).window.span() < config::BYTES
                }
                ||| {
                    &&& error == VirtioError::Device
                    &&& exists|max: u16| #[trigger]
                        queueless(old(common).window, final(common).window, index, max)
                }
            },
        },
{
    let ghost before = common.window;
    common.select_queue(index)?;
    let max: u16 = common.queue_size()?;
    assert(grew(before, common.window, setup::selected(index, max)));
    let clamped = net::clamp_queue(max);
    assert(clamped is Err ==> queueless(before, common.window, index, max));
    let size: u16 = clamped?;
    assert(queue_of(before, common.window, index, size));
    let queue = setup::lay(arena, mapper, endpoint, size)?;
    let notify_off: u16 = setup::program(common, &queue, vector)?;
    assert(grew(before, common.window, handed_over(index, max, vector, queue, notify_off)));
    Ok((queue, notify_off))
}

/// Lays out queue `index`, hands it to the device, and takes the buffers that
/// go through it.
fn equip<W: Window, M: Mapper<W>, A: Arena<W>>(
    common: &mut Common<W>,
    arena: &mut A,
    mapper: &mut M,
    endpoint: DeviceId,
    index: u16,
    vector: u16,
    perm: DmaPerm,
) -> (equipped: Result<(Queue<W>, u16, Mapping<W>), VirtioError>)
    ensures
        final(common).window.span() == old(common).window.span(),
        match equipped {
            Ok((queue, notify_off, buffers)) => {
                &&& old(common).window.span() >= config::BYTES
                &&& setup::fresh(queue, queue.size, endpoint)
                &&& given_over(
                    old(common).window,
                    final(common).window,
                    index,
                    vector,
                    queue,
                    notify_off,
                )
                &&& buffers.window.span() >= queue.size * BUFFER
                &&& bounded(buffers.iova.address, buffers.window)
                &&& buffers.device == endpoint
                &&& buffers.perm == perm
                &&& met(
                    *old(mapper),
                    *final(mapper),
                    *old(arena),
                    *final(arena),
                    endpoint,
                    side(queue.size, perm),
                )
                &&& setup::built(
                    *old(mapper),
                    *final(mapper),
                    *old(arena),
                    *final(arena),
                    queue,
                    seq![buffers],
                )
            },
            Err(VirtioError::Dma(error)) => exists|asked: W, size: u16|
                {
                    &&& #[trigger] queue_of(old(common).window, asked, index, size)
                    &&& unmet(
                        *old(mapper),
                        *final(mapper),
                        *old(arena),
                        *final(arena),
                        endpoint,
                        side(size, perm),
                        error,
                    )
                },
            Err(error) => {
                ||| {
                    &&& error == VirtioError::Mmio(MmioError::Range)
                    &&& old(common).window.span() < config::BYTES
                }
                ||| {
                    &&& error == VirtioError::Device
                    &&& exists|max: u16| #[trigger]
                        queueless(old(common).window, final(common).window, index, max)
                }
            },
        },
{
    let ghost before = common.window;
    let ghost (m0, a0) = (*mapper, *arena);
    let made = queue(common, arena, mapper, endpoint, index, vector);
    let ghost (m1, a1) = (*mapper, *arena);
    proof {
        if made is Err && made->Err_0 is Dma {
            let error = made->Err_0->Dma_0;
            let size = choose|size: u16|
                {
                    &&& #[trigger] queue_of(before, common.window, index, size)
                    &&& unmet(m0, m1, a0, a1, endpoint, setup::rings(size), error)
                };
            let more = seq![Need { bytes: (size * BUFFER) as u64, perm }];
            dma::lemma_unmet_before(m0, m1, a0, a1, endpoint, setup::rings(size), more, error);
            assert(unmet(m0, m1, a0, a1, endpoint, side(size, perm), error));
        }
    }
    let (queue, notify_off) = made?;
    let bytes: u64 = queue.size() as u64 * BUFFER as u64;
    let allotted = setup::allot(arena, mapper, endpoint, bytes, perm);
    proof {
        let more = seq![Need { bytes: (queue.size * BUFFER) as u64, perm }];
        setup::lemma_allotted(
            m0,
            m1,
            *mapper,
            a0,
            a1,
            *arena,
            endpoint,
            setup::rings(queue.size),
            more,
            setup::refusal(allotted),
        );
    }
    let buffers = allotted?;
    proof {
        let none = Seq::<Mapping<W>>::empty();
        setup::lemma_built(m0, m1, *mapper, a0, a1, *arena, queue, none, seq![buffers]);
        assert(none + seq![buffers] =~= seq![buffers]);
    }
    Ok((queue, notify_off, buffers))
}

/// The common configuration once queue `index` was handed over at a size the
/// device allows.
pub open spec fn given_over<W: Window>(
    before: W,
    after: W,
    index: u16,
    vector: u16,
    queue: Queue<W>,
    notify_off: u16,
) -> bool {
    exists|max: u16|
        {
            &&& setup::clamped(max, NETWORK_SIZE) == Ok::<u16, VirtioError>(queue.size)
            &&& grew(before, after, #[trigger] handed_over(index, max, vector, queue, notify_off))
        }
}

/// A device that settled on enough features, and said it has `queues` queues.
pub open spec fn counted<W: Window>(common: W, after: W, queues: u16) -> bool {
    exists|one: W, accepted: u64|
        {
            &&& #[trigger] setup::shook(common, one, REQUIRED_FEATURES, Ok(accepted))
            &&& accepted & REQUIRED_FEATURES == REQUIRED_FEATURES
            &&& grew(one, after, seq![window::read(config::NUM_QUEUES, 2, queues as int)])
        }
}

/// A device with queues enough, whose generation was read in `rounds`.
pub open spec fn asked_of<W: Window>(common: W, after: W, rounds: Seq<(u8, u8)>) -> bool {
    exists|two: W, queues: u16|
        {
            &&& #[trigger] counted(common, two, queues)
            &&& queues >= 2
            &&& grew(two, after, generation_reads(rounds))
        }
}

/// A device whose address is known.
pub open spec fn known<W: Window>(common: W, after: W) -> bool {
    exists|rounds: Seq<(u8, u8)>|
        #[trigger] asked_of(common, after, rounds) && unsettled(rounds, true)
}

/// A queue of at most `max` descriptors was asked for, which is none.
pub open spec fn queueless<W: Window>(before: W, after: W, index: u16, max: u16) -> bool {
    &&& grew(before, after, setup::selected(index, max))
    &&& setup::clamped(max, NETWORK_SIZE) is Err
}

/// A queue was asked for, which has room for `size` descriptors.
pub open spec fn queue_of<W: Window>(before: W, after: W, index: u16, size: u16) -> bool {
    exists|max: u16|
        {
            &&& grew(before, after, #[trigger] setup::selected(index, max))
            &&& setup::clamped(max, NETWORK_SIZE) == Ok::<u16, VirtioError>(size)
        }
}

/// The memory one direction is driven with, over a queue of `size` descriptors
/// whose buffers the device reads or writes.
pub open spec fn side(size: u16, perm: DmaPerm) -> Seq<Need> {
    setup::rings(size) + seq![Need { bytes: (size * BUFFER) as u64, perm }]
}

/// The memory a device is driven with.
pub open spec fn needs(receive: u16, transmit: u16) -> Seq<Need> {
    side(receive, DmaPerm::Write) + side(transmit, DmaPerm::Read)
}

/// Every buffer of memory that is large enough and the device may write can be
/// offered through a fresh queue.
proof fn lemma_all_offered<W: Window>(queue: Queue<W>, buffers: Mapping<W>)
    requires
        queue.wf(),
        queue.available == queue.size,
        queue.stack() == Seq::new(queue.size as nat, |i: int| (queue.size - 1 - i) as u16),
        buffers.perm == DmaPerm::Write,
        bounded(buffers.iova.address, buffers.window),
        buffers.window.span() >= queue.size * BUFFER,
    ensures
        forall|slot: int, error: VirtioError| !#[trigger] net::unstocked(queue, buffers, slot, error),
{
    assert forall|slot: int, error: VirtioError| !#[trigger] net::unstocked(
        queue,
        buffers,
        slot,
        error,
    ) by {
        if net::unstocked(queue, buffers, slot, error) {
            assert(slot * BUFFER + BUFFER <= queue.size * BUFFER) by (nonlinear_arith)
                requires
                    0 <= slot < queue.size,
            ;
            assert(setup::buffer_of(buffers, slot, BUFFER as int) is Ok);
            let i = choose|i: int|
                0 <= i < slot && #[trigger] crate::virtio::queue::taken(queue.stack(), i)
                    == crate::virtio::queue::taken(queue.stack(), slot);
            assert(crate::virtio::queue::taken(queue.stack(), i) == i as u16);
        }
    }
}

/// Why a device was not brought up: a window too short for its registers or a
/// doorbell, an answer of the device's that will not do, or memory that was
/// refused.
pub open spec fn turned_down<W: Window, M: Mapper<W>, A: Arena<W>>(
    common: W,
    notify: Notify<W>,
    device: W,
    vector: u16,
    endpoint: DeviceId,
    mapper: M,
    arena: A,
    error: VirtioError,
) -> bool {
    ||| {
        &&& error == VirtioError::Mmio(MmioError::Range)
        &&& common.span() < config::BYTES || device.span() < 6
    }
    ||| error == VirtioError::Device && setup::stuck(common)
    ||| exists|after: W| #[trigger] setup::shook(common, after, REQUIRED_FEATURES, Err(error))
    ||| exists|after: W, accepted: u64|
        {
            &&& #[trigger] setup::shook(common, after, REQUIRED_FEATURES, Ok(accepted))
            &&& accepted & REQUIRED_FEATURES != REQUIRED_FEATURES
            &&& error == VirtioError::Features
        }
    ||| exists|after: W, queues: u16|
        {
            &&& #[trigger] counted(common, after, queues)
            &&& queues < 2
            &&& error == VirtioError::Missing
        }
    ||| exists|after: W, rounds: Seq<(u8, u8)>|
        {
            &&& #[trigger] asked_of(common, after, rounds)
            &&& unsettled(rounds, false)
            &&& error == VirtioError::Device
        }
    ||| exists|three: W, after: W, max: u16|
        {
            &&& known(common, three)
            &&& #[trigger] queueless(three, after, RECEIVE_QUEUE, max)
            &&& error == VirtioError::Device
        }
    ||| exists|three: W, four: W, queue: Queue<W>, notify_off: u16|
        {
            &&& known(common, three)
            &&& #[trigger] given_over(three, four, RECEIVE_QUEUE, vector, queue, notify_off)
            &&& {
                ||| error == VirtioError::Device && exists|after: W, max: u16| #[trigger]
                    queueless(four, after, TRANSMIT_QUEUE, max)
                ||| error == VirtioError::Mmio(MmioError::Range) && !crate::virtio::notify::rings(
                    notify.window,
                    notify.multiplier,
                    notify_off,
                )
            }
        }
    ||| exists|three: W, after: W, size: u16, mapper_after: M, arena_after: A|
        {
            &&& known(common, three)
            &&& #[trigger] queue_of(three, after, RECEIVE_QUEUE, size)
            &&& error is Dma
            &&& #[trigger] unmet(
                mapper,
                mapper_after,
                arena,
                arena_after,
                endpoint,
                side(size, DmaPerm::Write),
                error->Dma_0,
            )
        }
    ||| exists|
        three: W,
        four: W,
        queue: Queue<W>,
        notify_off: u16,
        after: W,
        size: u16,
        mapper_after: M,
        arena_after: A,
    |
        {
            &&& known(common, three)
            &&& #[trigger] given_over(three, four, RECEIVE_QUEUE, vector, queue, notify_off)
            &&& #[trigger] queue_of(four, after, TRANSMIT_QUEUE, size)
            &&& error is Dma
            &&& #[trigger] unmet(
                mapper,
                mapper_after,
                arena,
                arena_after,
                endpoint,
                needs(queue.size, size),
                error->Dma_0,
            )
        }
}

/// Everything read and written to bring a device up, in order.
pub struct Bringup {
    pub hello: Seq<Access>,
    pub reset: Seq<Access>,
    pub first: u8,
    pub second: u8,
    pub features: Seq<Access>,
    pub low: u32,
    pub high: u32,
    pub status: u8,
    pub confirmed: u8,
    pub accepted: u64,
    pub queues: u16,
    pub rounds: Seq<(u8, u8)>,
    pub octets: Seq<Seq<u8>>,
    pub receive: u16,
    pub transmit: u16,
    pub last: u8,
}

impl Bringup {
    pub open spec fn agreed(self) -> bool {
        &&& greeted(self.hello, self.reset, self.first, self.second)
        &&& negotiated(
            self.features,
            REQUIRED_FEATURES,
            self.low,
            self.high,
            self.status,
            self.confirmed,
            Ok(self.accepted),
        )
        &&& self.accepted & REQUIRED_FEATURES == REQUIRED_FEATURES
        &&& self.queues >= 2
        &&& unsettled(self.rounds, true)
        &&& self.octets.len() == self.rounds.len()
    }

    /// The accesses to the common configuration.
    pub open spec fn trace<W: Window>(
        self,
        vector: u16,
        receive: Receive<W>,
        transmit: Transmit<W>,
    ) -> Seq<Access> {
        self.hello + self.features + seq![
            window::read(config::NUM_QUEUES, 2, self.queues as int),
        ] + generation_reads(self.rounds) + handed_over(
            RECEIVE_QUEUE,
            self.receive,
            vector,
            receive.queue,
            receive.notify_off,
        ) + handed_over(
            TRANSMIT_QUEUE,
            self.transmit,
            vector,
            transmit.queue,
            transmit.notify_off,
        ) + added(self.last, config::DRIVER_OK)
    }
}

impl<W: Window, M: Mapper<W>, A: Arena<W>> Net<W, M, A> {
    pub open spec fn wf(&self) -> bool {
        self.receive.wf() && self.transmit.wf()
    }

    /// A device that was brought up: every receive buffer on offer before it
    /// ran, and its receive queue kicked once it did.
    pub open spec fn started(
        &self,
        common: W,
        notify: W,
        notify_multiplier: u32,
        vector: u16,
        endpoint: DeviceId,
        device: W,
        mapper: M,
        arena: A,
    ) -> bool {
        &&& self.wf()
        &&& self.receive.queue.available == 0
        &&& exists|given: Queue<W>, path: Seq<Queue<W>>|
            {
                &&& setup::fresh(given, self.receive.queue.size, endpoint)
                &&& self.furnished(mapper, arena, given)
                &&& path.len() == given.size + 1
                &&& #[trigger] setup::stocked(
                    path,
                    given,
                    self.receive.queue,
                    self.receive.buffers,
                    BUFFER as int,
                )
                &&& net::filed(self.receive.heads@, given.stack(), given.size as int)
            }
        &&& self.transmit.heads@ == Seq::new(32, |i: int| None::<u16>)
        &&& setup::fresh(self.transmit.queue, self.transmit.queue.size, endpoint)
        &&& self.transmit.free@ == Seq::new(32, |i: int| i < self.transmit.queue.size)
        &&& self.receive.buffers.device == endpoint
        &&& self.receive.buffers.perm == DmaPerm::Write
        &&& self.transmit.buffers.device == endpoint
        &&& self.transmit.buffers.perm == DmaPerm::Read
        &&& kicked(
            Notify { window: notify, multiplier: notify_multiplier },
            self.nic.notify,
            RECEIVE_QUEUE,
            self.receive.notify_off,
            Ok(()),
        )
        &&& exists|bringup: Bringup, device_after: W|
            {
                &&& #[trigger] bringup.agreed()
                &&& #[trigger] grew(device, device_after, mac_reads(bringup.octets))
                &&& self.nic.mac.octets@ == bringup.octets.last()
                &&& setup::clamped(bringup.receive, NETWORK_SIZE) == Ok::<u16, VirtioError>(
                    self.receive.queue.size,
                )
                &&& setup::clamped(bringup.transmit, NETWORK_SIZE) == Ok::<u16, VirtioError>(
                    self.transmit.queue.size,
                )
                &&& grew(
                    common,
                    self.nic.common.window,
                    bringup.trace(vector, self.receive, self.transmit),
                )
            }
    }

    /// A device over memory `arena` handed out, at the addresses `mapper` gave
    /// it: first the receive queue, `given` once it was stocked, and its
    /// buffers, then the transmit queue and its buffers.
    pub open spec fn furnished(&self, mapper: M, arena: A, given: Queue<W>) -> bool {
        exists|between: M, middle: A|
            {
                &&& #[trigger] setup::built(
                    mapper,
                    between,
                    arena,
                    middle,
                    given,
                    seq![self.receive.buffers],
                )
                &&& #[trigger] setup::built(
                    between,
                    self.mapper,
                    middle,
                    self.arena,
                    self.transmit.queue,
                    seq![self.transmit.buffers],
                )
            }
    }

    /// Brings up queue pair zero and routes both queues through `vector`.
    pub fn start(
        common: W,
        notify: W,
        device: W,
        notify_multiplier: u32,
        vector: u16,
        endpoint: DeviceId,
        mapper: M,
        arena: A,
    ) -> (net: Result<Self, VirtioError>)
        ensures
            match net {
                Ok(net) => {
                    &&& net.started(
                        common,
                        notify,
                        notify_multiplier,
                        vector,
                        endpoint,
                        device,
                        mapper,
                        arena,
                    )
                    &&& common.span() >= config::BYTES && device.span() >= 6
                    &&& met(
                        mapper,
                        net.mapper,
                        arena,
                        net.arena,
                        endpoint,
                        needs(net.receive.queue.size, net.transmit.queue.size),
                    )
                },
                Err(error) => turned_down(
                    common,
                    Notify { window: notify, multiplier: notify_multiplier },
                    device,
                    vector,
                    endpoint,
                    mapper,
                    arena,
                    error,
                ),
            },
            common.span() <= config::DEVICE_STATUS ==> net == Err::<Self, VirtioError>(
                VirtioError::Mmio(MmioError::Range),
            ),
    {
        let ghost window = common;
        let ghost lender = arena;
        let ghost translator = mapper;
        let mut mapper = mapper;
        let mut arena = arena;
        let mut device = device;
        let ghost shown = device;
        let mut common = Common::new(common);
        setup::greet(&mut common)?;
        let ghost (hello, reset, first, second) = choose|
            t: Seq<Access>,
            reset: Seq<Access>,
            first: u8,
            second: u8,
        |
            grew(window, common.window, t) && #[trigger] greeted(t, reset, first, second);
        let ghost one = common.window;
        let asked = common.negotiate(REQUIRED_FEATURES);
        assert(setup::shook(window, common.window, REQUIRED_FEATURES, asked));
        let accepted: u64 = asked?;
        let ghost (features, low, high, status, confirmed) = choose|
            t: Seq<Access>,
            low: u32,
            high: u32,
            status: u8,
            confirmed: u8,
        |
            #![trigger negotiated(t, REQUIRED_FEATURES, low, high, status, confirmed, Ok(accepted))]
            grew(one, common.window, t) && negotiated(
                t,
                REQUIRED_FEATURES,
                low,
                high,
                status,
                confirmed,
                Ok(accepted),
            );
        net::require_features(accepted)?;
        let queues: u16 = common.num_queues()?;
        assert(counted(window, common.window, queues));
        require_queues(queues)?;
        let ghost two = common.window;
        let addressed = mac(&mut common, &mut device);
        proof {
            if addressed is Err && window.span() > config::CONFIG_GENERATION && shown.span() >= 6 {
                let rounds = choose|rounds: Seq<(u8, u8)>|
                    #[trigger] unsettled(rounds, false) && grew(
                        two,
                        common.window,
                        generation_reads(rounds),
                    );
                assert(asked_of(window, common.window, rounds));
            }
        }
        let address = addressed?;
        let ghost (rounds, octets) = choose|rounds: Seq<(u8, u8)>, read: Seq<Seq<u8>>|
            {
                &&& grew(two, common.window, generation_reads(rounds))
                &&& grew(shown, device, #[trigger] mac_reads(read))
                &&& #[trigger] unsettled(rounds, true)
                &&& read.len() == rounds.len()
                &&& address.octets@ == read.last()
            };
        let ghost three = common.window;
        assert(asked_of(window, three, rounds));

        let receiving = equip(
            &mut common,
            &mut arena,
            &mut mapper,
            endpoint,
            RECEIVE_QUEUE,
            vector,
            DmaPerm::Write,
        );
        let ghost (m2, a2) = (mapper, arena);
        let (receive_queue, receive_notify, receive_buffers) = receiving?;
        let ghost receive_max = choose|max: u16|
            {
                &&& setup::clamped(max, NETWORK_SIZE) == Ok::<u16, VirtioError>(receive_queue.size)
                &&& grew(
                    three,
                    common.window,
                    #[trigger] handed_over(
                        RECEIVE_QUEUE,
                        max,
                        vector,
                        receive_queue,
                        receive_notify,
                    ),
                )
            };
        let ghost four = common.window;
        assert(given_over(three, four, RECEIVE_QUEUE, vector, receive_queue, receive_notify));
        let ghost given = receive_queue;
        proof {
            lemma_all_offered(receive_queue, receive_buffers);
        }
        let receive = Receive::new(receive_queue, receive_buffers, receive_notify)?;
        let ghost path = choose|path: Seq<Queue<W>>|
            {
                &&& path.len() == given.size + 1
                &&& #[trigger] setup::stocked(
                    path,
                    given,
                    receive.queue,
                    receive_buffers,
                    BUFFER as int,
                )
            };
        assert(handed_over(RECEIVE_QUEUE, receive_max, vector, given, receive_notify)
            == handed_over(RECEIVE_QUEUE, receive_max, vector, receive.queue, receive_notify));

        let transmitting = equip(
            &mut common,
            &mut arena,
            &mut mapper,
            endpoint,
            TRANSMIT_QUEUE,
            vector,
            DmaPerm::Read,
        );
        proof {
            let rx = side(given.size, DmaPerm::Write);
            if transmitting is Ok {
                let tx = side(transmitting->Ok_0.0.size, DmaPerm::Read);
                dma::lemma_met_both(
                    translator,
                    m2,
                    mapper,
                    lender,
                    a2,
                    arena,
                    endpoint,
                    rx,
                    tx,
                );
            } else if transmitting->Err_0 is Dma {
                let error = transmitting->Err_0->Dma_0;
                let (asked, size) = choose|asked: W, size: u16|
                    {
                        &&& #[trigger] queue_of(four, asked, TRANSMIT_QUEUE, size)
                        &&& unmet(m2, mapper, a2, arena, endpoint, side(size, DmaPerm::Read), error)
                    };
                let tx = side(size, DmaPerm::Read);
                dma::lemma_unmet_after(
                    translator,
                    m2,
                    mapper,
                    lender,
                    a2,
                    arena,
                    endpoint,
                    rx,
                    tx,
                    error,
                );
                assert(unmet(
                    translator,
                    mapper,
                    lender,
                    arena,
                    endpoint,
                    needs(given.size, size),
                    error,
                ));
            }
        }
        let (transmit_queue, transmit_notify, transmit_buffers) = transmitting?;
        let ghost transmit_max = choose|max: u16|
            {
                &&& setup::clamped(max, NETWORK_SIZE) == Ok::<u16, VirtioError>(transmit_queue.size)
                &&& grew(
                    four,
                    common.window,
                    #[trigger] handed_over(
                        TRANSMIT_QUEUE,
                        max,
                        vector,
                        transmit_queue,
                        transmit_notify,
                    ),
                )
            };
        let ghost five = common.window;
        let transmit = Transmit::new(transmit_queue, transmit_buffers, transmit_notify)?;

        // RX descriptors are visible before the device begins running.
        common.add_status(config::DRIVER_OK)?;
        let ghost last = choose|status: u8|
            #![trigger added(status, config::DRIVER_OK)]
            grew(five, common.window, added(status, config::DRIVER_OK));
        let mut notify = Notify::new(notify, notify_multiplier);
        receive.kick(&mut notify)?;
        proof {
            let bringup = Bringup {
                hello,
                reset,
                first,
                second,
                features,
                low,
                high,
                status,
                confirmed,
                accepted,
                queues,
                rounds,
                octets,
                receive: receive_max,
                transmit: transmit_max,
                last,
            };
            assert(bringup.agreed());
            assert(grew(shown, device, mac_reads(bringup.octets)));
            assert(grew(window, common.window, bringup.trace(vector, receive, transmit)));
        }
        let net = Net { mapper, nic: Nic { common, notify, mac: address }, receive, transmit, arena };
        proof {
            assert(setup::built(translator, m2, lender, a2, given, seq![net.receive.buffers]));
            assert(setup::built(
                m2,
                net.mapper,
                a2,
                net.arena,
                net.transmit.queue,
                seq![net.transmit.buffers],
            ));
        }
        Ok(net)
    }

    /// The device-provided Ethernet address negotiated at startup.
    pub fn mac(&self) -> (mac: MacAddr)
        ensures
            mac == self.nic.mac,
    {
        self.nic.mac
    }

    /// The device apart from its receive side.
    pub open spec fn same_but_receive(&self, after: Self) -> bool {
        &&& after.mapper == self.mapper
        &&& after.arena == self.arena
        &&& after.transmit == self.transmit
        &&& after.nic.common == self.nic.common
        &&& after.nic.mac == self.nic.mac
        &&& after.nic.notify.multiplier == self.nic.notify.multiplier
    }

    /// Drains one interrupt-reported RX completion and immediately reposts it.
    pub fn receive(&mut self, frame: &mut [u8]) -> (got: Result<Option<usize>, VirtioError>)
        requires
            old(self).wf(),
        ensures
            final(self).wf(),
            final(frame)@.len() == old(frame)@.len(),
            old(self).same_but_receive(*final(self)),
            old(self).drained(old(frame)@, final(frame)@, *final(self), got),
    {
        let ghost before = *self;
        let ghost held = frame@;
        let received = self.receive.receive(frame);
        let sent = self.receive.kick(&mut self.nic.notify);
        assert(before.receive.received(held, frame@, self.receive, received));
        assert(kicked(
            before.nic.notify,
            self.nic.notify,
            RECEIVE_QUEUE,
            self.receive.notify_off,
            sent,
        ));
        sent?;
        received
    }

    /// What a drain came to: the frame, unless the device could not be told of
    /// the buffer it has back.
    pub open spec fn drained(
        &self,
        frame: Seq<u8>,
        filled: Seq<u8>,
        after: Self,
        got: Result<Option<usize>, VirtioError>,
    ) -> bool {
        exists|received: Result<Option<usize>, VirtioError>, sent: Result<(), VirtioError>|
            {
                &&& #[trigger] self.receive.received(frame, filled, after.receive, received)
                &&& #[trigger] kicked(
                    self.nic.notify,
                    after.nic.notify,
                    RECEIVE_QUEUE,
                    after.receive.notify_off,
                    sent,
                )
                &&& got == match sent {
                    Err(error) => Err::<Option<usize>, VirtioError>(error),
                    Ok(_) => received,
                }
            }
    }

    /// Stops DMA before returning every queue and buffer frame to its arena.
    pub fn reset(self) -> (done: Result<(), VirtioError>)
        ensures
            match done {
                Ok(()) => {
                    &&& self.nic.common.window.span() > config::DEVICE_STATUS
                    &&& setup::silenced(self.nic.common.window)
                    &&& exists|mapper: M, emptied: A, arena: A|
                        {
                            &&& #[trigger] dismantled(
                                self.mapper,
                                mapper,
                                self.arena,
                                emptied,
                                both(self.receive, self.transmit),
                            )
                            &&& #[trigger] readied(emptied, arena)
                        }
                },
                Err(error) => if self.nic.common.window.span() <= config::DEVICE_STATUS {
                    error == VirtioError::Mmio(MmioError::Range)
                } else {
                    ||| error == VirtioError::Device && setup::stuck(self.nic.common.window)
                    ||| exists|mapper: M, left: A, arena: A|
                        {
                            &&& error is Dma
                            &&& #[trigger] broken_off(
                                self.mapper,
                                mapper,
                                self.arena,
                                left,
                                both(self.receive, self.transmit),
                                error->Dma_0,
                            )
                            &&& #[trigger] readied(left, arena)
                        }
                },
            },
    {
        let Net { mut mapper, mut nic, receive, transmit, mut arena } = self;
        nic.common.reset()?;
        let released = dma::teardown(mappings(receive, transmit), &mut mapper, &mut arena);
        assert(released is Err ==> broken_off(
            self.mapper,
            mapper,
            self.arena,
            arena,
            both(self.receive, self.transmit),
            released->Err_0,
        ));
        assert(released is Ok ==> dismantled(
            self.mapper,
            mapper,
            self.arena,
            arena,
            both(self.receive, self.transmit),
        ));
        let ghost left = arena;
        arena.reset();
        assert(readied(left, arena));
        match released {
            Ok(()) => Ok(()),
            Err(error) => Err(VirtioError::Dma(error)),
        }
    }
}

/// Every mapping of both directions, in the order they are taken down.
pub open spec fn both<W: Window>(receive: Receive<W>, transmit: Transmit<W>) -> Seq<Mapping<W>> {
    seq![
        receive.queue.descriptors,
        receive.queue.driver,
        receive.queue.device,
        receive.buffers,
        transmit.queue.descriptors,
        transmit.queue.driver,
        transmit.queue.device,
        transmit.buffers,
    ]
}

/// Whether a device has a queue for each direction.
pub fn require_queues(queues: u16) -> (met: Result<(), VirtioError>)
    ensures
        met == if queues < 2 {
            Err::<(), VirtioError>(VirtioError::Missing)
        } else {
            Ok::<(), VirtioError>(())
        },
{
    if queues < 2 {
        return Err(VirtioError::Missing);
    }
    Ok(())
}

/// Every mapping of both directions, in the order they are taken down.
pub fn mappings<W: Window>(receive: Receive<W>, transmit: Transmit<W>) -> (mappings: Vec<
    Mapping<W>,
>)
    ensures
        mappings@ == both(receive, transmit),
{
    let Receive { queue: incoming, buffers: filled, .. } = receive;
    let Transmit { queue: outgoing, buffers: staged, .. } = transmit;
    vec![
        incoming.descriptors,
        incoming.driver,
        incoming.device,
        filled,
        outgoing.descriptors,
        outgoing.driver,
        outgoing.device,
        staged,
    ]
}

impl<W: Window, M: Mapper<W>, A: Arena<W>> Link for Net<W, M, A> {
    open spec fn usable(&self) -> bool {
        self.wf()
    }

    open spec fn gave(&self, frame: Seq<u8>, after: Self, sent: Result<(), LinkError>) -> bool {
        if frame.len() > FRAME {
            after == *self
        } else {
            self.sent(frame, after, sent)
        }
    }

    open spec fn took(
        &self,
        frame: Seq<u8>,
        filled: Seq<u8>,
        after: Self,
        got: Result<Option<usize>, LinkError>,
    ) -> bool {
        self.carried(frame, filled, after, got)
    }

    fn transmit(&mut self, frame: &[u8]) -> (sent: Result<(), LinkError>) {
        let ghost before = *self;
        if frame.len() > FRAME {
            return Err(LinkError::Device);
        }
        let staged = self.transmit.stage(frame);
        assert(before.transmit.staged(frame@, self.transmit, staged));
        if let Err(error) = staged {
            return match error {
                VirtioError::Full => Err(LinkError::Busy),
                _ => Err(LinkError::Device),
            };
        }
        let kick = self.transmit.kick(&mut self.nic.notify);
        assert(kicked(
            before.nic.notify,
            self.nic.notify,
            TRANSMIT_QUEUE,
            self.transmit.notify_off,
            kick,
        ));
        match kick {
            Ok(()) => Ok(()),
            Err(_) => Err(LinkError::Device),
        }
    }

    fn receive(&mut self, frame: &mut [u8]) -> (got: Result<Option<usize>, LinkError>) {
        self.carry(frame)
    }
}

impl<W: Window, M: Mapper<W>, A: Arena<W>> Net<W, M, A> {
    /// What sending one frame came to: staged, then the device told.
    pub open spec fn sent(
        &self,
        frame: Seq<u8>,
        after: Self,
        sent: Result<(), LinkError>,
    ) -> bool {
        exists|staged: Result<(), VirtioError>|
            {
                &&& #[trigger] self.transmit.staged(frame, after.transmit, staged)
                &&& match staged {
                    Err(VirtioError::Full) => sent == Err::<(), LinkError>(LinkError::Busy)
                        && after.nic == self.nic,
                    Err(_) => sent == Err::<(), LinkError>(LinkError::Device) && after.nic
                        == self.nic,
                    Ok(_) => exists|kick: Result<(), VirtioError>|
                        {
                            &&& after.nic == (Nic { notify: after.nic.notify, ..self.nic })
                            &&& #[trigger] kicked(
                                self.nic.notify,
                                after.nic.notify,
                                TRANSMIT_QUEUE,
                                after.transmit.notify_off,
                                kick,
                            )
                            &&& sent == if kick is Ok {
                                Ok::<(), LinkError>(())
                            } else {
                                Err::<(), LinkError>(LinkError::Device)
                            }
                        },
                }
                &&& after.receive == self.receive
                &&& after.mapper == self.mapper
                &&& after.arena == self.arena
            }
    }

    /// Takes the next frame off the link.
    pub fn carry(&mut self, frame: &mut [u8]) -> (got: Result<Option<usize>, LinkError>)
        requires
            old(self).wf(),
        ensures
            final(self).wf(),
            final(frame)@.len() == old(frame)@.len(),
            old(self).carried(old(frame)@, final(frame)@, *final(self), got),
    {
        let ghost before = *self;
        let ghost held = frame@;
        let drained = Net::receive(self, frame);
        assert(before.drained(held, frame@, *self, drained));
        match drained {
            Ok(got) => Ok(got),
            Err(_) => Err(LinkError::Device),
        }
    }

    /// What taking one frame off the link came to.
    pub open spec fn carried(
        &self,
        frame: Seq<u8>,
        filled: Seq<u8>,
        after: Self,
        got: Result<Option<usize>, LinkError>,
    ) -> bool {
        exists|drained: Result<Option<usize>, VirtioError>|
            {
                &&& #[trigger] self.drained(frame, filled, after, drained)
                &&& self.same_but_receive(after)
                &&& got == match drained {
                    Ok(len) => Ok::<Option<usize>, LinkError>(len),
                    Err(_) => Err::<Option<usize>, LinkError>(LinkError::Device),
                }
            }
    }
}

/// A link is brought up in order: greeted, its features agreed on, its queues
/// counted, queue 0 handed over to receive and queue 1 to send, and only then
/// told that its driver is ready (4).
pub proof fn law_link_is_brought_up_in_order<W: Window>(
    bringup: Bringup,
    vector: u16,
    receive: Receive<W>,
    transmit: Transmit<W>,
)
    ensures
        bringup.trace(vector, receive, transmit) == bringup.hello + bringup.features + seq![
            Access::Read { at: 18, width: 2, value: bringup.queues as u64 },
        ] + generation_reads(bringup.rounds) + handed_over(
            0,
            bringup.receive,
            vector,
            receive.queue,
            receive.notify_off,
        ) + handed_over(1, bringup.transmit, vector, transmit.queue, transmit.notify_off) + seq![
            Access::Read { at: 20, width: 1, value: bringup.last as u64 },
            Access::Write { at: 20, width: 1, value: (bringup.last | 4u8) as u64 },
        ],
{
}

/// The memory a link is driven with: for each direction its rings and a buffer
/// of 1526 bytes a descriptor, which the device writes to receive and reads to
/// send.
pub proof fn law_link_memory_in_numbers(receive: u16, transmit: u16)
    ensures
        needs(receive, transmit) == seq![
            Need { bytes: (16 * receive) as u64, perm: DmaPerm::Read },
            Need { bytes: (6 + 2 * receive) as u64, perm: DmaPerm::Read },
            Need { bytes: (6 + 8 * receive) as u64, perm: DmaPerm::ReadWrite },
            Need { bytes: (1526 * receive) as u64, perm: DmaPerm::Write },
            Need { bytes: (16 * transmit) as u64, perm: DmaPerm::Read },
            Need { bytes: (6 + 2 * transmit) as u64, perm: DmaPerm::Read },
            Need { bytes: (6 + 8 * transmit) as u64, perm: DmaPerm::ReadWrite },
            Need { bytes: (1526 * transmit) as u64, perm: DmaPerm::Read },
        ],
{
    assert(needs(receive, transmit) =~= seq![
        Need { bytes: (16 * receive) as u64, perm: DmaPerm::Read },
        Need { bytes: (6 + 2 * receive) as u64, perm: DmaPerm::Read },
        Need { bytes: (6 + 8 * receive) as u64, perm: DmaPerm::ReadWrite },
        Need { bytes: (1526 * receive) as u64, perm: DmaPerm::Write },
        Need { bytes: (16 * transmit) as u64, perm: DmaPerm::Read },
        Need { bytes: (6 + 2 * transmit) as u64, perm: DmaPerm::Read },
        Need { bytes: (6 + 8 * transmit) as u64, perm: DmaPerm::ReadWrite },
        Need { bytes: (1526 * transmit) as u64, perm: DmaPerm::Read },
    ]);
}

/// A link serves where it has an address of its own (bit 5) and counts its
/// buffers (bit 15).
pub proof fn law_link_features_in_numbers(features: u64)
    ensures
        features & super::net::REQUIRED_FEATURES == super::net::REQUIRED_FEATURES <==> features / 32
            % 2 == 1 && features / 32768 % 2 == 1,
{
    assert((features & 0x8020 == 0x8020) == (features / 32 % 2 == 1 && features / 32768 % 2 == 1))
        by (bit_vector);
}

/// A link's address is what its first six bytes showed last, one after another,
/// in a round during which the device said nothing changed.
pub proof fn law_address_is_the_last_one_shown<W: Window>(
    common: W,
    common_after: W,
    device: W,
    device_after: W,
    mac: MacAddr,
)
    requires
        addressed(common, common_after, device, device_after, mac),
    ensures
        ({
            let t = device_after.trace();
            let n = t.len() as int;
            &&& n >= device.trace().len() + 6
            &&& t.subrange(n - 6, n) == Seq::new(
                6,
                |i: int| Access::Read { at: i as u64, width: 1, value: mac.octets@[i] as u64 },
            )
        }),
{
    let (rounds, read) = choose|rounds: Seq<(u8, u8)>, read: Seq<Seq<u8>>|
        {
            &&& grew(common, common_after, generation_reads(rounds))
            &&& grew(device, device_after, #[trigger] mac_reads(read))
            &&& #[trigger] unsettled(rounds, true)
            &&& read.len() == rounds.len()
            &&& mac.octets@ == read.last()
        };
    let t = device_after.trace();
    let n = t.len() as int;
    assert(octet_reads(read.last()).len() == 6);
    assert(t =~= device.trace() + mac_reads(read.drop_last()) + octet_reads(read.last()));
    assert(t.subrange(n - 6, n) =~= octet_reads(read.last()));
    assert(octet_reads(read.last()) =~= Seq::new(
        6,
        |i: int| Access::Read { at: i as u64, width: 1, value: mac.octets@[i] as u64 },
    ));
}

} // verus!
