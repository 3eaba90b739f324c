//! An interrupt-driven VirtIO network link.
//!
//! Initialization fills the receive queue before setting `DRIVER_OK`. After
//! the platform routes its MSI-X entry, an interrupt consumer drains
//! [`Net::receive`]; each used buffer is republished before its frame is
//! returned. No receive path polls the device.
//!
//! Both directions stage a queue's worth of frames, so a sender does not wait
//! on the device to retire the frame before it.
use vstd::prelude::*;

use crate::bytes;
use crate::dma::{self, Mapping};

use crate::virtio::config::grew;
use crate::virtio::engine::filling;
use crate::virtio::error::VirtioError;
use crate::virtio::notify::Notify;
use crate::virtio::queue::{self, Queue};
use crate::virtio::setup::{self, buffer_of, lemma_stocked, offered, stocked};
use crate::virtio::slots::{self, occupied};
use crate::window::{self, Access, MmioError, Window};

verus! {

pub const RECEIVE_QUEUE: u16 = 0;

pub const TRANSMIT_QUEUE: u16 = 1;

/// Device configuration contains a stable MAC address.
pub const VIRTIO_NET_F_MAC: u64 = 0x20;

/// The device uses the complete modern header, including `num_buffers`.
pub const VIRTIO_NET_F_MRG_RXBUF: u64 = 0x8000;

pub const REQUIRED_FEATURES: u64 = 0x8020;

/// The modern VirtIO network header includes `num_buffers`.
pub const HEADER: usize = 12;

/// One staged frame in either direction: a header and the frame behind it.
pub const BUFFER: usize = 1526;

pub const NETWORK_SIZE: u16 = 8;

/// The preposted receive buffers and which descriptor each is under.
pub struct Receive<W: Window> {
    pub queue: Queue<W>,
    pub buffers: Mapping<W>,
    pub heads: [Option<u16>; 32],
    pub notify_off: u16,
}

/// Whether every slot a table names is one of `size`.
pub open spec fn named(heads: Seq<Option<u16>>, size: int) -> bool {
    forall|i: int| 0 <= i < heads.len() ==> (#[trigger] heads[i] matches Some(slot) ==> slot < size)
}

/// Whether the first `n` descriptors off a free list, and no others, stand for
/// one buffer each, in order.
pub open spec fn filed(heads: Seq<Option<u16>>, stack: Seq<u16>, n: int) -> bool {
    &&& forall|i: int|
        0 <= i < n ==> heads[(#[trigger] queue::taken(stack, i)) as int] == Some(i as u16)
    &&& forall|d: int|
        0 <= d < heads.len() && #[trigger] heads[d] is Some ==> exists|i: int|
            0 <= i < n && #[trigger] queue::taken(stack, i) == d
}

/// Why the buffer of `slot` was the first that could not be offered: the device
/// may not write it, no descriptor is left, or one is on the free list twice.
pub open spec fn unstocked<W: Window>(
    queue: Queue<W>,
    buffers: Mapping<W>,
    slot: int,
    error: VirtioError,
) -> bool {
    &&& 0 <= slot < queue.size
    &&& slot <= queue.available
    &&& forall|i: int| 0 <= i < slot ==> #[trigger] buffer_of(buffers, i, BUFFER as int) is Ok
    &&& match buffer_of(buffers, slot, BUFFER as int) {
        Err(refused) => error == VirtioError::Dma(refused),
        Ok(_) => if slot == queue.available {
            error == VirtioError::Full
        } else {
            &&& error == VirtioError::Device
            &&& exists|i: int|
                0 <= i < slot && #[trigger] queue::taken(queue.stack(), i) == queue::taken(
                    queue.stack(),
                    slot,
                )
        },
    }
}

/// The header and frame of one received buffer, checked: `flags`, `gso` and
/// `buffers` are what the header read as.
pub open spec fn header_reads(at: int, flags: u8, gso: u8, buffers: u16) -> Seq<Access> {
    seq![
        window::read(at as u64, 1, flags as int),
        window::read((at + 1) as u64, 1, gso as int),
        window::read((at + 10) as u64, 2, buffers as int),
    ]
}

impl<W: Window> Receive<W> {
    pub open spec fn wf(&self) -> bool {
        &&& self.queue.wf()
        &&& self.buffers.window.span() >= self.queue.size * BUFFER
        &&& named(self.heads@, self.queue.size as int)
    }

    /// The buffers apart from what was read out of them.
    pub open spec fn same_buffers(&self, after: Self) -> bool {
        &&& after.buffers == (Mapping { window: after.buffers.window, ..self.buffers })
        &&& after.notify_off == self.notify_off
    }

    /// The queue once the buffer of `slot` was offered to the device.
    pub open spec fn posted(&self, slot: u16, after: Self, done: Result<(), VirtioError>) -> bool {
        &&& after.buffers == self.buffers
        &&& after.notify_off == self.notify_off
        &&& match dma::slice_of(self.buffers, (slot * BUFFER) as u64, BUFFER as u32, true) {
            Err(error) => {
                &&& done == Err::<(), VirtioError>(VirtioError::Dma(error))
                &&& after == *self
            },
            Ok(segment) => if self.queue.available == 0 {
                done == Err::<(), VirtioError>(VirtioError::Full) && after == *self
            } else {
                let head = queue::taken(self.queue.stack(), 0);
                &&& self.queue.pushed(seq![segment], after.queue)
                &&& after.heads@ == self.heads@.update(head as int, Some(slot))
                &&& done == if self.heads@[head as int] is Some {
                    Err::<(), VirtioError>(VirtioError::Device)
                } else {
                    Ok::<(), VirtioError>(())
                }
            },
        }
    }

    /// Takes a queue and its buffers, and offers every buffer to the device.
    #[verifier::loop_isolation(false)]
    pub fn new(queue: Queue<W>, buffers: Mapping<W>, notify_off: u16) -> (receive: Result<
        Self,
        VirtioError,
    >)
        requires
            queue.wf(),
        ensures
            match receive {
                Ok(receive) => {
                    &&& buffers.window.span() >= queue.size * BUFFER
                    &&& receive.wf()
                    &&& receive.buffers == buffers
                    &&& receive.notify_off == notify_off
                    &&& receive.queue.same_shape(queue)
                    &&& queue.size <= queue.available
                    &&& receive.queue.available == queue.available - queue.size
                    &&& exists|path: Seq<Queue<W>>|
                        {
                            &&& path.len() == queue.size + 1
                            &&& #[trigger] stocked(
                                path,
                                queue,
                                receive.queue,
                                buffers,
                                BUFFER as int,
                            )
                        }
                    &&& filed(receive.heads@, queue.stack(), queue.size as int)
                },
                Err(error) => if buffers.window.span() < queue.size * BUFFER {
                    error == VirtioError::Device
                } else {
                    exists|slot: int| #[trigger] unstocked(queue, buffers, slot, error)
                },
            },
    {
        if buffers.len() < queue.size() as u64 * BUFFER as u64 {
            return Err(VirtioError::Device);
        }
        let ghost stack = queue.stack();
        let ghost given = queue;
        let size: u16 = queue.size();
        let heads: [Option<u16>; 32] = [None;32];
        let mut receive = Receive { queue, buffers, heads, notify_off };
        let ghost mut path: Seq<Queue<W>> = seq![given];
        let mut slot: u16 = 0;
        while slot < size
            invariant
                size == given.size,
                given.wf(),
                stack == given.stack(),
                slot <= size,
                slot <= given.available,
                receive.wf(),
                receive.queue.same_shape(given),
                receive.buffers == buffers,
                receive.notify_off == notify_off,
                receive.queue.available == given.available - slot,
                receive.queue.stack() == stack.take(given.available - slot),
                filed(receive.heads@, stack, slot as int),
                path.len() == slot + 1,
                stocked(path, given, receive.queue, buffers, BUFFER as int),
            decreases size - slot,
        {
            let ghost before = receive;
            let done = receive.post(slot);
            proof {
                assert forall|i: int| 0 <= i < slot implies buffer_of(
                    buffers,
                    i,
                    BUFFER as int,
                ) is Ok by {
                    assert(offered(path, i, buffers, BUFFER as int));
                }
                if before.queue.available > 0 {
                    let head = queue::taken(before.queue.stack(), 0);
                    assert(head == queue::taken(stack, slot as int));
                }
                if done is Err {
                    assert(unstocked(given, buffers, slot as int, done->Err_0));
                }
            }
            done?;
            proof {
                lemma_stocked(path, given, before.queue, receive.queue, buffers, BUFFER as int);
                path = path.push(receive.queue);
                assert forall|i: int| 0 <= i < slot + 1 implies receive.heads@[(
                #[trigger] queue::taken(stack, i)) as int] == Some(i as u16) by {
                    if i < slot {
                        assert(before.heads@[queue::taken(stack, i) as int] is Some);
                    }
                }
                assert forall|d: int|
                    0 <= d < 32 && #[trigger] receive.heads@[d] is Some implies exists|i: int|
                    0 <= i < slot + 1 && #[trigger] queue::taken(stack, i) == d by {
                    if before.heads@[d] is Some {
                        let i = choose|i: int|
                            0 <= i < slot && #[trigger] queue::taken(stack, i) == d;
                        assert(queue::taken(stack, i) == d);
                    } else {
                        assert(queue::taken(stack, slot as int) == d);
                    }
                }
                assert(receive.queue.stack() =~= stack.take(given.available - slot - 1));
            }
            slot = slot + 1;
        }
        Ok(receive)
    }

    /// Offers the buffer of `slot` to the device.
    pub fn post(&mut self, slot: u16) -> (done: Result<(), VirtioError>)
        requires
            old(self).wf(),
            slot < old(self).queue.size,
        ensures
            final(self).wf(),
            old(self).posted(slot, *final(self), done),
    {
        let offset: u64 = slot as u64 * BUFFER as u64;
        let segment = match self.buffers.writable(offset, BUFFER as u32) {
            Ok(segment) => segment,
            Err(error) => return Err(VirtioError::Dma(error)),
        };
        let ghost before = *self;
        let chain = [segment];
        assert(chain@ =~= seq![segment]);
        let head: u16 = self.queue.push(&chain)?;
        let taken = self.heads[head as usize].is_some();
        self.heads[head as usize] = Some(slot);
        if taken {
            return Err(VirtioError::Device);
        }
        Ok(())
    }

    /// What one completed buffer brought: `written` bytes from the device, of
    /// which the header says one whole frame, copied into `frame`.
    pub open spec fn unloaded(
        &self,
        slot: u16,
        written: u32,
        frame: Seq<u8>,
        filled: Seq<u8>,
        after: W,
        got: Result<usize, VirtioError>,
    ) -> bool {
        let at = slot * BUFFER;
        let len = written - HEADER;
        if written < HEADER || written > BUFFER {
            &&& got == Err::<usize, VirtioError>(VirtioError::Device)
            &&& after == self.buffers.window
            &&& filled == frame
        } else if len > frame.len() {
            &&& got == Err::<usize, VirtioError>(VirtioError::Full)
            &&& after == self.buffers.window
            &&& filled == frame
        } else {
            exists|flags: u8, gso: u8, buffers: u16|
                {
                    let reads = #[trigger] header_reads(at, flags, gso, buffers);
                    if flags != 0 || gso != 0 || buffers != 1 {
                        &&& got == Err::<usize, VirtioError>(VirtioError::Device)
                        &&& grew(self.buffers.window, after, reads)
                        &&& filled == frame
                    } else {
                        &&& got == Ok::<usize, VirtioError>(len as usize)
                        &&& filled.len() == frame.len()
                        &&& filled.skip(len) =~= frame.skip(len)
                        &&& grew(
                            self.buffers.window,
                            after,
                            reads.push(
                                Access::Load { at: (at + HEADER) as u64, bytes: filled.take(len) },
                            ),
                        )
                    }
                }
        }
    }

    /// Copies the frame out of `slot`, refusing a header this driver never
    /// agreed to.
    fn unload(&mut self, slot: u16, written: u32, frame: &mut [u8]) -> (got: Result<
        usize,
        VirtioError,
    >)
        requires
            old(self).wf(),
            slot < old(self).queue.size,
        ensures
            final(self).wf(),
            final(self).queue == old(self).queue,
            final(self).heads == old(self).heads,
            old(self).same_buffers(*final(self)),
            old(self).unloaded(
                slot,
                written,
                old(frame)@,
                final(frame)@,
                final(self).buffers.window,
                got,
            ),
    {
        let ghost before = *self;
        let ghost held = frame@;
        if written < HEADER as u32 || written > BUFFER as u32 {
            return Err(VirtioError::Device);
        }
        let len: usize = written as usize - HEADER;
        if len > frame.len() {
            return Err(VirtioError::Full);
        }
        assert(self.queue.size <= 32);
        let at: u64 = slot as u64 * BUFFER as u64;
        let flags: u8 = match self.buffers.window.read_u8(at) {
            Ok(flags) => flags,
            Err(_) => return Err(VirtioError::Dma(dma::DmaError::Range)),
        };
        let gso: u8 = match self.buffers.window.read_u8(at + 1) {
            Ok(gso) => gso,
            Err(_) => return Err(VirtioError::Dma(dma::DmaError::Range)),
        };
        let buffers: u16 = match self.buffers.window.read_u16(at + 10) {
            Ok(buffers) => buffers,
            Err(_) => return Err(VirtioError::Dma(dma::DmaError::Range)),
        };
        let ghost reads = header_reads(slot * BUFFER, flags, gso, buffers);
        assert(grew(before.buffers.window, self.buffers.window, reads));
        if flags != 0 || gso != 0 || buffers != 1 {
            return Err(VirtioError::Device);
        }
        let (front, _) = frame.split_at_mut(len);
        let _ = self.buffers.window.load(at + HEADER as u64, front);
        let ghost load = self.buffers.window.trace().last();
        assert(frame@ =~= load->Load_bytes + held.skip(len as int));
        assert(frame@.take(len as int) =~= load->Load_bytes);
        assert(grew(before.buffers.window, self.buffers.window, reads.push(load)));
        Ok(len)
    }

    /// Drains one completed buffer and offers it to the device again.
    pub fn receive(&mut self, frame: &mut [u8]) -> (got: Result<Option<usize>, VirtioError>)
        requires
            old(self).wf(),
        ensures
            final(self).wf(),
            final(frame)@.len() == old(frame)@.len(),
            old(self).received(old(frame)@, final(frame)@, *final(self), got),
    {
        let ghost before = *self;
        let ghost held = frame@;
        let popped = self.queue.pop();
        let ghost middle = *self;
        let used = match popped {
            Ok(Some(used)) => used,
            Ok(None) => return Ok(None),
            Err(error) => return Err(error),
        };
        assert(before.queue.popped(middle.queue, Ok(Some(used))));
        if used.head >= 32 {
            return Err(VirtioError::Device);
        }
        let slot: u16 = match self.heads[used.head as usize] {
            Some(slot) => slot,
            None => return Err(VirtioError::Device),
        };
        self.heads[used.head as usize] = None;
        let ghost taken = *self;
        assert(named(taken.heads@, taken.queue.size as int));
        let got = self.unload(slot, used.len, frame);
        let ghost unloaded = *self;
        // A malformed packet must not drain the receive queue either.
        let again = self.post(slot);
        let result = match (again, got) {
            (Err(error), _) => Err(error),
            (Ok(()), Err(error)) => Err(error),
            (Ok(()), Ok(len)) => Ok(Some(len)),
        };
        assert(before.unloaded(slot, used.len, held, frame@, unloaded.buffers.window, got));
        assert(unloaded.posted(slot, *self, again));
        assert(before.delivered(middle.queue, used, held, frame@, *self, result));
        result
    }

    /// What draining one completed buffer did, for whatever the device had
    /// written.
    pub open spec fn received(
        &self,
        frame: Seq<u8>,
        filled: Seq<u8>,
        after: Self,
        got: Result<Option<usize>, VirtioError>,
    ) -> bool {
        exists|used: Result<Option<queue::Used>, VirtioError>, popped: Queue<W>|
            {
                &&& #[trigger] self.queue.popped(popped, used)
                &&& match used {
                    Err(error) => {
                        &&& got == Err::<Option<usize>, VirtioError>(error)
                        &&& after == (Receive { queue: popped, ..*self })
                        &&& filled == frame
                    },
                    Ok(None) => {
                        &&& got == Ok::<Option<usize>, VirtioError>(None)
                        &&& after == (Receive { queue: popped, ..*self })
                        &&& filled == frame
                    },
                    Ok(Some(used)) => if used.head >= 32 || self.heads@[used.head as int] is None {
                        &&& got == Err::<Option<usize>, VirtioError>(VirtioError::Device)
                        &&& after == (Receive { queue: popped, ..*self })
                        &&& filled == frame
                    } else {
                        self.delivered(popped, used, frame, filled, after, got)
                    },
                }
            }
    }

    /// What came of a completed buffer that was on offer: its frame, and its
    /// return to the queue.
    pub open spec fn delivered(
        &self,
        popped: Queue<W>,
        used: queue::Used,
        frame: Seq<u8>,
        filled: Seq<u8>,
        after: Self,
        got: Result<Option<usize>, VirtioError>,
    ) -> bool {
        let slot = self.heads@[used.head as int]->0;
        exists|unloaded: Self, copied: Result<usize, VirtioError>, again: Result<(), VirtioError>|
            {
                &&& #[trigger] self.unloaded(
                    slot,
                    used.len,
                    frame,
                    filled,
                    unloaded.buffers.window,
                    copied,
                )
                &&& self.same_buffers(unloaded)
                &&& unloaded.queue == popped
                &&& unloaded.heads@ == self.heads@.update(used.head as int, None)
                &&& #[trigger] unloaded.posted(slot, after, again)
                &&& got == match (again, copied) {
                    (Err(error), _) => Err::<Option<usize>, VirtioError>(error),
                    (Ok(_), Err(error)) => Err::<Option<usize>, VirtioError>(error),
                    (Ok(_), Ok(len)) => Ok::<Option<usize>, VirtioError>(Some(len)),
                }
            }
    }

    /// Tells the device there are buffers to fill.
    pub fn kick(&self, notify: &mut Notify<W>) -> (sent: Result<(), VirtioError>)
        ensures
            kicked(*old(notify), *final(notify), RECEIVE_QUEUE, self.notify_off, sent),
    {
        notify.signal(RECEIVE_QUEUE, self.notify_off)
    }
}

/// One kick of `queue`, unless its doorbell lies outside the window.
pub open spec fn kicked<W: Window>(
    before: Notify<W>,
    after: Notify<W>,
    queue: u16,
    notify_off: u16,
    sent: Result<(), VirtioError>,
) -> bool {
    &&& after.multiplier == before.multiplier
    &&& if crate::virtio::notify::rings(before.window, before.multiplier, notify_off) {
        &&& sent == Ok::<(), VirtioError>(())
        &&& grew(
            before.window,
            after.window,
            seq![
                window::write(
                    crate::virtio::notify::doorbell(before.multiplier, notify_off) as u64,
                    2,
                    queue as int,
                ),
            ],
        )
    } else {
        &&& sent == Err::<(), VirtioError>(VirtioError::Mmio(MmioError::Range))
        &&& grew(before.window, after.window, seq![])
    }
}

/// The staged frames and which descriptor each is under.
pub struct Transmit<W: Window> {
    pub queue: Queue<W>,
    pub buffers: Mapping<W>,
    pub heads: [Option<u16>; 32],
    pub notify_off: u16,
    /// The staging slots no frame is in flight from.
    pub free: [bool; 32],
}

impl<W: Window> Transmit<W> {
    pub open spec fn wf(&self) -> bool {
        &&& self.queue.wf()
        &&& self.buffers.window.span() >= self.queue.size * BUFFER
        &&& named(self.heads@, self.queue.size as int)
        &&& forall|i: int| self.queue.size <= i < 32 ==> !#[trigger] self.free@[i]
    }

    pub fn new(queue: Queue<W>, buffers: Mapping<W>, notify_off: u16) -> (transmit: Result<
        Self,
        VirtioError,
    >)
        requires
            queue.wf(),
        ensures
            match transmit {
                Ok(transmit) => {
                    &&& buffers.window.span() >= queue.size * BUFFER
                    &&& transmit.wf()
                    &&& transmit.queue == queue
                    &&& transmit.buffers == buffers
                    &&& transmit.notify_off == notify_off
                    &&& transmit.heads@ == Seq::new(32, |i: int| None::<u16>)
                    &&& transmit.free@ == Seq::new(32, |i: int| i < queue.size)
                },
                Err(error) => buffers.window.span() < queue.size * BUFFER && error
                    == VirtioError::Device,
            },
    {
        if buffers.len() < queue.size() as u64 * BUFFER as u64 {
            return Err(VirtioError::Device);
        }
        let size: u16 = queue.size();
        let mut free: [bool; 32] = [false;32];
        let mut slot: u16 = 0;
        while slot < size
            invariant
                slot <= size <= 32,
                forall|i: int| 0 <= i < 32 ==> #[trigger] free@[i] == (i < slot),
            decreases size - slot,
        {
            free[slot as usize] = true;
            slot = slot + 1;
        }
        let heads: [Option<u16>; 32] = [None;32];
        Ok(Transmit { queue, buffers, heads, notify_off, free })
    }

    /// One returned frame's slot freed, or nothing new: `Ok(true)` and
    /// `Ok(false)`.
    pub open spec fn retired(&self, after: Self, freed: Result<bool, VirtioError>) -> bool {
        exists|used: Result<Option<queue::Used>, VirtioError>|
            {
                &&& #[trigger] self.queue.popped(after.queue, used)
                &&& match used {
                    Err(error) => {
                        &&& freed == Err::<bool, VirtioError>(error)
                        &&& after == (Transmit { queue: after.queue, ..*self })
                    },
                    Ok(None) => {
                        &&& freed == Ok::<bool, VirtioError>(false)
                        &&& after == (Transmit { queue: after.queue, ..*self })
                    },
                    Ok(Some(used)) => if used.head >= 32 || self.heads@[used.head as int] is None {
                        &&& freed == Err::<bool, VirtioError>(VirtioError::Device)
                        &&& after == (Transmit { queue: after.queue, ..*self })
                    } else {
                        let slot = self.heads@[used.head as int]->0;
                        &&& freed == Ok::<bool, VirtioError>(true)
                        &&& after.heads@ == self.heads@.update(used.head as int, None)
                        &&& after.free@ == self.free@.update(slot as int, true)
                        &&& after.buffers == self.buffers
                        &&& after.notify_off == self.notify_off
                    },
                }
            }
    }

    fn retire(&mut self) -> (freed: Result<bool, VirtioError>)
        requires
            old(self).wf(),
        ensures
            final(self).wf(),
            final(self).buffers == old(self).buffers,
            final(self).notify_off == old(self).notify_off,
            final(self).queue.size == old(self).queue.size,
            old(self).retired(*final(self), freed),
            freed matches Ok(true) ==> occupied(final(self).heads@) < occupied(old(self).heads@),
    {
        let ghost before = *self;
        let popped = self.queue.pop();
        assert(before.queue.popped(self.queue, popped));
        let used = match popped {
            Ok(Some(used)) => used,
            Ok(None) => return Ok(false),
            Err(error) => return Err(error),
        };
        if used.head >= 32 {
            return Err(VirtioError::Device);
        }
        let slot: u16 = match self.heads[used.head as usize] {
            Some(slot) => slot,
            None => return Err(VirtioError::Device),
        };
        proof {
            slots::lemma_vacated(self.heads@, used.head as int);
        }
        self.heads[used.head as usize] = None;
        self.free[slot as usize] = true;
        Ok(true)
    }

    /// Frees every slot the device has finished reading.
    pub fn reap(&mut self) -> (done: Result<(), VirtioError>)
        requires
            old(self).wf(),
        ensures
            final(self).wf(),
            final(self).buffers == old(self).buffers,
            final(self).notify_off == old(self).notify_off,
            final(self).queue.size == old(self).queue.size,
            exists|path: Seq<Self>| #[trigger] swept(path, *old(self), *final(self), done),
    {
        let ghost before = *self;
        let ghost mut path: Seq<Self> = seq![*self];
        loop
            invariant
                self.wf(),
                before == *old(self),
                self.buffers == before.buffers,
                self.notify_off == before.notify_off,
                self.queue.size == before.queue.size,
                path.len() >= 1,
                path[0] == before,
                path.last() == *self,
                forall|i: int|
                    0 <= i < path.len() - 1 ==> (#[trigger] path[i]).retired(
                        path[i + 1],
                        Ok(true),
                    ),
            decreases occupied(self.heads@),
        {
            match self.retire() {
                Ok(true) => {
                    proof {
                        let longer = path.push(*self);
                        assert forall|i: int| 0 <= i < longer.len() - 1 implies (
                        #[trigger] longer[i]).retired(longer[i + 1], Ok(true)) by {
                            if i < path.len() - 1 {
                                assert(path[i].retired(path[i + 1], Ok(true)));
                            }
                        }
                        path = longer;
                    }
                },
                Ok(false) => {
                    assert(swept(path, before, *self, Ok(())));
                    return Ok(());
                },
                Err(error) => {
                    assert(swept(path, before, *self, Err(error)));
                    return Err(error);
                },
            }
        }
    }

    /// The first slot no frame is in flight from.
    pub open spec fn first_free(&self, slot: int) -> bool {
        &&& 0 <= slot < 32
        &&& self.free@[slot]
        &&& forall|i: int| 0 <= i < slot ==> !#[trigger] self.free@[i]
    }

    fn free_slot(&self) -> (slot: Option<u16>)
        requires
            self.wf(),
        ensures
            match slot {
                Some(slot) => slot < self.queue.size && self.first_free(slot as int),
                None => forall|i: int| 0 <= i < 32 ==> !#[trigger] self.free@[i],
            },
    {
        let mut slot: u16 = 0;
        while slot < self.queue.size
            invariant
                self.wf(),
                slot <= self.queue.size,
                forall|i: int| 0 <= i < slot ==> !#[trigger] self.free@[i],
            decreases self.queue.size - slot,
        {
            if self.free[slot as usize] {
                return Some(slot);
            }
            slot = slot + 1;
        }
        None
    }

    /// The staging area and queue once `frame` was handed over from `slot`.
    pub open spec fn handed(
        &self,
        slot: u16,
        frame: Seq<u8>,
        after: Self,
        done: Result<(), VirtioError>,
    ) -> bool {
        let at = slot * BUFFER;
        let head = Access::Store { at: at as u64, bytes: bytes::zeros(HEADER as nat) };
        let whole = seq![head, Access::Store { at: (at + HEADER) as u64, bytes: frame }];
        &&& after.buffers == (Mapping { window: after.buffers.window, ..self.buffers })
        &&& after.notify_off == self.notify_off
        &&& if at + HEADER + frame.len() > self.buffers.window.span() {
            &&& done == Err::<(), VirtioError>(VirtioError::Dma(dma::DmaError::Range))
            &&& grew(self.buffers.window, after.buffers.window, seq![head])
            &&& after == (Transmit { buffers: after.buffers, ..*self })
        } else {
            &&& grew(self.buffers.window, after.buffers.window, whole)
            &&& if HEADER + frame.len() > u32::MAX {
                &&& done == Err::<(), VirtioError>(VirtioError::Device)
                &&& after == (Transmit { buffers: after.buffers, ..*self })
            } else {
                match dma::slice_of(
                    self.buffers,
                    at as u64,
                    (HEADER + frame.len()) as u32,
                    false,
                ) {
                    Err(error) => {
                        &&& done == Err::<(), VirtioError>(VirtioError::Dma(error))
                        &&& after == (Transmit { buffers: after.buffers, ..*self })
                    },
                    Ok(segment) => if self.queue.available == 0 {
                        &&& done == Err::<(), VirtioError>(VirtioError::Full)
                        &&& after == (Transmit { buffers: after.buffers, ..*self })
                    } else {
                        let head = queue::taken(self.queue.stack(), 0);
                        let clash = self.heads@[head as int] is Some;
                        &&& self.queue.pushed(seq![segment], after.queue)
                        &&& after.heads@ == self.heads@.update(head as int, Some(slot))
                        &&& done == if clash {
                            Err::<(), VirtioError>(VirtioError::Device)
                        } else {
                            Ok::<(), VirtioError>(())
                        }
                        &&& after.free@ == if clash {
                            self.free@
                        } else {
                            self.free@.update(slot as int, false)
                        }
                    },
                }
            }
        }
    }

    /// Copies `frame` into a free slot and hands the device the slot.
    pub fn stage(&mut self, frame: &[u8]) -> (done: Result<(), VirtioError>)
        requires
            old(self).wf(),
        ensures
            final(self).wf(),
            final(self).notify_off == old(self).notify_off,
            old(self).staged(frame@, *final(self), done),
    {
        let ghost before = *self;
        let reaped = self.reap();
        let ghost path = choose|path: Seq<Self>| #[trigger] swept(path, before, *self, reaped);
        let ghost swept_self = *self;
        assert(swept(path, before, swept_self, reaped));
        if let Err(error) = reaped {
            return Err(error);
        }
        let slot: u16 = match self.free_slot() {
            Some(slot) => slot,
            None => return Err(VirtioError::Full),
        };
        let done = self.hand(slot, frame);
        assert(swept_self.first_free(slot as int) && swept_self.handed(slot, frame@, *self, done));
        done
    }

    /// What staging a frame did: the finished slots freed, then the first free
    /// one filled and handed over.
    pub open spec fn staged(
        &self,
        frame: Seq<u8>,
        after: Self,
        done: Result<(), VirtioError>,
    ) -> bool {
        exists|path: Seq<Self>, clean: Self, reaped: Result<(), VirtioError>|
            {
                &&& #[trigger] swept(path, *self, clean, reaped)
                &&& match reaped {
                    Err(error) => done == reaped && after == clean,
                    Ok(_) => if exists|i: int| 0 <= i < 32 && #[trigger] clean.free@[i] {
                        exists|slot: u16|
                            {
                                &&& #[trigger] clean.first_free(slot as int)
                                &&& clean.handed(slot, frame, after, done)
                            }
                    } else {
                        done == Err::<(), VirtioError>(VirtioError::Full) && after == clean
                    },
                }
            }
    }

    fn hand(&mut self, slot: u16, frame: &[u8]) -> (done: Result<(), VirtioError>)
        requires
            old(self).wf(),
            slot < old(self).queue.size,
        ensures
            final(self).wf(),
            old(self).handed(slot, frame@, *final(self), done),
    {
        let ghost before = *self;
        let offset: u64 = slot as u64 * BUFFER as u64;
        let header: [u8; 12] = [0;12];
        assert(header@ =~= bytes::zeros(HEADER as nat));
        let _ = self.buffers.window.store(offset, &header);
        if let Err(_) = self.buffers.window.store(offset + HEADER as u64, frame) {
            return Err(VirtioError::Dma(dma::DmaError::Range));
        }
        if frame.len() as u64 > 0xffff_ffff - HEADER as u64 {
            return Err(VirtioError::Device);
        }
        let segment = match self.buffers.readable(offset, HEADER as u32 + frame.len() as u32) {
            Ok(segment) => segment,
            Err(error) => return Err(VirtioError::Dma(error)),
        };
        let chain = [segment];
        assert(chain@ =~= seq![segment]);
        let head: u16 = self.queue.push(&chain)?;
        let taken = self.heads[head as usize].is_some();
        self.heads[head as usize] = Some(slot);
        if taken {
            return Err(VirtioError::Device);
        }
        self.free[slot as usize] = false;
        Ok(())
    }

    /// Tells the device there are frames to send.
    pub fn kick(&self, notify: &mut Notify<W>) -> (sent: Result<(), VirtioError>)
        ensures
            kicked(*old(notify), *final(notify), TRANSMIT_QUEUE, self.notify_off, sent),
    {
        notify.signal(TRANSMIT_QUEUE, self.notify_off)
    }
}

/// Returned frames freed one after another along `path`, until the device had
/// no more or broke its protocol.
pub open spec fn swept<W: Window>(
    path: Seq<Transmit<W>>,
    before: Transmit<W>,
    after: Transmit<W>,
    done: Result<(), VirtioError>,
) -> bool {
    &&& path.len() >= 1
    &&& path[0] == before
    &&& forall|i: int| 0 <= i < path.len() - 1 ==> (#[trigger] path[i]).retired(path[i + 1], Ok(true))
    &&& path.last().retired(
        after,
        match done {
            Ok(_) => Ok(false),
            Err(error) => Err(error),
        },
    )
}

/// The queue size this driver runs a device's queue at.
pub fn clamp_queue(device_max: u16) -> (size: Result<u16, VirtioError>)
    ensures
        size == setup::clamped(device_max, NETWORK_SIZE),
{
    setup::clamp::<8>(device_max)
}

pub fn require_features(features: u64) -> (met: Result<(), VirtioError>)
    ensures
        met == if features & REQUIRED_FEATURES == REQUIRED_FEATURES {
            Ok(())
        } else {
            Err(VirtioError::Features)
        },
{
    if features & REQUIRED_FEATURES != REQUIRED_FEATURES {
        return Err(VirtioError::Features);
    }
    Ok(())
}

/// A frame is sent as it is: twelve zero bytes and then its own into the slot's
/// 1526, and one descriptor for the device to read that covers both. Its head
/// goes into the available ring, and the slot is free no longer.
pub proof fn law_frame_is_sent_whole<W: Window>(
    before: Transmit<W>,
    after: Transmit<W>,
    slot: u16,
    frame: Seq<u8>,
    done: Result<(), VirtioError>,
)
    requires
        before.wf(),
        before.handed(slot, frame, after, done),
        slot < before.queue.size,
        frame.len() <= 1514,
        before.buffers.perm is Read,
        before.buffers.iova.address + before.buffers.window.span() <= u64::MAX,
        before.queue.available >= 1,
        before.heads@[before.queue.free@[before.queue.available - 1] as int] is None,
    ensures
        done is Ok,
        after.buffers.window.trace() == before.buffers.window.trace() + seq![
            Access::Store {
                at: (1526 * slot) as u64,
                bytes: seq![0u8, 0, 0, 0, 0, 0, 0, 0, 0, 0, 0, 0],
            },
            Access::Store { at: (1526 * slot + 12) as u64, bytes: frame },
        ],
        ({
            let head = before.queue.free@[before.queue.available - 1];
            &&& after.queue.descriptors.window.trace()
                == before.queue.descriptors.window.trace() + filling(
                head,
                before.buffers.iova.address + 1526 * slot,
                12 + frame.len() as int,
                0,
                0,
            )
            &&& after.queue.driver.window.trace() == before.queue.driver.window.trace() + seq![
                Access::Write {
                    at: (4 + 2 * (before.queue.avail_idx as int % before.queue.size as int)) as u64,
                    width: 2,
                    value: head as u64,
                },
                Access::Write {
                    at: 2,
                    width: 2,
                    value: ((before.queue.avail_idx + 1) % 65536) as u64,
                },
            ]
            &&& after.heads@[head as int] == Some(slot)
            &&& !after.free@[slot as int]
        }),
{
    reveal_with_fuel(queue::chain_written, 2);
    assert(bytes::zeros(12) =~= seq![0u8, 0, 0, 0, 0, 0, 0, 0, 0, 0, 0, 0]);
    let stack = before.queue.stack();
    let head = before.queue.free@[before.queue.available - 1];
    assert(stack[stack.len() - 1] == head);
    let segment = dma::slice_of(
        before.buffers,
        (slot * BUFFER) as u64,
        (HEADER + frame.len()) as u32,
        false,
    )->Ok_0;
    assert(queue::chain_written(stack, seq![segment], 1) =~= filling(
        head,
        before.buffers.iova.address + 1526 * slot,
        12 + frame.len() as int,
        0,
        0,
    ));
}

/// A receive buffer is offered whole: one descriptor for the device to write,
/// over the slot's 1526 bytes.
pub proof fn law_buffer_is_offered_whole<W: Window>(
    before: Receive<W>,
    after: Receive<W>,
    slot: u16,
    done: Result<(), VirtioError>,
)
    requires
        before.wf(),
        before.posted(slot, after, done),
        slot < before.queue.size,
        before.buffers.perm is Write || before.buffers.perm is ReadWrite,
        before.buffers.iova.address + before.buffers.window.span() <= u64::MAX,
        before.queue.available >= 1,
        before.heads@[before.queue.free@[before.queue.available - 1] as int] is None,
    ensures
        done is Ok,
        ({
            let head = before.queue.free@[before.queue.available - 1];
            &&& after.queue.descriptors.window.trace()
                == before.queue.descriptors.window.trace() + filling(
                head,
                before.buffers.iova.address + 1526 * slot,
                1526,
                2,
                0,
            )
            &&& after.queue.driver.window.trace() == before.queue.driver.window.trace() + seq![
                Access::Write {
                    at: (4 + 2 * (before.queue.avail_idx as int % before.queue.size as int)) as u64,
                    width: 2,
                    value: head as u64,
                },
                Access::Write {
                    at: 2,
                    width: 2,
                    value: ((before.queue.avail_idx + 1) % 65536) as u64,
                },
            ]
            &&& after.heads@[head as int] == Some(slot)
        }),
        after.buffers == before.buffers,
{
    reveal_with_fuel(queue::chain_written, 2);
    let stack = before.queue.stack();
    let head = before.queue.free@[before.queue.available - 1];
    assert(stack[stack.len() - 1] == head);
    let segment = dma::slice_of(before.buffers, (slot * BUFFER) as u64, BUFFER as u32, true)->Ok_0;
    assert(queue::chain_written(stack, seq![segment], 1) =~= filling(
        head,
        before.buffers.iova.address + 1526 * slot,
        1526,
        2,
        0,
    ));
}

/// A received frame is what the device put behind the slot's twelve header
/// bytes, as long as it said less those twelve, and is taken only where the
/// header says it is one plain buffer: no flags, no segmentation, one buffer.
/// What it does not fill of the caller's memory stays.
pub proof fn law_received_frame_is_the_devices<W: Window>(
    before: Receive<W>,
    after: W,
    slot: u16,
    written: u32,
    frame: Seq<u8>,
    filled: Seq<u8>,
    got: Result<usize, VirtioError>,
)
    requires
        before.unloaded(slot, written, frame, filled, after, got),
    ensures
        got matches Ok(len) ==> {
            &&& written == len + 12
            &&& written <= 1526
            &&& len <= frame.len() == filled.len()
            &&& after.trace() == before.buffers.window.trace() + seq![
                Access::Read { at: (1526 * slot) as u64, width: 1, value: 0 },
                Access::Read { at: (1526 * slot + 1) as u64, width: 1, value: 0 },
                Access::Read { at: (1526 * slot + 10) as u64, width: 2, value: 1 },
                Access::Load {
                    at: (1526 * slot + 12) as u64,
                    bytes: filled.subrange(0, len as int),
                },
            ]
            &&& forall|i: int| len <= i < frame.len() ==> #[trigger] filled[i] == frame[i]
        },
        got is Err ==> filled == frame,
        written < 12 || written > 1526 ==> got == Err::<usize, VirtioError>(VirtioError::Device),
        12 <= written <= 1526 && written - 12 > frame.len() ==> got == Err::<usize, VirtioError>(
            VirtioError::Full,
        ),
{
    if got is Ok {
        let len = got->Ok_0 as int;
        assert(filled.take(len) =~= filled.subrange(0, len));
        assert forall|i: int| len <= i < frame.len() implies #[trigger] filled[i] == frame[i] by {
            assert(filled.skip(len)[i - len] == frame.skip(len)[i - len]);
        }
        let (flags, gso, buffers) = choose|flags: u8, gso: u8, buffers: u16|
            {
                let reads = #[trigger] header_reads(slot * BUFFER, flags, gso, buffers);
                if flags != 0 || gso != 0 || buffers != 1 {
                    &&& got == Err::<usize, VirtioError>(VirtioError::Device)
                    &&& grew(before.buffers.window, after, reads)
                    &&& filled == frame
                } else {
                    &&& got == Ok::<usize, VirtioError>(len as usize)
                    &&& filled.len() == frame.len()
                    &&& filled.skip(len) =~= frame.skip(len)
                    &&& grew(
                        before.buffers.window,
                        after,
                        reads.push(
                            Access::Load {
                                at: (slot * BUFFER + HEADER) as u64,
                                bytes: filled.take(len),
                            },
                        ),
                    )
                }
            };
        assert(after.trace() =~= before.buffers.window.trace() + seq![
            Access::Read { at: (1526 * slot) as u64, width: 1, value: 0 },
            Access::Read { at: (1526 * slot + 1) as u64, width: 1, value: 0 },
            Access::Read { at: (1526 * slot + 10) as u64, width: 2, value: 1 },
            Access::Load { at: (1526 * slot + 12) as u64, bytes: filled.subrange(0, len) },
        ]);
    }
}

/// A kick writes the number of the queue, 0 to receive and 1 to send, to the
/// doorbell the device placed for it.
pub proof fn law_kick_names_its_queue<W: Window>(
    before: Notify<W>,
    after: Notify<W>,
    sending: bool,
    notify_off: u16,
    sent: Result<(), VirtioError>,
)
    requires
        kicked(
            before,
            after,
            if sending {
                TRANSMIT_QUEUE
            } else {
                RECEIVE_QUEUE
            },
            notify_off,
            sent,
        ),
        notify_off * before.multiplier + 2 <= before.window.span(),
    ensures
        sent is Ok,
        after.window.trace() == before.window.trace().push(
            Access::Write {
                at: (notify_off * before.multiplier) as u64,
                width: 2,
                value: if sending {
                    1
                } else {
                    0
                },
            },
        ),
{
}

} // verus!
