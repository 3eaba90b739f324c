//! A modern VirtIO block queue with several independent requests in flight.
//!
//! Each slot owns a control record and one 4 KiB bounce buffer inside mapped
//! DMA regions. Submitting only publishes descriptors; completions match the
//! returned descriptor head to the original [`BlockOp`], so a device may answer
//! out of order. Flush ordering remains the block scheduler's barrier rather
//! than an accidental consequence of a depth-one driver.
use vstd::prelude::*;

use crate::dma::{self, DmaError, DmaSlice, Mapping};
use crate::virtio::config::grew;
use crate::virtio::error::{BlockError, VirtioError};
use crate::virtio::notify::{self, Notify};
use crate::virtio::queue::{self, Queue};
use crate::virtio::request::{Completion, Requests, Token};
use crate::virtio::slots::{self, occupied};
use crate::virtio::sector::{self, BlockDone, BlockOp, RequestId, BLOCK};
use crate::window::{self, Access, MmioError, Window};

verus! {

pub const VIRTIO_BLK_T_IN: u32 = 0;

pub const VIRTIO_BLK_T_OUT: u32 = 1;

pub const VIRTIO_BLK_T_FLUSH: u32 = 4;

pub const VIRTIO_BLK_S_OK: u8 = 0;

pub const HEADER_LEN: u32 = 16;

pub const CONTROL_STRIDE: u64 = 32;

pub const STATUS_OFFSET: u64 = 16;

/// The maximum number of block requests this driver owns at once.
pub const REQUESTS: usize = 8;

pub const CONTROL_BYTES: u64 = 256;

pub const DATA_BYTES: u64 = 32768;

/// One published request.
#[derive(Debug)]
pub struct Flight {
    pub id: RequestId,
    pub head: u16,
    pub token: Token,
    /// What was asked, until the request is given up on.
    pub op: Option<BlockOp>,
}

/// The queue, its bounce buffers, and what is in flight.
pub struct Engine<W: Window> {
    pub notify: Notify<W>,
    pub queue: Queue<W>,
    pub requests: Requests<32>,
    pub control: Mapping<W>,
    pub data: Mapping<W>,
    pub flights: Vec<Option<Flight>>,
    pub ready: Vec<Option<(RequestId, BlockDone)>>,
    pub notify_off: u16,
    pub capacity: u64,
    pub depth: usize,
}

/// The request type the device is told.
pub open spec fn kind_of(op: BlockOp) -> u32 {
    match op {
        BlockOp::Read { .. } => VIRTIO_BLK_T_IN,
        BlockOp::Write { .. } => VIRTIO_BLK_T_OUT,
        BlockOp::Flush => VIRTIO_BLK_T_FLUSH,
    }
}

/// The sector the device is told.
pub open spec fn sector_of(op: BlockOp) -> u64 {
    match op {
        BlockOp::Read { sector, .. } | BlockOp::Write { sector, .. } => sector,
        BlockOp::Flush => 0,
    }
}

/// A request header, with a status the device is yet to overwrite.
pub open spec fn headed(at: int, kind: u32, sector: u64) -> Seq<Access> {
    seq![
        window::write(at as u64, 4, kind as int),
        window::write((at + 4) as u64, 4, 0),
        window::write((at + 8) as u64, 8, sector as int),
        window::write((at + 16) as u64, 1, 0xff),
    ]
}

/// The first run, then the second, with a fault in either ending it.
pub open spec fn both(
    first: Result<DmaSlice, DmaError>,
    second: Result<DmaSlice, DmaError>,
) -> Result<Seq<DmaSlice>, DmaError> {
    match (first, second) {
        (Err(error), _) => Err(error),
        (_, Err(error)) => Err(error),
        (Ok(first), Ok(second)) => Ok(seq![first, second]),
    }
}

/// What taking one step of the completion path came to.
#[derive(Debug)]
pub enum Reaped {
    /// This request is finished.
    Done(RequestId, BlockDone),
    /// A completion nobody waits for was dropped.
    Stale,
    /// Nothing yet, and a request is still live: wait for the device.
    Waiting,
    /// Nothing in flight.
    Idle,
}

/// A flight names a descriptor of the queue, and holds an operation the disk
/// can carry out.
pub open spec fn sound(flight: Option<Flight>, capacity: u64) -> bool {
    flight matches Some(flight) ==> {
        &&& flight.head < queue::MAX_SIZE
        &&& flight.token.head == flight.head
        &&& flight.op matches Some(op) ==> op.valid(capacity)
    }
}

/// Whether somebody still waits for a flight's answer.
pub open spec fn live(flight: Option<Flight>) -> bool {
    flight matches Some(flight) && flight.op is Some
}

/// The operation once the device's bytes were copied into it.
pub open spec fn filled(op: BlockOp, loaded: Seq<u8>, after: BlockOp) -> bool {
    match (op, after) {
        (
            BlockOp::Read { sector, bytes, buffer },
            BlockOp::Read { sector: to_sector, bytes: to_bytes, buffer: to },
        ) => {
            &&& to_sector == sector
            &&& to_bytes == bytes
            &&& loaded.len() == bytes
            &&& to@ =~= loaded + buffer@.skip(bytes as int)
        },
        _ => after == op,
    }
}

impl<W: Window> Engine<W> {
    pub open spec fn wf(&self) -> bool {
        &&& self.queue.wf()
        &&& self.flights@.len() == REQUESTS
        &&& self.ready@.len() == REQUESTS
        &&& self.depth <= REQUESTS
        &&& self.control.window.span() >= CONTROL_BYTES
        &&& self.data.window.span() >= DATA_BYTES
        &&& forall|i: int| 0 <= i < REQUESTS ==> #[trigger] sound(self.flights@[i], self.capacity)
    }

    /// Whether a slot has neither a request in flight nor an answer waiting.
    pub open spec fn vacant(&self, slot: int) -> bool {
        self.flights@[slot] is None && self.ready@[slot] is None
    }

    /// The first vacant slot.
    pub open spec fn first_vacant(&self, slot: int) -> bool {
        &&& 0 <= slot < self.depth
        &&& self.vacant(slot)
        &&& forall|i: int| 0 <= i < slot ==> !#[trigger] self.vacant(i)
    }

    /// The runs a request's chain names.
    pub open spec fn segments(&self, slot: int, op: BlockOp) -> Result<Seq<DmaSlice>, DmaError> {
        let at = slot * CONTROL_STRIDE;
        let data_at = (slot * BLOCK) as u64;
        let ends = both(
            dma::slice_of(self.control, at as u64, HEADER_LEN, false),
            dma::slice_of(self.control, (at + STATUS_OFFSET) as u64, 1, true),
        );
        let data = match op {
            BlockOp::Read { bytes, .. } => dma::slice_of(self.data, data_at, bytes as u32, true),
            BlockOp::Write { bytes, .. } => dma::slice_of(self.data, data_at, bytes as u32, false),
            BlockOp::Flush => Err(DmaError::Range),
        };
        match (ends, data) {
            (Err(error), _) => Err(error),
            (Ok(ends), _) if op is Flush => Ok(ends),
            (_, Err(error)) => Err(error),
            (Ok(ends), Ok(data)) => Ok(seq![ends[0], data, ends[1]]),
        }
    }

    /// The engine once a request's header, and what it writes, are in place.
    pub open spec fn prepared(&self, slot: int, op: BlockOp, after: Self) -> bool {
        &&& after.control == (Mapping { window: after.control.window, ..self.control })
        &&& after.data == (Mapping { window: after.data.window, ..self.data })
        &&& grew(
            self.control.window,
            after.control.window,
            headed(slot * CONTROL_STRIDE, kind_of(op), sector_of(op)),
        )
        &&& match op {
            BlockOp::Write { bytes, buffer, .. } => grew(
                self.data.window,
                after.data.window,
                seq![
                    Access::Store {
                        at: (slot * BLOCK) as u64,
                        bytes: buffer@.take(bytes as int),
                    },
                ],
            ),
            _ => after.data == self.data,
        }
        &&& after.notify_off == self.notify_off
        &&& after.capacity == self.capacity
        &&& after.depth == self.depth
    }

    /// The engine once it answered `op` in `slot` without asking the device.
    pub open spec fn answered(
        &self,
        slot: int,
        id: RequestId,
        op: BlockOp,
        error: BlockError,
        after: Self,
    ) -> bool {
        &&& after.ready@ == self.ready@.update(
            slot,
            Some((id, BlockDone { result: Err(error), buffer: op.held() })),
        )
        &&& after.flights == self.flights
        &&& after.queue == self.queue
        &&& after.requests == self.requests
        &&& after.notify == self.notify
    }

    /// The engine once `op` was published in `slot` and the device told, or
    /// published and given up on because the device could not be told.
    pub open spec fn published(&self, slot: int, id: RequestId, op: BlockOp, after: Self) -> bool {
        let chain = self.segments(slot, op)->Ok_0;
        let head = queue::taken(self.queue.stack(), 0);
        let held = self.requests@[head as int];
        let token = Token { head, generation: held.generation };
        let told = notify::rings(self.notify.window, self.notify.multiplier, self.notify_off);
        &&& self.queue.pushed(chain, after.queue)
        &&& after.notify.multiplier == self.notify.multiplier
        &&& if told {
            &&& grew(
                self.notify.window,
                after.notify.window,
                seq![
                    window::write(
                        notify::doorbell(self.notify.multiplier, self.notify_off) as u64,
                        2,
                        0,
                    ),
                ],
            )
            &&& after.requests@ == self.requests@.update(head as int, held.issued())
            &&& after.flights@ == self.flights@.update(
                slot,
                Some(Flight { id, head, token, op: Some(op) }),
            )
            &&& after.ready@ == self.ready@
        } else {
            &&& grew(self.notify.window, after.notify.window, seq![])
            &&& after.requests@ == self.requests@.update(
                head as int,
                held.issued().cancelled(token),
            )
            &&& after.flights@ == self.flights@.update(
                slot,
                Some(Flight { id, head, token, op: None }),
            )
            &&& after.ready@ == self.ready@.update(
                slot,
                Some(
                    (
                        id,
                        BlockDone {
                            result: Err(VirtioError::Mmio(MmioError::Range).as_block()),
                            buffer: op.held(),
                        },
                    ),
                ),
            )
        }
    }

    /// What asking for `op` as request `id` does, and whether it was taken.
    pub open spec fn asked(
        &self,
        id: RequestId,
        op: BlockOp,
        after: Self,
        started: Result<(), BlockOp>,
    ) -> bool {
        match started {
            Ok(()) => exists|slot: int|
                {
                    &&& #[trigger] self.first_vacant(slot)
                    &&& if !op.valid(self.capacity) {
                        &&& self.answered(slot, id, op, BlockError::Range, after)
                        &&& after.control == self.control
                        &&& after.data == self.data
                        &&& after.notify_off == self.notify_off
                        &&& after.capacity == self.capacity
                        &&& after.depth == self.depth
                    } else {
                        &&& self.prepared(slot, op, after)
                        &&& match self.segments(slot, op) {
                            Err(error) => self.answered(
                                slot,
                                id,
                                op,
                                VirtioError::Dma(error).as_block(),
                                after,
                            ),
                            Ok(chain) => {
                                &&& chain.len() <= self.queue.available
                                &&& self.published(slot, id, op, after)
                            },
                        }
                    }
                },
            Err(refused) => {
                &&& refused == op
                &&& after.flights == self.flights
                &&& after.ready == self.ready
                &&& after.queue == self.queue
                &&& after.requests == self.requests
                &&& after.notify == self.notify
                &&& if exists|slot: int| #[trigger] self.first_vacant(slot) {
                    exists|slot: int|
                        {
                            &&& #[trigger] self.first_vacant(slot)
                            &&& op.valid(self.capacity)
                            &&& self.prepared(slot, op, after)
                            &&& self.segments(slot, op) matches Ok(chain)
                            &&& chain.len() > self.queue.available
                        }
                } else {
                    after == *self
                }
            },
        }
    }

    /// Publishes `op` as request `id`.
    ///
    /// The operation comes back when no slot or not enough descriptors are
    /// free: the caller reaps and tries again. Whatever else is wrong with it
    /// becomes an answer that [`Engine::reap`] hands out.
    pub fn start(&mut self, id: RequestId, op: BlockOp) -> (started: Result<(), BlockOp>)
        requires
            old(self).wf(),
        ensures
            final(self).wf(),
            old(self).asked(id, op, *final(self), started),
    {
        let ghost before = *self;
        let slot: usize = match self.free_slot() {
            Some(slot) => slot,
            None => return Err(op),
        };
        assert(before.first_vacant(slot as int));
        if let Err(error) = sector::validate(self.capacity, &op) {
            self.ready[slot] = Some((id, sector::finish(op, Err(error))));
            return Ok(());
        }
        let pushed = self.prepare(slot, &op);
        let head: u16 = match pushed {
            Ok(head) => head,
            Err(VirtioError::Full) => return Err(op),
            Err(error) => {
                self.ready[slot] = Some((id, sector::finish(op, Err(BlockError::from(error)))));
                return Ok(());
            },
        };
        let token = self.requests.issue(head);
        if let Err(error) = self.notify.signal(0, self.notify_off) {
            self.requests.cancel(token);
            proof {
                let held = before.requests@[head as int];
                assert(self.requests@ =~= before.requests@.update(
                    head as int,
                    held.issued().cancelled(token),
                ));
            }
            self.flights[slot] = Some(Flight { id, head, token, op: None });
            self.ready[slot] = Some((id, sector::finish(op, Err(BlockError::from(error)))));
            return Ok(());
        }
        self.flights[slot] = Some(Flight { id, head, token, op: Some(op) });
        Ok(())
    }

    /// Lays out `op`'s header and data for `slot` and publishes its chain.
    fn prepare(&mut self, slot: usize, op: &BlockOp) -> (pushed: Result<u16, VirtioError>)
        requires
            old(self).wf(),
            slot < REQUESTS,
            op.valid(old(self).capacity),
        ensures
            final(self).wf(),
            old(self).prepared(slot as int, *op, *final(self)),
            final(self).flights == old(self).flights,
            final(self).ready == old(self).ready,
            final(self).requests == old(self).requests,
            final(self).notify == old(self).notify,
            match old(self).segments(slot as int, *op) {
                Err(error) => pushed == Err::<u16, VirtioError>(VirtioError::Dma(error))
                    && final(self).queue == old(self).queue,
                Ok(chain) => if chain.len() <= old(self).queue.available {
                    &&& old(self).queue.pushed(chain, final(self).queue)
                    &&& pushed == Ok::<u16, VirtioError>(
                        queue::taken(old(self).queue.stack(), 0),
                    )
                } else {
                    &&& pushed == Err::<u16, VirtioError>(VirtioError::Full)
                    &&& final(self).queue == old(self).queue
                },
            },
    {
        let ghost before = *self;
        let control_at: u64 = slot as u64 * CONTROL_STRIDE;
        let data_at: u64 = slot as u64 * BLOCK as u64;
        let (kind, sector) = match op {
            BlockOp::Read { sector, .. } => (VIRTIO_BLK_T_IN, *sector),
            BlockOp::Write { sector, .. } => (VIRTIO_BLK_T_OUT, *sector),
            BlockOp::Flush => (VIRTIO_BLK_T_FLUSH, 0u64),
        };
        if let BlockOp::Write { bytes, buffer, .. } = op {
            let run = vstd::slice::slice_subrange(buffer.as_slice(), 0, *bytes);
            assert(run@ =~= buffer@.take(*bytes as int));
            let _ = self.data.window.store(data_at, run);
        }
        self.header(control_at, kind, sector);
        assert(before.prepared(slot as int, *op, *self));

        let ends = match (
            self.control.readable(control_at, HEADER_LEN),
            self.control.writable(control_at + STATUS_OFFSET, 1),
        ) {
            (Ok(header), Ok(status)) => Ok((header, status)),
            (Err(error), _) => Err(error),
            (_, Err(error)) => Err(error),
        };
        match ends {
            Err(error) => Err(VirtioError::Dma(error)),
            Ok((header, status)) => match op {
                BlockOp::Read { bytes, .. } => match self.data.writable(data_at, *bytes as u32) {
                    Ok(data) => {
                        let chain = [header, data, status];
                        assert(chain@ =~= before.segments(slot as int, *op)->Ok_0);
                        self.queue.push(&chain)
                    },
                    Err(error) => Err(VirtioError::Dma(error)),
                },
                BlockOp::Write { bytes, .. } => match self.data.readable(data_at, *bytes as u32) {
                    Ok(data) => {
                        let chain = [header, data, status];
                        assert(chain@ =~= before.segments(slot as int, *op)->Ok_0);
                        self.queue.push(&chain)
                    },
                    Err(error) => Err(VirtioError::Dma(error)),
                },
                BlockOp::Flush => {
                    let chain = [header, status];
                    assert(chain@ =~= before.segments(slot as int, *op)->Ok_0);
                    self.queue.push(&chain)
                },
            },
        }
    }

    fn header(&mut self, at: u64, kind: u32, sector: u64)
        requires
            at <= CONTROL_BYTES,
            at + CONTROL_STRIDE <= old(self).control.window.span(),
        ensures
            *final(self) == (Engine {
                control: Mapping { window: final(self).control.window, ..old(self).control },
                ..*old(self)
            }),
            grew(
                old(self).control.window,
                final(self).control.window,
                headed(at as int, kind, sector),
            ),
    {
        let _ = self.control.window.write_u32(at, kind);
        let _ = self.control.window.write_u32(at + 4, 0);
        let _ = self.control.window.write_u64(at + 8, sector);
        let _ = self.control.window.write_u8(at + STATUS_OFFSET, 0xff);
    }

    fn free_slot(&self) -> (slot: Option<usize>)
        requires
            self.wf(),
        ensures
            match slot {
                Some(slot) => self.first_vacant(slot as int),
                None => forall|i: int| 0 <= i < self.depth ==> !#[trigger] self.vacant(i),
            },
    {
        let mut slot: usize = 0;
        while slot < self.depth
            invariant
                self.wf(),
                slot <= self.depth,
                forall|i: int| 0 <= i < slot ==> !#[trigger] self.vacant(i),
            decreases self.depth - slot,
        {
            if self.flights[slot].is_none() && self.ready[slot].is_none() {
                assert(self.vacant(slot as int));
                return Some(slot);
            }
            slot = slot + 1;
        }
        None
    }

    /// The engine apart from its queue, requests, flights and answers.
    pub open spec fn same_setup(&self, after: Self) -> bool {
        &&& after.notify == self.notify
        &&& after.notify_off == self.notify_off
        &&& after.capacity == self.capacity
        &&& after.depth == self.depth
    }

    /// The engine once the answer waiting in `slot` was handed out.
    pub open spec fn handed(&self, slot: int, after: Self) -> bool {
        &&& 0 <= slot < REQUESTS
        &&& self.ready@[slot] is Some
        &&& forall|i: int| 0 <= i < slot ==> #[trigger] self.ready@[i] is None
        &&& after.ready@ == self.ready@.update(slot, None)
        &&& after.flights == self.flights
        &&& after.queue == self.queue
        &&& after.requests == self.requests
        &&& after.control == self.control
        &&& after.data == self.data
        &&& self.same_setup(after)
    }

    /// The engine once it gave up on its first live request with `error`, or
    /// found none to give up on.
    pub open spec fn failed(&self, error: BlockError, after: Self, out: Reaped) -> bool {
        &&& after.ready == self.ready
        &&& after.control == self.control
        &&& after.data == self.data
        &&& after.queue == self.queue
        &&& self.same_setup(after)
        &&& match out {
            Reaped::Done(id, done) => exists|slot: int|
                {
                    &&& 0 <= slot < REQUESTS
                    &&& #[trigger] live(self.flights@[slot])
                    &&& forall|i: int| 0 <= i < slot ==> !live(#[trigger] self.flights@[i])
                    &&& id == self.flights@[slot]->0.id
                    &&& done == BlockDone {
                        result: Err(error),
                        buffer: self.flights@[slot]->0.op->0.held(),
                    }
                    &&& after.flights@ == self.flights@.update(
                        slot,
                        Some(Flight { op: None, ..self.flights@[slot]->0 }),
                    )
                    &&& after.requests@ == self.requests@.update(
                        self.flights@[slot]->0.head as int,
                        self.requests@[self.flights@[slot]->0.head as int].cancelled(
                            self.flights@[slot]->0.token,
                        ),
                    )
                },
            Reaped::Idle => {
                &&& forall|i: int| 0 <= i < REQUESTS ==> !live(#[trigger] self.flights@[i])
                &&& after.flights == self.flights
                &&& after.requests == self.requests
            },
            _ => false,
        }
    }

    /// The operation in `slot` finished: its status read, and what it read
    /// copied out.
    pub open spec fn finished(&self, slot: int, op: BlockOp, after: Self, done: BlockDone) -> bool {
        exists|status: u8, loaded: Seq<u8>, filled_op: BlockOp|
            {
                &&& #[trigger] filled(op, loaded, filled_op)
                &&& grew(
                    self.control.window,
                    after.control.window,
                    seq![
                        #[trigger] window::read(
                            (slot * CONTROL_STRIDE + STATUS_OFFSET) as u64,
                            1,
                            status as int,
                        ),
                    ],
                )
                &&& if status == VIRTIO_BLK_S_OK {
                    &&& done == (BlockDone { result: Ok(()), buffer: filled_op.held() })
                    &&& if op is Read {
                        grew(
                            self.data.window,
                            after.data.window,
                            seq![Access::Load { at: (slot * BLOCK) as u64, bytes: loaded }],
                        )
                    } else {
                        after.data.window == self.data.window
                    }
                } else {
                    &&& done == (BlockDone {
                        result: Err(BlockError::Device),
                        buffer: op.held(),
                    })
                    &&& after.data.window == self.data.window
                }
            }
    }

    /// The engine once the device returned `head`, and the flight in `slot`,
    /// the first waiting on it, was landed.
    pub open spec fn landed(&self, head: u16, slot: int, after: Self, out: Reaped) -> bool {
        let flight = self.flights@[slot]->0;
        &&& 0 <= slot < REQUESTS
        &&& self.flights@[slot] is Some
        &&& flight.head == head
        &&& forall|i: int|
            0 <= i < slot ==> !(#[trigger] self.flights@[i] matches Some(other) && other.head
                == head)
        &&& after.flights@ == self.flights@.update(slot, None)
        &&& after.requests@ == self.requests@.update(
            head as int,
            self.requests@[head as int].completed(),
        )
        &&& after.ready == self.ready
        &&& self.same_setup(after)
        &&& after.control == (Mapping { window: after.control.window, ..self.control })
        &&& after.data == (Mapping { window: after.data.window, ..self.data })
        &&& match flight.op {
            Some(op) if self.requests@[head as int].outcome() is Delivered => {
                &&& out matches Reaped::Done(id, done)
                &&& id == flight.id
                &&& self.finished(slot, op, after, done)
            },
            _ => out is Stale && after.control == self.control && after.data == self.data,
        }
    }

    /// One step of the completion path: an answer already waiting goes first,
    /// then whatever the device has returned.
    pub open spec fn stepped(&self, after: Self, out: Reaped) -> bool {
        if exists|i: int| 0 <= i < REQUESTS && #[trigger] self.ready@[i] is Some {
            exists|slot: int|
                {
                    &&& #[trigger] self.handed(slot, after)
                    &&& out == Reaped::Done((self.ready@[slot]->0).0, (self.ready@[slot]->0).1)
                }
        } else {
            exists|used: Result<Option<queue::Used>, VirtioError>|
                {
                    let popped = Engine { queue: after.queue, ..*self };
                    &&& #[trigger] self.queue.popped(after.queue, used)
                    &&& match used {
                        Err(_) => popped.failed(BlockError::Device, after, out),
                        Ok(None) => {
                            &&& after.flights == self.flights
                            &&& after.ready == self.ready
                            &&& after.requests == self.requests
                            &&& after.control == self.control
                            &&& after.data == self.data
                            &&& self.same_setup(after)
                            &&& out == if exists|i: int|
                                0 <= i < REQUESTS && live(#[trigger] self.flights@[i]) {
                                Reaped::Waiting
                            } else {
                                Reaped::Idle
                            }
                        },
                        Ok(Some(used)) => if exists|i: int|
                            0 <= i < REQUESTS && (#[trigger] self.flights@[i] matches Some(flight)
                                && flight.head == used.head) {
                            exists|slot: int| #[trigger] popped.landed(used.head, slot, after, out)
                        } else {
                            popped.failed(BlockError::Device, after, out)
                        },
                    }
                }
        }
    }

    /// Takes one step of the completion path.
    pub fn step(&mut self) -> (out: Reaped)
        requires
            old(self).wf(),
        ensures
            final(self).wf(),
            old(self).stepped(*final(self), out),
            out is Stale ==> occupied(final(self).flights@) < occupied(old(self).flights@),
    {
        let ghost before = *self;
        let mut waiting: usize = 0;
        while waiting < REQUESTS
            invariant
                before == *self,
                before == *old(self),
                self.wf(),
                waiting <= REQUESTS,
                forall|i: int| 0 <= i < waiting ==> #[trigger] self.ready@[i] is None,
            decreases REQUESTS - waiting,
        {
            if self.ready[waiting].is_some() {
                assert(before.ready@[waiting as int] is Some);
                if let Some((id, done)) = self.ready[waiting].take() {
                    assert(before.handed(waiting as int, *self));
                    return Reaped::Done(id, done);
                }
            }
            waiting = waiting + 1;
        }
        match self.queue.pop() {
            Ok(Some(used)) => {
                assert(before.queue.popped(self.queue, Ok(Some(used))));
                match self.position(used.head) {
                    Some(slot) => self.land(slot, used.head),
                    None => self.fail_one(BlockError::Device),
                }
            },
            Ok(None) => {
                if self.has_live_request() {
                    Reaped::Waiting
                } else {
                    Reaped::Idle
                }
            },
            Err(_) => self.fail_one(BlockError::Device),
        }
    }

    /// The first slot whose flight waits on `head`.
    fn position(&self, head: u16) -> (slot: Option<usize>)
        requires
            self.wf(),
        ensures
            match slot {
                Some(slot) => {
                    &&& slot < REQUESTS
                    &&& self.flights@[slot as int] matches Some(flight) && flight.head == head
                    &&& forall|i: int|
                        0 <= i < slot ==> !(#[trigger] self.flights@[i] matches Some(flight)
                            && flight.head == head)
                },
                None => forall|i: int|
                    0 <= i < REQUESTS ==> !(#[trigger] self.flights@[i] matches Some(flight)
                        && flight.head == head),
            },
    {
        let mut slot: usize = 0;
        while slot < REQUESTS
            invariant
                self.wf(),
                slot <= REQUESTS,
                forall|i: int|
                    0 <= i < slot ==> !(#[trigger] self.flights@[i] matches Some(flight)
                        && flight.head == head),
            decreases REQUESTS - slot,
        {
            if let Some(flight) = &self.flights[slot] {
                if flight.head == head {
                    return Some(slot);
                }
            }
            slot = slot + 1;
        }
        None
    }

    /// Takes the answered flight out of `slot`.
    fn land(&mut self, slot: usize, head: u16) -> (out: Reaped)
        requires
            old(self).wf(),
            slot < REQUESTS,
            old(self).flights@[slot as int] matches Some(flight) && flight.head == head,
            forall|i: int|
                0 <= i < slot ==> !(#[trigger] old(self).flights@[i] matches Some(flight)
                    && flight.head == head),
        ensures
            final(self).wf(),
            final(self).queue == old(self).queue,
            old(self).landed(head, slot as int, *final(self), out),
            occupied(final(self).flights@) < occupied(old(self).flights@),
    {
        proof {
            assert(sound(self.flights@[slot as int], self.capacity));
            slots::lemma_vacated(self.flights@, slot as int);
        }
        let ghost before = *self;
        let op = match self.flights[slot].take() {
            Some(flight) => {
                let completion = self.requests.complete(head);
                match (flight.op, completion) {
                    (Some(op), Completion::Delivered) => Some((flight.id, op)),
                    _ => None,
                }
            },
            None => None,
        };
        assert(self.flights@ =~= before.flights@.update(slot as int, None));
        match op {
            Some((id, op)) => {
                let ghost asked = op;
                let (result, op) = self.complete(slot, op);
                let done = sector::finish(op, result);
                assert(before.finished(slot as int, asked, *self, done));
                Reaped::Done(id, done)
            },
            None => Reaped::Stale,
        }
    }

    /// Reads the status the device left in `slot` and copies out what a read
    /// brought.
    fn complete(&mut self, slot: usize, op: BlockOp) -> (done: (Result<(), BlockError>, BlockOp))
        requires
            slot < REQUESTS,
            old(self).control.window.span() >= CONTROL_BYTES,
            old(self).data.window.span() >= DATA_BYTES,
            op.valid(old(self).capacity),
        ensures
            *final(self) == (Engine {
                control: Mapping { window: final(self).control.window, ..old(self).control },
                data: Mapping { window: final(self).data.window, ..old(self).data },
                ..*old(self)
            }),
            final(self).control.window.span() == old(self).control.window.span(),
            final(self).data.window.span() == old(self).data.window.span(),
            exists|status: u8, loaded: Seq<u8>|
                {
                    &&& filled(op, loaded, if done.0 is Ok { done.1 } else { op })
                    &&& done.0 is Err ==> done.1 == op
                    &&& grew(
                        old(self).control.window,
                        final(self).control.window,
                        seq![
                            #[trigger] window::read(
                                (slot * CONTROL_STRIDE + STATUS_OFFSET) as u64,
                                1,
                                status as int,
                            ),
                        ],
                    )
                    &&& done.0 == if status == VIRTIO_BLK_S_OK {
                        Ok::<(), BlockError>(())
                    } else {
                        Err::<(), BlockError>(BlockError::Device)
                    }
                    &&& if done.0 is Ok && op is Read {
                        grew(
                            old(self).data.window,
                            final(self).data.window,
                            seq![#[trigger] loading((slot * BLOCK) as u64, loaded)],
                        )
                    } else {
                        final(self).data.window == old(self).data.window
                    }
                },
    {
        let control_at: u64 = slot as u64 * CONTROL_STRIDE;
        let ghost asked = op;
        let ghost before = *self;
        let status: u8 = match self.control.window.read_u8(control_at + STATUS_OFFSET) {
            Ok(status) => status,
            Err(_) => return (Err(BlockError::Device), op),
        };
        let ghost read = window::read(
            (slot * CONTROL_STRIDE + STATUS_OFFSET) as u64,
            1,
            status as int,
        );
        assert(grew(before.control.window, self.control.window, seq![read]));
        if status != VIRTIO_BLK_S_OK {
            proof {
                let buffer = asked->Read_buffer@;
                let blank = if asked is Read {
                    buffer.take(asked->Read_bytes as int)
                } else {
                    seq![]
                };
                assert(asked is Read ==> buffer =~= blank + buffer.skip(asked->Read_bytes as int));
                let load = loading((slot * BLOCK) as u64, blank);
                assert(filled(asked, blank, asked));
            }
            return (Err(BlockError::Device), op);
        }
        match op {
            BlockOp::Read { sector, bytes, buffer } => {
                let mut buffer = buffer;
                let ghost held = buffer@;
                let (front, _) = buffer.as_mut_slice().split_at_mut(bytes);
                let _ = self.data.window.load(slot as u64 * BLOCK as u64, front);
                let ghost loaded = self.data.window.trace().last()->Load_bytes;
                assert(buffer@ =~= loaded + held.skip(bytes as int));
                assert(self.data.window.trace() =~= before.data.window.trace() + seq![
                    loading((slot * BLOCK) as u64, loaded),
                ]);
                (Ok(()), BlockOp::Read { sector, bytes, buffer })
            },
            other => {
                let ghost load = loading((slot * BLOCK) as u64, seq![]);
                assert(filled(asked, seq![], other));
                (Ok(()), other)
            },
        }
    }

    fn has_live_request(&self) -> (any: bool)
        requires
            self.wf(),
        ensures
            any == exists|i: int| 0 <= i < REQUESTS && live(#[trigger] self.flights@[i]),
    {
        let mut slot: usize = 0;
        while slot < REQUESTS
            invariant
                self.wf(),
                slot <= REQUESTS,
                forall|i: int| 0 <= i < slot ==> !live(#[trigger] self.flights@[i]),
            decreases REQUESTS - slot,
        {
            if let Some(flight) = &self.flights[slot] {
                if flight.op.is_some() {
                    assert(live(self.flights@[slot as int]));
                    return true;
                }
            }
            slot = slot + 1;
        }
        false
    }

    /// Gives up on the first live request: the device did not answer in time.
    pub fn timeout_one(&mut self) -> (out: Reaped)
        requires
            old(self).wf(),
        ensures
            final(self).wf(),
            old(self).failed(BlockError::Timeout, *final(self), out),
    {
        self.fail_one(BlockError::Timeout)
    }

    /// Gives up on the first live request with `error`.
    pub fn fail_one(&mut self, error: BlockError) -> (out: Reaped)
        requires
            old(self).wf(),
        ensures
            final(self).wf(),
            old(self).failed(error, *final(self), out),
    {
        let ghost before = *self;
        let mut slot: usize = 0;
        while slot < REQUESTS
            invariant
                self.wf(),
                before == *self,
                before == *old(self),
                slot <= REQUESTS,
                forall|i: int| 0 <= i < slot ==> !live(#[trigger] self.flights@[i]),
            decreases REQUESTS - slot,
        {
            assert(sound(self.flights@[slot as int], self.capacity));
            let lives = match &self.flights[slot] {
                Some(flight) => flight.op.is_some(),
                None => false,
            };
            if lives {
                assert(live(before.flights@[slot as int]));
                if let Some(Flight { id, head, token, op: Some(op) }) = self.flights[slot].take() {
                    self.requests.cancel(token);
                    self.flights[slot] = Some(Flight { id, head, token, op: None });
                    assert(self.flights@ =~= before.flights@.update(
                        slot as int,
                        Some(Flight { op: None, ..before.flights@[slot as int]->0 }),
                    ));
                    return Reaped::Done(id, sector::finish(op, Err(error)));
                }
            }
            slot = slot + 1;
        }
        Reaped::Idle
    }

    /// What draining completions comes to: stale ones dropped, then an answer or
    /// nothing more.
    pub open spec fn reaped(&self, after: Self, out: Reaped) -> bool {
        &&& !(out is Stale)
        &&& exists|path: Seq<Self>| #[trigger] drained(path, *self, after, out)
    }

    /// Drains completions until one is somebody's answer, or the device has
    /// returned nothing more.
    pub fn reap(&mut self) -> (out: Reaped)
        requires
            old(self).wf(),
        ensures
            final(self).wf(),
            old(self).reaped(*final(self), out),
    {
        let ghost before = *self;
        let ghost mut path: Seq<Self> = seq![*self];
        loop
            invariant
                self.wf(),
                before == *old(self),
                path.len() >= 1,
                path[0] == before,
                path.last() == *self,
                forall|i: int|
                    0 <= i < path.len() - 1 ==> (#[trigger] path[i]).stepped(
                        path[i + 1],
                        Reaped::Stale,
                    ),
            decreases occupied(self.flights@),
        {
            let ghost earlier = *self;
            let out = self.step();
            if let Reaped::Stale = out {
                proof {
                    let longer = path.push(*self);
                    assert forall|i: int| 0 <= i < longer.len() - 1 implies (#[trigger] longer[i]).stepped(
                        longer[i + 1],
                        Reaped::Stale,
                    ) by {
                        if i < path.len() - 1 {
                            assert(path[i].stepped(path[i + 1], Reaped::Stale));
                        }
                    }
                    path = longer;
                }
                continue ;
            }
            assert(drained(path, before, *self, out));
            return out;
        }
    }

    /// Every mapping the device was given, in the order they are taken down.
    pub open spec fn regions(&self) -> Seq<Mapping<W>> {
        seq![
            self.queue.descriptors,
            self.queue.driver,
            self.queue.device,
            self.control,
            self.data,
        ]
    }

    /// Gives up every mapping, for a caller that has stopped the device.
    pub fn mappings(self) -> (mappings: Vec<Mapping<W>>)
        ensures
            mappings@ == self.regions(),
    {
        let Queue { descriptors, driver, device, .. } = self.queue;
        vec![descriptors, driver, device, self.control, self.data]
    }
}

/// A run of bytes copied out of a window.
pub open spec fn loading(at: u64, bytes: Seq<u8>) -> Access {
    Access::Load { at, bytes }
}

/// Stale completions dropped one after another along `path`, then one step
/// that came to `out`.
pub open spec fn drained<W: Window>(
    path: Seq<Engine<W>>,
    before: Engine<W>,
    after: Engine<W>,
    out: Reaped,
) -> bool {
    &&& path.len() >= 1
    &&& path[0] == before
    &&& forall|i: int|
        0 <= i < path.len() - 1 ==> (#[trigger] path[i]).stepped(path[i + 1], Reaped::Stale)
    &&& path.last().stepped(after, out)
}

/// Whether a disk of `capacity` 512-byte sectors can carry `op` out through one
/// 4096-byte buffer.
pub open spec fn feasible(op: BlockOp, capacity: u64) -> bool {
    match op {
        BlockOp::Read { sector, bytes, buffer } | BlockOp::Write { sector, bytes, buffer } => {
            &&& bytes == 512 || bytes == 1024 || bytes == 1536 || bytes == 2048 || bytes == 2560
                || bytes == 3072 || bytes == 3584 || bytes == 4096
            &&& buffer@.len() >= bytes
            &&& 512 * sector + bytes <= 512 * capacity
        },
        BlockOp::Flush => true,
    }
}

/// Four writes that fill one descriptor of the table.
pub open spec fn filling(
    index: u16,
    address: int,
    len: int,
    flags: u64,
    next: u16,
) -> Seq<Access> {
    seq![
        Access::Write { at: (16 * index) as u64, width: 8, value: address as u64 },
        Access::Write { at: (16 * index + 8) as u64, width: 4, value: len as u64 },
        Access::Write { at: (16 * index + 12) as u64, width: 2, value: flags },
        Access::Write { at: (16 * index + 14) as u64, width: 2, value: next as u64 },
    ]
}

/// A request that can be carried out is told to the device in full. The header
/// in the slot's 32 control bytes opens with 0 for a read, 1 for a write and 4
/// for a flush, then a zero word, the sector, and a status of 255 for the device
/// to overwrite. A write's bytes are copied to the slot's 4096 data bytes first.
/// The chain names the header for the device to read, then the data, for the
/// device to write (flag 2) where it is a read and to read where it is a write,
/// then the status for the device to write. Its head goes into the available
/// ring, the ring's index moves on by one, and queue 0 is kicked.
pub proof fn law_request_is_told_in_full<W: Window>(
    before: Engine<W>,
    after: Engine<W>,
    id: RequestId,
    op: BlockOp,
    started: Result<(), BlockOp>,
    slot: int,
)
    requires
        before.wf(),
        before.asked(id, op, after, started),
        0 <= slot < before.depth,
        before.flights@[slot] is None,
        before.ready@[slot] is None,
        forall|i: int|
            0 <= i < slot ==> (#[trigger] before.flights@[i]) is Some || before.ready@[i] is Some,
        feasible(op, before.capacity),
        before.control.perm is ReadWrite,
        before.data.perm is ReadWrite,
        before.control.iova.address + 256 <= u64::MAX,
        before.data.iova.address + 32768 <= u64::MAX,
        before.queue.available >= 3,
        before.notify_off * before.notify.multiplier + 2 <= before.notify.window.span(),
    ensures
        started is Ok,
        after.control.window.trace() == before.control.window.trace() + seq![
            Access::Write {
                at: (32 * slot) as u64,
                width: 4,
                value: match op {
                    BlockOp::Read { .. } => 0,
                    BlockOp::Write { .. } => 1,
                    BlockOp::Flush => 4,
                },
            },
            Access::Write { at: (32 * slot + 4) as u64, width: 4, value: 0 },
            Access::Write {
                at: (32 * slot + 8) as u64,
                width: 8,
                value: match op {
                    BlockOp::Read { sector, .. } => sector,
                    BlockOp::Write { sector, .. } => sector,
                    BlockOp::Flush => 0,
                },
            },
            Access::Write { at: (32 * slot + 16) as u64, width: 1, value: 255 },
        ],
        after.data.window.trace() == before.data.window.trace() + match op {
            BlockOp::Write { bytes, buffer, .. } => seq![
                Access::Store {
                    at: (4096 * slot) as u64,
                    bytes: buffer@.subrange(0, bytes as int),
                },
            ],
            _ => seq![],
        },
        ({
            let first = before.queue.free@[before.queue.available - 1];
            let second = before.queue.free@[before.queue.available - 2];
            let third = before.queue.free@[before.queue.available - 3];
            let header = before.control.iova.address + 32 * slot;
            let data = before.data.iova.address + 4096 * slot;
            let idx = (before.queue.avail_idx + 1) % 65536;
            let ring = before.queue.avail_idx as int % before.queue.size as int;
            &&& after.queue.descriptors.window.trace()
                == before.queue.descriptors.window.trace() + match op {
                BlockOp::Read { bytes, .. } => filling(first, header, 16, 1, second) + filling(
                    second,
                    data,
                    bytes as int,
                    3,
                    third,
                ) + filling(third, header + 16, 1, 2, 0),
                BlockOp::Write { bytes, .. } => filling(first, header, 16, 1, second) + filling(
                    second,
                    data,
                    bytes as int,
                    1,
                    third,
                ) + filling(third, header + 16, 1, 2, 0),
                BlockOp::Flush => filling(first, header, 16, 1, second) + filling(
                    second,
                    header + 16,
                    1,
                    2,
                    0,
                ),
            }
            &&& after.queue.driver.window.trace() == before.queue.driver.window.trace() + seq![
                Access::Write { at: (4 + 2 * ring) as u64, width: 2, value: first as u64 },
                Access::Write { at: 2, width: 2, value: idx as u64 },
            ]
            &&& after.flights@[slot] matches Some(flight)
            &&& flight.id == id
            &&& flight.head == first
            &&& flight.op == Some(op)
        }),
        after.notify.window.trace() == before.notify.window.trace().push(
            Access::Write {
                at: (before.notify_off * before.notify.multiplier) as u64,
                width: 2,
                value: 0,
            },
        ),
        forall|i: int|
            0 <= i < 8 && i != slot ==> #[trigger] after.flights@[i] == before.flights@[i],
        after.ready@ == before.ready@,
{
    reveal_with_fuel(queue::chain_written, 4);
    assert(before.first_vacant(slot)) by {
        assert forall|i: int| 0 <= i < slot implies !#[trigger] before.vacant(i) by {
            assert(before.flights@[i] is Some || before.ready@[i] is Some);
        }
    }
    assert forall|other: int| #[trigger] before.first_vacant(other) implies other == slot by {
        if other < slot {
            assert(before.vacant(other));
        }
        if slot < other {
            assert(before.vacant(slot));
        }
    }
    assert(op.valid(before.capacity));
    let stack = before.queue.stack();
    let chain = before.segments(slot, op)->Ok_0;
    assert(before.segments(slot, op) is Ok);
    assert(stack.len() == before.queue.available);
    assert(after.control.window.trace() =~= before.control.window.trace() + headed(
        32 * slot,
        kind_of(op),
        sector_of(op),
    ));
    assert(before.published(slot, id, op, after));
    let added = queue::chain_written(stack, chain, chain.len());
    let header = before.control.iova.address + 32 * slot;
    let data = before.data.iova.address + 4096 * slot;
    let first = before.queue.free@[before.queue.available - 1];
    let second = before.queue.free@[before.queue.available - 2];
    let third = before.queue.free@[before.queue.available - 3];
    match op {
        BlockOp::Read { bytes, .. } => {
            assert(added =~= filling(first, header, 16, 1, second) + filling(
                second,
                data,
                bytes as int,
                3,
                third,
            ) + filling(third, header + 16, 1, 2, 0));
        },
        BlockOp::Write { bytes, buffer, .. } => {
            assert(added =~= filling(first, header, 16, 1, second) + filling(
                second,
                data,
                bytes as int,
                1,
                third,
            ) + filling(third, header + 16, 1, 2, 0));
            assert(buffer@.take(bytes as int) =~= buffer@.subrange(0, bytes as int));
        },
        BlockOp::Flush => {
            assert(added =~= filling(first, header, 16, 1, second) + filling(
                second,
                header + 16,
                1,
                2,
                0,
            ));
        },
    }
}

/// An answered request tells what the device said of it: the status byte is read
/// from the slot's control bytes, and zero is success and nothing else is. A
/// read that succeeded hands back the bytes copied out of the slot's data; any
/// other outcome hands the buffer back as it came.
pub proof fn law_answer_is_what_the_device_said<W: Window>(
    before: Engine<W>,
    after: Engine<W>,
    slot: int,
    op: BlockOp,
    done: BlockDone,
)
    requires
        before.finished(slot, op, after, done),
        0 <= slot < 8,
        op matches BlockOp::Read { bytes, buffer, .. } ==> bytes <= buffer@.len(),
    ensures
        exists|status: u8|
            after.control.window.trace() == before.control.window.trace() + seq![
                #[trigger] window::read((32 * slot + 16) as u64, 1, status as int),
            ] && done.result == if status == 0 {
                Ok::<(), BlockError>(())
            } else {
                Err::<(), BlockError>(BlockError::Device)
            },
        match op {
            BlockOp::Read { bytes, buffer, .. } => {
                &&& done.buffer matches Some(held)
                &&& held@.len() == buffer@.len()
                &&& forall|i: int| bytes <= i < buffer@.len() ==> #[trigger] held@[i] == buffer@[i]
                &&& if done.result is Ok {
                    after.data.window.trace() == before.data.window.trace().push(
                        Access::Load {
                            at: (4096 * slot) as u64,
                            bytes: held@.subrange(0, bytes as int),
                        },
                    )
                } else {
                    held@ == buffer@ && after.data.window == before.data.window
                }
            },
            BlockOp::Write { buffer, .. } => done.buffer == Some(buffer) && after.data.window
                == before.data.window,
            BlockOp::Flush => done.buffer is None && after.data.window == before.data.window,
        },
{
    let (status, loaded, filled_op) = choose|status: u8, loaded: Seq<u8>, filled_op: BlockOp|
        {
            &&& #[trigger] filled(op, loaded, filled_op)
            &&& grew(
                before.control.window,
                after.control.window,
                seq![
                    #[trigger] window::read(
                        (slot * CONTROL_STRIDE + STATUS_OFFSET) as u64,
                        1,
                        status as int,
                    ),
                ],
            )
            &&& if status == VIRTIO_BLK_S_OK {
                &&& done == (BlockDone { result: Ok(()), buffer: filled_op.held() })
                &&& if op is Read {
                    grew(
                        before.data.window,
                        after.data.window,
                        seq![Access::Load { at: (slot * BLOCK) as u64, bytes: loaded }],
                    )
                } else {
                    after.data.window == before.data.window
                }
            } else {
                &&& done == (BlockDone { result: Err(BlockError::Device), buffer: op.held() })
                &&& after.data.window == before.data.window
            }
        };
    assert(after.control.window.trace() =~= before.control.window.trace() + seq![
        window::read((32 * slot + 16) as u64, 1, status as int),
    ]);
    if let BlockOp::Read { bytes, buffer, .. } = op {
        if status == 0 {
            let held = done.buffer->Some_0;
            assert(held@ =~= loaded + buffer@.skip(bytes as int));
            assert(held@.subrange(0, bytes as int) =~= loaded);
            assert(after.data.window.trace() =~= before.data.window.trace().push(
                Access::Load { at: (4096 * slot) as u64, bytes: loaded },
            ));
        }
    }
}

/// Only what the disk can carry out reaches the device. Anything else is answered
/// as out of range at once, its buffer handed back, with nothing written and
/// nothing published.
pub proof fn law_only_feasible_requests_reach_the_device<W: Window>(
    before: Engine<W>,
    after: Engine<W>,
    id: RequestId,
    op: BlockOp,
    slot: int,
)
    requires
        before.wf(),
        before.asked(id, op, after, Ok(())),
        0 <= slot < before.depth,
        before.flights@[slot] is None,
        before.ready@[slot] is None,
        forall|i: int|
            0 <= i < slot ==> (#[trigger] before.flights@[i]) is Some || before.ready@[i] is Some,
        !feasible(op, before.capacity),
    ensures
        after.queue == before.queue,
        after.control == before.control,
        after.data == before.data,
        after.notify == before.notify,
        after.flights == before.flights,
        after.ready@[slot] matches Some((answered, done)) && answered == id && done.result == Err::<
            (),
            BlockError,
        >(BlockError::Range) && done.buffer == match op {
            BlockOp::Read { buffer, .. } => Some(buffer),
            BlockOp::Write { buffer, .. } => Some(buffer),
            BlockOp::Flush => None,
        },
{
    assert(before.first_vacant(slot)) by {
        assert forall|i: int| 0 <= i < slot implies !#[trigger] before.vacant(i) by {
            assert(before.flights@[i] is Some || before.ready@[i] is Some);
        }
    }
    assert forall|other: int| #[trigger] before.first_vacant(other) implies other == slot by {
        if other < slot {
            assert(before.vacant(other));
        }
        if slot < other {
            assert(before.vacant(slot));
        }
    }
    assert(!op.valid(before.capacity));
}

/// A request that is given up on is answered with its own name and its own
/// buffer, and its slot stays taken, because the device may still write to it.
pub proof fn law_abandoned_request_keeps_its_slot<W: Window>(
    before: Engine<W>,
    after: Engine<W>,
    error: BlockError,
    id: RequestId,
    done: BlockDone,
    slot: int,
    flight: Flight,
    op: BlockOp,
)
    requires
        before.wf(),
        before.failed(error, after, Reaped::Done(id, done)),
        0 <= slot < 8,
        before.flights@[slot] == Some(flight),
        flight.op == Some(op),
        forall|i: int|
            0 <= i < slot ==> (#[trigger] before.flights@[i] matches Some(other) ==> other.op
                is None),
    ensures
        id == flight.id,
        done.result == Err::<(), BlockError>(error),
        done.buffer == match op {
            BlockOp::Read { buffer, .. } => Some(buffer),
            BlockOp::Write { buffer, .. } => Some(buffer),
            BlockOp::Flush => None,
        },
        after.flights@[slot] matches Some(kept) && kept.head == flight.head && kept.op is None,
        forall|i: int|
            0 <= i < 8 && i != slot ==> #[trigger] after.flights@[i] == before.flights@[i],
        after.queue == before.queue,
        after.control == before.control,
        after.data == before.data,
{
    let held = choose|held: int|
        {
            &&& 0 <= held < REQUESTS
            &&& #[trigger] live(before.flights@[held])
            &&& forall|i: int| 0 <= i < held ==> !live(#[trigger] before.flights@[i])
            &&& id == before.flights@[held]->0.id
            &&& done == BlockDone {
                result: Err(error),
                buffer: before.flights@[held]->0.op->0.held(),
            }
            &&& after.flights@ == before.flights@.update(
                held,
                Some(Flight { op: None, ..before.flights@[held]->0 }),
            )
        };
    assert(live(before.flights@[slot]));
    if held < slot {
        assert(before.flights@[held] matches Some(other) ==> other.op is None);
    }
}

/// What the device returns goes to the request that was sent under that head and
/// to nobody else. Where that request was given up on, nothing is read and nobody
/// is told; its slot is free again either way.
pub proof fn law_completion_goes_to_its_request<W: Window>(
    before: Engine<W>,
    after: Engine<W>,
    head: u16,
    slot: int,
    out: Reaped,
)
    requires
        before.wf(),
        before.landed(head, slot, after, out),
    ensures
        before.flights@[slot] matches Some(flight) && flight.head == head && (out matches Reaped::Done(
            id,
            _,
        ) ==> id == flight.id && flight.op is Some) && (flight.op is None ==> out is Stale),
        out is Done || out is Stale,
        out is Stale ==> after.control == before.control && after.data == before.data,
        after.flights@[slot] is None,
        forall|i: int|
            0 <= i < 8 && i != slot ==> #[trigger] after.flights@[i] == before.flights@[i],
        after.ready == before.ready,
{
}

/// The engine waits only while somebody waits for it, and is idle only while
/// nobody does; an answer that is ready is handed out before the device is asked.
pub proof fn law_waiting_is_for_somebody<W: Window>(before: Engine<W>, after: Engine<W>, out: Reaped)
    requires
        before.wf(),
        before.stepped(after, out),
    ensures
        out is Waiting ==> exists|i: int|
            0 <= i < 8 && (#[trigger] after.flights@[i] matches Some(flight) && flight.op is Some),
        out is Idle ==> forall|i: int|
            0 <= i < 8 ==> (#[trigger] after.flights@[i] matches Some(flight) ==> flight.op
                is None),
        (exists|i: int| 0 <= i < 8 && #[trigger] before.ready@[i] is Some) ==> {
            &&& out is Done
            &&& after.queue == before.queue
            &&& after.flights == before.flights
        },
        !(exists|i: int| 0 <= i < 8 && #[trigger] before.ready@[i] is Some) ==> after.ready
            == before.ready,
{
    if exists|i: int| 0 <= i < REQUESTS && #[trigger] before.ready@[i] is Some {
    } else {
        let used = choose|used: Result<Option<queue::Used>, VirtioError>|
            {
                let popped = Engine { queue: after.queue, ..before };
                &&& #[trigger] before.queue.popped(after.queue, used)
                &&& match used {
                    Err(_) => popped.failed(BlockError::Device, after, out),
                    Ok(None) => {
                        &&& after.flights == before.flights
                        &&& after.ready == before.ready
                        &&& out == if exists|i: int|
                            0 <= i < REQUESTS && live(#[trigger] before.flights@[i]) {
                            Reaped::Waiting
                        } else {
                            Reaped::Idle
                        }
                    },
                    Ok(Some(used)) => if exists|i: int|
                        0 <= i < REQUESTS && (#[trigger] before.flights@[i] matches Some(flight)
                            && flight.head == used.head) {
                        exists|slot: int| #[trigger] popped.landed(used.head, slot, after, out)
                    } else {
                        popped.failed(BlockError::Device, after, out)
                    },
                }
            };
        let popped = Engine { queue: after.queue, ..before };
        if out is Waiting {
            assert(exists|i: int| 0 <= i < REQUESTS && live(#[trigger] before.flights@[i]));
            let i = choose|i: int| 0 <= i < REQUESTS && live(#[trigger] before.flights@[i]);
            assert(after.flights@[i] == before.flights@[i]);
        }
        if out is Idle {
            assert forall|i: int| 0 <= i < 8 implies (
            #[trigger] after.flights@[i] matches Some(flight) ==> flight.op is None) by {
                assert(after.flights@[i] == before.flights@[i]);
                assert(!live(before.flights@[i]));
            }
        }
    }
}

} // verus!
