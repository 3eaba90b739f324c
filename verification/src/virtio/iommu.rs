//! A translating VirtIO IOMMU backend for device-scoped DMA mappings.
//!
//! The IOMMU's own two queues use identity DMA: they are the control plane
//! that creates translated address spaces for other endpoints. An endpoint is
//! attached to an isolated domain before any mapping is installed. Each map
//! reserves a page-aligned IOVA; only once the device confirmed the request
//! does the reservation become a mapping, and only once it confirmed an unmap
//! is the reservation given back.
//!
//! A request is published by one call and settled by another, with
//! [`Iommu::confirm`] asked in between until the device has answered, so
//! whoever drives the IOMMU decides how to wait.
use vstd::prelude::*;

use crate::dma::{
    self, bounded, broken_off, dismantled, met, readied, unmet, Arena, DeviceId, DmaError, DmaPerm,
    Identity, Iova, MapError, Mapping, Need, Region, UnmapError,
};
use crate::virtio::command::{
    self, Fault, EVENT_BYTES, EVENT_QUEUE, REQUEST_BYTES, REQUEST_QUEUE, STATUS_AT_ATTACH,
    STATUS_AT_MAP, STATUS_AT_UNMAP, STATUS_OK,
};
use crate::virtio::config::{self, added, grew, negotiated, Common};
use crate::virtio::domain::{knows, Domains};
use crate::virtio::engine::both;
use crate::virtio::error::VirtioError;
use crate::virtio::iova::IovaSpace;
use crate::virtio::net::{filed, kicked, named};
use crate::virtio::notify::{rings, Notify};
use crate::virtio::queue::{self, Queue};
use crate::virtio::setup::{
    self, generation_reads, greeted, handed_over, stocked, unsettled,
};
use crate::window::{self, Access, MmioError, Window};

verus! {

/// How many mappings the IOMMU keeps track of.
pub const ACTIVE: usize = 32;

/// How many endpoints it keeps apart.
pub const ENDPOINTS: usize = 8;

/// One installed mapping.
#[derive(Clone, Copy, Debug, PartialEq, Eq, Structural)]
pub struct Active {
    pub device: DeviceId,
    pub domain: u32,
    pub iova: Iova,
    pub len: u64,
    pub perm: DmaPerm,
}

/// A published request the device has not answered yet.
#[derive(Clone, Copy, Debug, PartialEq, Eq, Structural)]
pub struct Pending {
    pub head: u16,
    pub status_at: u64,
}

/// Addresses set aside for a map request the device has not answered yet.
#[derive(Clone, Copy, Debug, PartialEq, Eq, Structural)]
pub struct Reservation {
    pub slot: usize,
    pub entry: Active,
}

/// A VirtIO IOMMU controlling several isolated endpoint domains.
pub struct Iommu<W: Window, A: Arena<W>> {
    pub common: Common<W>,
    pub notify: Notify<W>,
    pub request_queue: Queue<W>,
    pub event_queue: Queue<W>,
    pub request: Mapping<W>,
    pub events: Mapping<W>,
    pub event_slots: [Option<u16>; 32],
    pub arena: A,
    pub space: IovaSpace<32>,
    pub active: [Option<Active>; 32],
    pub request_notify: u16,
    pub event_notify: u16,
    pub page: u64,
    pub domains: Domains<ENDPOINTS>,
    pub last_fault: Option<Fault>,
}

/// How many entries are for `device`.
pub open spec fn count_for(entries: Seq<Option<Active>>, device: DeviceId) -> nat
    decreases entries.len(),
{
    if entries.len() == 0 {
        0
    } else {
        count_for(entries.drop_last(), device) + if entries.last() matches Some(entry)
            && entry.device == device {
            1nat
        } else {
            0
        }
    }
}

/// Whether a table has a mapping for `device`.
pub open spec fn maps(entries: Seq<Option<Active>>, device: DeviceId) -> bool {
    exists|i: int|
        0 <= i < entries.len() && (#[trigger] entries[i] matches Some(entry) && entry.device
            == device)
}

impl<W: Window, A: Arena<W>> Iommu<W, A> {
    pub open spec fn wf(&self) -> bool {
        &&& self.request_queue.wf()
        &&& self.event_queue.wf()
        &&& self.request.window.span() >= REQUEST_BYTES
        &&& self.events.window.span() >= self.event_queue.size * EVENT_BYTES
        &&& named(self.event_slots@, self.event_queue.size as int)
        &&& self.domains.wf()
        &&& self.space.wf()
        &&& self.page > 0
        &&& forall|i: int|
            0 <= i < ACTIVE ==> (#[trigger] self.active@[i] matches Some(entry) ==> {
                &&& entry.len > 0
                &&& self.space.holds(entry.iova, entry.len)
                &&& self.domains.home(entry.device) == Some(entry.domain)
            })
        &&& forall|i: int, j: int|
            #![trigger self.active@[i], self.active@[j]]
            0 <= i < j < ACTIVE && self.active@[i] is Some && self.active@[j] is Some
                ==> self.active@[i]->0.iova != self.active@[j]->0.iova
    }

    /// The IOMMU apart from its request path.
    pub open spec fn same_state(&self, after: Self) -> bool {
        &&& after.common == self.common
        &&& after.event_queue == self.event_queue
        &&& after.events == self.events
        &&& after.event_slots == self.event_slots
        &&& after.arena == self.arena
        &&& after.request_notify == self.request_notify
        &&& after.event_notify == self.event_notify
        &&& after.page == self.page
        &&& after.last_fault == self.last_fault
    }

    /// The request path once the request in `encoded` was published, or could
    /// not be.
    pub open spec fn asked(
        &self,
        encoded: Seq<Access>,
        status_at: u64,
        after: Self,
        pending: Result<Pending, VirtioError>,
    ) -> bool {
        &&& self.same_state(after)
        &&& after.notify.multiplier == self.notify.multiplier
        &&& after.request == (Mapping { window: after.request.window, ..self.request })
        &&& grew(
            self.request.window,
            after.request.window,
            encoded.push(window::write(status_at, 1, 0xff)),
        )
        &&& match both(
            dma::slice_of(self.request, 0, status_at as u32, false),
            dma::slice_of(self.request, status_at, 4, true),
        ) {
            Err(error) => {
                &&& pending == Err::<Pending, VirtioError>(VirtioError::Dma(error))
                &&& after.request_queue == self.request_queue
                &&& after.notify == self.notify
            },
            Ok(segments) => if self.request_queue.available < 2 {
                &&& pending == Err::<Pending, VirtioError>(VirtioError::Full)
                &&& after.request_queue == self.request_queue
                &&& after.notify == self.notify
            } else {
                &&& self.request_queue.pushed(segments, after.request_queue)
                &&& exists|sent: Result<(), VirtioError>|
                    {
                        &&& #[trigger] kicked(
                            self.notify,
                            after.notify,
                            REQUEST_QUEUE,
                            self.request_notify,
                            sent,
                        )
                        &&& pending == match sent {
                            Err(error) => Err::<Pending, VirtioError>(error),
                            Ok(_) => Ok::<Pending, VirtioError>(
                                Pending {
                                    head: queue::taken(self.request_queue.stack(), 0),
                                    status_at,
                                },
                            ),
                        }
                    }
            },
        }
    }

    /// Publishes the request the buffer holds.
    fn publish(&mut self, status_at: u64) -> (pending: Result<Pending, VirtioError>)
        requires
            old(self).wf(),
            status_at + 4 <= REQUEST_BYTES,
        ensures
            final(self).wf(),
            final(self).space == old(self).space,
            final(self).active == old(self).active,
            final(self).domains == old(self).domains,
            old(self).asked(seq![], status_at, *final(self), pending),
    {
        let ghost before = *self;
        let _ = self.request.window.write_u8(status_at, 0xff);
        let (request, response) = match (
            self.request.readable(0, status_at as u32),
            self.request.writable(status_at, 4),
        ) {
            (Ok(request), Ok(response)) => (request, response),
            (Err(error), _) => return Err(VirtioError::Dma(error)),
            (_, Err(error)) => return Err(VirtioError::Dma(error)),
        };
        let chain = [request, response];
        assert(chain@ =~= seq![request, response]);
        let head: u16 = self.request_queue.push(&chain)?;
        let sent = self.notify.signal(REQUEST_QUEUE, self.request_notify);
        assert(kicked(before.notify, self.notify, REQUEST_QUEUE, self.request_notify, sent));
        sent?;
        Ok(Pending { head, status_at })
    }

    /// What the device's answer to `pending` is, or `None` while there is none.
    pub open spec fn answered(
        &self,
        pending: Pending,
        after: Self,
        answer: Option<Result<(), VirtioError>>,
    ) -> bool {
        &&& self.same_state(after)
        &&& after.notify == self.notify
        &&& after.space == self.space
        &&& after.active == self.active
        &&& after.domains == self.domains
        &&& after.request == (Mapping { window: after.request.window, ..self.request })
        &&& exists|used: Result<Option<queue::Used>, VirtioError>|
            {
                &&& #[trigger] self.request_queue.popped(after.request_queue, used)
                &&& match used {
                    Err(error) => answer == Some(Err::<(), VirtioError>(error)) && after.request
                        == self.request,
                    Ok(None) => answer == None::<Result<(), VirtioError>> && after.request
                        == self.request,
                    Ok(Some(used)) => if used.head != pending.head || used.len < 4 {
                        &&& answer == Some(Err::<(), VirtioError>(VirtioError::Device))
                        &&& after.request == self.request
                    } else {
                        exists|status: u8|
                            {
                                &&& grew(
                                    self.request.window,
                                    after.request.window,
                                    seq![
                                        #[trigger] window::read(
                                            pending.status_at,
                                            1,
                                            status as int,
                                        ),
                                    ],
                                )
                                &&& answer == Some(
                                    if status == STATUS_OK {
                                        Ok::<(), VirtioError>(())
                                    } else {
                                        Err::<(), VirtioError>(VirtioError::Iommu(status))
                                    },
                                )
                            }
                    },
                }
            }
    }

    /// Asks whether the device has answered.
    pub fn confirm(&mut self, pending: Pending) -> (answer: Option<Result<(), VirtioError>>)
        requires
            old(self).wf(),
            pending.status_at + 4 <= REQUEST_BYTES,
        ensures
            final(self).wf(),
            old(self).answered(pending, *final(self), answer),
    {
        let ghost before = *self;
        let popped = self.request_queue.pop();
        assert(before.request_queue.popped(self.request_queue, popped));
        let used = match popped {
            Ok(Some(used)) => used,
            Ok(None) => return None,
            Err(error) => return Some(Err(error)),
        };
        if used.head != pending.head || used.len < 4 {
            return Some(Err(VirtioError::Device));
        }
        let status: u8 = match self.request.window.read_u8(pending.status_at) {
            Ok(status) => status,
            Err(_) => return Some(Err(VirtioError::Dma(DmaError::Range))),
        };
        let ghost read = window::read(pending.status_at, 1, status as int);
        assert(grew(before.request.window, self.request.window, seq![read]));
        if status == STATUS_OK {
            Some(Ok(()))
        } else {
            Some(Err(VirtioError::Iommu(status)))
        }
    }

    /// Asks the device to attach `endpoint` to an isolated translation domain.
    ///
    /// The domain is set aside at once; [`Iommu::attached`] gives it up again
    /// if the device refuses.
    pub fn attach(&mut self, endpoint: DeviceId) -> (pending: Result<Pending, VirtioError>)
        requires
            old(self).wf(),
        ensures
            final(self).wf(),
            final(self).space == old(self).space,
            final(self).active == old(self).active,
            old(self).domains.same_range(final(self).domains),
            match pending {
                Ok(_) => {
                    &&& old(self).domains.refusal(endpoint) is None
                    &&& final(self).domains.home(endpoint) matches Some(domain)
                    &&& old(self).domains.lowest(domain)
                    &&& old(self).asked(
                        command::endpoint_request(command::ATTACH, domain, endpoint),
                        STATUS_AT_ATTACH,
                        *final(self),
                        pending,
                    )
                    &&& forall|other: DeviceId|
                        other != endpoint ==> #[trigger] final(self).domains.home(other) == old(
                            self,
                        ).domains.home(other)
                },
                Err(error) => {
                    &&& forall|other: DeviceId|
                        #[trigger] final(self).domains.home(other) == old(self).domains.home(other)
                    &&& match old(self).domains.refusal(endpoint) {
                        Some(refusal) => error == refusal && *final(self) == *old(self),
                        None => exists|domain: u32|
                            {
                                &&& #[trigger] old(self).domains.lowest(domain)
                                &&& old(self).asked(
                                    command::endpoint_request(command::ATTACH, domain, endpoint),
                                    STATUS_AT_ATTACH,
                                    *final(self),
                                    pending,
                                )
                            },
                    }
                },
            },
    {
        let ghost before = *self;
        let domain: u32 = self.domains.reserve(endpoint)?;
        let ghost reserved = *self;
        proof {
            let slot = choose|slot: int|
                {
                    &&& #[trigger] crate::virtio::domain::first_empty(before.domains.entries@, slot)
                    &&& self.domains.entries@ == before.domains.entries@.update(
                        slot,
                        Some(crate::virtio::domain::Attachment { device: endpoint, domain }),
                    )
                };
            self.domains.lemma_home(endpoint, slot);
            lemma_homes_kept(before.domains, self.domains, endpoint, slot);
        }
        command::encode_attach(&mut self.request, domain, endpoint);
        let ghost encoded = *self;
        let pending = self.publish(STATUS_AT_ATTACH);
        assert(before.asked(
            command::endpoint_request(command::ATTACH, domain, endpoint),
            STATUS_AT_ATTACH,
            *self,
            pending,
        ));
        if pending.is_err() {
            self.drop_domain(endpoint);
        }
        pending
    }

    /// Takes `endpoint` out of its domain, if nothing is mapped for it.
    fn drop_domain(&mut self, endpoint: DeviceId)
        requires
            old(self).wf(),
            !maps(old(self).active@, endpoint),
        ensures
            final(self).wf(),
            *final(self) == (Iommu { domains: final(self).domains, ..*old(self) }),
            old(self).domains.same_range(final(self).domains),
            final(self).domains.home(endpoint) is None,
            forall|other: DeviceId|
                other != endpoint ==> #[trigger] final(self).domains.home(other) == old(
                    self,
                ).domains.home(other),
    {
        let ghost before = *self;
        match self.domains.release(endpoint) {
            Ok(domain) => {
                proof {
                    let entry = crate::virtio::domain::Attachment { device: endpoint, domain };
                    let slot = choose|slot: int|
                        {
                            &&& 0 <= slot < 8
                            &&& #[trigger] before.domains.entries@[slot] == Some(entry)
                            &&& self.domains.entries@ == before.domains.entries@.update(slot, None)
                        };
                    lemma_homes_kept(before.domains, self.domains, endpoint, slot);
                    assert(before.domains.entries@[slot] is Some);
                    assert(!knows(self.domains.entries@, endpoint));
                    assert forall|i: int| 0 <= i < ACTIVE implies (
                    #[trigger] self.active@[i] matches Some(active) ==> active.device != endpoint) by {
                        if let Some(active) = self.active@[i] {
                            if active.device == endpoint {
                                assert(maps(before.active@, endpoint));
                            }
                        }
                    }
                }
            },
            Err(_) => {},
        }
    }

    /// Settles an attach: on anything but success the domain is given up.
    pub fn attached(
        &mut self,
        endpoint: DeviceId,
        answer: Result<(), VirtioError>,
    ) -> (done: Result<(), VirtioError>)
        requires
            old(self).wf(),
            !maps(old(self).active@, endpoint),
        ensures
            final(self).wf(),
            done == answer,
            *final(self) == (Iommu { domains: final(self).domains, ..*old(self) }),
            old(self).domains.same_range(final(self).domains),
            match answer {
                Ok(()) => *final(self) == *old(self),
                Err(_) => {
                    &&& final(self).domains.home(endpoint) is None
                    &&& forall|other: DeviceId|
                        other != endpoint ==> #[trigger] final(self).domains.home(other) == old(
                            self,
                        ).domains.home(other)
                },
            },
    {
        if answer.is_err() {
            self.drop_domain(endpoint);
        }
        answer
    }

    /// Asks the device to detach `endpoint`, once all of its mappings are gone.
    pub fn detach(&mut self, endpoint: DeviceId) -> (pending: Result<Pending, VirtioError>)
        requires
            old(self).wf(),
        ensures
            final(self).wf(),
            final(self).space == old(self).space,
            final(self).active == old(self).active,
            final(self).domains == old(self).domains,
            if maps(old(self).active@, endpoint) || old(self).domains.home(endpoint) is None {
                &&& pending == Err::<Pending, VirtioError>(VirtioError::Device)
                &&& *final(self) == *old(self)
            } else {
                old(self).asked(
                    command::endpoint_request(
                        command::DETACH,
                        old(self).domains.home(endpoint)->0,
                        endpoint,
                    ),
                    STATUS_AT_ATTACH,
                    *final(self),
                    pending,
                )
            },
    {
        if self.maps_for(endpoint) {
            return Err(VirtioError::Device);
        }
        let domain: u32 = match self.domains.domain(endpoint) {
            Some(domain) => domain,
            None => return Err(VirtioError::Device),
        };
        command::encode_detach(&mut self.request, domain, endpoint);
        self.publish(STATUS_AT_ATTACH)
    }

    /// Settles a detach: the domain is given up only on success.
    pub fn detached(
        &mut self,
        endpoint: DeviceId,
        answer: Result<(), VirtioError>,
    ) -> (done: Result<(), VirtioError>)
        requires
            old(self).wf(),
            !maps(old(self).active@, endpoint),
        ensures
            final(self).wf(),
            done == answer,
            *final(self) == (Iommu { domains: final(self).domains, ..*old(self) }),
            old(self).domains.same_range(final(self).domains),
            match answer {
                Err(_) => *final(self) == *old(self),
                Ok(()) => {
                    &&& final(self).domains.home(endpoint) is None
                    &&& forall|other: DeviceId|
                        other != endpoint ==> #[trigger] final(self).domains.home(other) == old(
                            self,
                        ).domains.home(other)
                },
            },
    {
        if answer.is_ok() {
            self.drop_domain(endpoint);
        }
        answer
    }

    fn maps_for(&self, endpoint: DeviceId) -> (any: bool)
        ensures
            any == maps(self.active@, endpoint),
    {
        let mut i: usize = 0;
        while i < ACTIVE
            invariant
                i <= ACTIVE,
                forall|k: int|
                    0 <= k < i ==> !(#[trigger] self.active@[k] matches Some(entry)
                        && entry.device == endpoint),
            decreases ACTIVE - i,
        {
            if let Some(entry) = self.active[i] {
                if entry.device == endpoint {
                    assert(self.active@[i as int] is Some);
                    return true;
                }
            }
            i = i + 1;
        }
        false
    }

    /// Most recently observed asynchronous fault, if any.
    pub fn last_fault(&self) -> (fault: Option<Fault>)
        ensures
            fault == self.last_fault,
    {
        self.last_fault
    }

    /// Number of device mappings currently installed in the domain.
    pub fn mapped(&self) -> (count: usize)
        ensures
            count == crate::virtio::slots::occupied(self.active@),
    {
        let mut count: usize = 0;
        let mut i: usize = 0;
        assert(self.active@.take(0) =~= Seq::<Option<Active>>::empty());
        while i < ACTIVE
            invariant
                i <= ACTIVE,
                count <= i,
                count == crate::virtio::slots::occupied(self.active@.take(i as int)),
            decreases ACTIVE - i,
        {
            assert(self.active@.take(i + 1).drop_last() =~= self.active@.take(i as int));
            if self.active[i].is_some() {
                count = count + 1;
            }
            i = i + 1;
        }
        assert(self.active@.take(32) =~= self.active@);
        count
    }

    /// Number of mappings installed for `endpoint`.
    pub fn mapped_for(&self, endpoint: DeviceId) -> (count: usize)
        ensures
            count == count_for(self.active@, endpoint),
    {
        let mut count: usize = 0;
        let mut i: usize = 0;
        assert(self.active@.take(0) =~= Seq::<Option<Active>>::empty());
        while i < ACTIVE
            invariant
                i <= ACTIVE,
                count <= i,
                count == count_for(self.active@.take(i as int), endpoint),
            decreases ACTIVE - i,
        {
            assert(self.active@.take(i + 1).drop_last() =~= self.active@.take(i as int));
            if let Some(entry) = self.active[i] {
                if entry.device == endpoint {
                    count = count + 1;
                }
            }
            i = i + 1;
        }
        assert(self.active@.take(32) =~= self.active@);
        count
    }
}

impl<W: Window, A: Arena<W>> Iommu<W, A> {
    /// Why a map request is refused before the device hears of it.
    pub open spec fn unmappable(&self, device: DeviceId, physical: u64, len: u64) -> Option<
        DmaError,
    > {
        if self.domains.home(device) is None {
            Some(DmaError::NotMapped)
        } else if physical % self.page != 0 || len == 0 || len % self.page != 0 {
            Some(DmaError::Alignment)
        } else if forall|i: int| 0 <= i < ACTIVE ==> #[trigger] self.active@[i] is Some {
            Some(DmaError::OutOfSpace)
        } else {
            None
        }
    }

    fn vacancy(&self) -> (slot: Option<usize>)
        ensures
            match slot {
                Some(slot) => {
                    &&& slot < ACTIVE
                    &&& self.active@[slot as int] is None
                    &&& forall|i: int| 0 <= i < slot ==> #[trigger] self.active@[i] is Some
                },
                None => forall|i: int| 0 <= i < ACTIVE ==> #[trigger] self.active@[i] is Some,
            },
    {
        let mut i: usize = 0;
        while i < ACTIVE
            invariant
                i <= ACTIVE,
                forall|k: int| 0 <= k < i ==> #[trigger] self.active@[k] is Some,
            decreases ACTIVE - i,
        {
            if self.active[i].is_none() {
                return Some(i);
            }
            i = i + 1;
        }
        None
    }

    /// Asks the device to map `len` bytes at `physical` for `device`, at
    /// addresses set aside for it.
    pub fn map(&mut self, device: DeviceId, physical: u64, len: u64, perm: DmaPerm) -> (asked:
        Result<(Reservation, Pending), DmaError>)
        requires
            old(self).wf(),
        ensures
            final(self).wf(),
            final(self).active == old(self).active,
            final(self).domains == old(self).domains,
            match asked {
                Ok((reservation, pending)) => {
                    let entry = reservation.entry;
                    &&& old(self).unmappable(device, physical, len) is None
                    &&& reservation.slot < ACTIVE
                    &&& old(self).active@[reservation.slot as int] is None
                    &&& forall|i: int|
                        0 <= i < reservation.slot ==> #[trigger] old(self).active@[i] is Some
                    &&& entry.device == device
                    &&& entry.len == len
                    &&& entry.perm == perm
                    &&& old(self).domains.home(device) == Some(entry.domain)
                    &&& old(self).space.lowest(entry.iova, len, old(self).page)
                    &&& old(self).space.reserved(entry.iova, len, final(self).space)
                    &&& final(self).reserves(reservation)
                    &&& old(self).asked(
                        command::map_request(entry.domain, entry.iova, physical, len, perm),
                        STATUS_AT_MAP,
                        *final(self),
                        Ok(pending),
                    )
                },
                Err(error) => {
                    &&& final(self).space.runs@ == old(self).space.runs@
                    &&& final(self).space.start == old(self).space.start
                    &&& final(self).space.end == old(self).space.end
                    &&& match old(self).unmappable(device, physical, len) {
                        Some(refusal) => error == refusal && *final(self) == *old(self),
                        None => {
                            ||| {
                                &&& error == DmaError::OutOfSpace
                                &&& old(self).space.crowded(len, old(self).page)
                                &&& *final(self) == *old(self)
                            }
                            ||| {
                                &&& error == DmaError::Backend
                                &&& exists|iova: Iova, refusal: VirtioError|
                                    {
                                        &&& old(self).space.lowest(iova, len, old(self).page)
                                        &&& #[trigger] old(self).asked(
                                            command::map_request(
                                                old(self).domains.home(device)->0,
                                                iova,
                                                physical,
                                                len,
                                                perm,
                                            ),
                                            STATUS_AT_MAP,
                                            *final(self),
                                            Err(refusal),
                                        )
                                    }
                            }
                        },
                    }
                },
            },
    {
        let ghost before = *self;
        let domain: u32 = match self.domains.domain(device) {
            Some(domain) => domain,
            None => return Err(DmaError::NotMapped),
        };
        if physical % self.page != 0 || len == 0 || len % self.page != 0 {
            return Err(DmaError::Alignment);
        }
        let slot: usize = match self.vacancy() {
            Some(slot) => slot,
            None => return Err(DmaError::OutOfSpace),
        };
        let iova = self.space.reserve(len, self.page)?;
        let ghost held = *self;
        proof {
            lemma_held_kept(before.space, self.space, iova, len);
            assert forall|i: int| 0 <= i < ACTIVE implies (#[trigger] self.active@[i] matches Some(
                entry,
            ) ==> self.space.holds(entry.iova, entry.len)) by {
                assert(before.active@[i] == self.active@[i]);
            }
        }
        let published = match command::encode_map(
            &mut self.request,
            domain,
            iova,
            physical,
            len,
            perm,
        ) {
            Ok(()) => self.publish(STATUS_AT_MAP),
            Err(error) => Err(error),
        };
        let ghost encoded = command::map_request(domain, iova, physical, len, perm);
        assert(encoded + seq![].push(window::write(STATUS_AT_MAP, 1, 0xff)) =~= encoded.push(
            window::write(STATUS_AT_MAP, 1, 0xff),
        ));
        assert(before.asked(encoded, STATUS_AT_MAP, *self, published));
        match published {
            Ok(pending) => {
                let entry = Active { device, domain, iova, len, perm };
                assert forall|i: int| 0 <= i < ACTIVE implies (
                #[trigger] self.active@[i] matches Some(other) ==> other.iova != iova) by {
                    assert(before.active@[i] == self.active@[i]);
                    if let Some(other) = self.active@[i] {
                        assert(before.space.holds(other.iova, other.len));
                        let run = Some(
                            crate::virtio::iova::Run { start: other.iova.address, len: other.len },
                        );
                        let k = choose|k: int|
                            0 <= k < 32 && #[trigger] before.space.runs@[k] == run;
                        assert(before.space.runs@[k] is Some);
                    }
                }
                Ok((Reservation { slot, entry }, pending))
            },
            Err(error) => {
                let ghost full = self.space;
                let ghost sent = *self;
                let released = self.space.release(iova, len);
                proof {
                    assert(full.holds(iova, len));
                    assert(released is Ok);
                    crate::virtio::iova::law_release_undoes_reserve(
                        before.space,
                        full,
                        self.space,
                        iova,
                        len,
                    );
                    assert forall|i: int| 0 <= i < ACTIVE implies (
                    #[trigger] self.active@[i] matches Some(entry) ==> self.space.holds(
                        entry.iova,
                        entry.len,
                    )) by {
                        assert(before.active@[i] == self.active@[i]);
                        if let Some(entry) = self.active@[i] {
                            assert(before.space.holds(entry.iova, entry.len));
                            let k = choose|k: int|
                                0 <= k < 32 && #[trigger] before.space.runs@[k] == Some(
                                    crate::virtio::iova::Run {
                                        start: entry.iova.address,
                                        len: entry.len,
                                    },
                                );
                            assert(self.space.runs@[k] == before.space.runs@[k]);
                        }
                    }
                    lemma_still_asked(before, encoded, STATUS_AT_MAP, sent, *self, Err(error));
                }
                Err(DmaError::Backend)
            },
        }
    }

    /// Whether a reservation made by [`Iommu::map`] still stands.
    pub open spec fn reserves(&self, reservation: Reservation) -> bool {
        &&& reservation.slot < ACTIVE
        &&& self.active@[reservation.slot as int] is None
        &&& reservation.entry.len > 0
        &&& self.space.holds(reservation.entry.iova, reservation.entry.len)
        &&& self.domains.home(reservation.entry.device) == Some(reservation.entry.domain)
        &&& forall|i: int|
            0 <= i < ACTIVE ==> (#[trigger] self.active@[i] matches Some(entry) ==> entry.iova
                != reservation.entry.iova)
    }

    /// Settles a map: on success the reservation becomes a mapping of `region`,
    /// otherwise its addresses are given back with the region.
    pub fn installed(
        &mut self,
        reservation: Reservation,
        region: Region<W>,
        answer: Result<(), VirtioError>,
    ) -> (mapped: Result<Mapping<W>, MapError<W>>)
        requires
            old(self).wf(),
            old(self).reserves(reservation),
        ensures
            final(self).wf(),
            *final(self) == (Iommu {
                space: final(self).space,
                active: final(self).active,
                ..*old(self)
            }),
            match mapped {
                Ok(mapping) => {
                    &&& answer is Ok
                    &&& final(self).active@ == old(self).active@.update(
                        reservation.slot as int,
                        Some(reservation.entry),
                    )
                    &&& final(self).space == old(self).space
                    &&& mapping == (Mapping {
                        window: region.window,
                        device: reservation.entry.device,
                        iova: reservation.entry.iova,
                        perm: reservation.entry.perm,
                        physical: region.physical,
                    })
                },
                Err(refused) => {
                    &&& answer is Err
                    &&& refused == (MapError { error: DmaError::Backend, region })
                    &&& final(self).active == old(self).active
                    &&& old(self).space.released(
                        reservation.entry.iova,
                        reservation.entry.len,
                        final(self).space,
                    )
                },
            },
    {
        let ghost before = *self;
        let Reservation { slot, entry } = reservation;
        if answer.is_err() {
            let _ = self.space.release(entry.iova, entry.len);
            proof {
                lemma_held_apart(before.space, self.space, entry.iova, entry.len);
                assert forall|i: int| 0 <= i < ACTIVE implies (
                #[trigger] self.active@[i] matches Some(other) ==> self.space.holds(
                    other.iova,
                    other.len,
                )) by {
                    assert(before.active@[i] == self.active@[i]);
                }
            }
            return Err(MapError { error: DmaError::Backend, region });
        }
        self.active[slot] = Some(entry);
        Ok(
            Mapping {
                window: region.window,
                device: entry.device,
                iova: entry.iova,
                perm: entry.perm,
                physical: region.physical,
            },
        )
    }

    /// Whether `entry` is what installed `mapping`.
    pub open spec fn installs(entry: Option<Active>, mapping: Mapping<W>) -> bool {
        &&& entry matches Some(entry)
        &&& entry.device == mapping.device
        &&& entry.iova == mapping.iova
        &&& entry.len == mapping.window.span()
        &&& entry.perm == mapping.perm
    }

    /// Asks the device to take `mapping` down, and names the entry that goes
    /// with it.
    pub fn unmap(&mut self, mapping: &Mapping<W>) -> (asked: Result<(usize, Pending), DmaError>)
        requires
            old(self).wf(),
        ensures
            final(self).wf(),
            final(self).active == old(self).active,
            final(self).space == old(self).space,
            final(self).domains == old(self).domains,
            match asked {
                Ok((slot, pending)) => {
                    &&& slot < ACTIVE
                    &&& Self::installs(old(self).active@[slot as int], *mapping)
                    &&& old(self).asked(
                        command::unmap_request(
                            old(self).active@[slot as int]->0.domain,
                            mapping.iova,
                            mapping.window.span() as u64,
                        ),
                        STATUS_AT_UNMAP,
                        *final(self),
                        Ok(pending),
                    )
                },
                Err(error) => if forall|i: int|
                    0 <= i < ACTIVE ==> !Self::installs(#[trigger] old(self).active@[i], *mapping) {
                    error == DmaError::NotMapped && *final(self) == *old(self)
                } else {
                    &&& error == DmaError::Backend
                    &&& exists|slot: int, refusal: VirtioError|
                        {
                            &&& 0 <= slot < ACTIVE
                            &&& Self::installs(old(self).active@[slot], *mapping)
                            &&& #[trigger] old(self).asked(
                                command::unmap_request(
                                    old(self).active@[slot]->0.domain,
                                    mapping.iova,
                                    mapping.window.span() as u64,
                                ),
                                STATUS_AT_UNMAP,
                                *final(self),
                                Err(refusal),
                            )
                        }
                },
            },
    {
        let len: u64 = mapping.len();
        let mut slot: usize = 0;
        while slot < ACTIVE
            invariant
                *self == *old(self),
                self.wf(),
                slot <= ACTIVE,
                len == mapping.window.span(),
                forall|k: int|
                    0 <= k < slot ==> !Self::installs(#[trigger] self.active@[k], *mapping),
            decreases ACTIVE - slot,
        {
            if let Some(entry) = self.active[slot] {
                if entry.device == mapping.device && entry.iova == mapping.iova && entry.len == len
                    && entry.perm == mapping.perm {
                    assert(Self::installs(old(self).active@[slot as int], *mapping));
                    let published = match command::encode_unmap(
                        &mut self.request,
                        entry.domain,
                        mapping.iova,
                        len,
                    ) {
                        Ok(()) => self.publish(STATUS_AT_UNMAP),
                        Err(error) => Err(error),
                    };
                    assert(old(self).asked(
                        command::unmap_request(
                            old(self).active@[slot as int]->0.domain,
                            mapping.iova,
                            mapping.window.span() as u64,
                        ),
                        STATUS_AT_UNMAP,
                        *self,
                        published,
                    ));
                    return match published {
                        Ok(pending) => Ok((slot, pending)),
                        Err(_) => Err(DmaError::Backend),
                    };
                }
            }
            slot = slot + 1;
        }
        Err(DmaError::NotMapped)
    }

    /// Settles an unmap: on success the entry and its addresses are given back
    /// with the region, otherwise the mapping stays.
    pub fn removed(
        &mut self,
        slot: usize,
        mapping: Mapping<W>,
        answer: Result<(), VirtioError>,
    ) -> (unmapped: Result<Region<W>, UnmapError<W>>)
        requires
            old(self).wf(),
            slot < ACTIVE,
            Self::installs(old(self).active@[slot as int], mapping),
        ensures
            final(self).wf(),
            *final(self) == (Iommu {
                space: final(self).space,
                active: final(self).active,
                ..*old(self)
            }),
            match unmapped {
                Ok(region) => {
                    &&& answer is Ok
                    &&& region == (Region { window: mapping.window, physical: mapping.physical })
                    &&& final(self).active@ == old(self).active@.update(slot as int, None)
                    &&& old(self).space.released(
                        mapping.iova,
                        mapping.window.span() as u64,
                        final(self).space,
                    )
                },
                Err(refused) => {
                    &&& answer is Err
                    &&& refused == (UnmapError { error: DmaError::Backend, mapping })
                    &&& *final(self) == *old(self)
                },
            },
    {
        let ghost before = *self;
        if answer.is_err() {
            return Err(UnmapError { error: DmaError::Backend, mapping });
        }
        let len: u64 = mapping.len();
        assert(self.active@[slot as int] is Some);
        if let Err(error) = self.space.release(mapping.iova, len) {
            return Err(UnmapError { error, mapping });
        }
        self.active[slot] = None;
        proof {
            lemma_held_apart(before.space, self.space, mapping.iova, len);
            assert forall|i: int| 0 <= i < ACTIVE implies (#[trigger] self.active@[i] matches Some(
                other,
            ) ==> self.space.holds(other.iova, other.len)) by {
                if i != slot {
                    assert(before.active@[i] == self.active@[i]);
                }
            }
        }
        Ok(Region { window: mapping.window, physical: mapping.physical })
    }

    /// What taking one event off the queue did: the fault recorded, and its
    /// buffer offered again.
    pub open spec fn event_taken(
        &self,
        popped: Queue<W>,
        used: queue::Used,
        after: Self,
        got: Result<Option<Fault>, VirtioError>,
    ) -> bool {
        let slot = self.event_slots@[used.head as int]->0;
        let at = slot * EVENT_BYTES;
        let cleared = self.event_slots@.update(used.head as int, None);
        if used.len < EVENT_BYTES {
            &&& got == Err::<Option<Fault>, VirtioError>(VirtioError::Device)
            &&& after.event_queue == popped
            &&& after.event_slots@ == cleared
            &&& after.last_fault == self.last_fault
            &&& after.events == self.events
            &&& after.notify == self.notify
        } else {
            exists|fault: Fault|
                {
                    &&& grew(
                        self.events.window,
                        after.events.window,
                        #[trigger] command::fault_reads(at, fault),
                    )
                    &&& after.last_fault == Some(fault)
                    &&& match dma::slice_of(self.events, at as u64, EVENT_BYTES as u32, true) {
                        Err(error) => {
                            &&& got == Err::<Option<Fault>, VirtioError>(VirtioError::Dma(error))
                            &&& after.event_queue == popped
                            &&& after.event_slots@ == cleared
                            &&& after.notify == self.notify
                        },
                        Ok(buffer) => if popped.available == 0 {
                            &&& got == Err::<Option<Fault>, VirtioError>(VirtioError::Full)
                            &&& after.event_queue == popped
                            &&& after.event_slots@ == cleared
                            &&& after.notify == self.notify
                        } else {
                            let head = queue::taken(popped.stack(), 0);
                            &&& popped.pushed(seq![buffer], after.event_queue)
                            &&& after.event_slots@ == cleared.update(head as int, Some(slot))
                            &&& got == match after.rang(self.notify) {
                                Err(error) => Err::<Option<Fault>, VirtioError>(error),
                                Ok(_) => Ok::<Option<Fault>, VirtioError>(Some(fault)),
                            }
                            &&& kicked(
                                self.notify,
                                after.notify,
                                EVENT_QUEUE,
                                self.event_notify,
                                after.rang(self.notify),
                            )
                        },
                    }
                }
        }
    }

    /// Whether the event queue's doorbell can be rung.
    pub open spec fn rang(&self, notify: Notify<W>) -> Result<(), VirtioError> {
        if crate::virtio::notify::rings(notify.window, notify.multiplier, self.event_notify) {
            Ok(())
        } else {
            Err(VirtioError::Mmio(MmioError::Range))
        }
    }

    /// The IOMMU apart from its event path.
    pub open spec fn same_but_events(&self, after: Self) -> bool {
        &&& after.common == self.common
        &&& after.request_queue == self.request_queue
        &&& after.request == self.request
        &&& after.arena == self.arena
        &&& after.space == self.space
        &&& after.active == self.active
        &&& after.domains == self.domains
        &&& after.page == self.page
        &&& after.request_notify == self.request_notify
        &&& after.event_notify == self.event_notify
        &&& after.notify.multiplier == self.notify.multiplier
        &&& after.events == (Mapping { window: after.events.window, ..self.events })
    }

    /// Takes one fault off the event queue and replenishes it. Asked until it
    /// answers `None`, it drains the queue.
    pub fn poll_faults(&mut self) -> (got: Result<Option<Fault>, VirtioError>)
        requires
            old(self).wf(),
        ensures
            final(self).wf(),
            old(self).same_but_events(*final(self)),
            old(self).polled(*final(self), got),
    {
        let ghost before = *self;
        let popped = self.event_queue.pop();
        let ghost queue = self.event_queue;
        assert(before.event_queue.popped(queue, popped));
        let used = match popped {
            Ok(Some(used)) => used,
            Ok(None) => return Ok(None),
            Err(error) => return Err(error),
        };
        if used.head >= 32 {
            return Err(VirtioError::Device);
        }
        let slot: u16 = match self.event_slots[used.head as usize] {
            Some(slot) => slot,
            None => return Err(VirtioError::Device),
        };
        self.event_slots[used.head as usize] = None;
        let got = self.take_event(slot, used.len);
        assert(before.event_taken(queue, used, *self, got));
        got
    }

    fn take_event(&mut self, slot: u16, written: u32) -> (got: Result<Option<Fault>, VirtioError>)
        requires
            old(self).wf(),
            slot < old(self).event_queue.size,
        ensures
            final(self).wf(),
            old(self).same_but_events(*final(self)),
            forall|before: Self, used: queue::Used|
                #![trigger before.event_taken(old(self).event_queue, used, *final(self), got)]
                {
                    &&& used.head < 32
                    &&& before.event_slots@[used.head as int] == Some(slot)
                    &&& used.len == written
                    &&& old(self).event_slots@ == before.event_slots@.update(used.head as int, None)
                    &&& before.events == old(self).events
                    &&& before.notify == old(self).notify
                    &&& before.event_notify == old(self).event_notify
                    &&& before.last_fault == old(self).last_fault
                } ==> before.event_taken(old(self).event_queue, used, *final(self), got),
    {
        let ghost start = *self;
        if (written as u64) < EVENT_BYTES {
            return Err(VirtioError::Device);
        }
        let at: u64 = slot as u64 * EVENT_BYTES;
        let fault = match command::parse_fault(&mut self.events, at) {
            Ok(fault) => fault,
            Err(error) => return Err(error),
        };
        let ghost reads = command::fault_reads(slot * EVENT_BYTES, fault);
        assert(grew(start.events.window, self.events.window, reads));
        self.last_fault = Some(fault);
        let buffer = match self.events.writable(at, EVENT_BYTES as u32) {
            Ok(buffer) => buffer,
            Err(error) => return Err(VirtioError::Dma(error)),
        };
        let chain = [buffer];
        assert(chain@ =~= seq![buffer]);
        let head: u16 = self.event_queue.push(&chain)?;
        self.event_slots[head as usize] = Some(slot);
        self.notify.signal(EVENT_QUEUE, self.event_notify)?;
        Ok(Some(fault))
    }

    /// What one poll of the event queue came to.
    pub open spec fn polled(&self, after: Self, got: Result<Option<Fault>, VirtioError>) -> bool {
        exists|used: Result<Option<queue::Used>, VirtioError>, popped: Queue<W>|
            {
                &&& #[trigger] self.event_queue.popped(popped, used)
                &&& match used {
                    Err(error) => {
                        &&& got == Err::<Option<Fault>, VirtioError>(error)
                        &&& after == (Iommu { event_queue: popped, ..*self })
                    },
                    Ok(None) => {
                        &&& got == Ok::<Option<Fault>, VirtioError>(None)
                        &&& after == (Iommu { event_queue: popped, ..*self })
                    },
                    Ok(Some(used)) => if used.head >= 32 || self.event_slots@[used.head as int] is None {
                        &&& got == Err::<Option<Fault>, VirtioError>(VirtioError::Device)
                        &&& after == (Iommu { event_queue: popped, ..*self })
                    } else {
                        self.event_taken(popped, used, after, got)
                    },
                }
            }
    }
}

/// Lays out queue `index` over identity-mapped memory and hands it to the
/// device.
pub fn make_queue<W: Window, A: Arena<W>>(
    common: &mut Common<W>,
    index: u16,
    vector: u16,
    controller: DeviceId,
    arena: &mut A,
    minimum: u16,
) -> (queue: Result<(Queue<W>, u16), VirtioError>)
    requires
        minimum >= 1,
    ensures
        final(common).window.span() == old(common).window.span(),
        match queue {
            Ok((queue, notify_off)) => {
                &&& old(common).window.span() >= config::BYTES
                &&& queue.size >= minimum || !queue::valid_size(minimum as int)
                &&& setup::fresh(queue, queue.size, controller)
                &&& offered_over(
                    old(common).window,
                    final(common).window,
                    index,
                    vector,
                    queue,
                    notify_off,
                )
                &&& met(
                    Identity,
                    Identity,
                    *old(arena),
                    *final(arena),
                    controller,
                    setup::rings(queue.size),
                )
                &&& setup::built(
                    Identity,
                    Identity,
                    *old(arena),
                    *final(arena),
                    queue,
                    seq![],
                )
                &&& exists|asked: W| #[trigger]
                    queue_of(old(common).window, asked, index, queue.size)
            },
            Err(VirtioError::Dma(error)) => exists|size: u16|
                {
                    &&& #[trigger] queue_of(old(common).window, final(common).window, index, size)
                    &&& unmet(
                        Identity,
                        Identity,
                        *old(arena),
                        *final(arena),
                        controller,
                        setup::rings(size),
                        error,
                    )
                },
            Err(error) => {
                ||| {
                    &&& error == VirtioError::Mmio(MmioError::Range)
                    &&& old(common).window.span() < config::BYTES
                }
                ||| {
                    &&& error == VirtioError::Device
                    &&& exists|offered: u16| #[trigger]
                        queueless(
                            old(common).window,
                            final(common).window,
                            index,
                            offered,
                            minimum,
                        )
                }
            },
        },
{
    let ghost before = common.window;
    common.select_queue(index)?;
    let offered: u16 = common.queue_size()?;
    assert(grew(before, common.window, setup::selected(index, offered)));
    let sized = command::queue_size(offered, minimum);
    assert(sized is Err ==> queueless(before, common.window, index, offered, minimum));
    let size: u16 = sized?;
    assert(queue_of(before, common.window, index, size));
    let mut identity = Identity;
    let queue = setup::lay(arena, &mut identity, controller, size)?;
    let notify_off: u16 = setup::program(common, &queue, vector)?;
    assert(grew(before, common.window, handed_over(index, offered, vector, queue, notify_off)));
    Ok((queue, notify_off))
}

/// The largest size a queue can have of at most `offered` descriptors.
pub open spec fn largest(offered: u16, size: u16) -> bool {
    &&& queue::valid_size(size as int)
    &&& size <= offered
    &&& forall|larger: int| #[trigger]
        queue::valid_size(larger) && larger <= offered ==> larger <= size
}

/// A queue was asked for, which has room for `size` descriptors.
pub open spec fn queue_of<W: Window>(before: W, after: W, index: u16, size: u16) -> bool {
    exists|offered: u16|
        {
            &&& grew(before, after, #[trigger] setup::selected(index, offered))
            &&& largest(offered, size)
        }
}

/// The memory requests and fault reports go through, with an event queue of
/// `size` descriptors.
pub open spec fn buffer_needs(size: u16) -> Seq<Need> {
    seq![
        Need { bytes: REQUEST_BYTES, perm: DmaPerm::ReadWrite },
        Need { bytes: (size * EVENT_BYTES) as u64, perm: DmaPerm::Write },
    ]
}

/// The memory the control plane needs, by the sizes of its queues.
pub open spec fn needs(requests: u16, events: u16) -> Seq<Need> {
    setup::rings(requests) + setup::rings(events) + buffer_needs(events)
}

/// Takes the memory requests and fault reports go through.
fn furnish<W: Window, A: Arena<W>>(controller: DeviceId, arena: &mut A, size: u16) -> (taken: Result<
    (Mapping<W>, Mapping<W>),
    VirtioError,
>)
    requires
        queue::valid_size(size as int),
    ensures
        match taken {
            Ok((request, events)) => {
                &&& request.window.span() >= REQUEST_BYTES
                &&& request.device == controller
                &&& request.perm == DmaPerm::ReadWrite
                &&& events.window.span() >= size * EVENT_BYTES
                &&& bounded(events.iova.address, events.window)
                &&& events.device == controller
                &&& events.perm == DmaPerm::Write
                &&& met(
                    Identity,
                    Identity,
                    *old(arena),
                    *final(arena),
                    controller,
                    buffer_needs(size),
                )
                &&& dma::furnished(
                    Identity,
                    Identity,
                    *old(arena),
                    *final(arena),
                    seq![request, events],
                )
            },
            Err(error) => {
                &&& error is Dma
                &&& unmet(
                    Identity,
                    Identity,
                    *old(arena),
                    *final(arena),
                    controller,
                    buffer_needs(size),
                    error->Dma_0,
                )
            },
        },
{
    let ghost all = buffer_needs(size);
    let ghost first = *arena;
    let mut identity = Identity;
    let made = setup::allot(
        arena,
        &mut identity,
        controller,
        REQUEST_BYTES,
        DmaPerm::ReadWrite,
    );
    let ghost second = *arena;
    proof {
        assert(all.take(1) =~= seq![all[0]]);
        assert(all =~= all.take(1) + all.skip(1));
        if made is Err {
            dma::lemma_unmet_before(
                Identity,
                Identity,
                first,
                second,
                controller,
                all.take(1),
                all.skip(1),
                made->Err_0->Dma_0,
            );
        }
    }
    let request = made?;
    let made = setup::allot(
        arena,
        &mut identity,
        controller,
        size as u64 * EVENT_BYTES,
        DmaPerm::Write,
    );
    proof {
        assert(all.skip(1) =~= seq![all[1]]);
        setup::lemma_allotted(
            Identity,
            Identity,
            Identity,
            first,
            second,
            *arena,
            controller,
            all.take(1),
            all.skip(1),
            setup::refusal(made),
        );
    }
    let events = made?;
    proof {
        let (one, two) = (seq![request], seq![events]);
        dma::lemma_furnished_both(
            Identity,
            Identity,
            Identity,
            first,
            second,
            *arena,
            one,
            two,
        );
        assert(one + two =~= seq![request, events]);
    }
    Ok((request, events))
}

/// Both queues, the event queue as it was before it was stocked, and the memory
/// requests and fault reports go through: all of it handed out by `arena`, in
/// that order, and reached at its physical address.
pub open spec fn housed<W: Window, A: Arena<W>>(
    arena: A,
    arena_after: A,
    request_queue: Queue<W>,
    event_queue: Queue<W>,
    request: Mapping<W>,
    events: Mapping<W>,
) -> bool {
    exists|middle: A|
        {
            &&& #[trigger] setup::built(
                Identity,
                Identity,
                arena,
                middle,
                request_queue,
                seq![],
            )
            &&& setup::built(
                Identity,
                Identity,
                middle,
                arena_after,
                event_queue,
                seq![request, events],
            )
        }
}

/// A queue of at most `offered` descriptors was asked for, which is fewer than
/// it takes.
pub open spec fn queueless<W: Window>(
    before: W,
    after: W,
    index: u16,
    offered: u16,
    minimum: u16,
) -> bool {
    &&& grew(before, after, setup::selected(index, offered))
    &&& offered < minimum || minimum > queue::MAX_SIZE
}

/// A device that settled on enough features, and whose generation was read in
/// `rounds`.
pub open spec fn asked_of<W: Window>(common: W, after: W, rounds: Seq<(u8, u8)>) -> bool {
    exists|one: W, accepted: u64|
        {
            &&& #[trigger] setup::shook(common, one, command::WANTED, Ok(accepted))
            &&& accepted & command::REQUIRED == command::REQUIRED
            &&& grew(one, after, generation_reads(rounds))
        }
}

/// A device that said it is configured as `config`.
pub open spec fn told<W: Window>(
    common: W,
    after: W,
    device: W,
    config: command::Config,
) -> bool {
    exists|two: W, device_after: W|
        {
            &&& asked_of(common, two, seq![])
            &&& #[trigger] command::configured(two, after, device, device_after, config)
        }
}

/// Whether no address or no domain can be handed out under a configuration.
pub open spec fn unusable(config: command::Config) -> bool {
    ||| config.page_size_mask == 0
    ||| exists|page: u64|
        {
            &&& #[trigger] command::lowest_bit(config.page_size_mask as int, page as int)
            &&& command::aperture_of(config.input_start, config.input_end, page) is None
        }
    ||| (if config.domain_start == 0 {
        1
    } else {
        config.domain_start
    }) > config.domain_end
}

/// A device that can be used, with its request queue handed over.
pub open spec fn half_up<W: Window>(
    common: W,
    after: W,
    device: W,
    vector: u16,
    queue: Queue<W>,
    notify_off: u16,
) -> bool {
    exists|three: W, config: command::Config|
        {
            &&& #[trigger] told(common, three, device, config)
            &&& !unusable(config)
            &&& #[trigger] offered_over(three, after, REQUEST_QUEUE, vector, queue, notify_off)
        }
}

/// Why a device that can be used got no queues: a window too short for its
/// registers, a queue too small, or memory that was refused.
pub open spec fn unequipped<W: Window, A: Arena<W>>(
    common: W,
    vector: u16,
    controller: DeviceId,
    arena: A,
    error: VirtioError,
) -> bool {
    ||| error == VirtioError::Mmio(MmioError::Range) && common.span() < config::BYTES
    ||| exists|after: W, offered: u16|
        {
            &&& #[trigger] queueless(common, after, REQUEST_QUEUE, offered, 2)
            &&& error == VirtioError::Device
        }
    ||| exists|middle: W, queue: Queue<W>, notify_off: u16, after: W, offered: u16|
        {
            &&& #[trigger] offered_over(common, middle, REQUEST_QUEUE, vector, queue, notify_off)
            &&& #[trigger] queueless(middle, after, EVENT_QUEUE, offered, 1)
            &&& error == VirtioError::Device
        }
    ||| exists|after: W, size: u16, arena_after: A|
        {
            &&& #[trigger] queue_of(common, after, REQUEST_QUEUE, size)
            &&& error is Dma
            &&& #[trigger] unmet(
                Identity,
                Identity,
                arena,
                arena_after,
                controller,
                setup::rings(size),
                error->Dma_0,
            )
        }
    ||| exists|
        middle: W,
        queue: Queue<W>,
        notify_off: u16,
        after: W,
        size: u16,
        arena_after: A,
    |
        {
            &&& #[trigger] offered_over(common, middle, REQUEST_QUEUE, vector, queue, notify_off)
            &&& #[trigger] queue_of(middle, after, EVENT_QUEUE, size)
            &&& error is Dma
            &&& #[trigger] unmet(
                Identity,
                Identity,
                arena,
                arena_after,
                controller,
                needs(queue.size, size),
                error->Dma_0,
            )
        }
}

/// What the control plane runs on.
pub struct Equipment<W: Window> {
    pub request_queue: Queue<W>,
    pub request_notify: u16,
    pub event_queue: Queue<W>,
    pub event_notify: u16,
    pub request: Mapping<W>,
    pub events: Mapping<W>,
}

impl<W: Window> Equipment<W> {
    /// Both queues handed over to the device, and memory for what goes through
    /// them.
    pub open spec fn handed(
        self,
        common: W,
        middle: W,
        after: W,
        vector: u16,
        controller: DeviceId,
    ) -> bool {
        &&& setup::fresh(self.request_queue, self.request_queue.size, controller)
        &&& setup::fresh(self.event_queue, self.event_queue.size, controller)
        &&& self.request_queue.size >= 2
        &&& offered_over(
            common,
            middle,
            REQUEST_QUEUE,
            vector,
            self.request_queue,
            self.request_notify,
        )
        &&& offered_over(middle, after, EVENT_QUEUE, vector, self.event_queue, self.event_notify)
        &&& self.request.window.span() >= REQUEST_BYTES
        &&& self.request.device == controller
        &&& self.request.perm == DmaPerm::ReadWrite
        &&& self.events.window.span() >= self.event_queue.size * EVENT_BYTES
        &&& bounded(self.events.iova.address, self.events.window)
        &&& self.events.device == controller
        &&& self.events.perm == DmaPerm::Write
    }
}

/// Lays out both queues, hands them to the device, and takes the memory that
/// goes with them.
fn equip<W: Window, A: Arena<W>>(
    common: &mut Common<W>,
    vector: u16,
    controller: DeviceId,
    arena: &mut A,
) -> (equipped: Result<Equipment<W>, VirtioError>)
    ensures
        final(common).window.span() == old(common).window.span(),
        match equipped {
            Ok(equipment) => {
                &&& old(common).window.span() >= config::BYTES
                &&& exists|middle: W| #[trigger]
                    equipment.handed(
                        old(common).window,
                        middle,
                        final(common).window,
                        vector,
                        controller,
                    )
                &&& met(
                    Identity,
                    Identity,
                    *old(arena),
                    *final(arena),
                    controller,
                    needs(equipment.request_queue.size, equipment.event_queue.size),
                )
                &&& housed(
                    *old(arena),
                    *final(arena),
                    equipment.request_queue,
                    equipment.event_queue,
                    equipment.request,
                    equipment.events,
                )
            },
            Err(error) => unequipped(old(common).window, vector, controller, *old(arena), error),
        },
{
    let ghost before = common.window;
    let ghost lender = *arena;
    let requesting = make_queue(common, REQUEST_QUEUE, vector, controller, arena, 2);
    let ghost a1 = *arena;
    let (request_queue, request_notify) = requesting?;
    let ghost middle = common.window;
    let ghost first_rings = setup::rings(request_queue.size);
    let reporting = make_queue(common, EVENT_QUEUE, vector, controller, arena, 1);
    let ghost a2 = *arena;
    proof {
        if reporting is Err && reporting->Err_0 is Dma {
            let error = reporting->Err_0->Dma_0;
            let size = choose|size: u16|
                {
                    &&& #[trigger] queue_of(middle, common.window, EVENT_QUEUE, size)
                    &&& unmet(Identity, Identity, a1, a2, controller, setup::rings(size), error)
                };
            lemma_short(lender, a1, a2, controller, request_queue.size, size, error);
        }
    }
    let (event_queue, event_notify) = reporting?;
    let ghost asked = choose|asked: W| #[trigger]
        queue_of(middle, asked, EVENT_QUEUE, event_queue.size);
    let furnished = furnish(controller, arena, event_queue.size());
    proof {
        let second_rings = setup::rings(event_queue.size);
        dma::lemma_met_both(
            Identity,
            Identity,
            Identity,
            lender,
            a1,
            a2,
            controller,
            first_rings,
            second_rings,
        );
        setup::lemma_allotted(
            Identity,
            Identity,
            Identity,
            lender,
            a2,
            *arena,
            controller,
            first_rings + second_rings,
            buffer_needs(event_queue.size),
            setup::refusal(furnished),
        );
        assert(furnished is Err ==> unmet(
            Identity,
            Identity,
            lender,
            *arena,
            controller,
            needs(request_queue.size, event_queue.size),
            furnished->Err_0->Dma_0,
        ));
    }
    let (request, events) = furnished?;
    proof {
        let none = Seq::<Mapping<W>>::empty();
        let both = seq![request, events];
        setup::lemma_built(
            Identity,
            Identity,
            Identity,
            a1,
            a2,
            *arena,
            event_queue,
            none,
            both,
        );
        assert(none + both =~= both);
        assert(setup::built(Identity, Identity, lender, a1, request_queue, seq![]));
        assert(setup::built(
            Identity,
            Identity,
            a1,
            *arena,
            event_queue,
            seq![request, events],
        ));
    }
    let equipment = Equipment {
        request_queue,
        request_notify,
        event_queue,
        event_notify,
        request,
        events,
    };
    assert(equipment.handed(before, middle, common.window, vector, controller));
    Ok(equipment)
}

/// Why a device was not brought up: a window too short for its registers or a
/// doorbell, an answer of the device's that will not do, or memory that was
/// refused.
pub open spec fn turned_down<W: Window, A: Arena<W>>(
    common: W,
    notify: Notify<W>,
    device: W,
    vector: u16,
    controller: DeviceId,
    arena: A,
    error: VirtioError,
) -> bool {
    ||| {
        &&& error == VirtioError::Mmio(MmioError::Range)
        &&& common.span() < config::BYTES || device.span() < 32
    }
    ||| error == VirtioError::Device && setup::stuck(common)
    ||| exists|after: W| #[trigger] setup::shook(common, after, command::WANTED, Err(error))
    ||| exists|after: W, accepted: u64|
        {
            &&& #[trigger] setup::shook(common, after, command::WANTED, Ok(accepted))
            &&& accepted & command::REQUIRED != command::REQUIRED
            &&& error == VirtioError::Features
        }
    ||| exists|after: W, rounds: Seq<(u8, u8)>|
        {
            &&& #[trigger] asked_of(common, after, rounds)
            &&& unsettled(rounds, false)
            &&& error == VirtioError::Device
        }
    ||| exists|after: W, config: command::Config|
        {
            &&& #[trigger] told(common, after, device, config)
            &&& unusable(config)
            &&& error == VirtioError::Device
        }
    ||| exists|three: W, config: command::Config|
        {
            &&& #[trigger] told(common, three, device, config)
            &&& !unusable(config)
            &&& unequipped(three, vector, controller, arena, error)
        }
    ||| exists|
        four: W,
        first: Queue<W>,
        requests: u16,
        five: W,
        second: Queue<W>,
        events: u16,
    |
        {
            &&& #[trigger] half_up(common, four, device, vector, first, requests)
            &&& #[trigger] offered_over(four, five, EVENT_QUEUE, vector, second, events)
            &&& !crate::virtio::notify::rings(notify.window, notify.multiplier, requests)
                || !crate::virtio::notify::rings(notify.window, notify.multiplier, events)
            &&& error == VirtioError::Device
        }
}

/// A configuration that gave a page, addresses and domains is usable.
proof fn lemma_usable(config: command::Config, page: u64)
    requires
        config.page_size_mask != 0,
        command::lowest_bit(config.page_size_mask as int, page as int),
        command::aperture_of(config.input_start, config.input_end, page) is Some,
        (if config.domain_start == 0 {
            1
        } else {
            config.domain_start
        }) <= config.domain_end,
    ensures
        !unusable(config),
{
    assert forall|other: u64| #[trigger]
        command::lowest_bit(config.page_size_mask as int, other as int) implies other == page by {
        command::lemma_lowest_bit(config.page_size_mask as int, page as int, other as int);
    }
}

/// What was asked of the device does not change with the addresses set aside.
proof fn lemma_still_asked<W: Window, A: Arena<W>>(
    before: Iommu<W, A>,
    encoded: Seq<Access>,
    status_at: u64,
    sent: Iommu<W, A>,
    after: Iommu<W, A>,
    pending: Result<Pending, VirtioError>,
)
    requires
        before.asked(encoded, status_at, sent, pending),
        before.same_state(after),
        after == (Iommu { space: after.space, ..sent }),
    ensures
        before.asked(encoded, status_at, after, pending),
{
    assert(after.request == sent.request);
    assert(after.notify == sent.notify);
    assert(after.request_queue == sent.request_queue);
    assert(after.request == (Mapping { window: after.request.window, ..before.request }));
}

/// A fresh queue has no descriptor on its free list twice.
proof fn lemma_kept_apart<W: Window>(queue: Queue<W>, controller: DeviceId)
    requires
        setup::fresh(queue, queue.size, controller),
    ensures
        kept_apart(queue.stack()),
{
    let stack = queue.stack();
    assert forall|i: int, j: int|
        #![trigger queue::taken(stack, i), queue::taken(stack, j)]
        0 <= i < j < stack.len() implies queue::taken(stack, i) != queue::taken(stack, j) by {
        assert(queue::taken(stack, i) == i as u16);
        assert(queue::taken(stack, j) == j as u16);
    }
}

/// The request queue's memory was had, and the event queue's refused.
proof fn lemma_short<W: Window, A: Arena<W>>(
    arena: A,
    middle: A,
    arena_after: A,
    controller: DeviceId,
    requests: u16,
    events: u16,
    error: DmaError,
)
    requires
        met(Identity, Identity, arena, middle, controller, setup::rings(requests)),
        unmet(Identity, Identity, middle, arena_after, controller, setup::rings(events), error),
    ensures
        unmet(Identity, Identity, arena, arena_after, controller, needs(requests, events), error),
{
    let first = setup::rings(requests);
    let second = setup::rings(events);
    dma::lemma_unmet_after(
        Identity,
        Identity,
        Identity,
        arena,
        middle,
        arena_after,
        controller,
        first,
        second,
        error,
    );
    dma::lemma_unmet_before(
        Identity,
        Identity,
        arena,
        arena_after,
        controller,
        first + second,
        buffer_needs(events),
        error,
    );
}

/// Every event buffer of memory that is large enough and the device may write
/// can be offered.
proof fn lemma_none_withheld<W: Window>(queue: Queue<W>, events: Mapping<W>)
    requires
        events.perm == DmaPerm::Write,
        bounded(events.iova.address, events.window),
        events.window.span() >= queue.size * EVENT_BYTES,
    ensures
        forall|slot: int, error: VirtioError| !#[trigger] withheld(queue, events, slot, error),
{
    assert forall|slot: int, error: VirtioError| !#[trigger] withheld(
        queue,
        events,
        slot,
        error,
    ) by {
        if withheld(queue, events, slot, error) {
            assert(slot * EVENT_BYTES + EVENT_BYTES <= queue.size * EVENT_BYTES)
                by (nonlinear_arith)
                requires
                    0 <= slot < queue.size,
            ;
            assert(setup::buffer_of(events, slot, EVENT_BYTES as int) is Ok);
        }
    }
}

/// The common configuration once queue `index` was handed over at the largest
/// size the device allows.
pub open spec fn offered_over<W: Window>(
    before: W,
    after: W,
    index: u16,
    vector: u16,
    queue: Queue<W>,
    notify_off: u16,
) -> bool {
    exists|offered: u16|
        {
            &&& queue.size <= offered
            &&& forall|larger: int|
                #[trigger] queue::valid_size(larger) && larger <= offered ==> larger <= queue.size
            &&& grew(
                before,
                after,
                #[trigger] handed_over(index, offered, vector, queue, notify_off),
            )
        }
}

/// Refuses a notification offset whose doorbell lies outside the window.
pub fn validate_notify<W: Window>(notify: &W, multiplier: u32, offset: u16) -> (valid: Result<
    (),
    VirtioError,
>)
    ensures
        valid == if crate::virtio::notify::rings(*notify, multiplier, offset) {
            Ok(())
        } else {
            Err(VirtioError::Device)
        },
{
    proof {
        crate::virtio::notify::lemma_doorbell(multiplier, offset);
    }
    let at: u64 = offset as u64 * multiplier as u64;
    if at + 2 > notify.len() {
        return Err(VirtioError::Device);
    }
    Ok(())
}

/// Everything read and written to bring an IOMMU up, in order.
pub struct Bringup {
    pub hello: Seq<Access>,
    pub reset: Seq<Access>,
    pub first: u8,
    pub second: u8,
    pub features: Seq<Access>,
    pub low: u32,
    pub high: u32,
    pub status: u8,
    pub confirmed: u8,
    pub accepted: u64,
    pub rounds: Seq<(u8, u8)>,
    pub config: command::Config,
    pub requests: u16,
    pub events: u16,
    pub last: u8,
}

impl Bringup {
    pub open spec fn agreed(self) -> bool {
        &&& greeted(self.hello, self.reset, self.first, self.second)
        &&& negotiated(
            self.features,
            command::WANTED,
            self.low,
            self.high,
            self.status,
            self.confirmed,
            Ok(self.accepted),
        )
        &&& self.accepted & command::REQUIRED == command::REQUIRED
        &&& unsettled(self.rounds, true)
    }

    /// The accesses to the common configuration.
    pub open spec fn trace<W: Window, A: Arena<W>>(self, vector: u16, iommu: Iommu<W, A>) -> Seq<
        Access,
    > {
        self.hello + self.features + generation_reads(self.rounds) + handed_over(
            REQUEST_QUEUE,
            self.requests,
            vector,
            iommu.request_queue,
            iommu.request_notify,
        ) + handed_over(EVENT_QUEUE, self.events, vector, iommu.event_queue, iommu.event_notify)
            + added(self.last, config::DRIVER_OK)
    }
}

impl<W: Window, A: Arena<W>> Iommu<W, A> {
    /// A control plane that was brought up: nothing attached or mapped, and
    /// every event buffer on offer.
    pub open spec fn started(
        &self,
        common: W,
        notify: W,
        notify_multiplier: u32,
        vector: u16,
        controller: DeviceId,
        device: W,
        arena: A,
    ) -> bool {
        &&& self.wf()
        &&& setup::fresh(self.request_queue, self.request_queue.size, controller)
        &&& self.request_queue.size >= 2
        &&& self.event_queue.available == 0
        &&& exists|given: Queue<W>, path: Seq<Queue<W>>|
            {
                &&& setup::fresh(given, self.event_queue.size, controller)
                &&& housed(
                    arena,
                    self.arena,
                    self.request_queue,
                    given,
                    self.request,
                    self.events,
                )
                &&& path.len() == given.size + 1
                &&& #[trigger] stocked(
                    path,
                    given,
                    self.event_queue,
                    self.events,
                    EVENT_BYTES as int,
                )
                &&& filed(self.event_slots@, given.stack(), given.size as int)
            }
        &&& self.request.perm == DmaPerm::ReadWrite
        &&& self.request.device == controller
        &&& self.events.perm == DmaPerm::Write
        &&& self.events.device == controller
        &&& self.active@ == Seq::new(32, |i: int| None::<Active>)
        &&& self.domains.entries@ == Seq::new(
            8,
            |i: int| None::<crate::virtio::domain::Attachment>,
        )
        &&& self.space.runs@ == Seq::new(32, |i: int| None::<crate::virtio::iova::Run>)
        &&& self.last_fault is None
        &&& kicked(
            Notify { window: notify, multiplier: notify_multiplier },
            self.notify,
            EVENT_QUEUE,
            self.event_notify,
            Ok(()),
        )
        &&& rings(notify, notify_multiplier, self.request_notify)
        &&& exists|bringup: Bringup, device_after: W, configs: Seq<command::Config>|
            {
                let config = bringup.config;
                &&& #[trigger] bringup.agreed()
                &&& #[trigger] grew(device, device_after, command::config_reads(configs))
                &&& configs.len() == bringup.rounds.len()
                &&& config == configs.last()
                &&& command::lowest_bit(config.page_size_mask as int, self.page as int)
                &&& command::aperture_of(config.input_start, config.input_end, self.page) == Some(
                    (self.space.start, self.space.end),
                )
                &&& self.domains.start == if config.domain_start == 0 {
                    1
                } else {
                    config.domain_start
                }
                &&& self.domains.end == config.domain_end
                &&& self.domains.start <= self.domains.end
                &&& largest(bringup.requests, self.request_queue.size)
                &&& largest(bringup.events, self.event_queue.size)
                &&& grew(common, self.common.window, bringup.trace(vector, *self))
            }
    }

    /// Starts the IOMMU control plane. Its own queues remain identity-mapped;
    /// endpoints attached later use translated addresses.
    #[verifier::rlimit(60)]
    pub fn start(
        common: W,
        notify: W,
        device: W,
        notify_multiplier: u32,
        vector: u16,
        controller: DeviceId,
        arena: A,
    ) -> (iommu: Result<Self, VirtioError>)
        ensures
            match iommu {
                Ok(iommu) => {
                    &&& iommu.started(
                        common,
                        notify,
                        notify_multiplier,
                        vector,
                        controller,
                        device,
                        arena,
                    )
                    &&& common.span() >= config::BYTES && device.span() >= 32
                    &&& met(
                        Identity,
                        Identity,
                        arena,
                        iommu.arena,
                        controller,
                        needs(iommu.request_queue.size, iommu.event_queue.size),
                    )
                },
                Err(error) => turned_down(
                    common,
                    Notify { window: notify, multiplier: notify_multiplier },
                    device,
                    vector,
                    controller,
                    arena,
                    error,
                ),
            },
            common.span() <= config::DEVICE_STATUS ==> iommu == Err::<Self, VirtioError>(
                VirtioError::Mmio(MmioError::Range),
            ),
    {
        let ghost window = common;
        let ghost bell = notify;
        let ghost lender = arena;
        let mut arena = arena;
        let mut device = device;
        let ghost shown = device;
        let mut common = Common::new(common);
        setup::greet(&mut common)?;
        let ghost (hello, reset, first, second) = choose|
            t: Seq<Access>,
            reset: Seq<Access>,
            first: u8,
            second: u8,
        |
            grew(window, common.window, t) && #[trigger] greeted(t, reset, first, second);
        let ghost one = common.window;
        let asked = common.negotiate(command::WANTED);
        assert(setup::shook(window, common.window, command::WANTED, asked));
        let accepted: u64 = asked?;
        let ghost (features, low, high, status, confirmed) = choose|
            t: Seq<Access>,
            low: u32,
            high: u32,
            status: u8,
            confirmed: u8,
        |
            #![trigger negotiated(t, command::WANTED, low, high, status, confirmed, Ok(accepted))]
            grew(one, common.window, t) && negotiated(
                t,
                command::WANTED,
                low,
                high,
                status,
                confirmed,
                Ok(accepted),
            );
        command::require_features(accepted)?;
        let ghost two = common.window;
        let read = command::read_config(&mut common, &mut device);
        proof {
            assert(generation_reads(seq![]) =~= Seq::<Access>::empty());
            assert(asked_of(window, two, seq![]));
            if read is Err && window.span() > config::CONFIG_GENERATION && shown.span() >= 32 {
                let rounds = choose|rounds: Seq<(u8, u8)>|
                    #[trigger] unsettled(rounds, false) && grew(
                        two,
                        common.window,
                        generation_reads(rounds),
                    );
                assert(asked_of(window, common.window, rounds));
            }
        }
        let config = read?;
        assert(told(window, common.window, shown, config));
        let ghost (rounds, configs) = choose|rounds: Seq<(u8, u8)>, configs: Seq<command::Config>|
            {
                &&& grew(two, common.window, generation_reads(rounds))
                &&& grew(shown, device, #[trigger] command::config_reads(configs))
                &&& #[trigger] unsettled(rounds, true)
                &&& configs.len() == rounds.len()
                &&& config == configs.last()
            };
        let ghost three = common.window;
        let page: u64 = command::page_size(config.page_size_mask)?;
        let (space_start, space_end) = command::aperture(
            config.input_start,
            config.input_end,
            page,
        )?;
        let domain_start: u32 = command::first_domain(config.domain_start, config.domain_end)?;
        proof {
            lemma_usable(config, page);
        }
        let equipment = equip(&mut common, vector, controller, &mut arena)?;
        let ghost four = choose|middle: W| #[trigger]
            equipment.handed(three, middle, common.window, vector, controller);
        let Equipment {
            request_queue,
            request_notify,
            event_queue,
            event_notify,
            request,
            events,
        } = equipment;
        let ghost requests = choose|offered: u16|
            {
                &&& request_queue.size <= offered
                &&& forall|larger: int|
                    #[trigger] queue::valid_size(larger) && larger <= offered ==> larger
                        <= request_queue.size
                &&& grew(
                    three,
                    four,
                    #[trigger] handed_over(
                        REQUEST_QUEUE,
                        offered,
                        vector,
                        request_queue,
                        request_notify,
                    ),
                )
            };
        assert(half_up(window, four, shown, vector, request_queue, request_notify));
        let ghost offered = choose|offered: u16|
            {
                &&& event_queue.size <= offered
                &&& forall|larger: int|
                    #[trigger] queue::valid_size(larger) && larger <= offered ==> larger
                        <= event_queue.size
                &&& grew(
                    four,
                    common.window,
                    #[trigger] handed_over(
                        EVENT_QUEUE,
                        offered,
                        vector,
                        event_queue,
                        event_notify,
                    ),
                )
            };
        let ghost five = common.window;
        let ghost given = event_queue;
        proof {
            lemma_none_withheld(event_queue, events);
            assert(offered_over(
                four,
                common.window,
                EVENT_QUEUE,
                vector,
                event_queue,
                event_notify,
            ));
        }
        let (event_queue, event_slots) = offer(event_queue, &events)?;
        proof {
            lemma_kept_apart(given, controller);
        }
        let ghost path = choose|path: Seq<Queue<W>>|
            {
                &&& path.len() == given.size + 1
                &&& #[trigger] stocked(path, given, event_queue, events, EVENT_BYTES as int)
            };
        assert(handed_over(EVENT_QUEUE, offered, vector, given, event_notify) == handed_over(
            EVENT_QUEUE,
            offered,
            vector,
            event_queue,
            event_notify,
        ));
        validate_notify(&notify, notify_multiplier, request_notify)?;
        validate_notify(&notify, notify_multiplier, event_notify)?;
        common.add_status(config::DRIVER_OK)?;
        let ghost last = choose|status: u8|
            #![trigger added(status, config::DRIVER_OK)]
            grew(five, common.window, added(status, config::DRIVER_OK));
        let mut notify = Notify::new(notify, notify_multiplier);
        let sent = notify.signal(EVENT_QUEUE, event_notify);
        sent?;
        let active: [Option<Active>; 32] = [None;32];
        let iommu = Iommu {
            common,
            notify,
            request_queue,
            event_queue,
            request,
            events,
            event_slots,
            arena,
            space: IovaSpace::new(Iova::new(space_start), Iova::new(space_end)),
            active,
            request_notify,
            event_notify,
            page,
            domains: Domains::new(domain_start, config.domain_end),
            last_fault: None,
        };
        proof {
            let bringup = Bringup {
                hello,
                reset,
                first,
                second,
                features,
                low,
                high,
                status,
                confirmed,
                accepted,
                rounds,
                config,
                requests,
                events: offered,
                last,
            };
            assert(bringup.agreed());
            assert(grew(shown, device, command::config_reads(configs)));
            assert(grew(window, iommu.common.window, bringup.trace(vector, iommu)));
            assert(kicked(
                Notify { window: bell, multiplier: notify_multiplier },
                iommu.notify,
                EVENT_QUEUE,
                event_notify,
                Ok(()),
            ));
            assert(iommu.active@ =~= Seq::new(32, |i: int| None::<Active>));
        }
        Ok(iommu)
    }

    /// The mappings of the control plane's own, in the order they are taken down.
    pub open spec fn own_mappings(&self) -> Seq<Mapping<W>> {
        seq![
            self.request_queue.descriptors,
            self.request_queue.driver,
            self.request_queue.device,
            self.event_queue.descriptors,
            self.event_queue.driver,
            self.event_queue.device,
            self.request,
            self.events,
        ]
    }

    /// Whether nothing is attached or mapped.
    pub open spec fn idle(&self) -> bool {
        &&& self.active@ =~= Seq::new(32, |i: int| None::<Active>)
        &&& self.domains.entries@ =~= Seq::new(
            8,
            |i: int| None::<crate::virtio::domain::Attachment>,
        )
    }

    /// Resets the control device and gives its identity-mapped frames back,
    /// once nothing is attached or mapped.
    pub fn reset(self) -> (done: Result<(), VirtioError>)
        ensures
            match done {
                Ok(()) => {
                    &&& self.idle()
                    &&& self.common.window.span() > config::DEVICE_STATUS
                    &&& setup::silenced(self.common.window)
                    &&& exists|emptied: A, arena: A|
                        {
                            &&& dismantled(
                                Identity,
                                Identity,
                                self.arena,
                                emptied,
                                self.own_mappings(),
                            )
                            &&& #[trigger] readied(emptied, arena)
                        }
                },
                Err(error) => if !self.idle() {
                    error == VirtioError::Device
                } else if self.common.window.span() <= config::DEVICE_STATUS {
                    error == VirtioError::Mmio(MmioError::Range)
                } else {
                    ||| error == VirtioError::Device && setup::stuck(self.common.window)
                    ||| exists|arena_after: A|
                        {
                            &&& error is Dma
                            &&& #[trigger] broken_off(
                                Identity,
                                Identity,
                                self.arena,
                                arena_after,
                                self.own_mappings(),
                                error->Dma_0,
                            )
                        }
                },
            },
    {
        proof {
            crate::virtio::slots::lemma_none_occupied(self.active@);
        }
        if !self.domains.is_empty() || self.mapped() != 0 {
            return Err(VirtioError::Device);
        }
        let ghost own = self.own_mappings();
        let Iommu { mut common, request_queue, event_queue, request, events, mut arena, .. } = self;
        common.reset()?;
        let mut identity = Identity;
        let Queue { descriptors, driver, device, .. } = request_queue;
        let mappings: Vec<Mapping<W>> = vec![
            descriptors,
            driver,
            device,
            event_queue.descriptors,
            event_queue.driver,
            event_queue.device,
            request,
            events,
        ];
        assert(mappings@ =~= own);
        if let Err(error) = dma::teardown(mappings, &mut identity, &mut arena) {
            assert(broken_off(Identity, Identity, self.arena, arena, own, error));
            return Err(VirtioError::Dma(error));
        }
        let ghost emptied = arena;
        assert(dismantled(Identity, Identity, self.arena, emptied, own));
        arena.reset();
        assert(readied(emptied, arena));
        Ok(())
    }
}

/// Offers every event buffer to the device.
#[verifier::loop_isolation(false)]
pub fn offer<W: Window>(queue: Queue<W>, events: &Mapping<W>) -> (offered: Result<
    (Queue<W>, [Option<u16>; 32]),
    VirtioError,
>)
    requires
        queue.wf(),
        queue.available == queue.size,
    ensures
        match offered {
            Ok((after, slots)) => {
                &&& after.wf()
                &&& after.same_shape(queue)
                &&& after.available == 0
                &&& events.window.span() >= queue.size * EVENT_BYTES
                &&& named(slots@, queue.size as int)
                &&& exists|path: Seq<Queue<W>>|
                    {
                        &&& path.len() == queue.size + 1
                        &&& #[trigger] stocked(path, queue, after, *events, EVENT_BYTES as int)
                    }
                &&& kept_apart(queue.stack()) ==> filed(slots@, queue.stack(), queue.size as int)
            },
            Err(error) => exists|slot: int| #[trigger] withheld(queue, *events, slot, error),
        },
{
    let ghost given = queue;
    let ghost stack = queue.stack();
    let size: u16 = queue.size();
    let mut queue = queue;
    let mut slots: [Option<u16>; 32] = [None;32];
    let ghost mut path: Seq<Queue<W>> = seq![given];
    let mut slot: u16 = 0;
    while slot < size
        invariant
            queue.wf(),
            queue.same_shape(given),
            given.available == given.size,
            stack == given.stack(),
            size == given.size,
            slot <= size,
            queue.available == size - slot,
            queue.stack() == stack.take(size - slot),
            slot > 0 ==> events.window.span() >= slot * EVENT_BYTES,
            named(slots@, size as int),
            path.len() == slot + 1,
            stocked(path, given, queue, *events, EVENT_BYTES as int),
            kept_apart(stack) ==> filed(slots@, stack, slot as int),
        decreases size - slot,
    {
        let ghost before = queue;
        let ghost held = slots@;
        let buffer = match events.writable(slot as u64 * EVENT_BYTES, EVENT_BYTES as u32) {
            Ok(buffer) => buffer,
            Err(error) => {
                proof {
                    assert forall|i: int| 0 <= i < slot implies #[trigger] setup::buffer_of(
                        *events,
                        i,
                        EVENT_BYTES as int,
                    ) is Ok by {
                        assert(setup::offered(path, i, *events, EVENT_BYTES as int));
                    }
                    assert(withheld(given, *events, slot as int, VirtioError::Dma(error)));
                }
                return Err(VirtioError::Dma(error));
            },
        };
        let chain = [buffer];
        assert(chain@ =~= seq![buffer]);
        let head: u16 = queue.push(&chain)?;
        slots[head as usize] = Some(slot);
        proof {
            setup::lemma_stocked(path, given, before, queue, *events, EVENT_BYTES as int);
            path = path.push(queue);
            assert(head == queue::taken(stack, slot as int));
            assert(queue.stack() =~= stack.take(size - slot - 1));
            if kept_apart(stack) {
                assert forall|i: int| 0 <= i < slot + 1 implies slots@[(#[trigger] queue::taken(
                    stack,
                    i,
                )) as int] == Some(i as u16) by {
                    if i < slot {
                        assert(held[queue::taken(stack, i) as int] == Some(i as u16));
                    }
                }
                assert forall|d: int|
                    0 <= d < 32 && #[trigger] slots@[d] is Some implies exists|i: int|
                    0 <= i < slot + 1 && #[trigger] queue::taken(stack, i) == d by {
                    if d == head {
                        assert(queue::taken(stack, slot as int) == d);
                    } else {
                        assert(held[d] is Some);
                        let i = choose|i: int|
                            0 <= i < slot && #[trigger] queue::taken(stack, i) == d;
                        assert(queue::taken(stack, i) == d);
                    }
                }
            }
        }
        slot = slot + 1;
    }
    Ok((queue, slots))
}

/// Whether no descriptor is on a free list twice.
pub open spec fn kept_apart(stack: Seq<u16>) -> bool {
    forall|i: int, j: int|
        #![trigger queue::taken(stack, i), queue::taken(stack, j)]
        0 <= i < j < stack.len() ==> queue::taken(stack, i) != queue::taken(stack, j)
}

/// Whether the buffer of `slot` is the first the device may not write.
pub open spec fn withheld<W: Window>(
    queue: Queue<W>,
    events: Mapping<W>,
    slot: int,
    error: VirtioError,
) -> bool {
    &&& 0 <= slot < queue.size
    &&& forall|i: int|
        0 <= i < slot ==> #[trigger] setup::buffer_of(events, i, EVENT_BYTES as int) is Ok
    &&& setup::buffer_of(events, slot, EVENT_BYTES as int) matches Err(refused) && error
        == VirtioError::Dma(refused)
}

/// A run that was held stays held when another is reserved.
proof fn lemma_held_kept<const N: usize>(
    before: IovaSpace<N>,
    after: IovaSpace<N>,
    iova: Iova,
    len: u64,
)
    requires
        before.reserved(iova, len, after),
    ensures
        after.holds(iova, len),
        forall|other: Iova, size: u64|
            before.holds(other, size) ==> #[trigger] after.holds(other, size),
{
    let slot = choose|slot: int|
        {
            &&& 0 <= slot < N
            &&& #[trigger] before.runs@[slot] is None
            &&& after.runs@ == before.runs@.update(
                slot,
                Some(crate::virtio::iova::Run { start: iova.address, len }),
            )
        };
    assert(after.runs@[slot] == Some(crate::virtio::iova::Run { start: iova.address, len }));
    assert forall|other: Iova, size: u64| before.holds(other, size) implies #[trigger] after.holds(
        other,
        size,
    ) by {
        let run = Some(crate::virtio::iova::Run { start: other.address, len: size });
        let k = choose|k: int| 0 <= k < N && #[trigger] before.runs@[k] == run;
        assert(after.runs@[k] == run);
    }
}

/// A run elsewhere stays held when one is given back.
proof fn lemma_held_apart<const N: usize>(
    before: IovaSpace<N>,
    after: IovaSpace<N>,
    iova: Iova,
    len: u64,
)
    requires
        before.released(iova, len, after),
    ensures
        forall|other: Iova, size: u64|
            other != iova && before.holds(other, size) ==> #[trigger] after.holds(other, size),
{
    let slot = choose|slot: int|
        {
            &&& 0 <= slot < N
            &&& #[trigger] before.runs@[slot] == Some(
                crate::virtio::iova::Run { start: iova.address, len },
            )
            &&& after.runs@ == before.runs@.update(slot, None)
        };
    assert forall|other: Iova, size: u64|
        other != iova && before.holds(other, size) implies #[trigger] after.holds(other, size) by {
        let run = Some(crate::virtio::iova::Run { start: other.address, len: size });
        let k = choose|k: int| 0 <= k < N && #[trigger] before.runs@[k] == run;
        assert(after.runs@[k] == run);
    }
}

/// Changing one endpoint's entry leaves every other endpoint's domain alone.
proof fn lemma_homes_kept<const N: usize>(
    before: Domains<N>,
    after: Domains<N>,
    device: DeviceId,
    slot: int,
)
    requires
        before.wf(),
        after.wf(),
        0 <= slot < N,
        before.entries@[slot] matches Some(entry) ==> entry.device == device,
        after.entries@[slot] matches Some(entry) ==> entry.device == device,
        after.entries@ == before.entries@.update(slot, after.entries@[slot]),
    ensures
        forall|other: DeviceId|
            other != device ==> #[trigger] after.home(other) == before.home(other),
{
    assert forall|other: DeviceId| other != device implies #[trigger] after.home(other)
        == before.home(other) by {
        if knows(before.entries@, other) {
            let i = choose|i: int|
                0 <= i < N && (#[trigger] before.entries@[i] matches Some(entry) && entry.device
                    == other);
            before.lemma_home(other, i);
            assert(after.entries@[i] == before.entries@[i]);
            after.lemma_home(other, i);
        } else if knows(after.entries@, other) {
            let i = choose|i: int|
                0 <= i < N && (#[trigger] after.entries@[i] matches Some(entry) && entry.device
                    == other);
            assert(before.entries@[i] == after.entries@[i]);
            assert(knows(before.entries@, other));
        }
    }
}

/// An IOMMU is brought up in order: greeted, its features agreed on, its
/// configuration read, queue 0 handed over for requests and queue 1 for events,
/// and only then told that its driver is ready (4).
pub proof fn law_iommu_is_brought_up_in_order<W: Window, A: Arena<W>>(
    bringup: Bringup,
    vector: u16,
    iommu: Iommu<W, A>,
)
    ensures
        bringup.trace(vector, iommu) == bringup.hello + bringup.features + generation_reads(
            bringup.rounds,
        ) + handed_over(
            0,
            bringup.requests,
            vector,
            iommu.request_queue,
            iommu.request_notify,
        ) + handed_over(1, bringup.events, vector, iommu.event_queue, iommu.event_notify) + seq![
            Access::Read { at: 20, width: 1, value: bringup.last as u64 },
            Access::Write { at: 20, width: 1, value: (bringup.last | 4u8) as u64 },
        ],
{
}

/// The memory an IOMMU is driven with besides its rings: one request of 40
/// bytes, which it reads and answers in, and an event of 24 bytes for each
/// descriptor, which it writes.
pub proof fn law_iommu_memory_in_numbers(size: u16)
    ensures
        buffer_needs(size) == seq![
            Need { bytes: 40, perm: DmaPerm::ReadWrite },
            Need { bytes: (24 * size) as u64, perm: DmaPerm::Write },
        ],
{
}

/// An IOMMU serves where it says its input range (bit 0) and its domains (bit 1)
/// and can map (bit 2); bits 4 to 6 are asked for besides.
pub proof fn law_iommu_features_in_numbers(features: u64)
    ensures
        features & command::REQUIRED == command::REQUIRED <==> features % 8 == 7,
        command::WANTED == 7 + 16 + 32 + 64,
{
    assert((features & 7 == 7) == (features % 8 == 7)) by (bit_vector);
}

/// An event the device returned whole is the fault its 24 bytes hold, is the last
/// one from then on, and its buffer goes back to the device: one descriptor for
/// it to write, over the same bytes, and queue 1 kicked. One it returned short is
/// refused and changes nothing of the last fault.
pub proof fn law_event_is_read_and_offered_again<W: Window, A: Arena<W>>(
    before: Iommu<W, A>,
    popped: Queue<W>,
    after: Iommu<W, A>,
    used: queue::Used,
    got: Result<Option<Fault>, VirtioError>,
)
    requires
        before.event_taken(popped, used, after, got),
        used.head < 32,
        before.event_slots@[used.head as int] is Some,
        before.event_slots@[used.head as int]->0 < 32,
        popped.wf(),
        popped.available >= 1,
        before.events.perm is Write,
        before.events.window.span() >= 24 * 32,
        before.events.iova.address + before.events.window.span() <= u64::MAX,
        before.event_notify * before.notify.multiplier + 2 <= before.notify.window.span(),
        after.event_notify == before.event_notify,
    ensures
        used.len < 24 ==> got == Err::<Option<Fault>, VirtioError>(VirtioError::Device)
            && after.last_fault == before.last_fault,
        used.len >= 24 ==> {
            let slot = before.event_slots@[used.head as int]->0;
            let head = popped.free@[popped.available - 1];
            &&& got matches Ok(Some(fault))
            &&& after.last_fault == Some(fault)
            &&& after.events.window.trace() == before.events.window.trace() + seq![
                Access::Read { at: (24 * slot) as u64, width: 1, value: fault.reason as u64 },
                Access::Read { at: (24 * slot + 4) as u64, width: 4, value: fault.flags as u64 },
                Access::Read {
                    at: (24 * slot + 8) as u64,
                    width: 4,
                    value: fault.endpoint.id as u64,
                },
                Access::Read { at: (24 * slot + 16) as u64, width: 8, value: fault.address },
            ]
            &&& after.event_queue.descriptors.window.trace()
                == popped.descriptors.window.trace() + crate::virtio::engine::filling(
                head,
                before.events.iova.address + 24 * slot,
                24,
                2,
                0,
            )
            &&& after.event_slots@[head as int] == Some(slot)
            &&& after.notify.window.trace() == before.notify.window.trace().push(
                Access::Write {
                    at: (before.event_notify * before.notify.multiplier) as u64,
                    width: 2,
                    value: 1,
                },
            )
        },
{
    if used.len >= 24 {
        reveal_with_fuel(queue::chain_written, 2);
        let slot = before.event_slots@[used.head as int]->0;
        let at = slot * EVENT_BYTES;
        let fault = after.last_fault->0;
        let stack = popped.stack();
        let head = popped.free@[popped.available - 1];
        assert(stack[stack.len() - 1] == head);
        let buffer = dma::slice_of(before.events, at as u64, EVENT_BYTES as u32, true)->Ok_0;
        assert(queue::chain_written(stack, seq![buffer], 1) =~= crate::virtio::engine::filling(
            head,
            before.events.iova.address + 24 * slot,
            24,
            2,
            0,
        ));
        assert(after.rang(before.notify) is Ok);
        assert(after.events.window.trace() =~= before.events.window.trace()
            + command::fault_reads(at, fault));
        assert(after.notify.window.trace() =~= before.notify.window.trace().push(
            Access::Write {
                at: (before.event_notify * before.notify.multiplier) as u64,
                width: 2,
                value: 1,
            },
        ));
    }
}

/// A request is published as two descriptors: what is asked, up to its status,
/// for the device to read, and the four bytes of the status, set to 255 first,
/// for it to write. Its head goes into the available ring and queue 0 is kicked.
pub proof fn law_iommu_request_is_told_in_full<W: Window, A: Arena<W>>(
    before: Iommu<W, A>,
    after: Iommu<W, A>,
    encoded: Seq<Access>,
    status_at: u64,
    pending: Result<Pending, VirtioError>,
)
    requires
        before.wf(),
        before.asked(encoded, status_at, after, pending),
        status_at + 4 <= 40,
        before.request.window.span() >= 40,
        before.request.perm is ReadWrite,
        before.request.iova.address + 40 <= u64::MAX,
        before.request_queue.available >= 2,
        before.request_notify * before.notify.multiplier + 2 <= before.notify.window.span(),
    ensures
        ({
            let first = before.request_queue.free@[before.request_queue.available - 1];
            let second = before.request_queue.free@[before.request_queue.available - 2];
            &&& pending == Ok::<Pending, VirtioError>(Pending { head: first, status_at })
            &&& after.request.window.trace() == before.request.window.trace() + encoded.push(
                Access::Write { at: status_at, width: 1, value: 255 },
            )
            &&& after.request_queue.descriptors.window.trace()
                == before.request_queue.descriptors.window.trace()
                + crate::virtio::engine::filling(
                first,
                before.request.iova.address as int,
                status_at as int,
                1,
                second,
            ) + crate::virtio::engine::filling(
                second,
                before.request.iova.address + status_at,
                4,
                2,
                0,
            )
            &&& after.request_queue.driver.window.trace()
                == before.request_queue.driver.window.trace() + seq![
                Access::Write {
                    at: (4 + 2 * (before.request_queue.avail_idx as int
                        % before.request_queue.size as int)) as u64,
                    width: 2,
                    value: first as u64,
                },
                Access::Write {
                    at: 2,
                    width: 2,
                    value: ((before.request_queue.avail_idx + 1) % 65536) as u64,
                },
            ]
        }),
        after.notify.window.trace() == before.notify.window.trace().push(
            Access::Write {
                at: (before.request_notify * before.notify.multiplier) as u64,
                width: 2,
                value: 0,
            },
        ),
{
    reveal_with_fuel(queue::chain_written, 3);
    let stack = before.request_queue.stack();
    let first = before.request_queue.free@[before.request_queue.available - 1];
    let second = before.request_queue.free@[before.request_queue.available - 2];
    assert(stack[stack.len() - 1] == first && stack[stack.len() - 2] == second);
    let chain = both(
        dma::slice_of(before.request, 0, status_at as u32, false),
        dma::slice_of(before.request, status_at, 4, true),
    )->Ok_0;
    assert(queue::chain_written(stack, chain, 2) =~= crate::virtio::engine::filling(
        first,
        before.request.iova.address as int,
        status_at as int,
        1,
        second,
    ) + crate::virtio::engine::filling(
        second,
        before.request.iova.address + status_at,
        4,
        2,
        0,
    ));
    assert(after.request_queue.descriptors.window.trace()
        =~= before.request_queue.descriptors.window.trace() + queue::chain_written(stack, chain, 2));
    let sent = choose|sent: Result<(), VirtioError>| #[trigger]
        kicked(before.notify, after.notify, REQUEST_QUEUE, before.request_notify, sent);
}

/// An answer is what the device wrote in the status of the request it was asked
/// in: zero is success, and anything else is the refusal it stands for.
pub proof fn law_iommu_answer_is_the_status<W: Window, A: Arena<W>>(
    before: Iommu<W, A>,
    after: Iommu<W, A>,
    pending: Pending,
    answer: Option<Result<(), VirtioError>>,
)
    requires
        before.answered(pending, after, answer),
    ensures
        answer == Some(Ok::<(), VirtioError>(())) ==> after.request.window.trace()
            == before.request.window.trace().push(
            Access::Read { at: pending.status_at, width: 1, value: 0 },
        ),
        answer matches Some(Err(VirtioError::Iommu(status))) ==> {
            ||| after.request == before.request
            ||| status != 0 && after.request.window.trace() == before.request.window.trace().push(
                Access::Read { at: pending.status_at, width: 1, value: status as u64 },
            )
        },
        answer is None ==> after.request == before.request,
{
    if answer == Some(Ok::<(), VirtioError>(())) {
        assert(after.request.window.trace() =~= before.request.window.trace().push(
            Access::Read { at: pending.status_at, width: 1, value: 0 },
        ));
    }
    if let Some(Err(VirtioError::Iommu(status))) = answer {
        if after.request != before.request {
            assert(after.request.window.trace() =~= before.request.window.trace().push(
                Access::Read { at: pending.status_at, width: 1, value: status as u64 },
            ));
        }
    }
}

/// A map request reaches the device exactly if the endpoint is attached, both ends
/// of the run are on page boundaries, the run is not empty and there is room to
/// record it; and an endpoint that is not attached is told so first.
pub proof fn law_maps_are_refused_for_cause<W: Window, A: Arena<W>>(
    iommu: Iommu<W, A>,
    device: DeviceId,
    physical: u64,
    len: u64,
)
    requires
        iommu.wf(),
    ensures
        iommu.domains.home(device) is None ==> iommu.unmappable(device, physical, len) == Some(
            DmaError::NotMapped,
        ),
        iommu.domains.home(device) is Some && (len == 0 || physical % iommu.page != 0 || len
            % iommu.page != 0) ==> iommu.unmappable(device, physical, len) == Some(
            DmaError::Alignment,
        ),
        iommu.unmappable(device, physical, len) is None <==> {
            &&& iommu.domains.home(device) is Some
            &&& len > 0
            &&& physical % iommu.page == 0
            &&& len % iommu.page == 0
            &&& exists|i: int| 0 <= i < 32 && #[trigger] iommu.active@[i] is None
        },
        iommu.unmappable(device, physical, len) matches Some(error) ==> error
            == DmaError::NotMapped || error == DmaError::Alignment || error
            == DmaError::OutOfSpace,
{
}

/// Only the very mapping that was installed is taken down: for the same endpoint,
/// at the same addresses, of the same length and with the same permission. There
/// is one entry for it at most.
pub proof fn law_one_entry_per_mapping<W: Window, A: Arena<W>>(
    iommu: Iommu<W, A>,
    mapping: Mapping<W>,
    i: int,
    j: int,
)
    requires
        iommu.wf(),
        0 <= i < 32,
        0 <= j < 32,
        Iommu::<W, A>::installs(iommu.active@[i], mapping),
    ensures
        iommu.active@[i] == Some(
            Active {
                device: mapping.device,
                domain: iommu.domains.home(mapping.device)->0,
                iova: mapping.iova,
                len: mapping.window.span() as u64,
                perm: mapping.perm,
            },
        ),
        iommu.domains.home(mapping.device) is Some,
        Iommu::<W, A>::installs(iommu.active@[j], mapping) ==> i == j,
{
    let first = iommu.active@[i];
    let second = iommu.active@[j];
    if i < j {
        assert(iommu.active@[i] == first && iommu.active@[j] == second);
    }
    if j < i {
        assert(iommu.active@[j] == second && iommu.active@[i] == first);
    }
}

/// Counting the mappings of an endpoint goes entry by entry, and comes to none
/// exactly if it has none.
pub proof fn law_mappings_are_counted(
    entries: Seq<Option<Active>>,
    device: DeviceId,
    entry: Active,
)
    ensures
        count_for(seq![], device) == 0,
        count_for(entries.push(None), device) == count_for(entries, device),
        count_for(entries.push(Some(entry)), device) == count_for(entries, device)
            + if entry.device == device {
            1nat
        } else {
            0nat
        },
        count_for(entries, device) == 0 <==> forall|i: int|
            0 <= i < entries.len() ==> (#[trigger] entries[i] matches Some(held) ==> held.device
                != device),
        maps(entries, device) <==> count_for(entries, device) > 0,
    decreases entries.len(),
{
    assert(entries.push(None).drop_last() =~= entries);
    assert(entries.push(Some(entry)).drop_last() =~= entries);
    if entries.len() > 0 {
        let shorter = entries.drop_last();
        law_mappings_are_counted(shorter, device, entry);
        assert(entries.last() == entries[entries.len() - 1]);
        if count_for(entries, device) == 0 {
            assert forall|i: int| 0 <= i < entries.len() implies (
            #[trigger] entries[i] matches Some(held) ==> held.device != device) by {
                if i < entries.len() - 1 {
                    assert(shorter[i] == entries[i]);
                }
            }
        } else if count_for(shorter, device) > 0 {
            let i = choose|i: int|
                0 <= i < shorter.len() && (#[trigger] shorter[i] matches Some(held) && held.device
                    == device);
            assert(entries[i] == shorter[i]);
        }
    }
}

} // verus!
