//! One split virtqueue, laid over three mapped DMA regions the device shares.
//!
//! A queue is a descriptor table plus two rings: the driver publishes
//! descriptor chains through the *available* ring and the device returns them
//! through the *used* ring. [`Queue::push`] hands the device a chain and
//! [`Queue::pop`] reclaims one.
//!
//! The free-descriptor list is a fixed stack, so the queue allocates nothing.
//! That caps a queue at [`MAX_SIZE`] descriptors, which is ample for a block
//! driver whose deepest request is three.
use vstd::prelude::*;

use crate::bits;
use crate::dma::{DmaError, DmaSlice, Iova, Mapping};
use crate::virtio::config::grew;
use crate::virtio::error::VirtioError;
use crate::window::{self, Access, Window};

verus! {

/// The largest queue these drivers build. A read is three descriptors, so a
/// handful of slots keeps several requests in flight without a heap.
pub const MAX_SIZE: u16 = 32;

/// Descriptor flags: the chain goes on, the device may write.
pub const NEXT: u16 = 1;

pub const WRITE: u16 = 2;

/// One descriptor is sixteen bytes: `addr`, `len`, `flags`, `next`.
pub const DESCRIPTOR: u64 = 16;

/// The bytes a descriptor table of `size` entries needs.
pub fn descriptor_bytes(size: u16) -> (bytes: u64)
    ensures
        bytes == 16 * size,
{
    size as u64 * DESCRIPTOR
}

/// The bytes an available ring of `size` entries needs: two `u16` headers, the
/// ring, and the trailing `used_event`.
pub fn driver_bytes(size: u16) -> (bytes: u64)
    ensures
        bytes == 4 + 2 * size + 2,
{
    4 + 2 * size as u64 + 2
}

/// The bytes a used ring of `size` entries needs: two `u16` headers, the
/// eight-byte elements, and the trailing `avail_event`.
pub fn device_bytes(size: u16) -> (bytes: u64)
    ensures
        bytes == 4 + 8 * size + 2,
{
    4 + 8 * size as u64 + 2
}

/// One completed chain: the head descriptor the device returned and how many
/// bytes it wrote.
#[derive(Clone, Copy, Debug, PartialEq, Eq, Structural)]
pub struct Used {
    pub head: u16,
    pub len: u32,
}

impl Used {
    /// The head descriptor index of the completed chain.
    pub fn head(self) -> (head: u16)
        ensures
            head == self.head,
    {
        self.head
    }

    /// How many bytes the device reported writing.
    pub fn written(self) -> (len: u32)
        ensures
            len == self.len,
    {
        self.len
    }
}

/// The powers of two no larger than `MAX_SIZE`.
pub open spec fn valid_size(size: int) -> bool {
    size == 1 || size == 2 || size == 4 || size == 8 || size == 16 || size == 32
}

/// A split virtqueue over its three regions.
pub struct Queue<W: Window> {
    pub descriptors: Mapping<W>,
    pub driver: Mapping<W>,
    pub device: Mapping<W>,
    pub size: u16,
    /// A stack of free descriptors whose top is `free[available - 1]`.
    pub free: [u16; 32],
    pub available: u16,
    pub avail_idx: u16,
    pub used_seen: u16,
}

/// One descriptor, written.
pub open spec fn descriptor(index: u16, slice: DmaSlice, flags: int, next: u16) -> Seq<Access> {
    seq![
        window::write((16 * index) as u64, 8, slice.iova.address as int),
        window::write((16 * index + 8) as u64, 4, slice.len as int),
        window::write((16 * index + 12) as u64, 2, flags),
        window::write((16 * index + 14) as u64, 2, next as int),
    ]
}

/// The `k`th descriptor a chain takes off a stack.
pub open spec fn taken(stack: Seq<u16>, k: int) -> u16 {
    stack[stack.len() - 1 - k]
}

/// The flags of the `k`th descriptor of a chain.
pub open spec fn flags_of(segments: Seq<DmaSlice>, k: int) -> int {
    (if segments[k].writable { 2int } else { 0 }) + (if k + 1 < segments.len() { 1int } else { 0 })
}

/// The first `n` descriptors of a chain over `stack`, written and linked.
pub open spec fn chain_written(stack: Seq<u16>, segments: Seq<DmaSlice>, n: nat) -> Seq<Access>
    decreases n,
{
    if n == 0 {
        seq![]
    } else {
        let k = n - 1;
        chain_written(stack, segments, (n - 1) as nat) + descriptor(
            taken(stack, k),
            segments[k],
            flags_of(segments, k),
            if k + 1 < segments.len() { taken(stack, k + 1) } else { 0 },
        )
    }
}

/// What following a returned chain through the descriptor table found: the
/// reads `t` start at `index` with `seen` already visited, and `chain` is the
/// whole chain, or `None` if it left the table, repeated itself or never ended.
pub open spec fn followed(
    size: int,
    index: u16,
    seen: Seq<u16>,
    t: Seq<Access>,
    chain: Option<Seq<u16>>,
) -> bool
    decreases t.len(),
{
    if index >= size || seen.contains(index) {
        t.len() == 0 && chain is None
    } else {
        &&& t.len() >= 2
        &&& t[0] matches Access::Read { at, width: 2, value: flags }
        &&& at == 16 * index + 12
        &&& t[1] matches Access::Read { at, width: 2, value: next }
        &&& at == 16 * index + 14
        &&& if flags % 2 == 0 {
            t.len() == 2 && chain == Some(seen.push(index))
        } else if seen.len() + 1 >= size {
            t.len() == 2 && chain is None
        } else {
            followed(size, next as u16, seen.push(index), t.skip(2), chain)
        }
    }
}

impl<W: Window> Queue<W> {
    pub open spec fn wf(&self) -> bool {
        &&& valid_size(self.size as int)
        &&& self.available <= self.size
        &&& forall|i: int| 0 <= i < self.available ==> #[trigger] self.free@[i] < self.size
        &&& self.descriptors.window.span() >= 16 * self.size
        &&& self.driver.window.span() >= 4 + 2 * self.size + 2
        &&& self.device.window.span() >= 4 + 8 * self.size + 2
    }

    /// The free descriptors, the next to be taken last.
    pub open spec fn stack(&self) -> Seq<u16> {
        self.free@.take(self.available as int)
    }

    /// Everything but the windows and the free list is as it was.
    pub open spec fn same_shape(&self, other: Self) -> bool {
        &&& self.size == other.size
        &&& self.descriptors.device == other.descriptors.device
        &&& self.descriptors.iova == other.descriptors.iova
        &&& self.descriptors.perm == other.descriptors.perm
        &&& self.descriptors.physical == other.descriptors.physical
        &&& self.driver.device == other.driver.device
        &&& self.driver.iova == other.driver.iova
        &&& self.driver.perm == other.driver.perm
        &&& self.driver.physical == other.driver.physical
        &&& self.device.device == other.device.device
        &&& self.device.iova == other.device.iova
        &&& self.device.perm == other.device.perm
        &&& self.device.physical == other.device.physical
    }

    /// The queue once `segments` were published as one chain.
    pub open spec fn pushed(&self, segments: Seq<DmaSlice>, after: Self) -> bool {
        let head = taken(self.stack(), 0);
        let idx = if self.avail_idx == u16::MAX { 0 } else { self.avail_idx + 1 };
        &&& after.same_shape(*self)
        &&& after.wf()
        &&& after.available == self.available - segments.len()
        &&& after.stack() == self.stack().take(self.available - segments.len())
        &&& after.used_seen == self.used_seen
        &&& after.avail_idx == idx
        &&& after.device.window == self.device.window
        &&& grew(
            self.descriptors.window,
            after.descriptors.window,
            chain_written(self.stack(), segments, segments.len()),
        )
        &&& grew(
            self.driver.window,
            after.driver.window,
            seq![
                window::write(
                    (4 + 2 * (self.avail_idx as int % self.size as int)) as u64,
                    2,
                    head as int,
                ),
                window::write(2, 2, idx),
            ],
        )
    }

    /// Lays a queue of `size` descriptors over its three regions.
    ///
    /// `size` must be a power of two no larger than `MAX_SIZE`, each region
    /// must be large enough for its structure, and the mappings must grant the
    /// device the access each split-ring role needs. In particular, a device
    /// both reads and writes its used-ring index while maintaining the ring.
    pub fn new(
        size: u16,
        descriptors: Mapping<W>,
        driver: Mapping<W>,
        device: Mapping<W>,
    ) -> (queue: Result<Self, VirtioError>)
        ensures
            match queue {
                Ok(queue) => {
                    &&& queue.wf()
                    &&& queue.size == size
                    &&& queue.available == size
                    &&& queue.stack() == Seq::new(size as nat, |i: int| (size - 1 - i) as u16)
                    &&& queue.avail_idx == 0
                    &&& queue.used_seen == 0
                    &&& grew(descriptors.window, queue.descriptors.window, seq![Access::Clear])
                    &&& grew(driver.window, queue.driver.window, seq![Access::Clear])
                    &&& grew(device.window, queue.device.window, seq![Access::Clear])
                    &&& queue.same_shape(
                        Queue { descriptors, driver, device, ..queue },
                    )
                },
                Err(_) => true,
            },
            queue is Ok <==> laid_out(size, descriptors, driver, device) && granted(
                descriptors,
                driver,
                device,
            ),
            queue matches Err(error) ==> error == if laid_out(size, descriptors, driver, device) {
                VirtioError::Dma(DmaError::Permission)
            } else {
                VirtioError::Device
            },
    {
        if !(size == 1 || size == 2 || size == 4 || size == 8 || size == 16 || size == 32) {
            return Err(VirtioError::Device);
        }
        if descriptors.len() < descriptor_bytes(size) || driver.len() < driver_bytes(size)
            || device.len() < device_bytes(size) {
            return Err(VirtioError::Device);
        }
        if !descriptors.perm.can_read() || !driver.perm.can_read() || !device.perm.can_read()
            || !device.perm.can_write() {
            return Err(VirtioError::Dma(DmaError::Permission));
        }
        let mut descriptors = descriptors;
        let mut driver = driver;
        let mut device = device;
        descriptors.window.zero();
        driver.window.zero();
        device.window.zero();

        // Descending order puts descriptor zero on top of the stack, so the
        // first chain starts at a tidy head.
        let mut free: [u16; 32] = [0;32];
        let mut slot: u16 = 0;
        while slot < size
            invariant
                slot <= size <= 32,
                forall|i: int| 0 <= i < slot ==> #[trigger] free@[i] == size - 1 - i,
            decreases size - slot,
        {
            free[slot as usize] = size - 1 - slot;
            slot = slot + 1;
        }
        let queue = Queue {
            descriptors,
            driver,
            device,
            size,
            free,
            available: size,
            avail_idx: 0,
            used_seen: 0,
        };
        assert(queue.stack() =~= Seq::new(size as nat, |i: int| (size - 1 - i) as u16));
        Ok(queue)
    }

    pub fn size(&self) -> (size: u16)
        ensures
            size == self.size,
    {
        self.size
    }

    /// How many descriptors are free for the next chain.
    pub fn available(&self) -> (available: u16)
        ensures
            available == self.available,
    {
        self.available
    }

    pub fn descriptors_iova(&self) -> (iova: Iova)
        ensures
            iova == self.descriptors.iova,
    {
        self.descriptors.iova
    }

    pub fn driver_iova(&self) -> (iova: Iova)
        ensures
            iova == self.driver.iova,
    {
        self.driver.iova
    }

    pub fn device_iova(&self) -> (iova: Iova)
        ensures
            iova == self.device.iova,
    {
        self.device.iova
    }

    /// Gives up the three mappings, for a caller that has stopped the device.
    pub fn mappings(self) -> (mappings: [Mapping<W>; 3])
        ensures
            mappings@ == seq![self.descriptors, self.driver, self.device],
    {
        [self.descriptors, self.driver, self.device]
    }

    /// Publishes `segments` as one descriptor chain and returns its head.
    ///
    /// Returns [`VirtioError::Full`] when the chain will not fit in the free
    /// descriptors: the backpressure signal a caller drains completions
    /// against rather than overrunning the ring.
    pub fn push(&mut self, segments: &[DmaSlice]) -> (head: Result<u16, VirtioError>)
        requires
            old(self).wf(),
        ensures
            match head {
                Ok(head) => {
                    &&& 1 <= segments@.len() <= old(self).available
                    &&& head == taken(old(self).stack(), 0)
                    &&& old(self).pushed(segments@, *final(self))
                },
                Err(error) => {
                    &&& segments@.len() == 0 || segments@.len() > old(self).available
                    &&& error == VirtioError::Full
                    &&& *final(self) == *old(self)
                },
            },
    {
        if segments.len() == 0 || segments.len() > self.available as usize {
            return Err(VirtioError::Full);
        }
        let count: u16 = segments.len() as u16;
        let ghost stack = self.stack();

        // Reserve the whole chain before writing any of it, so a short free
        // list never leaves a half-linked chain behind. Descriptors come off
        // the top of the stack, so the chain runs `free[top], free[top-1], ...`.
        let top: u16 = self.available - 1;
        let head: u16 = self.free[top as usize];
        let mut offset: u16 = 0;
        assert(chain_written(stack, segments@, 0) =~= Seq::<Access>::empty());
        while offset < count
            invariant
                offset <= count,
                count == segments@.len(),
                1 <= count <= self.available,
                top == self.available - 1,
                self.wf(),
                stack == self.stack(),
                self.same_shape(*old(self)),
                self.free == old(self).free,
                self.available == old(self).available,
                self.avail_idx == old(self).avail_idx,
                self.used_seen == old(self).used_seen,
                self.driver == old(self).driver,
                self.device == old(self).device,
                grew(
                    old(self).descriptors.window,
                    self.descriptors.window,
                    chain_written(stack, segments@, offset as nat),
                ),
            decreases count - offset,
        {
            let index: u16 = self.free[(top - offset) as usize];
            let last = offset + 1 == count;
            let next: u16 = if last {
                0
            } else {
                self.free[(top - offset - 1) as usize]
            };
            let writing: u16 = if segments[offset as usize].writable {
                WRITE
            } else {
                0
            };
            let going: u16 = if last {
                0
            } else {
                NEXT
            };
            assert(index == taken(stack, offset as int));
            assert(!last ==> next == taken(stack, offset + 1));
            self.write_descriptor(index, segments[offset as usize], writing + going, next);
            assert(chain_written(stack, segments@, (offset + 1) as nat) == chain_written(
                stack,
                segments@,
                offset as nat,
            ) + descriptor(index, segments@[offset as int], writing + going, next));
            offset = offset + 1;
        }
        self.available = self.available - count;

        let slot: u16 = self.avail_idx % self.size;
        let _ = self.driver.window.write_u16(4 + 2 * slot as u64, head);
        self.avail_idx = self.avail_idx.wrapping_add(1);
        // The window orders these two writes: the index publishes the slot.
        let _ = self.driver.window.write_u16(2, self.avail_idx);
        assert(self.stack() =~= stack.take(stack.len() - count));
        Ok(head)
    }

    /// Reclaims one completed chain, or `None` if the device has returned
    /// nothing new.
    pub fn pop(&mut self) -> (used: Result<Option<Used>, VirtioError>)
        requires
            old(self).wf(),
        ensures
            final(self).wf(),
            old(self).popped(*final(self), used),
    {
        let ghost before = *self;
        let index: u16 = match self.device.window.read_u16(2) {
            Ok(index) => index,
            Err(_) => return Err(VirtioError::Device),
        };
        if index == self.used_seen {
            assert(before.idle(*self, index));
            return Ok(None);
        }
        let slot: u16 = self.used_seen % self.size;
        let element: u64 = 4 + 8 * slot as u64;
        let (id, len) = match (
            self.device.window.read_u32(element),
            self.device.window.read_u32(element + 4),
        ) {
            (Ok(id), Ok(len)) => (id, len),
            _ => return Err(VirtioError::Device),
        };
        let head: u16 = (id % 0x1_0000) as u16;
        let ghost reads = seq![
            window::read(2, 2, index as int),
            window::read(element, 4, id as int),
            window::read((element + 4) as u64, 4, len as int),
        ];
        assert(grew(before.device.window, self.device.window, reads));
        let ghost middle = *self;
        let done = self.free_chain(head);
        let ghost found = choose|chain: Option<Seq<u16>>| #[trigger]
            middle.freed(head, *self, chain, done);
        if let Err(error) = done {
            assert(before.reaped(*self, index, id, len, found, Err(error)));
            return Err(error);
        }
        self.used_seen = self.used_seen.wrapping_add(1);
        let used = Used { head, len };
        assert(before.reaped(*self, index, id, len, found, Ok(used)));
        Ok(Some(used))
    }

    fn write_descriptor(&mut self, index: u16, segment: DmaSlice, flags: u16, next: u16)
        requires
            old(self).wf(),
            index < old(self).size,
        ensures
            *final(self) == (Queue {
                descriptors: Mapping {
                    window: final(self).descriptors.window,
                    ..old(self).descriptors
                },
                ..*old(self)
            }),
            grew(
                old(self).descriptors.window,
                final(self).descriptors.window,
                descriptor(index, segment, flags as int, next),
            ),
    {
        let at: u64 = index as u64 * DESCRIPTOR;
        let _ = self.descriptors.window.write_u64(at, segment.iova.get());
        let _ = self.descriptors.window.write_u32(at + 8, segment.len);
        let _ = self.descriptors.window.write_u16(at + 12, flags);
        let _ = self.descriptors.window.write_u16(at + 14, next);
    }

    /// Returns a chain's descriptors to the free list, following `NEXT` links.
    ///
    /// The walk is bounded by the queue size: a device that returns a chain
    /// longer than the table describes a cycle, which is refused rather than
    /// followed forever.
    fn free_chain(&mut self, head: u16) -> (done: Result<(), VirtioError>)
        requires
            old(self).wf(),
        ensures
            final(self).wf(),
            exists|chain: Option<Seq<u16>>| #[trigger]
                old(self).freed(head, *final(self), chain, done),
    {
        let ghost before = *self;
        let mut chain: [u16; 32] = [0;32];
        let mut seen: [bool; 32] = [false;32];
        let mut count: u16 = 0;
        let mut index: u16 = head;
        let ghost mut reads: Seq<Access> = Seq::empty();
        assert(chain@.take(0) =~= Seq::<u16>::empty());
        while count < self.size
            invariant
                self.wf(),
                before == *old(self),
                *self == (Queue {
                    descriptors: Mapping {
                        window: self.descriptors.window,
                        ..before.descriptors
                    },
                    ..before
                }),
                count <= self.size,
                grew(before.descriptors.window, self.descriptors.window, reads),
                forall|i: int| 0 <= i < count ==> #[trigger] chain@[i] < self.size,
                forall|i: int|
                    #![trigger seen@[i]]
                    0 <= i < 32 ==> seen@[i] == chain@.take(count as int).contains(i as u16),
                count < self.size ==> forall|t: Seq<Access>, c: Option<Seq<u16>>|
                    #[trigger]
                    followed(self.size as int, index, chain@.take(count as int), t, c) ==> followed(
                        self.size as int,
                        head,
                        seq![],
                        reads + t,
                        c,
                    ),
                count == self.size ==> followed(self.size as int, head, seq![], reads, None),
            decreases self.size - count,
        {
            let ghost visited = chain@.take(count as int);
            if index >= self.size || seen[index as usize] {
                assert(followed(self.size as int, index, visited, Seq::<Access>::empty(), None));
                assert(reads + Seq::<Access>::empty() =~= reads);
                assert(before.freed_reading(head, *self, reads, None));
                assert(before.freed(head, *self, None, Err(VirtioError::Device)));
                return Err(VirtioError::Device);
            }
            seen[index as usize] = true;
            chain[count as usize] = index;
            count = count + 1;
            assert(chain@.take(count as int) =~= visited.push(index));
            assert forall|i: int| #![trigger seen@[i]] 0 <= i < 32 implies seen@[i] == chain@.take(
                count as int,
            ).contains(i as u16) by {
                if visited.contains(i as u16) {
                    let k = choose|k: int| 0 <= k < visited.len() && visited[k] == i as u16;
                    assert(visited.push(index)[k] == i as u16);
                }
                if i == index {
                    assert(visited.push(index)[count - 1] == i as u16);
                }
            }
            let at: u64 = index as u64 * DESCRIPTOR;
            let (flags, next) = match (
                self.descriptors.window.read_u16(at + 12),
                self.descriptors.window.read_u16(at + 14),
            ) {
                (Ok(flags), Ok(next)) => (flags, next),
                _ => return Err(VirtioError::Device),
            };
            let ghost pair = seq![
                window::read((at + 12) as u64, 2, flags as int),
                window::read((at + 14) as u64, 2, next as int),
            ];
            let ghost earlier = reads;
            proof {
                reads = reads + pair;
                bits::lemma_low_bit_u16(flags);
            }
            if flags & NEXT == 0 {
                assert(followed(self.size as int, index, visited, pair, Some(visited.push(index))));
                let ghost found = visited.push(index);
                if self.available as usize + count as usize > self.size as usize {
                    assert(before.freed_reading(head, *self, reads, Some(found)));
                    assert(before.freed(head, *self, Some(found), Err(VirtioError::Device)));
                    return Err(VirtioError::Device);
                }
                let mut back: u16 = 0;
                while back < count
                    invariant
                        back <= count,
                        count == found.len(),
                        before.available + count <= before.size,
                        found == chain@.take(count as int),
                        forall|i: int| 0 <= i < count ==> #[trigger] chain@[i] < before.size,
                        before.wf(),
                        self.wf(),
                        self.available == before.available + back,
                        *self == (Queue {
                            descriptors: Mapping {
                                window: self.descriptors.window,
                                ..before.descriptors
                            },
                            free: self.free,
                            available: self.available,
                            ..before
                        }),
                        self.stack() == before.stack() + found.take(back as int),
                        grew(before.descriptors.window, self.descriptors.window, reads),
                    decreases count - back,
                {
                    let ghost stack = self.stack();
                    self.free[self.available as usize] = chain[back as usize];
                    self.available = self.available + 1;
                    assert(self.stack() =~= stack.push(found[back as int]));
                    assert(found.take(back + 1) =~= found.take(back as int).push(found[back as int]));
                    back = back + 1;
                }
                assert(found.take(count as int) =~= found);
                assert(before.freed_reading(head, *self, reads, Some(found)));
                assert(before.freed(head, *self, Some(found), Ok(())));
                return Ok(());
            }
            proof {
                let size = self.size as int;
                if count == self.size {
                    assert(followed(size, index, visited, pair, None));
                } else {
                    assert forall|t: Seq<Access>, c: Option<Seq<u16>>| #[trigger]
                        followed(
                            size,
                            next,
                            chain@.take(count as int),
                            t,
                            c,
                        ) implies followed(size, head, seq![], reads + t, c) by {
                        assert((pair + t).skip(2) =~= t);
                        assert(followed(size, index, visited, pair + t, c));
                        assert(earlier + (pair + t) =~= reads + t);
                    }
                }
            }
            index = next;
        }
        assert(before.freed_reading(head, *self, reads, None));
        assert(before.freed(head, *self, None, Err(VirtioError::Device)));
        Err(VirtioError::Device)
    }

    /// Whether a followed chain can go back on the free list.
    pub open spec fn fits(&self, chain: Option<Seq<u16>>) -> bool {
        chain matches Some(chain) && self.available + chain.len() <= self.size
    }

    /// The queue once the chain at `head` was followed by `reads` and, if it
    /// can be, put back on the free list.
    pub open spec fn freed_reading(
        &self,
        head: u16,
        after: Self,
        reads: Seq<Access>,
        chain: Option<Seq<u16>>,
    ) -> bool {
        &&& followed(self.size as int, head, seq![], reads, chain)
        &&& after.same_shape(*self)
        &&& after.driver == self.driver
        &&& after.device == self.device
        &&& after.avail_idx == self.avail_idx
        &&& after.used_seen == self.used_seen
        &&& grew(self.descriptors.window, after.descriptors.window, reads)
        &&& after.stack() == if self.fits(chain) {
            self.stack() + chain->0
        } else {
            self.stack()
        }
    }

    pub open spec fn freed(
        &self,
        head: u16,
        after: Self,
        chain: Option<Seq<u16>>,
        done: Result<(), VirtioError>,
    ) -> bool {
        &&& exists|reads: Seq<Access>| #[trigger] self.freed_reading(head, after, reads, chain)
        &&& done == if self.fits(chain) {
            Ok::<(), VirtioError>(())
        } else {
            Err::<(), VirtioError>(VirtioError::Device)
        }
    }

    /// The queue once its used index was read as `index`, and was nothing new.
    pub open spec fn idle(&self, after: Self, index: u16) -> bool {
        &&& index == self.used_seen
        &&& after == (Queue {
            device: Mapping { window: after.device.window, ..self.device },
            ..*self
        })
        &&& grew(self.device.window, after.device.window, seq![window::read(2, 2, index as int)])
    }

    /// The queue once the element after the last seen read as `id` and `len`,
    /// and its chain was followed.
    pub open spec fn reaped(
        &self,
        after: Self,
        index: u16,
        id: u32,
        len: u32,
        chain: Option<Seq<u16>>,
        used: Result<Used, VirtioError>,
    ) -> bool {
        let head = (id % 0x1_0000) as u16;
        let element = 4 + 8 * (self.used_seen as int % self.size as int);
        let fits = self.fits(chain);
        &&& index != self.used_seen
        &&& exists|reads: Seq<Access>|
            #![trigger followed(self.size as int, head, seq![], reads, chain)]
            followed(self.size as int, head, seq![], reads, chain) && grew(
                self.descriptors.window,
                after.descriptors.window,
                reads,
            )
        &&& after.same_shape(*self)
        &&& after.driver == self.driver
        &&& after.avail_idx == self.avail_idx
        &&& grew(
            self.device.window,
            after.device.window,
            seq![
                window::read(2, 2, index as int),
                window::read(element as u64, 4, id as int),
                window::read((element + 4) as u64, 4, len as int),
            ],
        )
        &&& after.stack() == if fits {
            self.stack() + chain->0
        } else {
            self.stack()
        }
        &&& after.used_seen == if !fits {
            self.used_seen
        } else if self.used_seen == u16::MAX {
            0
        } else {
            (self.used_seen + 1) as u16
        }
        &&& used == if fits {
            Ok::<Used, VirtioError>(Used { head, len })
        } else {
            Err::<Used, VirtioError>(VirtioError::Device)
        }
    }

    /// The queue once a returned element was taken, with `used` coming of it.
    pub open spec fn took(&self, after: Self, used: Result<Used, VirtioError>) -> bool {
        exists|index: u16, id: u32, len: u32, chain: Option<Seq<u16>>| #[trigger]
            self.reaped(after, index, id, len, chain, used)
    }

    /// What reclaiming one chain did, for whatever the device had written.
    pub open spec fn popped(&self, after: Self, used: Result<Option<Used>, VirtioError>) -> bool {
        match used {
            Ok(None) => exists|index: u16| #[trigger] self.idle(after, index),
            Ok(Some(used)) => self.took(after, Ok(used)),
            Err(error) => self.took(after, Err(error)),
        }
    }
}

/// The first `n` descriptors a chain takes off a stack, in chain order.
pub open spec fn chained(stack: Seq<u16>, n: nat) -> Seq<u16> {
    Seq::new(n, |k: int| taken(stack, k))
}

/// What a walk of a pushed chain reads from its `k`th descriptor on, while
/// nobody has rewritten the descriptor table.
pub open spec fn chain_read(stack: Seq<u16>, segments: Seq<DmaSlice>, k: nat) -> Seq<Access>
    decreases segments.len() - k,
{
    if k >= segments.len() {
        seq![]
    } else {
        let at = 16 * taken(stack, k as int);
        seq![
            window::read((at + 12) as u64, 2, flags_of(segments, k as int)),
            window::read(
                (at + 14) as u64,
                2,
                if k + 1 < segments.len() { taken(stack, k as int + 1) as int } else { 0 },
            ),
        ] + chain_read(stack, segments, k + 1)
    }
}

/// A completed chain gives back exactly the descriptors its push took: while
/// the table reads as it was written, following the head `push` returned finds
/// those descriptors and no others.
pub proof fn law_chain_returns(size: int, stack: Seq<u16>, segments: Seq<DmaSlice>)
    requires
        1 <= segments.len() <= stack.len() <= size,
        forall|i: int| 0 <= i < stack.len() ==> #[trigger] stack[i] < size,
        stack.no_duplicates(),
    ensures
        followed(
            size,
            taken(stack, 0),
            seq![],
            chain_read(stack, segments, 0),
            Some(chained(stack, segments.len())),
        ),
{
    assert(chained(stack, 0) =~= seq![]);
    lemma_chain_followed(size, stack, segments, 0);
}

proof fn lemma_chain_followed(size: int, stack: Seq<u16>, segments: Seq<DmaSlice>, k: nat)
    requires
        k < segments.len() <= stack.len() <= size,
        forall|i: int| 0 <= i < stack.len() ==> #[trigger] stack[i] < size,
        stack.no_duplicates(),
    ensures
        followed(
            size,
            taken(stack, k as int),
            chained(stack, k),
            chain_read(stack, segments, k),
            Some(chained(stack, segments.len())),
        ),
    decreases segments.len() - k,
{
    let index = taken(stack, k as int);
    let t = chain_read(stack, segments, k);
    assert(!chained(stack, k).contains(index));
    assert(chained(stack, k).push(index) =~= chained(stack, k + 1));
    if k + 1 < segments.len() {
        lemma_chain_followed(size, stack, segments, k + 1);
        assert(t.skip(2) =~= chain_read(stack, segments, k + 1));
    } else {
        assert(t.len() == 2);
    }
}

/// Whether three regions can hold a queue of `size` descriptors.
pub open spec fn laid_out<W: Window>(
    size: u16,
    descriptors: Mapping<W>,
    driver: Mapping<W>,
    device: Mapping<W>,
) -> bool {
    &&& valid_size(size as int)
    &&& descriptors.window.span() >= 16 * size
    &&& driver.window.span() >= 4 + 2 * size + 2
    &&& device.window.span() >= 4 + 8 * size + 2
}

/// Whether the mappings let a device play its part in a queue.
pub open spec fn granted<W: Window>(
    descriptors: Mapping<W>,
    driver: Mapping<W>,
    device: Mapping<W>,
) -> bool {
    &&& descriptors.perm.reads()
    &&& driver.perm.reads()
    &&& device.perm.reads()
    &&& device.perm.writes()
}

/// The memory of a queue, in numbers: for a size of 1, 2, 4, 8, 16 or 32, as many
/// times sixteen bytes of descriptors, two bytes an entry and six more of what
/// the driver offers, eight and six more of what the device returns. The device
/// reads the first two, and reads and writes the third.
pub proof fn law_queue_memory_in_numbers<W: Window>(
    size: u16,
    descriptors: Mapping<W>,
    driver: Mapping<W>,
    device: Mapping<W>,
)
    ensures
        laid_out(size, descriptors, driver, device) <==> (size == 1 || size == 2 || size == 4 || size
            == 8 || size == 16 || size == 32) && descriptors.window.span() >= 16 * size
            && driver.window.span() >= 6 + 2 * size && device.window.span() >= 6 + 8 * size,
        granted(descriptors, driver, device) <==> descriptors.perm !is Write && driver.perm !is Write
            && device.perm is ReadWrite,
{
}

/// A chain that was pushed is linked, in numbers: each descriptor, off the top of
/// the free list, holds its run's address and length, flag 2 where the device
/// writes it, and flag 1 and the next one's number unless it is the last.
pub proof fn law_chain_is_linked<W: Window>(
    before: Queue<W>,
    after: Queue<W>,
    segments: Seq<DmaSlice>,
    k: int,
)
    requires
        before.wf(),
        before.pushed(segments, after),
        0 <= k < segments.len() <= before.available,
    ensures
        ({
            let t = after.descriptors.window.trace();
            let at = before.descriptors.window.trace().len() + 4 * k;
            let index = before.free@[before.available - 1 - k];
            let last = k == segments.len() - 1;
            &&& t.len() == before.descriptors.window.trace().len() + 4 * segments.len()
            &&& t[at] == (Access::Write {
                at: (16 * index) as u64,
                width: 8,
                value: segments[k].iova.address,
            })
            &&& t[at + 1] == (Access::Write {
                at: (16 * index + 8) as u64,
                width: 4,
                value: segments[k].len as u64,
            })
            &&& t[at + 2] == (Access::Write {
                at: (16 * index + 12) as u64,
                width: 2,
                value: ((if segments[k].writable {
                    2int
                } else {
                    0
                }) + (if last {
                    0int
                } else {
                    1
                })) as u64,
            })
            &&& t[at + 3] == (Access::Write {
                at: (16 * index + 14) as u64,
                width: 2,
                value: if last {
                    0u64
                } else {
                    before.free@[before.available - 2 - k] as u64
                },
            })
        }),
        after.available == before.available - segments.len(),
        forall|i: int| 0 <= i < after.available ==> #[trigger] after.free@[i] == before.free@[i],
{
    let stack = before.stack();
    let added = chain_written(stack, segments, segments.len());
    lemma_linked(stack, segments, segments.len(), k);
    let old_trace = before.descriptors.window.trace();
    assert(after.descriptors.window.trace() =~= old_trace + added);
    assert forall|i: int| 0 <= i < after.available implies #[trigger] after.free@[i]
        == before.free@[i] by {
        assert(after.stack()[i] == stack.take(before.available - segments.len())[i]);
    }
}

proof fn lemma_linked(stack: Seq<u16>, segments: Seq<DmaSlice>, n: nat, k: int)
    requires
        n <= segments.len(),
    ensures
        chain_written(stack, segments, n).len() == 4 * n,
        0 <= k < n ==> {
            let t = chain_written(stack, segments, n);
            let own = descriptor(
                taken(stack, k),
                segments[k],
                flags_of(segments, k),
                if k + 1 < segments.len() {
                    taken(stack, k + 1)
                } else {
                    0
                },
            );
            &&& t[4 * k] == own[0]
            &&& t[4 * k + 1] == own[1]
            &&& t[4 * k + 2] == own[2]
            &&& t[4 * k + 3] == own[3]
        },
    decreases n,
{
    if n > 0 {
        lemma_linked(stack, segments, (n - 1) as nat, k);
    }
}

} // verus!
