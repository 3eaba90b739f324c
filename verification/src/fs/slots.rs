//! The buffers a volume keeps blocks in, and which block each is for.
use vstd::prelude::*;

use crate::fs::error::FsError;
use crate::virtio::error::BlockError;

verus! {

/// Blocks a volume keeps a buffer for.
///
/// Small enough that finding one stays a linear scan, big enough that a
/// streaming read holds its tree path, checksum table, current payload block,
/// and the blocks it asked for ahead, all at once.
pub const SLOTS: usize = 8;

/// Where one slot's block is.
pub enum Slot {
    /// Here, holding the block it names — or nothing worth keeping.
    Here { block: Option<u64>, buffer: Vec<u8> },
    /// At the device, filling for the block it names.
    Flight { fetched: u64, id: u64 },
    /// Handed to the ring, in a submission not taken back yet.
    Lent,
}

impl Slot {
    /// The block the slot holds or fetches.
    pub open spec fn names(self) -> Option<u64> {
        match self {
            Slot::Here { block, .. } => block,
            Slot::Flight { fetched, .. } => Some(fetched),
            Slot::Lent => None,
        }
    }

    /// Whether a write of blocks `start..end` changes what the slot is for.
    pub open spec fn touched(self, start: u64, end: u64) -> bool {
        self.names() matches Some(block) && start <= block < end
    }

    /// Whether the slot's buffer is here and holds nothing.
    pub open spec fn vacant(self) -> bool {
        self is Here && self.names() is None
    }
}

/// The slots, and the hand that comes round them.
pub struct Slots {
    pub slots: Vec<Slot>,
    pub hand: usize,
}

/// The position `k` steps on from the hand.
pub open spec fn round(hand: int, k: int, len: int) -> int {
    if hand + k < len {
        hand + k
    } else {
        hand + k - len
    }
}

/// Whether `at` is where the hand stops: the first slot on its way whose buffer
/// is here.
pub open spec fn stops(slots: Seq<Slot>, hand: int, at: int) -> bool {
    exists|k: int|
        {
            &&& 0 <= k < slots.len()
            &&& at == #[trigger] round(hand, k, slots.len() as int)
            &&& slots[at] is Here
            &&& forall|j: int|
                0 <= j < k ==> !(slots[#[trigger] round(hand, j, slots.len() as int)] is Here)
        }
}

impl Slots {
    /// No block is kept or fetched twice, and the hand is on a slot.
    pub open spec fn wf(&self) -> bool {
        &&& self.slots@.len() <= SLOTS
        &&& self.hand < self.slots@.len() || self.hand == 0
        &&& forall|i: int, j: int|
            #![trigger self.slots@[i], self.slots@[j]]
            0 <= i < j < self.slots@.len() && self.slots@[i].names() is Some
                ==> self.slots@[i].names() != self.slots@[j].names()
    }

    pub fn new() -> (slots: Self)
        ensures
            slots.wf(),
            slots.slots@.len() == 0,
            slots.hand == 0,
    {
        Slots { slots: Vec::new(), hand: 0 }
    }

    /// The slot holding or fetching `index`.
    pub fn find(&self, index: u64) -> (at: Option<usize>)
        ensures
            match at {
                Some(at) => at < self.slots@.len() && self.slots@[at as int].names() == Some(index)
                    && forall|i: int|
                    0 <= i < at ==> (#[trigger] self.slots@[i]).names() != Some(index),
                None => forall|i: int|
                    0 <= i < self.slots@.len() ==> (#[trigger] self.slots@[i]).names() != Some(
                        index,
                    ),
            },
    {
        let mut i: usize = 0;
        while i < self.slots.len()
            invariant
                i <= self.slots@.len(),
                forall|k: int| 0 <= k < i ==> (#[trigger] self.slots@[k]).names() != Some(index),
            decreases self.slots.len() - i,
        {
            let held: Option<u64> = match &self.slots[i] {
                Slot::Here { block, .. } => *block,
                Slot::Flight { fetched, .. } => Some(*fetched),
                Slot::Lent => None,
            };
            if let Some(block) = held {
                if block == index {
                    return Some(i);
                }
            }
            i = i + 1;
        }
        None
    }

    fn vacancy(&self) -> (at: Option<usize>)
        ensures
            match at {
                Some(at) => at < self.slots@.len() && self.slots@[at as int].vacant() && forall|
                    i: int,
                | 0 <= i < at ==> !(#[trigger] self.slots@[i]).vacant(),
                None => forall|i: int|
                    0 <= i < self.slots@.len() ==> !(#[trigger] self.slots@[i]).vacant(),
            },
    {
        let mut i: usize = 0;
        while i < self.slots.len()
            invariant
                i <= self.slots@.len(),
                forall|k: int| 0 <= k < i ==> !(#[trigger] self.slots@[k]).vacant(),
            decreases self.slots.len() - i,
        {
            let vacant = match &self.slots[i] {
                Slot::Here { block, .. } => block.is_none(),
                Slot::Flight { .. } => false,
                Slot::Lent => false,
            };
            if vacant {
                return Some(i);
            }
            i = i + 1;
        }
        None
    }

    /// Whether a new buffer would be taken: none is empty, and there is room.
    pub fn wants(&self) -> (wants: bool)
        ensures
            wants == (self.slots@.len() < SLOTS && forall|i: int|
                0 <= i < self.slots@.len() ==> !(#[trigger] self.slots@[i]).vacant()),
    {
        match self.vacancy() {
            Some(_) => false,
            None => self.slots.len() < SLOTS,
        }
    }

    /// Whether some slot holds or fetches `index`.
    pub open spec fn knows(&self, index: u64) -> bool {
        exists|i: int|
            0 <= i < self.slots@.len() && (#[trigger] self.slots@[i]).names() == Some(index)
    }

    /// Whether no slot's buffer is here and no new slot can be had.
    pub open spec fn crowded(&self, buffer: Option<Vec<u8>>) -> bool {
        &&& self.slots@.len() == SLOTS || buffer is None
        &&& forall|i: int| 0 <= i < self.slots@.len() ==> !(#[trigger] self.slots@[i] is Here)
    }

    /// Whether `at` is the slot to take, and `after` is what taking it leaves:
    /// the first empty one with nothing moved, else a new one, else the one the
    /// hand comes round to.
    pub open spec fn freed(&self, buffer: Option<Vec<u8>>, at: usize, after: Self) -> bool {
        let empty = exists|i: int|
            0 <= i < self.slots@.len() && (#[trigger] self.slots@[i]).vacant();
        &&& at < after.slots@.len()
        &&& after.slots@[at as int] is Here
        &&& if empty {
            &&& after == *self
            &&& self.slots@[at as int].vacant()
            &&& forall|i: int| 0 <= i < at ==> !(#[trigger] self.slots@[i]).vacant()
        } else if self.slots@.len() < SLOTS && buffer is Some {
            &&& at == self.slots@.len()
            &&& after.slots@ == self.slots@.push(Slot::Here { block: None, buffer: buffer->0 })
            &&& after.hand == self.hand
        } else {
            &&& after.slots == self.slots
            &&& stops(self.slots@, self.hand as int, at as int)
            &&& after.hand == round(at as int, 1, self.slots@.len() as int)
        }
    }

    /// A slot whose buffer is here, without waiting for one to come back.
    ///
    /// An empty one first, then a new one while the pool may still hold it: a
    /// buffer costs less than the read that fetches back what it would have
    /// evicted. Only when neither is there does the hand come round and take a
    /// block somebody may still want. `buffer` is what the heap agreed to, if it
    /// did.
    pub fn free(&mut self, buffer: Option<Vec<u8>>) -> (at: Option<usize>)
        requires
            old(self).wf(),
        ensures
            final(self).wf(),
            match at {
                Some(at) => old(self).freed(buffer, at, *final(self)),
                None => old(self).crowded(buffer) && *final(self) == *old(self),
            },
    {
        if let Some(at) = self.vacancy() {
            return Some(at);
        }
        if self.slots.len() < SLOTS {
            if let Some(buffer) = buffer {
                self.slots.push(Slot::Here { block: None, buffer });
                return Some(self.slots.len() - 1);
            }
        }
        let len: usize = self.slots.len();
        let ghost hand = self.hand as int;
        let ghost before = *self;
        let mut k: usize = 0;
        while k < len
            invariant
                k <= len,
                len == self.slots@.len(),
                len <= SLOTS,
                self.slots == before.slots,
                0 <= hand < len || len == 0,
                len > 0 ==> self.hand < len,
                self.hand == round(hand, k as int, len as int) || (len == 0 && self.hand == hand),
                before == *old(self),
                hand == before.hand,
                before.wf(),
                old(self).slots@.len() == SLOTS || buffer is None,
                forall|i: int| 0 <= i < len ==> !(#[trigger] before.slots@[i]).vacant(),
                forall|j: int|
                    0 <= j < k ==> !(before.slots@[#[trigger] round(hand, j, len as int)] is Here),
            decreases len - k,
        {
            let at: usize = self.hand;
            assert(at == round(hand, k as int, len as int));
            self.hand = if self.hand + 1 == len {
                0
            } else {
                self.hand + 1
            };
            let here = match &self.slots[at] {
                Slot::Here { .. } => true,
                Slot::Flight { .. } => false,
                Slot::Lent => false,
            };
            if here {
                assert(stops(before.slots@, hand, at as int));
                return Some(at);
            }
            k = k + 1;
        }
        proof {
            assert forall|i: int| 0 <= i < before.slots@.len() implies !(
            #[trigger] before.slots@[i] is Here) by {
                let j = if i >= hand {
                    i - hand
                } else {
                    i - hand + len
                };
                assert(round(hand, j, len as int) == i);
            }
        }
        None
    }

    /// Hands the slot's buffer to the ring.
    pub fn lend(&mut self, at: usize) -> (buffer: Result<Vec<u8>, FsError>)
        requires
            old(self).wf(),
            at < old(self).slots@.len(),
        ensures
            final(self).wf(),
            final(self).hand == old(self).hand,
            final(self).slots@ == old(self).slots@.update(at as int, Slot::Lent),
            match old(self).slots@[at as int] {
                Slot::Here { buffer: held, .. } => buffer == Ok::<Vec<u8>, FsError>(held),
                _ => buffer == Err::<Vec<u8>, FsError>(FsError::Corrupt),
            },
    {
        let mut slot = Slot::Lent;
        std::mem::swap(&mut slot, &mut self.slots[at]);
        match slot {
            Slot::Here { buffer, .. } => Ok(buffer),
            Slot::Flight { .. } => Err(FsError::Corrupt),
            Slot::Lent => Err(FsError::Corrupt),
        }
    }

    /// Records that the slot's buffer is at the device, filling for `block`.
    pub fn fly(&mut self, at: usize, block: u64, id: u64)
        requires
            old(self).wf(),
            at < old(self).slots@.len(),
            forall|i: int|
                0 <= i < old(self).slots@.len() && i != at ==> (#[trigger] old(
                    self,
                ).slots@[i]).names() != Some(block),
        ensures
            final(self).wf(),
            final(self).hand == old(self).hand,
            final(self).slots@ == old(self).slots@.update(at as int, Slot::Flight { fetched: block, id }),
    {
        self.slots.set(at, Slot::Flight { fetched: block, id });
    }

    /// The request a slot waits for, if it waits for one.
    pub fn awaited(&self, at: usize) -> (awaited: Option<(u64, u64)>)
        requires
            at < self.slots@.len(),
        ensures
            awaited == match self.slots@[at as int] {
                Slot::Flight { fetched, id } => Some((fetched, id)),
                _ => None::<(u64, u64)>,
            },
    {
        match &self.slots[at] {
            Slot::Flight { fetched, id } => Some((*fetched, *id)),
            Slot::Here { .. } => None,
            Slot::Lent => None,
        }
    }

    /// Takes back the buffer of a slot whose read is over.
    ///
    /// A refused read leaves the slot holding nothing rather than half a block,
    /// so the next reader asks again instead of believing it.
    pub fn land(
        &mut self,
        at: usize,
        buffer: Option<Vec<u8>>,
        result: Result<(), BlockError>,
    ) -> (done: Result<(), FsError>)
        requires
            old(self).wf(),
            at < old(self).slots@.len(),
            old(self).slots@[at as int] is Flight,
        ensures
            final(self).wf(),
            final(self).hand == old(self).hand,
            match buffer {
                None => done == Err::<(), FsError>(FsError::Corrupt) && final(self).slots@ == old(
                    self,
                ).slots@,
                Some(buffer) => {
                    &&& final(self).slots@ == old(self).slots@.update(
                        at as int,
                        Slot::Here {
                            block: if result is Ok {
                                old(self).slots@[at as int].names()
                            } else {
                                None
                            },
                            buffer,
                        },
                    )
                    &&& done == match result {
                        Ok(()) => Ok::<(), FsError>(()),
                        Err(error) => Err::<(), FsError>(FsError::Device(error)),
                    }
                },
            },
    {
        let block: Option<u64> = match &self.slots[at] {
            Slot::Flight { fetched, .. } => Some(*fetched),
            Slot::Here { .. } => None,
            Slot::Lent => None,
        };
        match buffer {
            None => Err(FsError::Corrupt),
            Some(buffer) => match result {
                Ok(()) => {
                    self.slots.set(at, Slot::Here { block, buffer });
                    Ok(())
                },
                Err(error) => {
                    self.slots.set(at, Slot::Here { block: None, buffer });
                    Err(FsError::Device(error))
                },
            },
        }
    }

    /// Whether a write of blocks `start..end` changes what the slot is for.
    pub fn covers(&self, at: usize, start: u64, end: u64) -> (covers: bool)
        requires
            at < self.slots@.len(),
        ensures
            covers == self.slots@[at as int].touched(start, end),
    {
        match &self.slots[at] {
            Slot::Here { block, .. } => match block {
                Some(block) => start <= *block && *block < end,
                None => false,
            },
            Slot::Flight { fetched, .. } => start <= *fetched && *fetched < end,
            Slot::Lent => false,
        }
    }

    /// The first slot from `from` on that a write of blocks `start..end` changes.
    pub fn stale(&self, from: usize, start: u64, end: u64) -> (at: Option<usize>)
        ensures
            match at {
                Some(at) => {
                    &&& from <= at < self.slots@.len()
                    &&& self.slots@[at as int].touched(start, end)
                    &&& forall|i: int|
                        from <= i < at ==> !(#[trigger] self.slots@[i]).touched(start, end)
                },
                None => forall|i: int|
                    from <= i < self.slots@.len() ==> !(#[trigger] self.slots@[i]).touched(
                        start,
                        end,
                    ),
            },
    {
        let mut at: usize = from;
        while at < self.slots.len()
            invariant
                from <= at,
                forall|i: int| from <= i < at ==> !(#[trigger] self.slots@[i]).touched(start, end),
            decreases self.slots.len() - at,
        {
            if self.covers(at, start, end) {
                return Some(at);
            }
            at = at + 1;
        }
        None
    }

    /// Drops what the slot holds, its buffer being here.
    pub fn drop_block(&mut self, at: usize)
        requires
            old(self).wf(),
            at < old(self).slots@.len(),
        ensures
            final(self).wf(),
            final(self).hand == old(self).hand,
            final(self).slots@ == match old(self).slots@[at as int] {
                Slot::Here { buffer, .. } => old(self).slots@.update(
                    at as int,
                    Slot::Here { block: None, buffer },
                ),
                _ => old(self).slots@,
            },
    {
        let mut slot = Slot::Lent;
        std::mem::swap(&mut slot, &mut self.slots[at]);
        match slot {
            Slot::Here { buffer, .. } => {
                self.slots.set(at, Slot::Here { block: None, buffer });
            },
            Slot::Flight { fetched, id } => {
                self.slots.set(at, Slot::Flight { fetched, id });
            },
            Slot::Lent => {},
        }
    }

    /// The bytes of the block in a slot, its buffer being here.
    pub fn resident(&self, at: usize) -> (bytes: Result<&[u8], FsError>)
        requires
            at < self.slots@.len(),
        ensures
            match self.slots@[at as int] {
                Slot::Here { buffer, .. } => bytes is Ok && bytes->Ok_0@ == buffer@,
                _ => bytes is Err && bytes->Err_0 == FsError::Corrupt,
            },
    {
        match &self.slots[at] {
            Slot::Here { buffer, .. } => Ok(buffer.as_slice()),
            Slot::Flight { .. } => Err(FsError::Corrupt),
            Slot::Lent => Err(FsError::Corrupt),
        }
    }
}

/// With every slot holding a block, the hand takes the slots in turn: each one
/// asked for is the next after the last, from the end back to the start.
pub proof fn law_hand_goes_round(
    before: Slots,
    middle: Slots,
    after: Slots,
    buffer: Option<Vec<u8>>,
    at: usize,
    next: usize,
)
    requires
        before.wf(),
        before.slots@.len() == 8,
        forall|i: int|
            0 <= i < 8 ==> (#[trigger] before.slots@[i] matches Slot::Here { block, .. } && block
                is Some),
        before.freed(buffer, at, middle),
        middle.freed(buffer, next, after),
    ensures
        at == before.hand,
        middle.slots == before.slots,
        after.slots == before.slots,
        next == (before.hand + 1) % 8,
        after.hand == (before.hand + 2) % 8,
{
    assert(!(exists|i: int| 0 <= i < before.slots@.len() && (#[trigger] before.slots@[i]).vacant()));
    assert(stops(before.slots@, before.hand as int, at as int));
    let k = choose|k: int|
        {
            &&& 0 <= k < 8
            &&& at == #[trigger] round(before.hand as int, k, 8)
            &&& before.slots@[at as int] is Here
            &&& forall|j: int|
                0 <= j < k ==> !(before.slots@[#[trigger] round(before.hand as int, j, 8)] is Here)
        };
    if k > 0 {
        assert(before.slots@[round(before.hand as int, 0, 8)] is Here);
    }
    assert(!(exists|i: int| 0 <= i < middle.slots@.len() && (#[trigger] middle.slots@[i]).vacant()));
    assert(stops(middle.slots@, middle.hand as int, next as int));
    let l = choose|k: int|
        {
            &&& 0 <= k < 8
            &&& next == #[trigger] round(middle.hand as int, k, 8)
            &&& middle.slots@[next as int] is Here
            &&& forall|j: int|
                0 <= j < k ==> !(middle.slots@[#[trigger] round(middle.hand as int, j, 8)] is Here)
        };
    if l > 0 {
        assert(middle.slots@[round(middle.hand as int, 0, 8)] is Here);
    }
}

/// A block sent for is known until its read is refused, so that nobody sends for
/// it twice: while it is in flight, and once it has landed.
pub proof fn law_fetched_block_is_known(
    before: Slots,
    flying: Slots,
    landed: Slots,
    refused: Slots,
    at: int,
    block: u64,
    id: u64,
    buffer: Vec<u8>,
)
    requires
        before.wf(),
        0 <= at < before.slots@.len(),
        forall|i: int|
            0 <= i < before.slots@.len() && i != at ==> (#[trigger] before.slots@[i]).names()
                != Some(block),
        flying.slots@ == before.slots@.update(at, Slot::Flight { fetched: block, id }),
        landed.slots@ == flying.slots@.update(at, Slot::Here { block: Some(block), buffer }),
        refused.slots@ == flying.slots@.update(at, Slot::Here { block: None, buffer }),
    ensures
        flying.knows(block),
        landed.knows(block),
        !refused.knows(block),
        refused.slots@[at].vacant(),
        !landed.slots@[at].vacant(),
        !flying.slots@[at].vacant(),
        forall|other: u64|
            other != block ==> #[trigger] flying.knows(other) == refused.knows(other)
                && flying.knows(other) == landed.knows(other),
{
    assert(flying.slots@[at].names() == Some(block));
    assert(landed.slots@[at].names() == Some(block));
    assert forall|other: u64| other != block implies #[trigger] flying.knows(other)
        == refused.knows(other) && flying.knows(other) == landed.knows(other) by {
        if flying.knows(other) {
            let i = choose|i: int|
                0 <= i < flying.slots@.len() && (#[trigger] flying.slots@[i]).names() == Some(
                    other,
                );
            assert(refused.slots@[i].names() == Some(other));
            assert(landed.slots@[i].names() == Some(other));
        }
        if refused.knows(other) {
            let i = choose|i: int|
                0 <= i < refused.slots@.len() && (#[trigger] refused.slots@[i]).names() == Some(
                    other,
                );
            assert(flying.slots@[i].names() == Some(other));
        }
        if landed.knows(other) {
            let i = choose|i: int|
                0 <= i < landed.slots@.len() && (#[trigger] landed.slots@[i]).names() == Some(
                    other,
                );
            assert(flying.slots@[i].names() == Some(other));
        }
    }
    assert forall|i: int| 0 <= i < refused.slots@.len() implies (
    #[trigger] refused.slots@[i]).names() != Some(block) by {
        if i != at {
            assert(refused.slots@[i] == before.slots@[i]);
        }
    }
}

/// A write makes stale what a slot holds or fetches exactly if it is one of the
/// blocks written.
pub proof fn law_written_blocks_are_stale(block: u64, id: u64, buffer: Vec<u8>, start: u64, end: u64)
    ensures
        (Slot::Here { block: Some(block), buffer }).touched(start, end) <==> start <= block
            && block < end,
        (Slot::Flight { fetched: block, id }).touched(start, end) <==> start <= block && block
            < end,
        !(Slot::Here { block: None, buffer }).touched(start, end),
        !Slot::Lent.touched(start, end),
{
}

/// A slot is handed out only with its buffer here. A slot in flight or at the
/// ring is never taken, and a block is evicted only where every slot that is here
/// holds one and no new slot can be had.
pub proof fn law_eviction_is_the_last_resort(
    before: Slots,
    after: Slots,
    buffer: Option<Vec<u8>>,
    at: usize,
)
    requires
        before.wf(),
        before.freed(buffer, at, after),
    ensures
        at < before.slots@.len() ==> before.slots@[at as int] is Here,
        at < before.slots@.len() && before.slots@[at as int].names() is Some ==> {
            &&& before.slots@.len() == 8 || buffer is None
            &&& forall|i: int|
                0 <= i < before.slots@.len() && (#[trigger] before.slots@[i]) is Here
                    ==> before.slots@[i].names() is Some
        },
        at >= before.slots@.len() ==> buffer is Some && before.slots@.len() < 8,
{
    assert forall|i: int|
        at < before.slots@.len() && before.slots@[at as int].names() is Some && 0 <= i
            < before.slots@.len() && (#[trigger] before.slots@[i]) is Here implies before.slots@[i].names() is Some by {
        if before.slots@[i].names() is None {
            assert(before.slots@[i].vacant());
        }
    }
}

} // verus!
