//! Sectors, and the operations a block client asks for.
use vstd::prelude::*;

use crate::bytes::{self, splice, zeros};
use crate::virtio::error::BlockError;

verus! {

/// The bytes of one sector.
pub const SECTOR: usize = 512;

/// The bytes of one bounce buffer, the most one operation moves.
pub const BLOCK: usize = 4096;

/// The number a client knows one request by.
#[derive(Clone, Copy, Debug, PartialEq, Eq, Structural)]
pub struct RequestId {
    pub id: u64,
}

impl RequestId {
    pub fn new(id: u64) -> (request: Self)
        ensures
            request.id == id,
    {
        RequestId { id }
    }

    pub fn get(self) -> (id: u64)
        ensures
            id == self.id,
    {
        self.id
    }
}

/// One operation, owning the buffer it fills or empties.
#[derive(Debug)]
pub enum BlockOp {
    Read { sector: u64, bytes: usize, buffer: Vec<u8> },
    Write { sector: u64, bytes: usize, buffer: Vec<u8> },
    Flush,
}

/// A finished operation, and the buffer it gives back.
#[derive(Debug)]
pub struct BlockDone {
    pub result: Result<(), BlockError>,
    pub buffer: Option<Vec<u8>>,
}

/// Whether `bytes` bytes at `sector` are whole sectors of a disk of `capacity`.
pub open spec fn within(capacity: u64, sector: u64, bytes: int) -> bool {
    bytes % 512 == 0 && sector + bytes / 512 <= capacity
}

/// How many sectors `bytes` bytes at `sector` take, if the disk has them.
pub fn bounds(capacity: u64, sector: u64, bytes: usize) -> (sectors: Result<u64, BlockError>)
    ensures
        sectors == if within(capacity, sector, bytes as int) {
            Ok(bytes as u64 / 512)
        } else {
            Err(BlockError::Range)
        },
{
    let count: u64 = (bytes / SECTOR) as u64;
    if bytes % SECTOR != 0 || sector > capacity || count > capacity - sector {
        return Err(BlockError::Range);
    }
    Ok(count)
}

impl BlockOp {
    /// Whether a disk of `capacity` sectors can carry the operation out.
    pub open spec fn valid(self, capacity: u64) -> bool {
        match self {
            BlockOp::Read { sector, bytes, buffer }
            | BlockOp::Write { sector, bytes, buffer } => 0 < bytes <= BLOCK && bytes
                <= buffer@.len() && within(capacity, sector, bytes as int),
            BlockOp::Flush => true,
        }
    }

    /// The buffer the operation owns.
    pub open spec fn held(self) -> Option<Vec<u8>> {
        match self {
            BlockOp::Read { buffer, .. } | BlockOp::Write { buffer, .. } => Some(buffer),
            BlockOp::Flush => None,
        }
    }
}

/// Ends an operation with `result`, giving its buffer back.
pub fn finish(op: BlockOp, result: Result<(), BlockError>) -> (done: BlockDone)
    ensures
        done == (BlockDone { result, buffer: op.held() }),
{
    let buffer = match op {
        BlockOp::Read { buffer, .. } => Some(buffer),
        BlockOp::Write { buffer, .. } => Some(buffer),
        BlockOp::Flush => None,
    };
    BlockDone { result, buffer }
}

pub fn validate(capacity: u64, op: &BlockOp) -> (valid: Result<(), BlockError>)
    ensures
        valid == if op.valid(capacity) {
            Ok(())
        } else {
            Err(BlockError::Range)
        },
{
    let (sector, bytes, len) = match op {
        BlockOp::Read { sector, bytes, buffer } => (*sector, *bytes, buffer.len()),
        BlockOp::Write { sector, bytes, buffer } => (*sector, *bytes, buffer.len()),
        BlockOp::Flush => return Ok(()),
    };
    if bytes == 0 || bytes > BLOCK || bytes > len {
        return Err(BlockError::Range);
    }
    match bounds(capacity, sector, bytes) {
        Ok(_) => Ok(()),
        Err(error) => Err(error),
    }
}

/// The operation that reads one chunk, into a buffer of its own.
pub fn read_op(chunk: Chunk) -> (op: BlockOp)
    ensures
        op matches BlockOp::Read { sector, bytes, buffer } && {
            &&& sector == chunk.sector
            &&& bytes == chunk.bytes
            &&& buffer@ == zeros(BLOCK as nat)
        },
{
    let buffer: Vec<u8> = vec![0;4096];
    assert(buffer@ =~= zeros(BLOCK as nat));
    BlockOp::Read { sector: chunk.sector, bytes: chunk.bytes, buffer }
}

/// The operation that writes one chunk of `from`, out of a buffer of its own.
pub fn write_op(chunk: Chunk, from: &[u8]) -> (op: BlockOp)
    requires
        chunk.bytes <= BLOCK,
        chunk.offset + chunk.bytes <= from@.len(),
    ensures
        op matches BlockOp::Write { sector, bytes, buffer } && {
            &&& sector == chunk.sector
            &&& bytes == chunk.bytes
            &&& buffer@ == splice(
                zeros(BLOCK as nat),
                0,
                from@.subrange(chunk.offset as int, chunk.offset + chunk.bytes),
            )
        },
{
    let mut buffer: Vec<u8> = vec![0;4096];
    assert(buffer@ =~= zeros(BLOCK as nat));
    assert(from.len() == from@.len());
    let part = vstd::slice::slice_subrange(from, chunk.offset, chunk.offset + chunk.bytes);
    bytes::copy_at(buffer.as_mut_slice(), 0, part);
    BlockOp::Write { sector: chunk.sector, bytes: chunk.bytes, buffer }
}

/// Takes what came of reading one chunk into its place in `into`.
pub fn take_in(chunk: Chunk, done: BlockDone, into: &mut [u8]) -> (outcome: Result<(), BlockError>)
    requires
        chunk.offset + chunk.bytes <= old(into)@.len(),
        done.buffer matches Some(buffer) ==> chunk.bytes <= buffer@.len(),
    ensures
        final(into)@ == match (done.result, done.buffer) {
            (Ok(()), Some(buffer)) => splice(
                old(into)@,
                chunk.offset as int,
                buffer@.take(chunk.bytes as int),
            ),
            _ => old(into)@,
        },
        outcome == match (done.result, done.buffer) {
            (Ok(()), Some(_)) => Ok::<(), BlockError>(()),
            (Ok(()), None) => Err::<(), BlockError>(BlockError::Device),
            (Err(error), _) => Err::<(), BlockError>(error),
        },
{
    if let Err(error) = done.result {
        return Err(error);
    }
    match done.buffer {
        Some(buffer) => {
            let part = vstd::slice::slice_subrange(buffer.as_slice(), 0, chunk.bytes);
            assert(part@ =~= buffer@.take(chunk.bytes as int));
            bytes::copy_at(into, chunk.offset, part);
            Ok(())
        },
        None => Err(BlockError::Device),
    }
}

/// A buffer longer than one operation moves, cut into operations.
#[derive(Clone, Copy, Debug, PartialEq, Eq, Structural)]
pub struct Transfer {
    pub sector: u64,
    pub len: usize,
    pub done: usize,
}

/// The next operation of a transfer: where it starts on the disk, and the
/// `bytes` bytes it moves from `offset` of the buffer on.
#[derive(Clone, Copy, Debug, PartialEq, Eq, Structural)]
pub struct Chunk {
    pub sector: u64,
    pub offset: usize,
    pub bytes: usize,
}

impl Transfer {
    pub open spec fn wf(&self) -> bool {
        &&& self.done <= self.len
        &&& self.done % BLOCK == 0 || self.done == self.len
        &&& self.sector + self.len / SECTOR <= u64::MAX
    }

    /// A transfer of `len` bytes at `sector`, if the disk has them.
    pub fn new(capacity: u64, sector: u64, len: usize) -> (transfer: Result<Self, BlockError>)
        ensures
            transfer == if within(capacity, sector, len as int) {
                Ok(Transfer { sector, len, done: 0 })
            } else {
                Err(BlockError::Range)
            },
            transfer matches Ok(transfer) ==> transfer.wf(),
    {
        match bounds(capacity, sector, len) {
            Ok(_) => Ok(Transfer { sector, len, done: 0 }),
            Err(error) => Err(error),
        }
    }

    /// The next chunk, or `None` once the whole buffer is accounted for.
    pub fn next(&mut self) -> (chunk: Option<Chunk>)
        requires
            old(self).wf(),
        ensures
            final(self).wf(),
            final(self).sector == old(self).sector,
            final(self).len == old(self).len,
            chunk is None <==> old(self).done == old(self).len,
            match chunk {
                Some(chunk) => {
                    &&& chunk.offset == old(self).done
                    &&& chunk.sector == old(self).sector + old(self).done / SECTOR
                    &&& 0 < chunk.bytes <= BLOCK
                    &&& chunk.bytes == BLOCK || chunk.offset + chunk.bytes == old(self).len
                    &&& final(self).done == chunk.offset + chunk.bytes
                },
                None => *final(self) == *old(self),
            },
    {
        if self.done == self.len {
            return None;
        }
        let offset: usize = self.done;
        let rest: usize = self.len - offset;
        let bytes: usize = if rest < BLOCK {
            rest
        } else {
            BLOCK
        };
        self.done = offset + bytes;
        Some(Chunk { sector: self.sector + (offset / SECTOR) as u64, offset, bytes })
    }
}

/// A run is inside a disk exactly if it is whole sectors and none of its bytes is
/// past the disk's last.
pub proof fn law_run_is_inside_byte_by_byte(capacity: u64, sector: u64, bytes: int)
    requires
        bytes >= 0,
    ensures
        within(capacity, sector, bytes) <==> bytes % 512 == 0 && 512 * sector + bytes <= 512
            * capacity,
{
}

} // verus!
