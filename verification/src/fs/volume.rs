//! The mounted checkpoint, and where its writes go.
use vstd::prelude::*;

use crate::bytes::zeros;
use crate::fs::error::FsError;
use crate::fs::layout::{self, bare, Super, BLOCK, SUPERS, SUPER_BYTES};
use crate::fs::log::units;
use crate::fs::slots::{Slot, Slots};
use crate::fs::survey::{Checkpoint, SECTORS};
use crate::virtio::sector::SECTOR;

verus! {

/// How deep the ring under a volume is.
///
/// Every slot may be at the device at once, and a write travelling on the
/// scratch buffer is one more, so the ring is never the reason a read waits.
pub const DEPTH: usize = 16;

/// What is known of a volume before a survey: how far the device goes, which
/// is all a read of a superblock copy has to stay inside.
pub fn unmounted(sectors: u64) -> (value: Super)
    ensures
        value == bare(sectors / SECTORS),
{
    let mut value = Super::default();
    value.blocks = sectors / 8;
    value
}

/// A mounted volume.
pub struct Volume {
    pub sectors: u64,
    pub slots: Slots,
    pub superblock: Super,
    pub active_copy: u64,
    pub previous_log: Option<u64>,
    pub previous_tree: Option<u64>,
}

/// What a reader of a block does next.
#[derive(Clone, Copy, Debug, PartialEq, Eq, Structural)]
pub enum Fetch {
    /// Waits for this slot's read, if one is outstanding, and reads the slot.
    Held(usize),
    /// Starts a read into this slot, whose buffer is here.
    Spare(usize),
    /// Waits for this slot's read first, the oldest outstanding, then starts
    /// one of its own into the slot. Whether the old one landed is the next
    /// reader's problem: an empty slot is what is wanted here.
    Await(usize),
}

/// Where a write goes, and which blocks it changes under the slots.
#[derive(Clone, Copy, Debug, PartialEq, Eq, Structural)]
pub struct Placement {
    pub sector: u64,
    pub first: u64,
    pub end: u64,
}

impl Volume {
    /// A volume of `sectors` sectors nothing is known of yet.
    pub fn new(sectors: u64) -> (volume: Self)
        ensures
            volume.sectors == sectors,
            volume.slots.wf(),
            volume.slots.slots@.len() == 0,
            volume.slots.hand == 0,
            volume.superblock == bare(sectors / SECTORS),
            volume.active_copy == 0,
            volume.previous_log is None,
            volume.previous_tree is None,
    {
        Volume {
            sectors,
            slots: Slots::new(),
            superblock: unmounted(sectors),
            active_copy: 0,
            previous_log: None,
            previous_tree: None,
        }
    }

    /// Takes the checkpoint a survey settled on as the mounted one.
    pub fn adopt(&mut self, checkpoint: Checkpoint)
        ensures
            *final(self) == (Volume {
                superblock: checkpoint.superblock,
                active_copy: checkpoint.active_copy,
                previous_log: checkpoint.previous_log,
                previous_tree: checkpoint.previous_tree,
                ..*old(self)
            }),
    {
        self.superblock = checkpoint.superblock;
        self.active_copy = checkpoint.active_copy;
        self.previous_log = checkpoint.previous_log;
        self.previous_tree = checkpoint.previous_tree;
    }

    /// Forgets the mounted checkpoint, for a survey to find the one the disk
    /// now holds.
    pub fn forget(&mut self)
        ensures
            *final(self) == (Volume {
                superblock: bare(old(self).sectors / SECTORS),
                ..*old(self)
            }),
    {
        self.superblock = unmounted(self.sectors);
    }

    /// The object id of the root directory.
    pub fn root(&self) -> (root: u32)
        ensures
            root == self.superblock.root,
    {
        self.superblock.root
    }

    /// The generation the mounted checkpoint carries.
    pub fn generation(&self) -> (generation: u64)
        ensures
            generation == self.superblock.generation,
    {
        self.superblock.generation
    }

    pub fn checkpoint(&self) -> (superblock: Super)
        ensures
            superblock == self.superblock,
    {
        self.superblock
    }

    pub fn active_copy(&self) -> (copy: u64)
        ensures
            copy == self.active_copy,
    {
        self.active_copy
    }

    pub fn previous_log(&self) -> (at: Option<u64>)
        ensures
            at == self.previous_log,
    {
        self.previous_log
    }

    pub fn previous_tree(&self) -> (at: Option<u64>)
        ensures
            at == self.previous_tree,
    {
        self.previous_tree
    }

    /// Makes `checkpoint`, written to `copy` and flushed, the mounted one. The
    /// one mounted until now becomes the one before it.
    pub fn commit(&mut self, copy: u64, checkpoint: Super)
        ensures
            *final(self) == (Volume {
                superblock: checkpoint,
                active_copy: copy,
                previous_log: Some(old(self).superblock.log.at),
                previous_tree: if old(self).superblock.tree_root != 0 {
                    Some(old(self).superblock.tree_root)
                } else {
                    None
                },
                ..*old(self)
            }),
    {
        self.previous_log = Some(self.superblock.log.at);
        self.previous_tree = if self.superblock.tree_root != 0 {
            Some(self.superblock.tree_root)
        } else {
            None
        };
        self.superblock = checkpoint;
        self.active_copy = copy;
    }

    /// Where block `index` is, or where it is to be read into. `buffer` is what
    /// the heap agreed to, if the slots wanted one and it did.
    pub fn block(&mut self, index: u64, buffer: Option<Vec<u8>>) -> (fetch: Result<Fetch, FsError>)
        requires
            old(self).slots.wf(),
        ensures
            final(self).slots.wf(),
            *final(self) == (Volume { slots: final(self).slots, ..*old(self) }),
            match fetch {
                Ok(Fetch::Held(at)) => {
                    &&& index < old(self).superblock.blocks
                    &&& at < old(self).slots.slots@.len()
                    &&& old(self).slots.slots@[at as int].names() == Some(index)
                    &&& final(self).slots == old(self).slots
                },
                Ok(Fetch::Spare(at)) => {
                    &&& index < old(self).superblock.blocks
                    &&& !old(self).slots.knows(index)
                    &&& old(self).slots.freed(buffer, at, final(self).slots)
                },
                Ok(Fetch::Await(at)) => {
                    &&& index < old(self).superblock.blocks
                    &&& !old(self).slots.knows(index)
                    &&& old(self).slots.crowded(buffer)
                    &&& old(self).slots.slots@.len() > 0
                    &&& at == old(self).slots.hand
                    &&& final(self).slots == old(self).slots
                },
                Err(error) => {
                    &&& final(self).slots == old(self).slots
                    &&& if index >= old(self).superblock.blocks {
                        error == FsError::Corrupt
                    } else {
                        &&& error == FsError::Memory
                        &&& buffer is None
                        &&& old(self).slots.slots@.len() == 0
                    }
                },
            },
    {
        if index >= self.superblock.blocks {
            return Err(FsError::Corrupt);
        }
        if let Some(at) = self.slots.find(index) {
            return Ok(Fetch::Held(at));
        }
        if let Some(at) = self.slots.free(buffer) {
            return Ok(Fetch::Spare(at));
        }
        if self.slots.slots.len() == 0 {
            return Err(FsError::Memory);
        }
        Ok(Fetch::Await(self.slots.hand))
    }

    /// A slot to fetch a block into ahead of its reader, if it is one of the
    /// volume's, is not already resident or in flight, and a buffer is here.
    pub fn prefetch(&mut self, index: u64, buffer: Option<Vec<u8>>) -> (at: Option<usize>)
        requires
            old(self).slots.wf(),
        ensures
            final(self).slots.wf(),
            *final(self) == (Volume { slots: final(self).slots, ..*old(self) }),
            match at {
                Some(at) => {
                    &&& index < old(self).superblock.blocks
                    &&& !old(self).slots.knows(index)
                    &&& old(self).slots.freed(buffer, at, final(self).slots)
                },
                None => {
                    &&& final(self).slots == old(self).slots
                    &&& {
                        ||| index >= old(self).superblock.blocks
                        ||| old(self).slots.knows(index)
                        ||| old(self).slots.crowded(buffer)
                    }
                },
            },
    {
        if index >= self.superblock.blocks || self.slots.find(index).is_some() {
            return None;
        }
        self.slots.free(buffer)
    }

    /// The sector block `index` is read from into slot `at`, and the buffer that
    /// goes with the read, which must be here.
    pub fn start(&mut self, at: usize, index: u64) -> (read: Result<(u64, Vec<u8>), FsError>)
        requires
            old(self).slots.wf(),
            at < old(self).slots.slots@.len(),
        ensures
            final(self).slots.wf(),
            *final(self) == (Volume { slots: final(self).slots, ..*old(self) }),
            if index * SECTORS > u64::MAX {
                read == Err::<(u64, Vec<u8>), FsError>(FsError::Corrupt) && final(self).slots
                    == old(self).slots
            } else {
                &&& final(self).slots.slots@ == old(self).slots.slots@.update(
                    at as int,
                    Slot::Lent,
                )
                &&& final(self).slots.hand == old(self).slots.hand
                &&& match old(self).slots.slots@[at as int] {
                    Slot::Here { buffer, .. } => read == Ok::<(u64, Vec<u8>), FsError>(
                        ((index * SECTORS) as u64, buffer),
                    ),
                    _ => read == Err::<(u64, Vec<u8>), FsError>(FsError::Corrupt),
                }
            },
    {
        let sector: u64 = match raw(index) {
            Ok(sector) => sector,
            Err(error) => return Err(error),
        };
        match self.slots.lend(at) {
            Ok(buffer) => Ok((sector, buffer)),
            Err(error) => Err(error),
        }
    }

    /// Where tree arena block `at` is written.
    pub fn tree_block(&self, at: u64) -> (placed: Result<Placement, FsError>)
        ensures
            match placed {
                Ok(placed) => {
                    &&& self.superblock.tree_at <= at < self.superblock.tree_at
                        + self.superblock.tree_blocks
                    &&& self.superblock.tree_at + self.superblock.tree_blocks <= u64::MAX
                    &&& placed.sector == at * SECTORS
                    &&& placed.first == at
                    &&& placed.end == at + 1
                },
                Err(error) => {
                    &&& error == FsError::Corrupt
                    &&& {
                        ||| self.superblock.tree_at + self.superblock.tree_blocks > u64::MAX
                        ||| at < self.superblock.tree_at
                        ||| at >= self.superblock.tree_at + self.superblock.tree_blocks
                        ||| at * SECTORS > u64::MAX
                    }
                },
            },
    {
        let count: u64 = self.superblock.tree_blocks as u64;
        if self.superblock.tree_at > u64::MAX - count {
            return Err(FsError::Corrupt);
        }
        let end: u64 = self.superblock.tree_at + count;
        if at < self.superblock.tree_at || at >= end {
            return Err(FsError::Corrupt);
        }
        let sector: u64 = raw(at)?;
        Ok(Placement { sector, first: at, end: at + 1 })
    }
}

/// The sector a block starts at.
pub fn raw(index: u64) -> (sector: Result<u64, FsError>)
    ensures
        sector == if index * SECTORS <= u64::MAX {
            Ok((index * SECTORS) as u64)
        } else {
            Err(FsError::Corrupt)
        },
{
    if index > u64::MAX / 8 {
        return Err(FsError::Corrupt);
    }
    Ok(index * 8)
}

/// Where `len` bytes go that start `offset` bytes into `block`. Both must be
/// whole sectors, and no more is written at once than a block.
pub fn write_aligned(block: u64, offset: u64, len: usize) -> (placed: Result<Placement, FsError>)
    ensures
        match placed {
            Ok(placed) => {
                &&& offset % 512 == 0
                &&& len % 512 == 0
                &&& len <= BLOCK
                &&& placed.sector == block * SECTORS + offset / 512
                &&& placed.first == block + offset / 4096
                &&& placed.end == placed.first + units((offset % 4096) + len, BLOCK as int)
                &&& placed.sector * 512 == block * 4096 + offset
                &&& placed.first * 4096 <= block * 4096 + offset
                &&& block * 4096 + offset + len <= placed.end * 4096
                &&& len > 0 ==> block * 4096 + offset < (placed.first + 1) * 4096
                &&& len > 0 ==> (placed.end - 1) * 4096 < block * 4096 + offset + len
            },
            Err(error) => {
                &&& error == FsError::Corrupt
                &&& {
                    ||| offset % 512 != 0
                    ||| len % 512 != 0
                    ||| len > BLOCK
                    ||| block * SECTORS + offset / 512 > u64::MAX
                }
            },
        },
{
    if offset % 512 != 0 || len % SECTOR != 0 || len > BLOCK {
        return Err(FsError::Corrupt);
    }
    let start: u64 = raw(block)?;
    if start > u64::MAX - offset / 512 {
        return Err(FsError::Corrupt);
    }
    let first: u64 = block + offset / 4096;
    let span: u64 = (offset % 4096 + len as u64 + 4095) / 4096;
    Ok(Placement { sector: start + offset / 512, first, end: first + span })
}

/// The bytes a superblock copy is written as, and where: one sector, the rest
/// of it empty.
pub fn write_checkpoint(copy: u64, value: &Super) -> (written: Result<(u64, Vec<u8>), FsError>)
    ensures
        match written {
            Ok((sector, bytes)) => {
                &&& copy < SUPERS
                &&& sector == copy * SECTORS
                &&& bytes@.len() == SECTOR
                &&& layout::states(bytes@, *value)
                &&& layout::gaps(bytes@)
                &&& layout::sealed(bytes@)
                &&& bytes@.skip(SUPER_BYTES as int) == zeros((SECTOR - SUPER_BYTES) as nat)
            },
            Err(error) => copy >= SUPERS && error == FsError::Corrupt,
        },
{
    if copy >= SUPERS {
        return Err(FsError::Corrupt);
    }
    let mut bytes: Vec<u8> = vec![0;512];
    value.encode(bytes.as_mut_slice());
    Ok((copy * 8, bytes))
}

/// A checkpoint whose regions fit is read back from the copy it was written to.
pub proof fn law_checkpoint_survives(bytes: Seq<u8>, value: Super)
    requires
        layout::states(bytes, value),
        layout::sealed(bytes),
        layout::fits(value),
    ensures
        layout::parsed(bytes) == Ok::<Super, FsError>(value),
{
    layout::law_superblock_survives(bytes, value);
}

} // verus!
