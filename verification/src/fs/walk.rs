//! Hashing the headers of a payload-log region, a block at a time.
//!
//! The per-record checksums protect file bytes when those bytes are read; mount
//! only needs this compact structural commitment to select a root.
use vstd::prelude::*;

use crate::crc::Crc;
use crate::fs::error::FsError;
use crate::fs::layout::{Region, BLOCK};
use crate::fs::log::{hashed, Record, HEADER};

verus! {

/// A walk over the record headers of a region.
pub struct LogWalk {
    pub region: Region,
    pub cursor: u64,
    pub crc: Crc,
}

/// What a walk wants next.
#[derive(Clone, Copy, Debug, PartialEq, Eq, Structural)]
pub enum Want {
    /// The header `within` bytes into a block.
    Header { block: u64, within: usize },
    /// Nothing: this is what the headers hash to.
    Done(u32),
    /// Nothing: the region is not made of records.
    Failed(FsError),
}

/// Whether every block of a region has a number.
pub open spec fn addressed(region: Region) -> bool {
    region.bytes > 0 ==> region.at + (region.bytes - 1) / 4096 <= u64::MAX
}

impl LogWalk {
    pub open spec fn wf(&self) -> bool {
        &&& self.cursor % 512 == 0
        &&& addressed(self.region)
    }

    /// What the walk ends with when the region holds `bytes`.
    pub open spec fn outlook(&self, bytes: Seq<u8>) -> Option<u32> {
        hashed(bytes, self.cursor as int, self.crc.state)
    }

    pub fn new(region: Region) -> (walk: Self)
        requires
            addressed(region),
        ensures
            walk.wf(),
            walk.region == region,
            walk.cursor == 0,
            forall|bytes: Seq<u8>|
                #[trigger] walk.outlook(bytes) == hashed(bytes, 0, 0xffff_ffff),
    {
        LogWalk { region, cursor: 0, crc: Crc::new() }
    }

    /// Where the next header is, or what the walk came to.
    pub fn next(&self) -> (want: Want)
        requires
            self.wf(),
        ensures
            match want {
                Want::Header { block, within } => {
                    &&& self.cursor < self.region.bytes
                    &&& block == self.region.at + self.cursor / 4096
                    &&& within == self.cursor % 4096
                    &&& within + HEADER <= BLOCK
                },
                Want::Done(sum) => forall|bytes: Seq<u8>|
                    bytes.len() == self.region.bytes ==> #[trigger] self.outlook(bytes) == Some(
                        sum,
                    ),
                Want::Failed(error) => error == FsError::Corrupt && forall|bytes: Seq<u8>|
                    bytes.len() == self.region.bytes ==> #[trigger] self.outlook(bytes) is None,
            },
            want is Header <==> self.cursor < self.region.bytes,
    {
        if self.cursor < self.region.bytes {
            return Want::Header {
                block: self.region.at + self.cursor / 4096,
                within: (self.cursor % 4096) as usize,
            };
        }
        if self.cursor != self.region.bytes {
            return Want::Failed(FsError::Corrupt);
        }
        Want::Done(self.crc.state ^ 0xffff_ffff)
    }

    /// Takes the header the walk asked for.
    pub fn take(&mut self, header: &[u8]) -> (done: Result<(), FsError>)
        requires
            old(self).wf(),
            old(self).cursor < old(self).region.bytes,
            header@.len() == HEADER,
        ensures
            match done {
                Ok(()) => {
                    &&& final(self).wf()
                    &&& final(self).region == old(self).region
                    &&& final(self).cursor > old(self).cursor
                    &&& forall|bytes: Seq<u8>|
                        read_out(bytes, *old(self), header@) ==> #[trigger] final(self).outlook(
                            bytes,
                        ) == old(self).outlook(bytes)
                },
                Err(error) => {
                    &&& error == FsError::Corrupt
                    &&& *final(self) == *old(self)
                    &&& forall|bytes: Seq<u8>|
                        read_out(bytes, *old(self), header@) ==> #[trigger] old(self).outlook(
                            bytes,
                        ) is None
                },
            },
    {
        let ghost before = *self;
        proof {
            assert forall|bytes: Seq<u8>| read_out(bytes, before, header@) && bytes.len() >= before
                .cursor + HEADER implies bytes.subrange(
                before.cursor as int,
                before.cursor + HEADER,
            ) =~= header@ by {}
        }
        let record = Record::parse(header)?;
        let span: u64 = match record.span() {
            Ok(span) => span,
            Err(_) => return Err(FsError::Corrupt),
        };
        if self.cursor > u64::MAX - span {
            return Err(FsError::Corrupt);
        }
        self.crc.update(header);
        self.cursor = self.cursor + span;
        Ok(())
    }
}

/// Whether the headers of a region hash to what its checkpoint says they do.
pub fn committed(region: Region, sum: u32) -> (verdict: Result<(), FsError>)
    ensures
        verdict == if sum == region.crc {
            Ok::<(), FsError>(())
        } else {
            Err::<(), FsError>(FsError::Checksum)
        },
{
    if sum != region.crc {
        return Err(FsError::Checksum);
    }
    Ok(())
}

/// Whether `header` is what a region that holds `bytes` has at the cursor, as
/// far as the region goes.
pub open spec fn read_out(bytes: Seq<u8>, walk: LogWalk, header: Seq<u8>) -> bool {
    &&& bytes.len() == walk.region.bytes
    &&& forall|i: int|
        0 <= i < HEADER && walk.cursor + i < bytes.len() ==> #[trigger] header[i] == bytes[walk.cursor
            + i]
}

} // verus!
