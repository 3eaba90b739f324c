//! Why a filesystem operation failed.
use vstd::prelude::*;

use crate::virtio::error::BlockError;

verus! {

#[derive(Clone, Copy, Debug, PartialEq, Eq, Structural)]
pub enum FsError {
    /// No volume signature where one was expected.
    Magic,
    /// A volume written in a format this build does not read.
    Version(u32),
    /// A checksum did not match the bytes it covers.
    Checksum,
    /// A structurally impossible volume: overlapping, truncated, or absurd.
    Corrupt,
    /// No such object, entry, or name.
    Missing,
    /// The name already exists in that directory.
    Exists,
    /// A name that is empty, overlong, or holds a separator.
    Name,
    /// A directory operation on a file, or the reverse.
    Kind,
    /// An offset past the end of what it addresses.
    Range,
    /// The device below refused an operation.
    Device(BlockError),
    /// A root grant asked for after the bootstrap was sealed.
    Sealed,
    /// The service restarted while the request was on the ring, so nothing ran
    /// it. Nothing it would have changed happened.
    Cancelled,
    /// No free handle left in the table.
    Handles,
    /// The tree arena, mutation log, or object-id space is full.
    Full,
    /// The service ran its restart hooks and could not remount, so there is no
    /// filesystem behind it any more.
    Failed,
    /// The heap refused memory the operation needed.
    Memory,
}

impl From<BlockError> for FsError {
    fn from(error: BlockError) -> (converted: Self) {
        FsError::Device(error)
    }
}

impl vstd::std_specs::convert::FromSpecImpl<BlockError> for FsError {
    open spec fn obeys_from_spec() -> bool {
        true
    }

    open spec fn from_spec(error: BlockError) -> Self {
        FsError::Device(error)
    }
}

} // verus!
