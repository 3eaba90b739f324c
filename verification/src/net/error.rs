//! Why a packet was refused.
use vstd::prelude::*;

verus! {

#[derive(Clone, Copy, Debug, PartialEq, Eq, Structural)]
pub enum NetError {
    /// Shorter than its own format, or inconsistent with it.
    Malformed,
    /// Well formed, and nothing this stack speaks.
    Unsupported,
    /// The checksum does not cover the bytes it came with.
    Checksum,
    /// No room to write the packet.
    Buffer,
}

} // verus!
