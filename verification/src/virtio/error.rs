//! Why a VirtIO request was refused, and what that means to a block client.
use vstd::prelude::*;

use crate::dma::DmaError;
use crate::window::MmioError;

verus! {

/// Why a VirtIO request was refused.
#[derive(Clone, Copy, Debug, PartialEq, Eq, Structural)]
pub enum VirtioError {
    /// A structure the driver needs is not in the device's capabilities, or the
    /// queue the driver asked for does not exist.
    Missing,
    /// A register access left its window.
    Mmio(MmioError),
    /// A DMA region access left its bounds.
    Dma(DmaError),
    /// The device would not accept the features the driver requires.
    Features,
    /// The device advertises itself as read-only.
    ReadOnly,
    /// The device reported a size or layout the driver cannot honour.
    Device,
    /// The submission ring is full; the caller must drain completions first.
    Full,
    /// A request did not complete within the driver's spin budget.
    Timeout,
    /// The translation hardware answered a command with this status.
    Iommu(u8),
}

/// Why a block operation failed.
#[derive(Clone, Copy, Debug, PartialEq, Eq, Structural)]
pub enum BlockError {
    /// A sector or length outside the disk.
    Range,
    /// The disk takes no writes.
    ReadOnly,
    /// No answer in time.
    Timeout,
    /// The device failed the operation, or broke its own protocol.
    Device,
}

impl VirtioError {
    /// What the refusal means to whoever asked for sectors.
    pub open spec fn as_block(self) -> BlockError {
        match self {
            VirtioError::Timeout => BlockError::Timeout,
            VirtioError::Dma(DmaError::Range) => BlockError::Range,
            VirtioError::ReadOnly => BlockError::ReadOnly,
            _ => BlockError::Device,
        }
    }
}

impl From<VirtioError> for BlockError {
    fn from(error: VirtioError) -> (block: Self) {
        match error {
            VirtioError::Timeout => BlockError::Timeout,
            VirtioError::Dma(DmaError::Range) => BlockError::Range,
            VirtioError::ReadOnly => BlockError::ReadOnly,
            _ => BlockError::Device,
        }
    }
}

impl vstd::std_specs::convert::FromSpecImpl<VirtioError> for BlockError {
    open spec fn obeys_from_spec() -> bool {
        true
    }

    open spec fn from_spec(error: VirtioError) -> BlockError {
        error.as_block()
    }
}

impl From<MmioError> for VirtioError {
    fn from(error: MmioError) -> (virtio: Self) {
        VirtioError::Mmio(error)
    }
}

impl vstd::std_specs::convert::FromSpecImpl<MmioError> for VirtioError {
    open spec fn obeys_from_spec() -> bool {
        true
    }

    open spec fn from_spec(error: MmioError) -> VirtioError {
        VirtioError::Mmio(error)
    }
}

impl From<DmaError> for VirtioError {
    fn from(error: DmaError) -> (virtio: Self) {
        VirtioError::Dma(error)
    }
}

impl vstd::std_specs::convert::FromSpecImpl<DmaError> for VirtioError {
    open spec fn obeys_from_spec() -> bool {
        true
    }

    open spec fn from_spec(error: DmaError) -> VirtioError {
        VirtioError::Dma(error)
    }
}

} // verus!
