//! Configuration space, as this platform reaches it.
use vstd::prelude::*;

use crate::arch::{PlatformError, BUS_STRIDE};

verus! {

/// The last bus an aperture of `size` bytes has room for.
///
/// The tree gives the aperture in bytes and the bus numbers follow from it: one
/// 1 MiB window per bus, and a region too small for one is a region this kernel
/// has misread rather than a bus with no functions.
pub fn last_bus(size: u64) -> (last: Result<u8, PlatformError>)
    ensures
        last == if size < BUS_STRIDE {
            Err::<u8, PlatformError>(PlatformError::InvalidHardware)
        } else if size / BUS_STRIDE > 256 {
            Ok(255u8)
        } else {
            Ok((size / BUS_STRIDE - 1) as u8)
        },
{
    let buses: u64 = size / BUS_STRIDE;
    if buses == 0 {
        return Err(PlatformError::InvalidHardware);
    }
    if buses > 256 {
        return Ok(255);
    }
    Ok((buses - 1) as u8)
}

/// The bytes of configuration space the buses up to `last` take.
pub fn span(last: u8) -> (bytes: u64)
    ensures
        bytes == (last + 1) * BUS_STRIDE,
{
    (last as u64 + 1) * BUS_STRIDE
}

} // verus!
