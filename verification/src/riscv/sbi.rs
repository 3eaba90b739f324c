//! What the Supervisor Binary Interface is asked, and how it answers.
use vstd::prelude::*;

use crate::riscv::error::SbiError;

verus! {

pub const EXT_CONSOLE_PUTCHAR: usize = 0x01;

pub const EXT_BASE: usize = 0x10;

pub const EXT_DEBUG_CONSOLE: usize = 0x4442_434e;

pub const EXT_TIMER: usize = 0x5449_4d45;

pub const EXT_SYSTEM_RESET: usize = 0x5352_5354;

pub const FID_PROBE_EXTENSION: usize = 3;

pub const FID_CONSOLE_WRITE: usize = 0;

/// What a call left in the two registers it answers in.
#[derive(Clone, Copy, Debug, PartialEq, Eq, Structural)]
pub struct SbiReturn {
    pub error: isize,
    pub value: usize,
}

impl SbiReturn {
    pub fn into_result(self) -> (result: Result<usize, SbiError>)
        ensures
            match result {
                Ok(value) => self.error == 0 && value == self.value,
                Err(error) => {
                    &&& self.error != 0
                    &&& error.code() == self.error
                    &&& error is Other <==> !(-9 <= self.error <= -1)
                },
            },
    {
        match SbiError::from_code(self.error) {
            None => Ok(self.value),
            Some(error) => Err(error),
        }
    }
}

/// Whether a probe's answer says that the extension is there.
pub fn available(probed: SbiReturn) -> (available: bool)
    ensures
        available == (probed.error == 0 && probed.value != 0),
{
    match probed.into_result() {
        Ok(value) => value != 0,
        Err(_) => false,
    }
}

/// The reset reason that reports how the machine ended.
pub fn reset_reason(success: bool) -> (reason: usize)
    ensures
        reason == if success {
            0usize
        } else {
            1usize
        },
{
    if success {
        0
    } else {
        1
    }
}

/// The absolute time a timer armed at `now` for `count` ticks goes off, in a
/// counter that wraps.
pub fn deadline(now: u64, count: u32) -> (deadline: u64)
    ensures
        deadline == (now + count) % 0x1_0000_0000_0000_0000,
{
    now.wrapping_add(count as u64)
}

/// The numbers firmware is called by: the extensions by the letters of their
/// names, and the functions within them.
pub proof fn law_extensions_in_numbers()
    ensures
        EXT_CONSOLE_PUTCHAR == 1,
        EXT_BASE == 16,
        EXT_DEBUG_CONSOLE == ((0x44 * 256 + 0x42) * 256 + 0x43) * 256 + 0x4e,
        EXT_TIMER == ((0x54 * 256 + 0x49) * 256 + 0x4d) * 256 + 0x45,
        EXT_SYSTEM_RESET == ((0x53 * 256 + 0x52) * 256 + 0x53) * 256 + 0x54,
        FID_PROBE_EXTENSION == 3,
        FID_CONSOLE_WRITE == 0,
{
}

} // verus!
