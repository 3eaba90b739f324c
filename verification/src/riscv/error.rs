//! SBI error decoding.
use vstd::prelude::*;

verus! {

/// Decoded SBI error, preserving unrecognised raw codes in [`Self::Other`].
#[derive(Clone, Copy, Debug, PartialEq, Eq, Structural)]
pub enum SbiError {
    Failed,
    NotSupported,
    InvalidParam,
    Denied,
    InvalidAddress,
    AlreadyAvailable,
    AlreadyStarted,
    AlreadyStopped,
    NoShmem,
    Other(isize),
}

impl SbiError {
    /// The code firmware reports an error as.
    pub open spec fn code(self) -> int {
        match self {
            SbiError::Failed => -1,
            SbiError::NotSupported => -2,
            SbiError::InvalidParam => -3,
            SbiError::Denied => -4,
            SbiError::InvalidAddress => -5,
            SbiError::AlreadyAvailable => -6,
            SbiError::AlreadyStarted => -7,
            SbiError::AlreadyStopped => -8,
            SbiError::NoShmem => -9,
            SbiError::Other(code) => code as int,
        }
    }

    /// Decodes an `a0` error code, returning `None` for `SBI_SUCCESS`.
    pub fn from_code(code: isize) -> (error: Option<Self>)
        ensures
            match error {
                None => code == 0,
                Some(error) => {
                    &&& code != 0
                    &&& error.code() == code
                    &&& error is Other <==> !(-9 <= code <= -1)
                },
            },
    {
        match code {
            0 => None,
            -1 => Some(SbiError::Failed),
            -2 => Some(SbiError::NotSupported),
            -3 => Some(SbiError::InvalidParam),
            -4 => Some(SbiError::Denied),
            -5 => Some(SbiError::InvalidAddress),
            -6 => Some(SbiError::AlreadyAvailable),
            -7 => Some(SbiError::AlreadyStarted),
            -8 => Some(SbiError::AlreadyStopped),
            -9 => Some(SbiError::NoShmem),
            other => Some(SbiError::Other(other)),
        }
    }
}

/// The codes firmware answers with.
pub proof fn law_codes_in_numbers(code: isize)
    ensures
        SbiError::Failed.code() == -1,
        SbiError::NotSupported.code() == -2,
        SbiError::InvalidParam.code() == -3,
        SbiError::Denied.code() == -4,
        SbiError::InvalidAddress.code() == -5,
        SbiError::AlreadyAvailable.code() == -6,
        SbiError::AlreadyStarted.code() == -7,
        SbiError::AlreadyStopped.code() == -8,
        SbiError::NoShmem.code() == -9,
        SbiError::Other(code).code() == code,
{
}

} // verus!
