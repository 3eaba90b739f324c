//! Bringing a hart from firmware's hands to Rust.
use vstd::prelude::*;

use crate::riscv::error::SbiError;
use crate::smp::{Percpu, SmpError};

verus! {

/// What the starting shim reads, in the order it reads it.
#[derive(Clone, Copy, Debug, PartialEq, Eq, Structural)]
pub struct Params {
    pub satp: u64,
    pub stack: u64,
    /// Where the shim goes, because it has no way to name a function.
    pub enter: u64,
    pub cpu: u64,
    /// What the kernel wanted run on this hart.
    pub hand: u64,
}

impl Params {
    /// The block as the words the shim loads.
    pub fn words(self) -> (words: [u64; 5])
        ensures
            words@ == seq![self.satp, self.stack, self.enter, self.cpu, self.hand],
    {
        [self.satp, self.stack, self.enter, self.cpu, self.hand]
    }
}

/// Whether a hart may be started, and the `satp` it comes up on.
pub fn prepare(target: Option<Percpu>, hart_state: bool, satp: Option<u64>) -> (satp_for: Result<
    u64,
    SmpError,
>)
    ensures
        satp_for == match target {
            None => Err::<u64, SmpError>(SmpError::Unknown),
            Some(target) => if target.up {
                Err::<u64, SmpError>(SmpError::Running)
            } else if !hart_state || satp is None {
                Err::<u64, SmpError>(SmpError::Unsupported)
            } else {
                Ok::<u64, SmpError>(satp->0)
            },
        },
{
    match target {
        None => Err(SmpError::Unknown),
        Some(target) => {
            if target.up() {
                return Err(SmpError::Running);
            }
            if !hart_state {
                return Err(SmpError::Unsupported);
            }
            match satp {
                Some(satp) => Ok(satp),
                None => Err(SmpError::Unsupported),
            }
        },
    }
}

/// What firmware's answer means to a caller that asked for a core.
pub fn refused(error: SbiError) -> (meaning: SmpError)
    ensures
        meaning == match error {
            SbiError::InvalidParam => SmpError::Unknown,
            SbiError::AlreadyAvailable => SmpError::Running,
            SbiError::AlreadyStarted => SmpError::Running,
            SbiError::NotSupported => SmpError::Unsupported,
            _ => SmpError::Refused,
        },
{
    match error {
        SbiError::InvalidParam => SmpError::Unknown,
        SbiError::AlreadyAvailable => SmpError::Running,
        SbiError::AlreadyStarted => SmpError::Running,
        SbiError::NotSupported => SmpError::Unsupported,
        _ => SmpError::Refused,
    }
}

/// How a start ended: firmware's answer, and whether the hart then arrived.
pub fn started(answer: Result<(), SbiError>, arrived: bool) -> (outcome: Result<(), SmpError>)
    ensures
        match answer {
            Err(error) => outcome is Err && outcome->Err_0 == match error {
                SbiError::InvalidParam => SmpError::Unknown,
                SbiError::AlreadyAvailable => SmpError::Running,
                SbiError::AlreadyStarted => SmpError::Running,
                SbiError::NotSupported => SmpError::Unsupported,
                _ => SmpError::Refused,
            },
            Ok(()) => outcome == if arrived {
                Ok::<(), SmpError>(())
            } else {
                Err::<(), SmpError>(SmpError::Refused)
            },
        },
{
    match answer {
        Err(error) => Err(refused(error)),
        Ok(()) => if arrived {
            Ok(())
        } else {
            Err(SmpError::Refused)
        },
    }
}

} // verus!
