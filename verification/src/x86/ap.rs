//! Bringing an application processor from reset to Rust.
//!
//! A core comes out of reset in real mode at `vector << 12`, knowing nothing:
//! no tables, no long mode, not even a stack. The boot core copies the shortest
//! path from there into the kernel's address space into the frame that was
//! reserved for it, answers appended, and sends the interrupts that start it.
use vstd::prelude::*;

use crate::smp::{Percpu, SmpError};

verus! {

/// A frame holds the blob and the stack the blob pushes on.
pub const FRAME: usize = 4096;

/// What the trampoline reads, in the order it reads it.
#[derive(Clone, Copy, Debug, PartialEq, Eq, Structural)]
pub struct Params {
    /// The kernel's tables, loaded in 32 bits — so, under four gigabytes.
    pub root: u64,
    pub stack: u64,
    /// Where the blob goes, because it has no way to name a function.
    pub enter: u64,
    pub cpu: u64,
    /// What the kernel wanted run on this core.
    pub hand: u64,
}

impl Params {
    /// The block as the words the trampoline loads.
    pub fn words(self) -> (words: [u64; 5])
        ensures
            words@ == seq![self.root, self.stack, self.enter, self.cpu, self.hand],
    {
        [self.root, self.stack, self.enter, self.cpu, self.hand]
    }
}

/// The frame set aside for starting cores, and the tables they come up on.
#[derive(Clone, Copy, Debug, PartialEq, Eq, Structural)]
pub struct Trampoline {
    pub physical: u64,
    pub root: u64,
}

impl Trampoline {
    /// What a startup interrupt names, which is this frame's number.
    pub fn physical(&self) -> (physical: u64)
        ensures
            physical == self.physical,
    {
        self.physical
    }

    /// The tables the core comes up on, already built and live.
    pub fn root(&self) -> (root: u64)
        ensures
            root == self.root,
    {
        self.root
    }
}

/// Whether a core may be started, and the frame it comes up in.
pub open spec fn startable(
    target: Option<Percpu>,
    pad: Option<Trampoline>,
    blob: usize,
) -> Result<Trampoline, SmpError> {
    match (target, pad) {
        (None, _) => Err(SmpError::Unknown),
        (Some(target), pad) => if target.up {
            Err(SmpError::Running)
        } else {
            match pad {
                None => Err(SmpError::Unsupported),
                // The core loads its tables in 32-bit mode.
                Some(pad) => if pad.root >= 0x1_0000_0000 || blob > FRAME {
                    Err(SmpError::Unsupported)
                } else {
                    Ok(pad)
                },
            }
        },
    }
}

/// A start in progress.
#[derive(Clone, Copy, Debug, PartialEq, Eq, Structural)]
pub enum Start {
    /// The reset was sent.
    Reset,
    /// The startup was sent this many times.
    Sent(u8),
}

/// What a start wants next.
#[derive(Clone, Copy, Debug, PartialEq, Eq, Structural)]
pub enum Next {
    /// Wait a while, whatever the core does, then send the startup.
    Startup,
    /// Nothing: the core is up.
    Up,
    /// Nothing: it did not come up.
    Refused,
}

/// Decides whether `target` may be started: it is numbered, not up, and there
/// is a frame under a megabyte, tables under four gigabytes, and room for the
/// blob.
pub fn start(target: Option<Percpu>, pad: Option<Trampoline>, blob: usize) -> (pad_for: Result<
    Trampoline,
    SmpError,
>)
    ensures
        pad_for == startable(target, pad, blob),
{
    match target {
        None => Err(SmpError::Unknown),
        Some(target) => {
            if target.up() {
                return Err(SmpError::Running);
            }
            match pad {
                None => Err(SmpError::Unsupported),
                Some(pad) => {
                    if pad.root() >= 0x1_0000_0000 || blob > FRAME {
                        return Err(SmpError::Unsupported);
                    }
                    Ok(pad)
                },
            }
        },
    }
}

/// The vector that starts a core in the frame at `physical`.
pub fn vector(physical: u64) -> (vector: u8)
    requires
        physical < 0x10_0000,
    ensures
        vector == physical / 4096,
{
    (physical / 4096) as u8
}

impl Start {
    /// Takes the outcome of the interrupt a start sent last, and whether the
    /// core has arrived since.
    ///
    /// The startup goes out twice, as firmware does it: the first is dropped by
    /// a core still taking the reset, the second ignored by one already running.
    pub fn step(&mut self, sent: bool, arrived: bool) -> (next: Next)
        requires
            *old(self) matches Start::Sent(times) ==> 1 <= times <= 2,
        ensures
            *final(self) matches Start::Sent(times) ==> 1 <= times <= 2,
            next == if !sent {
                Next::Refused
            } else {
                match *old(self) {
                    Start::Reset => Next::Startup,
                    Start::Sent(times) => if arrived {
                        Next::Up
                    } else if times < 2 {
                        Next::Startup
                    } else {
                        Next::Refused
                    },
                }
            },
            *final(self) == match (*old(self), next) {
                (Start::Reset, Next::Startup) => Start::Sent(1),
                (Start::Sent(_), Next::Startup) => Start::Sent(2),
                (state, _) => state,
            },
    {
        if !sent {
            return Next::Refused;
        }
        match *self {
            Start::Reset => {
                *self = Start::Sent(1);
                Next::Startup
            },
            Start::Sent(times) => {
                if arrived {
                    return Next::Up;
                }
                if times < 2 {
                    *self = Start::Sent(2);
                    return Next::Startup;
                }
                Next::Refused
            },
        }
    }
}

/// A core is started only where it is known, is not up, and has a trampoline
/// with tables below 4 GiB and room for what it runs, one frame.
pub proof fn law_only_a_stopped_core_is_started(
    target: Option<Percpu>,
    pad: Option<Trampoline>,
    blob: usize,
)
    ensures
        startable(target, pad, blob) is Ok <==> target is Some && !target->0.up && pad is Some
            && pad->0.root < 0x1_0000_0000 && blob <= 4096,
        startable(target, pad, blob) matches Ok(chosen) ==> pad == Some(chosen),
        target is None ==> startable(target, pad, blob) == Err::<Trampoline, SmpError>(
            SmpError::Unknown,
        ),
        target is Some && target->0.up ==> startable(target, pad, blob) == Err::<
            Trampoline,
            SmpError,
        >(SmpError::Running),
        target is Some && !target->0.up && startable(target, pad, blob) is Err ==> startable(
            target,
            pad,
            blob,
        ) == Err::<Trampoline, SmpError>(SmpError::Unsupported),
{
}

} // verus!
