//! Which firmware console a byte goes out through.
use vstd::prelude::*;

use crate::riscv::error::SbiError;

verus! {

/// Which console call this port settled on.
#[derive(Clone, Copy, Debug, PartialEq, Eq, Structural)]
pub enum Console {
    /// Nothing has been probed yet; the next write decides.
    Unprobed,
    /// The debug console extension: one call per buffer, errors reported.
    Debug,
    /// The legacy `console_putchar`: one call per byte, errors invisible.
    Legacy,
}

/// The serial port behind the firmware's console calls.
#[derive(Clone, Copy, Debug, PartialEq, Eq, Structural)]
pub struct SbiSerial {
    pub console: Console,
}

/// What a write wants next, of which the first `written` bytes are out.
#[derive(Clone, Copy, Debug, PartialEq, Eq, Structural)]
pub enum Call {
    /// To know whether the debug console is there.
    Probe,
    /// The rest of the buffer handed to the debug console.
    Write,
    /// One byte handed to the legacy call.
    Putchar,
    /// Nothing: everything is out.
    Done,
}

impl SbiSerial {
    pub fn new() -> (serial: Self)
        ensures
            serial.console == Console::Unprobed,
    {
        SbiSerial { console: Console::Unprobed }
    }

    pub fn console(&self) -> (console: Console)
        ensures
            console == self.console,
    {
        self.console
    }

    /// Settles on a console, if none was settled on yet.
    pub fn init(&mut self, has_debug_console: bool)
        ensures
            final(self).console == if old(self).console != Console::Unprobed {
                old(self).console
            } else if has_debug_console {
                Console::Debug
            } else {
                Console::Legacy
            },
    {
        if self.console == Console::Unprobed {
            self.console = if has_debug_console {
                Console::Debug
            } else {
                Console::Legacy
            };
        }
    }

    /// What a write of `len` bytes wants, `written` of them being out.
    pub fn next(&self, written: usize, len: usize) -> (call: Call)
        ensures
            call == if self.console == Console::Unprobed {
                Call::Probe
            } else if written >= len {
                Call::Done
            } else if self.console == Console::Debug {
                Call::Write
            } else {
                Call::Putchar
            },
    {
        match self.console {
            Console::Unprobed => Call::Probe,
            Console::Debug => if written >= len {
                Call::Done
            } else {
                Call::Write
            },
            Console::Legacy => if written >= len {
                Call::Done
            } else {
                Call::Putchar
            },
        }
    }

    /// Takes the debug console's answer to the rest of a buffer, and says how
    /// much of it is out.
    ///
    /// A conforming implementation only accepts nothing of an empty buffer;
    /// treating that as progress would spin, so it is taken as an error, and
    /// what is left goes out through the legacy call.
    pub fn answered(&mut self, written: usize, answer: Result<usize, SbiError>) -> (now: usize)
        requires
            answer matches Ok(count) ==> written + count <= usize::MAX,
        ensures
            match answer {
                Ok(count) => if count == 0 {
                    now == written && final(self).console == Console::Legacy
                } else {
                    now == written + count && *final(self) == *old(self)
                },
                Err(_) => now == written && final(self).console == Console::Legacy,
            },
    {
        match answer {
            Ok(count) => {
                if count == 0 {
                    self.console = Console::Legacy;
                    return written;
                }
                written + count
            },
            Err(_) => {
                self.console = Console::Legacy;
                written
            },
        }
    }
}

impl Default for SbiSerial {
    fn default() -> (serial: Self)
        ensures
            serial.console == Console::Unprobed,
    {
        SbiSerial::new()
    }
}

/// A write never stops short: until every byte is out it wants another call,
/// and each call either gets bytes out or falls back to the call that does.
pub proof fn law_writes_make_progress(
    before: SbiSerial,
    after: SbiSerial,
    written: usize,
    now: usize,
    len: usize,
    answer: Result<usize, SbiError>,
)
    requires
        before.console == Console::Debug,
        written < len,
        match answer {
            Ok(count) => if count == 0 {
                now == written && after.console == Console::Legacy
            } else {
                now == written + count && after == before
            },
            Err(_) => now == written && after.console == Console::Legacy,
        },
    ensures
        now > written || after.console == Console::Legacy,
{
}

} // verus!
