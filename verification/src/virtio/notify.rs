//! The notification structure: where a queue kick is written.
//!
//! A modern device gives each queue a notification address of
//! `base + notify_off * multiplier`, so one BAR region serves every queue.
use vstd::prelude::*;

use crate::virtio::error::VirtioError;
use crate::window::{self, MmioError, Window};

verus! {

/// The notification structure of one device.
pub struct Notify<W: Window> {
    pub window: W,
    pub multiplier: u32,
}

/// Where a queue's kick lands.
pub open spec fn doorbell(multiplier: u32, notify_off: u16) -> int {
    notify_off * multiplier
}

pub proof fn lemma_doorbell(multiplier: u32, notify_off: u16)
    ensures
        0 <= doorbell(multiplier, notify_off) <= 0xffff * 0xffff_ffff,
{
    assert(0 <= notify_off * multiplier <= 0xffff * 0xffff_ffff) by (nonlinear_arith)
        requires
            0 <= notify_off <= 0xffff,
            0 <= multiplier <= 0xffff_ffff,
    ;
}

/// Whether a kick stays inside the window.
pub open spec fn rings<W: Window>(window: W, multiplier: u32, notify_off: u16) -> bool {
    doorbell(multiplier, notify_off) + 2 <= window.span()
}

impl<W: Window> Notify<W> {
    pub fn new(window: W, multiplier: u32) -> (notify: Self)
        ensures
            notify.window == window,
            notify.multiplier == multiplier,
    {
        Notify { window, multiplier }
    }

    /// Kicks `queue`, whose notification offset the common configuration
    /// reported as `notify_off`.
    pub fn signal(&mut self, queue: u16, notify_off: u16) -> (sent: Result<(), VirtioError>)
        ensures
            final(self).multiplier == old(self).multiplier,
            final(self).window.span() == old(self).window.span(),
            sent == if rings(old(self).window, old(self).multiplier, notify_off) {
                Ok(())
            } else {
                Err(VirtioError::Mmio(MmioError::Range))
            },
            final(self).window.trace() == if sent is Ok {
                old(self).window.trace().push(
                    window::write(
                        doorbell(old(self).multiplier, notify_off) as u64,
                        2,
                        queue as int,
                    ),
                )
            } else {
                old(self).window.trace()
            },
    {
        proof {
            lemma_doorbell(self.multiplier, notify_off);
        }
        let at: u64 = notify_off as u64 * self.multiplier as u64;
        match self.window.write_u16(at, queue) {
            Ok(()) => Ok(()),
            Err(error) => Err(VirtioError::from(error)),
        }
    }
}

} // verus!
