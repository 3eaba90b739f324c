//! The frame boundary below the IP service.
use vstd::prelude::*;

verus! {

/// The longest Ethernet frame a link carries, without its check sequence.
pub const FRAME: usize = 1514;

/// Why a link did not accept a frame.
#[derive(Clone, Copy, Debug, PartialEq, Eq, Structural)]
pub enum LinkError {
    Busy,
    Device,
}

/// A device that carries complete Ethernet frames both ways.
///
/// As for a [`Window`](crate::window::Window), a model left out is any at all.
pub trait Link: Sized {
    /// Whether the device is in a state to be used.
    closed spec fn usable(&self) -> bool {
        arbitrary()
    }

    /// What handing over one frame came to: the device after it, and the
    /// answer.
    closed spec fn gave(&self, frame: Seq<u8>, after: Self, sent: Result<(), LinkError>) -> bool {
        arbitrary()
    }

    /// What taking one frame came to: what the buffer held and holds now, the
    /// device after it, and the answer.
    closed spec fn took(
        &self,
        frame: Seq<u8>,
        filled: Seq<u8>,
        after: Self,
        got: Result<Option<usize>, LinkError>,
    ) -> bool {
        arbitrary()
    }

    fn transmit(&mut self, frame: &[u8]) -> (sent: Result<(), LinkError>)
        requires
            old(self).usable(),
        ensures
            final(self).usable(),
            frame@.len() > FRAME ==> sent == Err::<(), LinkError>(LinkError::Device),
            old(self).gave(frame@, *final(self), sent),
    ;

    /// Takes the next frame the device has for the host, if any.
    fn receive(&mut self, frame: &mut [u8]) -> (got: Result<Option<usize>, LinkError>)
        requires
            old(self).usable(),
        ensures
            final(self).usable(),
            final(frame)@.len() == old(frame)@.len(),
            old(self).took(old(frame)@, final(frame)@, *final(self), got),
            got matches Ok(Some(len)) ==> len <= old(frame)@.len() && final(frame)@.skip(len as int)
                == old(frame)@.skip(len as int),
            !(got matches Ok(Some(_))) ==> got == Ok::<Option<usize>, LinkError>(None) || got
                == Err::<Option<usize>, LinkError>(LinkError::Device),
    ;
}

} // verus!
