//! Bytes the hardware shares with the driver, and the record of touching them.
//!
//! A device may change what a window holds at any moment, so nothing here says
//! which value a read returns. What is pinned down is the record: every access
//! that stayed inside the window is appended to [`Window::trace`] with the value
//! it carried, and the drivers above state what they did in terms of it.
use vstd::prelude::*;

use crate::bytes;

verus! {

/// Why an access was refused: it left the window.
#[derive(Clone, Copy, Debug, PartialEq, Eq, Structural)]
pub enum MmioError {
    Range,
}

/// One access that stayed inside its window.
pub enum Access {
    /// `width` bytes read at `at`, little endian.
    Read { at: u64, width: u64, value: u64 },
    /// `width` bytes written at `at`, little endian.
    Write { at: u64, width: u64, value: u64 },
    /// A run of bytes copied out.
    Load { at: u64, bytes: Seq<u8> },
    /// A run of bytes copied in.
    Store { at: u64, bytes: Seq<u8> },
    /// Every byte of the window set to zero.
    Clear,
}

pub open spec fn read(at: u64, width: u64, value: int) -> Access {
    Access::Read { at, width, value: value as u64 }
}

pub open spec fn write(at: u64, width: u64, value: int) -> Access {
    Access::Write { at, width, value: value as u64 }
}

/// A window of device-visible bytes.
///
/// What no proof looks into need not say what it models: a model left out is
/// any at all.
pub trait Window: Sized {
    /// How many bytes the window covers.
    closed spec fn span(&self) -> nat {
        arbitrary()
    }

    /// Every access made so far, oldest first.
    closed spec fn trace(&self) -> Seq<Access> {
        arbitrary()
    }

    fn len(&self) -> (len: u64)
        ensures
            len == self.span(),
    ;

    fn read_u8(&mut self, at: u64) -> (value: Result<u8, MmioError>)
        ensures
            final(self).span() == old(self).span(),
            value is Ok <==> at + 1 <= old(self).span(),
            final(self).trace() == match value {
                Ok(value) => old(self).trace().push(read(at, 1, value as int)),
                Err(_) => old(self).trace(),
            },
    ;

    fn read_u16(&mut self, at: u64) -> (value: Result<u16, MmioError>)
        ensures
            final(self).span() == old(self).span(),
            value is Ok <==> at + 2 <= old(self).span(),
            final(self).trace() == match value {
                Ok(value) => old(self).trace().push(read(at, 2, value as int)),
                Err(_) => old(self).trace(),
            },
    ;

    fn read_u32(&mut self, at: u64) -> (value: Result<u32, MmioError>)
        ensures
            final(self).span() == old(self).span(),
            value is Ok <==> at + 4 <= old(self).span(),
            final(self).trace() == match value {
                Ok(value) => old(self).trace().push(read(at, 4, value as int)),
                Err(_) => old(self).trace(),
            },
    ;

    fn read_u64(&mut self, at: u64) -> (value: Result<u64, MmioError>)
        ensures
            final(self).span() == old(self).span(),
            value is Ok <==> at + 8 <= old(self).span(),
            final(self).trace() == match value {
                Ok(value) => old(self).trace().push(read(at, 8, value as int)),
                Err(_) => old(self).trace(),
            },
    ;

    fn write_u8(&mut self, at: u64, value: u8) -> (done: Result<(), MmioError>)
        ensures
            final(self).span() == old(self).span(),
            done is Ok <==> at + 1 <= old(self).span(),
            final(self).trace() == match done {
                Ok(_) => old(self).trace().push(write(at, 1, value as int)),
                Err(_) => old(self).trace(),
            },
    ;

    fn write_u16(&mut self, at: u64, value: u16) -> (done: Result<(), MmioError>)
        ensures
            final(self).span() == old(self).span(),
            done is Ok <==> at + 2 <= old(self).span(),
            final(self).trace() == match done {
                Ok(_) => old(self).trace().push(write(at, 2, value as int)),
                Err(_) => old(self).trace(),
            },
    ;

    fn write_u32(&mut self, at: u64, value: u32) -> (done: Result<(), MmioError>)
        ensures
            final(self).span() == old(self).span(),
            done is Ok <==> at + 4 <= old(self).span(),
            final(self).trace() == match done {
                Ok(_) => old(self).trace().push(write(at, 4, value as int)),
                Err(_) => old(self).trace(),
            },
    ;

    fn write_u64(&mut self, at: u64, value: u64) -> (done: Result<(), MmioError>)
        ensures
            final(self).span() == old(self).span(),
            done is Ok <==> at + 8 <= old(self).span(),
            final(self).trace() == match done {
                Ok(_) => old(self).trace().push(write(at, 8, value as int)),
                Err(_) => old(self).trace(),
            },
    ;

    /// Fills `into` from the bytes at `at`.
    fn load(&mut self, at: u64, into: &mut [u8]) -> (done: Result<(), MmioError>)
        ensures
            final(self).span() == old(self).span(),
            final(into)@.len() == old(into)@.len(),
            done is Ok <==> at + old(into)@.len() <= old(self).span(),
            match done {
                Ok(_) => final(self).trace() == old(self).trace().push(
                    Access::Load { at, bytes: final(into)@ },
                ),
                Err(_) => final(self).trace() == old(self).trace() && final(into)@ == old(into)@,
            },
    ;

    /// Copies `from` to the bytes at `at`.
    fn store(&mut self, at: u64, from: &[u8]) -> (done: Result<(), MmioError>)
        ensures
            final(self).span() == old(self).span(),
            done is Ok <==> at + from@.len() <= old(self).span(),
            final(self).trace() == match done {
                Ok(_) => old(self).trace().push(Access::Store { at, bytes: from@ }),
                Err(_) => old(self).trace(),
            },
    ;

    /// Zeroes the whole window.
    fn zero(&mut self)
        ensures
            final(self).span() == old(self).span(),
            final(self).trace() == old(self).trace().push(Access::Clear),
    ;
}

/// A window made of ordinary memory, which only the driver touches.
pub struct Buffer {
    bytes: Vec<u8>,
    trace: Ghost<Seq<Access>>,
}

impl Buffer {
    /// What the window holds now.
    pub closed spec fn view(&self) -> Seq<u8> {
        self.bytes@
    }

    /// `bytes` as a window nobody has touched yet.
    pub fn new(bytes: Vec<u8>) -> (buffer: Self)
        ensures
            buffer@ == bytes@,
            buffer.span() == bytes@.len(),
            buffer.trace() == Seq::<Access>::empty(),
    {
        Buffer { bytes, trace: Ghost(Seq::empty()) }
    }

    /// What the window holds, for whoever plays the device.
    pub fn contents(&self) -> (bytes: &[u8])
        ensures
            bytes@ == self@,
    {
        self.bytes.as_slice()
    }

    fn inside(&self, at: u64, width: usize) -> (inside: bool)
        ensures
            inside == (at + width <= self.bytes@.len()),
            inside ==> at + width <= usize::MAX,
    {
        let len: u64 = self.bytes.len() as u64;
        at <= len && width as u64 <= len - at
    }
}

impl Window for Buffer {
    closed spec fn span(&self) -> nat {
        self.bytes@.len()
    }

    closed spec fn trace(&self) -> Seq<Access> {
        self.trace@
    }

    fn len(&self) -> (len: u64) {
        self.bytes.len() as u64
    }

    /// The bytes the window held at `at`.
    fn read_u8(&mut self, at: u64) -> (value: Result<u8, MmioError>)
        ensures
            final(self)@ == old(self)@,
            value matches Ok(value) ==> value == old(self)@[at as int],
    {
        if !self.inside(at, 1) {
            return Err(MmioError::Range);
        }
        let value: u8 = self.bytes[at as usize];
        self.trace = Ghost(self.trace@.push(read(at, 1, value as int)));
        Ok(value)
    }

    fn read_u16(&mut self, at: u64) -> (value: Result<u16, MmioError>)
        ensures
            final(self)@ == old(self)@,
            value matches Ok(value) ==> value == bytes::le16(old(self)@, at as int),
    {
        if !self.inside(at, 2) {
            return Err(MmioError::Range);
        }
        let value: u16 = bytes::get_le16(self.bytes.as_slice(), at as usize);
        self.trace = Ghost(self.trace@.push(read(at, 2, value as int)));
        Ok(value)
    }

    fn read_u32(&mut self, at: u64) -> (value: Result<u32, MmioError>)
        ensures
            final(self)@ == old(self)@,
            value matches Ok(value) ==> value == bytes::le32(old(self)@, at as int),
    {
        if !self.inside(at, 4) {
            return Err(MmioError::Range);
        }
        let value: u32 = bytes::get_le32(self.bytes.as_slice(), at as usize);
        self.trace = Ghost(self.trace@.push(read(at, 4, value as int)));
        Ok(value)
    }

    fn read_u64(&mut self, at: u64) -> (value: Result<u64, MmioError>)
        ensures
            final(self)@ == old(self)@,
            value matches Ok(value) ==> value == bytes::le64(old(self)@, at as int),
    {
        if !self.inside(at, 8) {
            return Err(MmioError::Range);
        }
        let value: u64 = bytes::get_le64(self.bytes.as_slice(), at as usize);
        self.trace = Ghost(self.trace@.push(read(at, 8, value as int)));
        Ok(value)
    }

    fn write_u8(&mut self, at: u64, value: u8) -> (done: Result<(), MmioError>)
        ensures
            final(self)@ == match done {
                Ok(_) => old(self)@.update(at as int, value),
                Err(_) => old(self)@,
            },
    {
        if !self.inside(at, 1) {
            return Err(MmioError::Range);
        }
        self.bytes[at as usize] = value;
        self.trace = Ghost(self.trace@.push(write(at, 1, value as int)));
        Ok(())
    }

    fn write_u16(&mut self, at: u64, value: u16) -> (done: Result<(), MmioError>)
        ensures
            final(self)@ == match done {
                Ok(_) => bytes::splice(old(self)@, at as int, bytes::le16_bytes(value)),
                Err(_) => old(self)@,
            },
    {
        if !self.inside(at, 2) {
            return Err(MmioError::Range);
        }
        bytes::put_le16(self.bytes.as_mut_slice(), at as usize, value);
        self.trace = Ghost(self.trace@.push(write(at, 2, value as int)));
        Ok(())
    }

    fn write_u32(&mut self, at: u64, value: u32) -> (done: Result<(), MmioError>)
        ensures
            final(self)@ == match done {
                Ok(_) => bytes::splice(old(self)@, at as int, bytes::le32_bytes(value)),
                Err(_) => old(self)@,
            },
    {
        if !self.inside(at, 4) {
            return Err(MmioError::Range);
        }
        bytes::put_le32(self.bytes.as_mut_slice(), at as usize, value);
        self.trace = Ghost(self.trace@.push(write(at, 4, value as int)));
        Ok(())
    }

    fn write_u64(&mut self, at: u64, value: u64) -> (done: Result<(), MmioError>)
        ensures
            final(self)@ == match done {
                Ok(_) => bytes::splice(old(self)@, at as int, bytes::le64_bytes(value)),
                Err(_) => old(self)@,
            },
    {
        if !self.inside(at, 8) {
            return Err(MmioError::Range);
        }
        bytes::put_le64(self.bytes.as_mut_slice(), at as usize, value);
        self.trace = Ghost(self.trace@.push(write(at, 8, value as int)));
        Ok(())
    }

    fn load(&mut self, at: u64, into: &mut [u8]) -> (done: Result<(), MmioError>)
        ensures
            final(self)@ == old(self)@,
            done is Ok ==> final(into)@ == old(self)@.subrange(
                at as int,
                at + old(into)@.len(),
            ),
    {
        let len: usize = into.len();
        if !self.inside(at, len) {
            return Err(MmioError::Range);
        }
        let start: usize = at as usize;
        let mut i: usize = 0;
        while i < len
            invariant
                i <= len,
                start == at,
                start + len <= usize::MAX,
                into@.len() == len,
                at + len <= self.bytes@.len(),
                forall|k: int| 0 <= k < i ==> into@[k] == self.bytes@[at + k],
            decreases len - i,
        {
            into[i] = self.bytes[start + i];
            i = i + 1;
        }
        assert(into@ == self.bytes@.subrange(at as int, at + len));
        self.trace = Ghost(self.trace@.push(Access::Load { at, bytes: into@ }));
        Ok(())
    }

    fn store(&mut self, at: u64, from: &[u8]) -> (done: Result<(), MmioError>)
        ensures
            final(self)@ == match done {
                Ok(_) => bytes::splice(old(self)@, at as int, from@),
                Err(_) => old(self)@,
            },
    {
        if !self.inside(at, from.len()) {
            return Err(MmioError::Range);
        }
        bytes::copy_at(self.bytes.as_mut_slice(), at as usize, from);
        self.trace = Ghost(self.trace@.push(Access::Store { at, bytes: from@ }));
        Ok(())
    }

    fn zero(&mut self)
        ensures
            final(self)@ == bytes::zeros(old(self)@.len()),
    {
        bytes::clear(self.bytes.as_mut_slice());
        self.trace = Ghost(self.trace@.push(Access::Clear));
    }
}

} // verus!
