//! A directory entry's name, carried inline by value.
//!
//! An operation crossing a ring cannot hold a borrow, and registering a buffer
//! for every path is more ceremony than a name is worth, so a name is a fixed
//! [`MAX_NAME`] bytes and travels in the operation itself.
use vstd::prelude::*;
use vstd::string::StringSliceAdditionalSpecFns;
use vstd::utf8::valid_utf8;

use crate::bytes::same;
use crate::fs::error::FsError;
use crate::fs::layout::MAX_NAME;

verus! {

/// What no name holds: the path separator, and NUL.
pub const SEPARATOR: u8 = 0x2f;

/// Whether `bytes` can be a name.
pub open spec fn is_name(bytes: Seq<u8>) -> bool {
    &&& 0 < bytes.len() <= MAX_NAME
    &&& forall|i: int| 0 <= i < bytes.len() ==> bytes[i] != SEPARATOR && bytes[i] != 0
}

/// A bounded, inline entry name.
#[derive(Clone, Copy, Debug, Eq)]
pub struct Name {
    bytes: [u8; 255],
    len: u8,
}

impl Name {
    #[verifier::type_invariant]
    spec fn within(self) -> bool {
        is_name(self.bytes@.take(self.len as int))
    }

    /// The name's own bytes.
    pub closed spec fn view(&self) -> Seq<u8> {
        self.bytes@.take(self.len as int)
    }

    /// Copies `bytes`, which must be no longer than [`MAX_NAME`] and must not
    /// contain a path separator or a null.
    pub fn new(bytes: &[u8]) -> (name: Result<Self, FsError>)
        ensures
            match name {
                Ok(name) => is_name(bytes@) && name@ == bytes@,
                Err(error) => !is_name(bytes@) && error == FsError::Name,
            },
    {
        if bytes.len() == 0 || bytes.len() > MAX_NAME {
            return Err(FsError::Name);
        }
        let mut held: [u8; 255] = [0;255];
        let mut i: usize = 0;
        while i < bytes.len()
            invariant
                i <= bytes@.len() <= 255,
                held@.take(i as int) =~= bytes@.take(i as int),
                forall|k: int| 0 <= k < i ==> bytes@[k] != SEPARATOR && bytes@[k] != 0,
            decreases bytes.len() - i,
        {
            if bytes[i] == SEPARATOR || bytes[i] == 0 {
                return Err(FsError::Name);
            }
            let ghost before = held@;
            held[i] = bytes[i];
            assert(held@.take(i + 1) =~= before.take(i as int).push(bytes@[i as int]));
            assert(bytes@.take(i + 1) =~= bytes@.take(i as int).push(bytes@[i as int]));
            i = i + 1;
        }
        assert(bytes@.take(i as int) =~= bytes@);
        Ok(Name { bytes: held, len: bytes.len() as u8 })
    }

    /// Copies the bytes of `text`, by the rules of [`Name::new`].
    pub fn try_from(text: &str) -> (name: Result<Self, FsError>)
        ensures
            match name {
                Ok(name) => is_name(text.spec_bytes()) && name@ == text.spec_bytes(),
                Err(error) => !is_name(text.spec_bytes()) && error == FsError::Name,
            },
    {
        Name::new(text.as_bytes())
    }

    pub fn as_bytes(&self) -> (bytes: &[u8])
        ensures
            bytes@ == self@,
            is_name(bytes@),
    {
        proof {
            use_type_invariant(self);
        }
        let whole: &[u8] = &self.bytes;
        vstd::slice::slice_subrange(whole, 0, self.len as usize)
    }

    /// The name as text, or `None` if the volume stored bytes that are not
    /// UTF-8.
    pub fn as_str(&self) -> (text: Option<&str>)
        ensures
            match text {
                Some(text) => text.spec_bytes() == self@,
                None => !valid_utf8(self@),
            },
    {
        as_text(self.as_bytes())
    }

    pub fn len(&self) -> (len: usize)
        ensures
            len == self@.len(),
    {
        proof {
            use_type_invariant(self);
        }
        self.len as usize
    }

    /// Never: a name holds at least one byte.
    pub fn is_empty(&self) -> (empty: bool)
        ensures
            empty == (self@.len() == 0),
    {
        proof {
            use_type_invariant(self);
        }
        self.len == 0
    }
}

/// `core::str::from_utf8`: the bytes as text when they are valid UTF-8, and
/// nothing when they are not.
#[verifier::external_body]
fn as_text(bytes: &[u8]) -> (text: Option<&str>)
    ensures
        match text {
            Some(text) => text.spec_bytes() == bytes@,
            None => !valid_utf8(bytes@),
        },
{
    core::str::from_utf8(bytes).ok()
}

impl PartialEq for Name {
    fn eq(&self, other: &Self) -> (equal: bool) {
        same(self.as_bytes(), other.as_bytes())
    }
}

impl vstd::std_specs::cmp::PartialEqSpecImpl for Name {
    open spec fn obeys_eq_spec() -> bool {
        true
    }

    open spec fn eq_spec(&self, other: &Self) -> bool {
        self@ =~= other@
    }
}

/// A name is one to 255 bytes long, and any bytes but zero and the slash (47)
/// may be in it.
pub proof fn law_names_are_bytes_without_slashes(bytes: Seq<u8>)
    ensures
        is_name(bytes) <==> 1 <= bytes.len() <= 255 && !bytes.contains(0) && !bytes.contains(47),
{
    if is_name(bytes) {
        assert(!bytes.contains(0) && !bytes.contains(47));
    } else if 1 <= bytes.len() <= 255 {
        let i = choose|i: int| 0 <= i < bytes.len() && (bytes[i] == 47 || bytes[i] == 0);
        assert(bytes.contains(bytes[i]));
    }
}

} // verus!
