//! Segment selectors, descriptor pages, and the exceptions a domain can raise.
use vstd::prelude::*;

use x86_64::structures::gdt::SegmentSelector;
use x86_64::PrivilegeLevel;

verus! {

/// The exceptions that push no error code, and that a domain can raise.
pub const WITHOUT_ERROR: [u8; 9] = [0, 1, 3, 4, 5, 6, 7, 16, 19];

/// The exceptions that push an error code, and that a domain can raise.
pub const WITH_ERROR: [u8; 6] = [10, 11, 12, 13, 17, 21];

/// The vector a domain calls the kernel through.
pub const CALL_VECTOR: u8 = 0x80;

/// `x86_64::structures::gdt::SegmentSelector::new` at the user privilege level:
/// the descriptor's index above three bits, the low two of which name ring 3.
#[verifier::external_body]
fn user_selector(index: u16) -> (selector: u16)
    requires
        index < 0x2000,
    ensures
        selector == 8 * index + 3,
{
    SegmentSelector::new(index, PrivilegeLevel::Ring3).0
}

/// The selectors a domain runs with, from its descriptors' indices: code, data.
pub fn user_selectors(code: u16, data: u16) -> (selectors: (u16, u16))
    requires
        code < 0x2000,
        data < 0x2000,
    ensures
        selectors == ((8 * code + 3) as u16, (8 * data + 3) as u16),
{
    (user_selector(code), user_selector(data))
}

/// The addresses of a table of `bytes` bytes at `start`.
pub fn bounds(start: u64, bytes: u64) -> (bounds: (u64, u64))
    requires
        start + bytes <= u64::MAX,
    ensures
        bounds == (start, (start + bytes) as u64),
{
    (start, start + bytes)
}

} // verus!
