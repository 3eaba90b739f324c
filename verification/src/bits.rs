//! Bitwise facts in arithmetic terms.
use vstd::prelude::*;

verus! {

pub proof fn lemma_low_bit_u16(x: u16)
    ensures
        x & 1 == x % 2,
{
    assert(x & 1 == x % 2) by (bit_vector);
}

} // verus!
