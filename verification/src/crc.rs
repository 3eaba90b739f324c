//! CRC-32C, the checksum every on-disk structure carries.
use vstd::prelude::*;

verus! {

/// The Castagnoli polynomial, its bits reversed.
pub const POLYNOMIAL: u32 = 0x82f6_3b78;

/// The remainder after `bits` more bits were divided out of `state`.
pub open spec fn divided(state: u32, bits: nat) -> u32
    decreases bits,
{
    if bits == 0 {
        state
    } else {
        let before = divided(state, (bits - 1) as nat);
        if before & 1 == 1 {
            (before >> 1) ^ POLYNOMIAL
        } else {
            before >> 1
        }
    }
}

/// The remainder after the bytes of `s` went in.
pub open spec fn fed(state: u32, s: Seq<u8>) -> u32
    decreases s.len(),
{
    if s.len() == 0 {
        state
    } else {
        divided(fed(state, s.drop_last()) ^ (s.last() as u32), 8)
    }
}

/// The checksum of a run of bytes.
pub open spec fn checksum(s: Seq<u8>) -> u32 {
    fed(0xffff_ffff, s) ^ 0xffff_ffff
}

/// A checksum in the making.
pub struct Crc {
    pub state: u32,
}

impl Crc {
    pub fn new() -> (crc: Self)
        ensures
            crc.state == 0xffff_ffff,
    {
        Crc { state: 0xffff_ffff }
    }

    /// Feeds `bytes` in.
    pub fn update(&mut self, bytes: &[u8])
        ensures
            final(self).state == fed(old(self).state, bytes@),
    {
        let ghost before = self.state;
        let mut i: usize = 0;
        assert(bytes@.take(0) =~= seq![]);
        while i < bytes.len()
            invariant
                i <= bytes@.len(),
                self.state == fed(before, bytes@.take(i as int)),
            decreases bytes.len() - i,
        {
            assert(bytes@.take(i + 1).drop_last() =~= bytes@.take(i as int));
            let mut state: u32 = self.state ^ (bytes[i] as u32);
            let ghost mixed = state;
            let mut bits: u32 = 0;
            while bits < 8
                invariant
                    bits <= 8,
                    state == divided(mixed, bits as nat),
                decreases 8 - bits,
            {
                state = if state & 1 == 1 {
                    (state >> 1) ^ POLYNOMIAL
                } else {
                    state >> 1
                };
                bits = bits + 1;
            }
            self.state = state;
            i = i + 1;
        }
        assert(bytes@.take(bytes@.len() as int) =~= bytes@);
    }

    /// The checksum of everything fed in.
    pub fn finish(self) -> (sum: u32)
        ensures
            sum == self.state ^ 0xffff_ffff,
    {
        self.state ^ 0xffff_ffff
    }
}

/// The checksum of `bytes`.
pub fn crc32c(bytes: &[u8]) -> (sum: u32)
    ensures
        sum == checksum(bytes@),
{
    let mut crc = Crc::new();
    crc.update(bytes);
    crc.finish()
}

/// Bytes checksum the same however they are cut up on the way in.
pub proof fn law_cuts_do_not_matter(state: u32, a: Seq<u8>, b: Seq<u8>)
    ensures
        fed(fed(state, a), b) == fed(state, a + b),
    decreases b.len(),
{
    if b.len() == 0 {
        assert(a + b =~= a);
    } else {
        law_cuts_do_not_matter(state, a, b.drop_last());
        assert((a + b).drop_last() =~= a + b.drop_last());
    }
}

/// Different remainders stay different, whatever bits are divided out of both.
proof fn lemma_divided_apart(a: u32, b: u32, bits: nat)
    requires
        a != b,
    ensures
        divided(a, bits) != divided(b, bits),
    decreases bits,
{
    if bits > 0 {
        lemma_divided_apart(a, b, (bits - 1) as nat);
        let x = divided(a, (bits - 1) as nat);
        let y = divided(b, (bits - 1) as nat);
        let next_x = if x & 1 == 1 {
            (x >> 1) ^ POLYNOMIAL
        } else {
            x >> 1
        };
        let next_y = if y & 1 == 1 {
            (y >> 1) ^ POLYNOMIAL
        } else {
            y >> 1
        };
        // The polynomial's top bit is set, and no shifted remainder's is.
        assert(next_x != next_y) by (bit_vector)
            requires
                x != y,
                next_x == if x & 1 == 1 {
                    (x >> 1) ^ 0x82f6_3b78u32
                } else {
                    x >> 1
                },
                next_y == if y & 1 == 1 {
                    (y >> 1) ^ 0x82f6_3b78u32
                } else {
                    y >> 1
                },
        ;
    }
}

/// Different remainders stay different, whatever bytes go into both.
proof fn lemma_fed_apart(a: u32, b: u32, s: Seq<u8>)
    requires
        a != b,
    ensures
        fed(a, s) != fed(b, s),
    decreases s.len(),
{
    if s.len() > 0 {
        lemma_fed_apart(a, b, s.drop_last());
        let x = fed(a, s.drop_last());
        let y = fed(b, s.drop_last());
        let byte = s.last() as u32;
        assert(x ^ byte != y ^ byte) by (bit_vector)
            requires
                x != y,
        ;
        lemma_divided_apart(x ^ byte, y ^ byte, 8);
    }
}

/// A checksum tells any two runs of bytes apart that differ in one byte alone,
/// by one bit or by more.
pub proof fn law_one_byte_is_told(s: Seq<u8>, t: Seq<u8>, at: int)
    requires
        s.len() == t.len(),
        0 <= at < s.len(),
        s[at] != t[at],
        forall|i: int| 0 <= i < s.len() && i != at ==> #[trigger] s[i] == t[i],
    ensures
        checksum(s) != checksum(t),
{
    let before = s.take(at);
    let rest = s.skip(at + 1);
    let x = before.push(s[at]);
    let y = before.push(t[at]);
    assert(s =~= x + rest);
    assert(t =~= y + rest);
    assert(x.drop_last() =~= before);
    assert(y.drop_last() =~= before);
    let state = fed(0xffff_ffff, before);
    let a = s[at];
    let b = t[at];
    assert(state ^ (a as u32) != state ^ (b as u32)) by (bit_vector)
        requires
            a != b,
    ;
    lemma_divided_apart(state ^ (a as u32), state ^ (b as u32), 8);
    let one = fed(0xffff_ffff, x);
    let other = fed(0xffff_ffff, y);
    lemma_fed_apart(one, other, rest);
    law_cuts_do_not_matter(0xffff_ffff, x, rest);
    law_cuts_do_not_matter(0xffff_ffff, y, rest);
    let p = fed(0xffff_ffff, s);
    let q = fed(0xffff_ffff, t);
    assert(p ^ 0xffff_ffff != q ^ 0xffff_ffff) by (bit_vector)
        requires
            p != q,
    ;
}

} // verus!
