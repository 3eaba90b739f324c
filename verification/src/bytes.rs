//! Fixed-width numbers in byte sequences, in either byte order.
use vstd::prelude::*;

verus! {

/// `s` with the bytes of `b` written over it from `at` on.
pub open spec fn splice(s: Seq<u8>, at: int, b: Seq<u8>) -> Seq<u8> {
    Seq::new(s.len(), |i: int| if at <= i < at + b.len() { b[i - at] } else { s[i] })
}

/// `n` zero bytes.
pub open spec fn zeros(n: nat) -> Seq<u8> {
    Seq::new(n, |i: int| 0u8)
}

/// The 16-bit number stored low byte first at `at`.
pub open spec fn le16(s: Seq<u8>, at: int) -> int {
    s[at] + 0x100 * s[at + 1]
}

/// The 32-bit number stored low byte first at `at`.
pub open spec fn le32(s: Seq<u8>, at: int) -> int {
    s[at] + 0x100 * s[at + 1] + 0x1_0000 * s[at + 2] + 0x100_0000 * s[at + 3]
}

/// The 64-bit number stored low byte first at `at`.
pub open spec fn le64(s: Seq<u8>, at: int) -> int {
    le32(s, at) + 0x1_0000_0000 * le32(s, at + 4)
}

/// The 16-bit number stored high byte first at `at`.
pub open spec fn be16(s: Seq<u8>, at: int) -> int {
    0x100 * s[at] + s[at + 1]
}

/// The 32-bit number stored high byte first at `at`.
pub open spec fn be32(s: Seq<u8>, at: int) -> int {
    0x100_0000 * s[at] + 0x1_0000 * s[at + 1] + 0x100 * s[at + 2] + s[at + 3]
}

/// `value` as two bytes, low byte first.
pub open spec fn le16_bytes(value: u16) -> Seq<u8> {
    seq![(value % 0x100) as u8, (value / 0x100) as u8]
}

/// `value` as four bytes, low byte first.
pub open spec fn le32_bytes(value: u32) -> Seq<u8> {
    seq![
        (value % 0x100) as u8,
        (value / 0x100 % 0x100) as u8,
        (value / 0x1_0000 % 0x100) as u8,
        (value / 0x100_0000) as u8,
    ]
}

/// `value` as eight bytes, low byte first.
pub open spec fn le64_bytes(value: u64) -> Seq<u8> {
    le32_bytes((value % 0x1_0000_0000) as u32) + le32_bytes((value / 0x1_0000_0000) as u32)
}

/// `value` as two bytes, high byte first.
pub open spec fn be16_bytes(value: u16) -> Seq<u8> {
    seq![(value / 0x100) as u8, (value % 0x100) as u8]
}

/// A number written low byte first reads back as itself.
pub broadcast proof fn law_le16_round_trip(value: u16)
    ensures
        #![trigger le16_bytes(value)]
        le16_bytes(value).len() == 2,
        le16(le16_bytes(value), 0) == value,
{
}

/// A number written low byte first reads back as itself.
pub broadcast proof fn law_le32_round_trip(value: u32)
    ensures
        #![trigger le32_bytes(value)]
        le32_bytes(value).len() == 4,
        le32(le32_bytes(value), 0) == value,
{
}

/// A number written low byte first reads back as itself.
pub broadcast proof fn law_le64_round_trip(value: u64)
    ensures
        #![trigger le64_bytes(value)]
        le64_bytes(value).len() == 8,
        le64(le64_bytes(value), 0) == value,
{
    let low = (value % 0x1_0000_0000) as u32;
    let high = (value / 0x1_0000_0000) as u32;
    law_le32_round_trip(low);
    law_le32_round_trip(high);
    let s = le64_bytes(value);
    assert(le32(s, 0) == le32(le32_bytes(low), 0));
    assert(le32(s, 4) == le32(le32_bytes(high), 0));
}

/// A number written high byte first reads back as itself.
pub broadcast proof fn law_be16_round_trip(value: u16)
    ensures
        #![trigger be16_bytes(value)]
        be16_bytes(value).len() == 2,
        be16(be16_bytes(value), 0) == value,
{
}

/// Reading a number depends on its own bytes and no others.
pub proof fn lemma_le_window(s: Seq<u8>, at: int, t: Seq<u8>, from: int, len: int)
    requires
        0 <= at,
        0 <= from,
        0 <= len,
        at + len <= s.len(),
        from + len <= t.len(),
        forall|i: int| 0 <= i < len ==> s[at + i] == #[trigger] t[from + i],
    ensures
        len == 2 ==> le16(s, at) == le16(t, from),
        len == 4 ==> le32(s, at) == le32(t, from),
        len == 8 ==> le64(s, at) == le64(t, from),
{
    if len >= 2 {
        assert(s[at + 0] == t[from + 0]);
        assert(s[at + 1] == t[from + 1]);
    }
    if len >= 4 {
        assert(s[at + 2] == t[from + 2]);
        assert(s[at + 3] == t[from + 3]);
    }
    if len == 8 {
        assert(s[at + 4] == t[from + 4]);
        assert(s[at + 5] == t[from + 5]);
        assert(s[at + 6] == t[from + 6]);
        assert(s[at + 7] == t[from + 7]);
    }
}

pub fn get_le16(s: &[u8], at: usize) -> (value: u16)
    requires
        at + 2 <= s@.len(),
    ensures
        value == le16(s@, at as int),
{
    s[at] as u16 + 0x100 * (s[at + 1] as u16)
}

pub fn get_le32(s: &[u8], at: usize) -> (value: u32)
    requires
        at + 4 <= s@.len(),
    ensures
        value == le32(s@, at as int),
{
    s[at] as u32 + 0x100 * (s[at + 1] as u32) + 0x1_0000 * (s[at + 2] as u32) + 0x100_0000 * (
    s[at + 3] as u32)
}

pub fn get_le64(s: &[u8], at: usize) -> (value: u64)
    requires
        at + 8 <= s@.len(),
    ensures
        value == le64(s@, at as int),
{
    assert(s.len() == s@.len());
    get_le32(s, at) as u64 + 0x1_0000_0000 * (get_le32(s, at + 4) as u64)
}

pub fn get_be16(s: &[u8], at: usize) -> (value: u16)
    requires
        at + 2 <= s@.len(),
    ensures
        value == be16(s@, at as int),
{
    0x100 * (s[at] as u16) + s[at + 1] as u16
}

pub fn get_be32(s: &[u8], at: usize) -> (value: u32)
    requires
        at + 4 <= s@.len(),
    ensures
        value == be32(s@, at as int),
{
    0x100_0000 * (s[at] as u32) + 0x1_0000 * (s[at + 1] as u32) + 0x100 * (s[at + 2] as u32)
        + s[at + 3] as u32
}

pub fn put_le16(s: &mut [u8], at: usize, value: u16)
    requires
        at + 2 <= old(s)@.len(),
    ensures
        final(s)@ == splice(old(s)@, at as int, le16_bytes(value)),
{
    s[at] = (value % 0x100) as u8;
    s[at + 1] = (value / 0x100) as u8;
}

pub fn put_le32(s: &mut [u8], at: usize, value: u32)
    requires
        at + 4 <= old(s)@.len(),
    ensures
        final(s)@ == splice(old(s)@, at as int, le32_bytes(value)),
{
    s[at] = (value % 0x100) as u8;
    s[at + 1] = (value / 0x100 % 0x100) as u8;
    s[at + 2] = (value / 0x1_0000 % 0x100) as u8;
    s[at + 3] = (value / 0x100_0000) as u8;
}

pub fn put_le64(s: &mut [u8], at: usize, value: u64)
    requires
        at + 8 <= old(s)@.len(),
    ensures
        final(s)@ == splice(old(s)@, at as int, le64_bytes(value)),
{
    assert(s.len() == s@.len());
    put_le32(s, at, (value % 0x1_0000_0000) as u32);
    put_le32(s, at + 4, (value / 0x1_0000_0000) as u32);
}

pub fn put_be16(s: &mut [u8], at: usize, value: u16)
    requires
        at + 2 <= old(s)@.len(),
    ensures
        final(s)@ == splice(old(s)@, at as int, be16_bytes(value)),
{
    s[at] = (value / 0x100) as u8;
    s[at + 1] = (value % 0x100) as u8;
}

/// Copies all of `from` over `s`, starting at `at`.
pub fn copy_at(s: &mut [u8], at: usize, from: &[u8])
    requires
        at + from@.len() <= old(s)@.len(),
    ensures
        final(s)@ == splice(old(s)@, at as int, from@),
{
    let ghost before = s@;
    assert(s.len() == s@.len());
    let mut i: usize = 0;
    while i < from.len()
        invariant
            i <= from@.len(),
            at + from@.len() <= usize::MAX,
            at + from@.len() <= s@.len(),
            s@.len() == before.len(),
            s@ == splice(before, at as int, from@.take(i as int)),
        decreases from@.len() - i,
    {
        s[at + i] = from[i];
        i = i + 1;
    }
    assert(from@.take(from@.len() as int) == from@);
}

/// Zeroes every byte of `s`.
pub fn clear(s: &mut [u8])
    ensures
        final(s)@ == zeros(old(s)@.len()),
{
    let ghost before = s@;
    let mut i: usize = 0;
    while i < s.len()
        invariant
            i <= s@.len(),
            s@.len() == before.len(),
            forall|k: int| 0 <= k < i ==> s@[k] == 0,
        decreases s@.len() - i,
    {
        s[i] = 0;
        i = i + 1;
    }
}

/// Whether `text` stands at `at`.
pub open spec fn stands_at(s: Seq<u8>, at: int, text: Seq<u8>) -> bool {
    0 <= at && at + text.len() <= s.len() && s.subrange(at, at + text.len()) =~= text
}

/// Whether `text` stands at `at`.
pub fn stands(s: &[u8], at: usize, text: &[u8]) -> (stands: bool)
    ensures
        stands == stands_at(s@, at as int, text@),
{
    if at > s.len() || text.len() > s.len() - at {
        return false;
    }
    let mut i: usize = 0;
    while i < text.len()
        invariant
            at + text@.len() <= s@.len(),
            s@.len() == s.len(),
            i <= text@.len(),
            forall|k: int| 0 <= k < i ==> s@[at + k] == text@[k],
        decreases text.len() - i,
    {
        if s[at + i] != text[i] {
            assert(s@.subrange(at as int, at + text@.len())[i as int] != text@[i as int]);
            return false;
        }
        i = i + 1;
    }
    assert(s@.subrange(at as int, at + text@.len()) =~= text@);
    true
}

/// Whether two runs of bytes are the same.
pub fn same(a: &[u8], b: &[u8]) -> (same: bool)
    ensures
        same == (a@ =~= b@),
{
    if a.len() != b.len() {
        return false;
    }
    let same = stands(a, 0, b);
    assert(a@.subrange(0, a@.len() as int) =~= a@);
    same
}

/// Which byte of a number stands where: low byte first, byte `i` is the digit of
/// weight 256 to the `i`th; high byte first, it is the other way round.
pub proof fn law_bytes_are_digits(a: u16, b: u32, w: u8, x: u8, y: u8, z: u8)
    ensures
        le16_bytes(a) == seq![(a % 256) as u8, (a / 256) as u8],
        be16_bytes(a) == seq![(a / 256) as u8, (a % 256) as u8],
        le32_bytes(b) == seq![
            (b % 256) as u8,
            (b / 256 % 256) as u8,
            (b / 65536 % 256) as u8,
            (b / 16777216) as u8,
        ],
        le16(seq![w, x], 0) == w + 256 * x,
        be16(seq![w, x], 0) == 256 * w + x,
        le32(seq![w, x, y, z], 0) == w + 256 * x + 65536 * y + 16777216 * z,
        be32(seq![w, x, y, z], 0) == 16777216 * w + 65536 * x + 256 * y + z,
{
}

/// Writing a run over others leaves the length, every byte outside the run, and
/// the run's own bytes inside it.
pub proof fn law_splice_replaces_a_run(s: Seq<u8>, at: int, run: Seq<u8>)
    requires
        0 <= at,
        at + run.len() <= s.len(),
    ensures
        splice(s, at, run) == s.subrange(0, at) + run + s.subrange(at + run.len(), s.len() as int),
{
    assert(splice(s, at, run) =~= s.subrange(0, at) + run + s.subrange(
        at + run.len(),
        s.len() as int,
    ));
}

} // verus!
