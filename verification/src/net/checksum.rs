//! The internet checksum: the ones' complement of a ones' complement sum.
use vstd::prelude::*;

use crate::bytes::{be16, be16_bytes};
use crate::net::addr::Ipv6Addr;

verus! {

/// The sum of the big-endian words of a run of bytes, an odd last byte taken
/// as the high half of a word.
pub open spec fn words(s: Seq<u8>) -> int
    decreases s.len(),
{
    if s.len() == 0 {
        0
    } else if s.len() == 1 {
        0x100 * s[0]
    } else {
        be16(s, 0) + words(s.skip(2))
    }
}

/// A sum folded into a word by adding its carries back in.
pub open spec fn folded(sum: int) -> int {
    if sum <= 0 {
        0
    } else {
        1 + (sum - 1) % 0xffff
    }
}

/// The header an IPv6 checksum covers besides the payload: both addresses, the
/// payload's length, and the next header.
pub open spec fn pseudo(src: Seq<u8>, dst: Seq<u8>, protocol: u8, len: nat) -> int {
    words(src) + words(dst) + len / 0x1_0000 % 0x1_0000 + len % 0x1_0000 + protocol
}

/// The checksum of a payload between two IPv6 addresses.
pub open spec fn sealing(src: Seq<u8>, dst: Seq<u8>, protocol: u8, s: Seq<u8>) -> int {
    0xffff - folded(pseudo(src, dst, protocol, s.len()) + words(s))
}

proof fn lemma_fold(sum: int, word: int)
    requires
        sum >= 0,
        0 <= word <= 0xffff,
    ensures
        folded(sum + word) == if folded(sum) + word > 0xffff {
            folded(sum) + word - 0xffff
        } else {
            folded(sum) + word
        },
{
}

/// Adds a word to a folded sum.
fn add_word(sum: u32, word: u32) -> (total: u32)
    requires
        sum <= 0xffff,
        word <= 0xffff,
    ensures
        total <= 0xffff,
        total == if sum + word > 0xffff {
            sum + word - 0xffff
        } else {
            sum + word
        },
{
    let total: u32 = sum + word;
    if total > 0xffff {
        total - 0xffff
    } else {
        total
    }
}

proof fn lemma_words(s: Seq<u8>)
    ensures
        words(s) >= 0,
    decreases s.len(),
{
    if s.len() >= 2 {
        lemma_words(s.skip(2));
    }
}

/// Adds the words of `bytes` to a folded sum.
fn add_words(sum: u32, bytes: &[u8], Ghost(before): Ghost<int>) -> (total: u32)
    requires
        before >= 0,
        sum == folded(before),
    ensures
        total == folded(before + words(bytes@)),
        total <= 0xffff,
{
    let ghost s = bytes@;
    let mut total: u32 = sum;
    let mut at: usize = 0;
    let ghost mut done: int = 0;
    assert(s.skip(0) =~= s);
    assert(bytes.len() == bytes@.len());
    while at < bytes.len() && bytes.len() - at >= 2
        invariant
            s == bytes@,
            at <= s.len(),
            s.len() == bytes.len(),
            before >= 0,
            done >= 0,
            done + words(s.skip(at as int)) == words(s),
            total == folded(before + done),
            total <= 0xffff,
        decreases bytes.len() - at,
    {
        let word: u32 = 0x100 * (bytes[at] as u32) + bytes[at + 1] as u32;
        proof {
            let rest = s.skip(at as int);
            assert(rest.skip(2) =~= s.skip(at + 2));
            assert(word == be16(rest, 0));
            lemma_fold(before + done, word as int);
            done = done + word;
        }
        total = add_word(total, word);
        at = at + 2;
    }
    if at < bytes.len() {
        let word: u32 = 0x100 * (bytes[at] as u32);
        proof {
            assert(s.skip(at as int).len() == 1);
            lemma_fold(before + done, word as int);
        }
        total = add_word(total, word);
    }
    total
}

/// The checksum of `bytes` as a `protocol` payload from `src` to `dst`.
pub fn over_ipv6(src: Ipv6Addr, dst: Ipv6Addr, protocol: u8, bytes: &[u8]) -> (sum: u16)
    ensures
        sum == sealing(src.octets@, dst.octets@, protocol, bytes@),
{
    let from: [u8; 16] = src.octets();
    let to: [u8; 16] = dst.octets();
    let ghost a = words(src.octets@);
    let ghost b = words(dst.octets@);
    proof {
        lemma_words(src.octets@);
        lemma_words(dst.octets@);
        lemma_words(bytes@);
    }
    let mut sum: u32 = add_words(0, &from, Ghost(0));
    sum = add_words(sum, &to, Ghost(a));
    assert(bytes.len() == bytes@.len());
    let len: u64 = bytes.len() as u64;
    let high: u32 = (len / 0x1_0000 % 0x1_0000) as u32;
    let low: u32 = (len % 0x1_0000) as u32;
    proof {
        lemma_fold(a + b, high as int);
        lemma_fold(a + b + high, low as int);
        lemma_fold(a + b + high + low, protocol as int);
    }
    sum = add_word(sum, high);
    sum = add_word(sum, low);
    sum = add_word(sum, protocol as u32);
    sum = add_words(sum, bytes, Ghost(a + b + high + low + protocol));
    (0xffff - sum) as u16
}

/// A payload that carries its own checksum, where it had zero before, sums to
/// nothing: that is how whoever receives it checks it.
pub proof fn law_sealed_payload_checks(
    src: Seq<u8>,
    dst: Seq<u8>,
    protocol: u8,
    s: Seq<u8>,
    sealed: Seq<u8>,
)
    requires
        s.len() >= 4,
        s[2] == 0,
        s[3] == 0,
        sealed =~= s.update(
            2,
            be16_bytes(sealing(src, dst, protocol, s) as u16)[0],
        ).update(3, be16_bytes(sealing(src, dst, protocol, s) as u16)[1]),
    ensures
        sealing(src, dst, protocol, sealed) == 0,
{
    let sum = sealing(src, dst, protocol, s);
    let covered = pseudo(src, dst, protocol, s.len()) + words(s);
    lemma_words(src);
    lemma_words(dst);
    lemma_words(s);
    crate::bytes::law_be16_round_trip(sum as u16);
    reveal_with_fuel(words, 3);
    assert(sealed.skip(2).skip(2) =~= s.skip(2).skip(2));
    assert(be16(sealed, 0) == be16(s, 0));
    assert(be16(sealed.skip(2), 0) == sum);
    assert(be16(s.skip(2), 0) == 0);
    assert(words(sealed) == words(s) + sum);
    let total = covered + sum;
    if covered > 0 {
        let f = folded(covered);
        assert(total == covered - f + 0xffff);
        assert((covered - f) % 0xffff == 0);
        assert((total - 1) % 0xffff == 0xfffe);
    }
}

/// The sum of a run of bytes, each at the weight of its half of a word: 256 for
/// the first, the third and so on, one for the others.
pub open spec fn weighed(s: Seq<u8>) -> int
    decreases s.len(),
{
    if s.len() == 0 {
        0
    } else {
        weighed(s.drop_last()) + if s.len() % 2 == 1 {
            256 * s.last()
        } else {
            s.last() as int
        }
    }
}

/// What an IPv6 checksum covers: both addresses, the payload's length in four
/// bytes, three zeros and the next header, and the payload.
pub open spec fn covered(src: Seq<u8>, dst: Seq<u8>, protocol: u8, s: Seq<u8>) -> Seq<u8> {
    src + dst + seq![
        (s.len() / 0x100_0000 % 0x100) as u8,
        (s.len() / 0x1_0000 % 0x100) as u8,
        (s.len() / 0x100 % 0x100) as u8,
        (s.len() % 0x100) as u8,
        0,
        0,
        0,
        protocol,
    ] + s
}

proof fn lemma_weighed_joins(a: Seq<u8>, b: Seq<u8>)
    requires
        a.len() % 2 == 0,
    ensures
        weighed(a + b) == weighed(a) + weighed(b),
    decreases b.len(),
{
    if b.len() == 0 {
        assert(a + b =~= a);
    } else {
        lemma_weighed_joins(a, b.drop_last());
        assert((a + b).drop_last() =~= a + b.drop_last());
    }
}

proof fn lemma_weighed(s: Seq<u8>)
    ensures
        words(s) == weighed(s),
        weighed(s) >= 0,
    decreases s.len(),
{
    if s.len() == 1 {
        reveal_with_fuel(weighed, 2);
    } else if s.len() > 1 {
        let first = s.take(2);
        assert(s =~= first + s.skip(2));
        lemma_weighed(s.skip(2));
        lemma_weighed_joins(first, s.skip(2));
        assert(weighed(first) == be16(s, 0)) by {
            reveal_with_fuel(weighed, 3);
            assert(first.drop_last() =~= seq![s[0]]);
        }
    }
}

proof fn lemma_covered(src: Seq<u8>, dst: Seq<u8>, protocol: u8, s: Seq<u8>)
    requires
        src.len() == 16,
        dst.len() == 16,
        s.len() <= 0xffff_ffff,
    ensures
        weighed(covered(src, dst, protocol, s)) == pseudo(src, dst, protocol, s.len()) + words(s),
        weighed(covered(src, dst, protocol, s)) >= 0,
{
    let n = s.len();
    let middle = seq![
        (n / 0x100_0000 % 0x100) as u8,
        (n / 0x1_0000 % 0x100) as u8,
        (n / 0x100 % 0x100) as u8,
        (n % 0x100) as u8,
        0u8,
        0,
        0,
        protocol,
    ];
    lemma_weighed(src);
    lemma_weighed(dst);
    lemma_weighed(s);
    lemma_weighed_joins(src, dst);
    lemma_weighed_joins(src + dst, middle);
    lemma_weighed_joins(src + dst + middle, s);
    lemma_weighed(middle);
    assert(words(middle) == n / 0x1_0000 % 0x1_0000 + n % 0x1_0000 + protocol) by {
        reveal_with_fuel(words, 5);
        assert(middle.skip(2) =~= seq![
            (n / 0x100 % 0x100) as u8,
            (n % 0x100) as u8,
            0u8,
            0,
            0,
            protocol,
        ]);
        assert(middle.skip(2).skip(2) =~= seq![0u8, 0, 0, protocol]);
        assert(middle.skip(2).skip(2).skip(2) =~= seq![0u8, protocol]);
        assert(middle.skip(2).skip(2).skip(2).skip(2) =~= seq![]);
        let high = n / 0x1_0000 % 0x1_0000;
        assert(n / 0x100_0000 % 0x100 == high / 0x100);
        assert(n / 0x1_0000 % 0x100 == high % 0x100);
        assert(n / 0x100 % 0x100 == n % 0x1_0000 / 0x100);
        assert(n % 0x100 == n % 0x1_0000 % 0x100);
    }
}

/// A checksum is what brings the sum of everything it covers to a multiple of
/// 0xffff: the addresses, the length and the next header no less than the
/// payload.
pub proof fn law_checksum_balances_what_it_covers(
    src: Seq<u8>,
    dst: Seq<u8>,
    protocol: u8,
    s: Seq<u8>,
)
    requires
        src.len() == 16,
        dst.len() == 16,
        s.len() <= 0xffff_ffff,
    ensures
        0 <= sealing(src, dst, protocol, s) <= 0xffff,
        (weighed(covered(src, dst, protocol, s)) + sealing(src, dst, protocol, s)) % 0xffff == 0,
        weighed(covered(src, dst, protocol, s)) > 0 ==> sealing(src, dst, protocol, s) < 0xffff,
{
    lemma_covered(src, dst, protocol, s);
    let n = weighed(covered(src, dst, protocol, s));
    if n > 0 {
        let k = (n - 1) / 0xffff;
        let r = (n - 1) % 0xffff;
        assert(n - 1 == 0xffff * k + r);
        assert(n + (0xffff - (1 + r)) == 0xffff * (k + 1));
    }
}

pub proof fn lemma_range(src: Seq<u8>, dst: Seq<u8>, protocol: u8, s: Seq<u8>)
    ensures
        0 <= sealing(src, dst, protocol, s) <= 0xffff,
{
    lemma_weighed(src);
    lemma_weighed(dst);
    lemma_weighed(s);
}

proof fn lemma_weighed_moves(s: Seq<u8>, at: int, value: u8)
    requires
        0 <= at < s.len(),
    ensures
        weighed(s.update(at, value)) == weighed(s) + (value - s[at]) * if at % 2 == 0 {
            256int
        } else {
            1int
        },
    decreases s.len(),
{
    let t = s.update(at, value);
    if at == s.len() - 1 {
        assert(t.drop_last() =~= s.drop_last());
    } else {
        lemma_weighed_moves(s.drop_last(), at, value);
        assert(t.drop_last() =~= s.drop_last().update(at, value));
    }
}

/// A payload that checks no longer does once any one byte of it changed.
pub proof fn law_changed_payload_is_caught(
    src: Seq<u8>,
    dst: Seq<u8>,
    protocol: u8,
    s: Seq<u8>,
    at: int,
    value: u8,
)
    requires
        src.len() == 16,
        dst.len() == 16,
        s.len() <= 0xffff_ffff,
        sealing(src, dst, protocol, s) == 0,
        0 <= at < s.len(),
        s[at] != value,
    ensures
        sealing(src, dst, protocol, s.update(at, value)) != 0,
{
    let t = s.update(at, value);
    law_checksum_balances_what_it_covers(src, dst, protocol, s);
    law_checksum_balances_what_it_covers(src, dst, protocol, t);
    let whole = covered(src, dst, protocol, s);
    assert(covered(src, dst, protocol, t) =~= whole.update(40 + at, value));
    lemma_weighed_moves(whole, 40 + at, value);
}

/// A payload that checks between two addresses does not check from another that
/// differs in one byte, nor to another.
pub proof fn law_changed_address_is_caught(
    src: Seq<u8>,
    dst: Seq<u8>,
    protocol: u8,
    s: Seq<u8>,
    at: int,
    value: u8,
)
    requires
        src.len() == 16,
        dst.len() == 16,
        s.len() <= 0xffff_ffff,
        sealing(src, dst, protocol, s) == 0,
        0 <= at < 16,
    ensures
        src[at] != value ==> sealing(src.update(at, value), dst, protocol, s) != 0,
        dst[at] != value ==> sealing(src, dst.update(at, value), protocol, s) != 0,
{
    let whole = covered(src, dst, protocol, s);
    law_checksum_balances_what_it_covers(src, dst, protocol, s);
    if src[at] != value {
        law_checksum_balances_what_it_covers(src.update(at, value), dst, protocol, s);
        assert(covered(src.update(at, value), dst, protocol, s) =~= whole.update(at, value));
        lemma_weighed_moves(whole, at, value);
        lemma_unbalanced(
            weighed(whole),
            value - src[at],
            if at % 2 == 0 {
                256
            } else {
                1
            },
        );
    }
    if dst[at] != value {
        law_checksum_balances_what_it_covers(src, dst.update(at, value), protocol, s);
        assert(covered(src, dst.update(at, value), protocol, s) =~= whole.update(16 + at, value));
        lemma_weighed_moves(whole, 16 + at, value);
        lemma_unbalanced(
            weighed(whole),
            value - dst[at],
            if at % 2 == 0 {
                256
            } else {
                1
            },
        );
    }
}

proof fn lemma_unbalanced(sum: int, by: int, weight: int)
    requires
        sum % 0xffff == 0,
        -255 <= by <= 255,
        by != 0,
        weight == 1 || weight == 256,
    ensures
        (sum + by * weight) % 0xffff != 0,
{
}

} // verus!
