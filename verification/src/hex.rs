//! Numbers as hexadecimal text, for reports made when little else works.
use vstd::prelude::*;

verus! {

/// The character of one digit.
pub open spec fn digit(nibble: int) -> int {
    if nibble < 10 {
        0x30 + nibble
    } else {
        0x61 + nibble - 10
    }
}

/// Sixteen to the power of `n`.
pub open spec fn sixteens(n: nat) -> int
    decreases n,
{
    if n == 0 {
        1
    } else {
        16 * sixteens((n - 1) as nat)
    }
}

/// The sixteen digits of a number, highest first.
pub fn digits(value: u64) -> (text: Vec<u8>)
    ensures
        text@.len() == 16,
        forall|i: int|
            0 <= i < 16 ==> #[trigger] text@[i] == digit(
                value as int / sixteens((15 - i) as nat) % 16,
            ),
{
    let mut text: Vec<u8> = Vec::new();
    let mut unit: u64 = 0x1000_0000_0000_0000;
    let mut i: usize = 0;
    proof {
        reveal_with_fuel(sixteens, 16);
    }
    while i < 16
        invariant
            i <= 16,
            text@.len() == i,
            i < 16 ==> unit == sixteens((15 - i) as nat),
            forall|k: int|
                0 <= k < i ==> #[trigger] text@[k] == digit(
                    value as int / sixteens((15 - k) as nat) % 16,
                ),
        decreases 16 - i,
    {
        assert(unit > 0) by {
            lemma_positive((15 - i) as nat);
        }
        let nibble: u8 = (value / unit % 16) as u8;
        text.push(
            if nibble < 10 {
                0x30 + nibble
            } else {
                0x61 + (nibble - 10)
            },
        );
        unit = unit / 16;
        i = i + 1;
    }
    text
}

proof fn lemma_positive(n: nat)
    ensures
        sixteens(n) > 0,
    decreases n,
{
    if n > 0 {
        lemma_positive((n - 1) as nat);
    }
}

/// The number sixteen digits stand for, each by its character.
pub open spec fn value_of(text: Seq<u8>) -> int
    decreases text.len(),
{
    if text.len() == 0 {
        0
    } else {
        16 * value_of(text.drop_last()) + if 48 <= text.last() <= 57 {
            text.last() - 48
        } else {
            text.last() - 87
        }
    }
}

proof fn lemma_prefix(value: u64, text: Seq<u8>, n: nat)
    requires
        text.len() == 16,
        forall|i: int|
            0 <= i < 16 ==> #[trigger] text[i] == digit(
                value as int / sixteens((15 - i) as nat) % 16,
            ),
        n <= 16,
    ensures
        n > 0 ==> value_of(text.take(n as int)) == value as int / sixteens((16 - n) as nat),
        n == 0 ==> value_of(text.take(0)) == 0,
    decreases n,
{
    if n > 0 {
        lemma_prefix(value, text, (n - 1) as nat);
        assert(text.take(n as int).drop_last() =~= text.take(n - 1));
        let unit = sixteens((16 - n) as nat);
        lemma_sixteens((16 - n) as nat);
        let q = value as int / unit;
        assert(text[n - 1] == digit(q % 16));
        if n == 1 {
            reveal_with_fuel(sixteens, 16);
            assert(unit == 0x1000_0000_0000_0000);
            assert(q < 16);
        } else {
            assert(sixteens((17 - n) as nat) == 16 * unit);
            vstd::arithmetic::div_mod::lemma_div_denominator(value as int, unit, 16);
            assert(value as int / (unit * 16) == q / 16);
        }
    }
}

proof fn lemma_sixteens(n: nat)
    ensures
        sixteens(n) > 0,
    decreases n,
{
    if n > 0 {
        lemma_sixteens((n - 1) as nat);
    }
}

/// The digits of a number stand for it: read as base sixteen, highest first, they
/// give it back.
pub proof fn law_digits_stand_for_their_number(value: u64, text: Seq<u8>)
    requires
        text.len() == 16,
        forall|i: int|
            0 <= i < 16 ==> #[trigger] text[i] == digit(
                value as int / sixteens((15 - i) as nat) % 16,
            ),
    ensures
        value_of(text) == value,
{
    lemma_prefix(value, text, 16);
    assert(text.take(16) =~= text);
    assert(sixteens(0) == 1);
}

} // verus!
