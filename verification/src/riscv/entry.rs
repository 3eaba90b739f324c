//! Page-table entries, and the nine-bit digits of an address that index them.
use vstd::prelude::*;

verus! {

pub const PTE_V: u64 = 1;

pub const PTE_R: u64 = 2;

pub const PTE_W: u64 = 4;

pub const PTE_X: u64 = 8;

pub const PTE_A: u64 = 64;

pub const PTE_D: u64 = 128;

/// Non-zero permission bits distinguish a leaf from a table pointer.
pub const PTE_RWX: u64 = 14;

/// The deepest level a root sits at.
pub const DEEPEST: usize = 4;

/// The entry that maps `pa` with `flags`.
pub open spec fn encoded(pa: u64, flags: u64) -> u64 {
    ((pa >> 12) << 10) | flags | PTE_V
}

/// The frame an entry points at.
pub open spec fn target(entry: u64) -> u64 {
    (entry >> 10) << 12
}

pub open spec fn valid(entry: u64) -> bool {
    entry & PTE_V != 0
}

pub open spec fn is_leaf(entry: u64) -> bool {
    entry & PTE_RWX != 0
}

/// Whether an entry points at a further table.
pub open spec fn is_pointer(entry: u64) -> bool {
    valid(entry) && !is_leaf(entry)
}

pub fn pte(pa: u64, flags: u64) -> (entry: u64)
    ensures
        entry == encoded(pa, flags),
{
    ((pa >> 12) << 10) | flags | PTE_V
}

/// An entry with no permissions points at the frame it was made for.
pub proof fn lemma_pointer(frame: u64)
    requires
        frame as int % 4096 == 0,
    ensures
        is_pointer(encoded(frame, 0)),
        target(encoded(frame, 0)) == frame,
{
    let entry = encoded(frame, 0);
    assert(entry == ((frame >> 12) << 10) | 0 | 1 && frame % 4096 == 0 ==> entry & 1 != 0 && entry
        & 14 == 0 && (entry >> 10) << 12 == frame) by (bit_vector);
}

/// An entry with permissions is a leaf.
pub proof fn lemma_leaf(pa: u64, flags: u64)
    requires
        flags & PTE_RWX != 0,
    ensures
        valid(encoded(pa, flags)),
        is_leaf(encoded(pa, flags)),
{
    let entry = encoded(pa, flags);
    assert(entry == ((pa >> 12) << 10) | flags | 1 && flags & 14 != 0 ==> entry & 1 != 0 && entry
        & 14 != 0) by (bit_vector);
}

/// Zero translates nothing.
pub proof fn lemma_zero()
    ensures
        !valid(0),
{
    assert(0u64 & 1 == 0) by (bit_vector);
}

/// How many bytes one entry of a level covers.
pub open spec fn span(level: nat) -> int
    decreases level,
{
    if level == 0 {
        4096
    } else {
        512 * span((level - 1) as nat)
    }
}

/// How many addresses a tree rooted at `top` tells apart.
pub open spec fn reach(top: nat) -> int {
    span(top + 1)
}

/// The number of the level-`level` leaf an address lies in.
pub open spec fn page(va: int, level: nat) -> int {
    va / span(level)
}

/// The digit of an address that indexes a level's table.
pub open spec fn digit(va: int, level: nat) -> int {
    page(va, level) % 512
}

pub proof fn lemma_span(level: nat)
    ensures
        span(level) >= 4096,
        span(level) % 4096 == 0,
        span(level + 1) == 512 * span(level),
    decreases level,
{
    if level > 0 {
        lemma_span((level - 1) as nat);
    }
}

pub proof fn lemma_span_values()
    ensures
        span(0) == 0x1000,
        span(1) == 0x20_0000,
        span(2) == 0x4000_0000,
        span(3) == 0x80_0000_0000,
        span(4) == 0x1_0000_0000_0000,
        span(5) == 0x200_0000_0000_0000,
{
    reveal_with_fuel(span, 6);
}

/// A level's page number is the one above it with one more digit.
pub proof fn lemma_page(va: int, level: nat)
    requires
        va >= 0,
    ensures
        page(va, level) == 512 * page(va, level + 1) + digit(va, level),
        page(va, level + 1) == page(va, level) / 512,
        0 <= digit(va, level) < 512,
        page(va, level) >= 0,
{
    lemma_span(level);
    vstd::arithmetic::div_mod::lemma_div_denominator(va, span(level), 512);
    assert(span(level) * 512 == span(level + 1));
    vstd::arithmetic::div_mod::lemma_fundamental_div_mod(page(va, level), 512);
    vstd::arithmetic::div_mod::lemma_div_pos_is_pos(va, span(level));
}

/// The digits an address has below `reach` do not depend on what is above it.
pub proof fn lemma_wrapped(va: int, level: nat, top: nat)
    requires
        va >= 0,
        level <= top,
    ensures
        digit(va % reach(top), level) == digit(va, level),
        0 <= va % reach(top) < reach(top),
{
    lemma_span(top);
    vstd::arithmetic::div_mod::lemma_mod_bound(va, reach(top));
    lemma_congruent(va, va % reach(top), level, top);
}

/// Numbers congruent modulo a reach have congruent pages below it.
proof fn lemma_congruent(va: int, v: int, level: nat, top: nat)
    requires
        va >= 0,
        level <= top,
        v == va % reach(top),
    ensures
        digit(v, level) == digit(va, level),
{
    lemma_span(level);
    lemma_span(top);
    // va == v + k * reach(top), and reach(top) is 512 * span(level) many times.
    lemma_reach_divides(level, top);
    let s = span(level);
    let m = choose|m: int| m > 0 && reach(top) == #[trigger] (m * (512 * s));
    let k = va / reach(top);
    vstd::arithmetic::div_mod::lemma_fundamental_div_mod(va, reach(top));
    vstd::arithmetic::div_mod::lemma_mod_bound(va, reach(top));
    assert(va == v + (512 * (m * k)) * s) by (nonlinear_arith)
        requires
            va == reach(top) * k + v,
            reach(top) == m * (512 * s),
    ;
    vstd::arithmetic::div_mod::lemma_fundamental_div_mod(v, s);
    let q = v / s;
    let r = v % s;
    assert(va == s * (q + 512 * (m * k)) + r) by (nonlinear_arith)
        requires
            va == v + (512 * (m * k)) * s,
            v == s * q + r,
    ;
    vstd::arithmetic::div_mod::lemma_fundamental_div_mod_converse(
        va,
        s,
        q + 512 * (m * k),
        r,
    );
    assert(page(va, level) == page(v, level) + 512 * (m * k));
    vstd::arithmetic::div_mod::lemma_mod_multiples_vanish(m * k, q, 512);
    assert((q + 512 * (m * k)) % 512 == q % 512);
}

pub proof fn lemma_reach_divides(level: nat, top: nat)
    requires
        level <= top,
    ensures
        exists|m: int| m > 0 && reach(top) == #[trigger] (m * (512 * span(level))),
    decreases top - level,
{
    lemma_span(level);
    lemma_span(top);
    if level == top {
        assert(reach(top) == 1 * (512 * span(level)));
    } else {
        lemma_reach_divides(level + 1, top);
        let m = choose|m: int| m > 0 && reach(top) == #[trigger] (m * (512 * span(level + 1)));
        assert(m * (512 * span(level + 1)) == (512 * m) * (512 * span(level))) by (nonlinear_arith)
            requires
                span(level + 1) == 512 * span(level),
        ;
        assert(512 * m > 0);
    }
}

/// The bytes one entry of a level covers.
pub fn span_of(level: usize) -> (bytes: u64)
    requires
        level <= DEEPEST,
    ensures
        bytes == span(level as nat),
{
    proof {
        lemma_span_values();
    }
    match level {
        0 => 0x1000,
        1 => 0x20_0000,
        2 => 0x4000_0000,
        3 => 0x80_0000_0000,
        _ => 0x1_0000_0000_0000,
    }
}

/// The digit of `va` that indexes the table at `level`.
pub fn index(va: u64, level: usize) -> (digit_of: u64)
    requires
        level <= DEEPEST,
    ensures
        digit_of == digit(va as int, level as nat),
        digit_of < 512,
{
    proof {
        lemma_span_values();
        lemma_page(va as int, level as nat);
    }
    (va / span_of(level)) % 512
}

/// An entry in numbers: the frame's number from bit 10 on, the flags below, and
/// the lowest bit set. It leads back to the frame it was made for.
pub proof fn law_entry_in_numbers(pa: u64, flags: u64)
    requires
        pa % 4096 == 0,
        pa < 0x100_0000_0000_0000,
        flags < 1024,
        flags % 2 == 0,
    ensures
        encoded(pa, flags) == pa / 4096 * 1024 + flags + 1,
        target(encoded(pa, flags)) == pa,
        valid(encoded(pa, flags)),
        is_leaf(encoded(pa, flags)) <==> flags / 2 % 8 != 0,
{
    assert(((pa >> 12) << 10) | flags | 1 == pa / 4096 * 1024 + flags + 1) by (bit_vector)
        requires
            pa % 4096 == 0,
            pa < 0x100_0000_0000_0000,
            flags < 1024,
            flags % 2 == 0,
    ;
    let entry = encoded(pa, flags);
    assert((entry >> 10) << 12 == pa) by (bit_vector)
        requires
            entry == ((pa >> 12) << 10) | flags | 1,
            pa % 4096 == 0,
            pa < 0x100_0000_0000_0000,
            flags < 1024,
    ;
    assert(entry & 1 != 0 && (entry & 14 != 0 <==> flags / 2 % 8 != 0)) by (bit_vector)
        requires
            entry == ((pa >> 12) << 10) | flags | 1,
            flags < 1024,
    ;
}

/// What an entry says, in numbers: it holds where its lowest bit is set, it is a
/// leaf where any of the next three is, and its frame's number starts at bit 10.
pub proof fn law_entry_reads_in_numbers(entry: u64)
    ensures
        valid(entry) <==> entry % 2 == 1,
        is_leaf(entry) <==> entry / 2 % 8 != 0,
        is_pointer(entry) <==> entry % 2 == 1 && entry / 2 % 8 == 0,
        target(entry) == entry / 1024 % 0x10_0000_0000_0000 * 4096,
{
    assert((entry & 1 != 0) == (entry % 2 == 1)) by (bit_vector);
    assert((entry & 14 != 0) == (entry / 2 % 8 != 0)) by (bit_vector);
    assert((entry >> 10) << 12 == entry / 1024 % 0x10_0000_0000_0000 * 4096) by (bit_vector);
}

/// The nine address bits each level looks at, and how much one of its entries
/// covers, in numbers.
pub proof fn law_levels_in_numbers(va: int)
    requires
        va >= 0,
    ensures
        span(0) == 4096,
        span(1) == 2097152,
        span(2) == 1073741824,
        span(3) == 549755813888,
        span(4) == 281474976710656,
        digit(va, 0) == va / 4096 % 512,
        digit(va, 1) == va / 2097152 % 512,
        digit(va, 2) == va / 1073741824 % 512,
        digit(va, 3) == va / 549755813888 % 512,
        digit(va, 4) == va / 281474976710656 % 512,
        reach(2) == 549755813888,
        reach(3) == 281474976710656,
        reach(4) == 144115188075855872,
{
    reveal_with_fuel(span, 6);
}

} // verus!
