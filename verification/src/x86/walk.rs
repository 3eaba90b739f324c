//! Every leaf of a tree of tables, read out of memory.
use vstd::prelude::*;

use crate::arch::{Cache, Leaf};
use crate::memory::{backed, slot, Memory};
use crate::x86::flags::{
    self, address_bits, canonical, canonical_of, permitted, HUGE_PAGE, PRESENT,
};

verus! {

/// How many bytes one entry of a level covers.
pub open spec fn reach(level: nat) -> int {
    if level == 0 {
        0x1000
    } else if level == 1 {
        0x20_0000
    } else if level == 2 {
        0x4000_0000
    } else {
        0x80_0000_0000
    }
}

/// The flags of an entry.
pub open spec fn flags_of(entry: u64) -> int {
    entry - address_bits(entry)
}

/// Whether an entry maps memory itself, rather than leading to a table.
pub open spec fn is_leaf(entry: u64, level: nat) -> bool {
    level == 0 || flags::set(flags_of(entry), HUGE_PAGE)
}

/// Whether every table of the tree is in memory.
pub open spec fn present(words: Map<u64, u64>, frame: u64, level: nat) -> bool
    decreases level,
{
    &&& backed(words, frame)
    &&& frame + 4096 <= u64::MAX
    &&& level > 0 ==> forall|i: int|
        0 <= i < 512 && leads(words[#[trigger] slot(frame, i)], level) ==> present(
            words,
            address_bits(words[slot(frame, i)]) as u64,
            (level - 1) as nat,
        )
}

/// Whether an entry leads to a further table.
pub open spec fn leads(entry: u64, level: nat) -> bool {
    flags::set(flags_of(entry), PRESENT) && !is_leaf(entry, level)
}

/// The address entry `i` of a table starts at.
pub open spec fn starts(base: u64, i: int, level: nat) -> u64 {
    canonical_of(base + i * reach(level)) as u64
}

/// The leaves under the first `n` entries of a table, in order.
pub open spec fn leaves_of(
    words: Map<u64, u64>,
    frame: u64,
    level: nat,
    base: u64,
    n: int,
) -> Seq<Leaf>
    decreases level, n,
{
    if n <= 0 {
        seq![]
    } else {
        let before = leaves_of(words, frame, level, base, n - 1);
        let entry = words[slot(frame, n - 1)];
        let start = starts(base, n - 1, level);
        if !flags::set(flags_of(entry), PRESENT) {
            before
        } else if is_leaf(entry, level) {
            before.push(
                Leaf { start, size: reach(level) as u64, protection: permitted(flags_of(entry)) },
            )
        } else {
            before + leaves_of(words, address_bits(entry) as u64, (level - 1) as nat, start, 512)
        }
    }
}

/// Every leaf of the tree at `root`, whose tables are four levels deep.
pub fn sweep<M: Memory>(memory: &M, root: u64) -> (leaves: Vec<Leaf>)
    requires
        present(memory.words(), root, 3),
    ensures
        leaves@ == leaves_of(memory.words(), root, 3, 0, 512),
{
    let mut leaves: Vec<Leaf> = Vec::new();
    walk(memory, root, 3, 0, &mut leaves);
    assert(leaves@ =~= leaves_of(memory.words(), root, 3, 0, 512));
    leaves
}

fn entry_span(level: usize) -> (span: u64)
    ensures
        span == reach(level as nat),
{
    if level == 0 {
        0x1000
    } else if level == 1 {
        0x20_0000
    } else if level == 2 {
        0x4000_0000
    } else {
        0x80_0000_0000
    }
}

fn walk<M: Memory>(memory: &M, frame: u64, level: usize, base: u64, leaves: &mut Vec<Leaf>)
    requires
        present(memory.words(), frame, level as nat),
        level <= 3,
        base as int % (512 * reach(level as nat)) == 0,
        base + 512 * reach(level as nat) <= u64::MAX + 1,
    ensures
        final(leaves)@ == old(leaves)@ + leaves_of(
            memory.words(),
            frame,
            level as nat,
            base,
            512,
        ),
    decreases level,
{
    let ghost words = memory.words();
    let ghost before = leaves@;
    let ghost lv = level as nat;
    let span: u64 = entry_span(level);
    let mut i: u64 = 0;
    assert(leaves@ =~= before + leaves_of(words, frame, lv, base, 0));
    while i < 512
        invariant
            i <= 512,
            words == memory.words(),
            lv == level,
            level <= 3,
            span == reach(lv),
            present(words, frame, lv),
            base as int % (512 * reach(lv)) == 0,
            base + 512 * span <= u64::MAX + 1,
            leaves@ == before + leaves_of(words, frame, lv, base, i as int),
        decreases 512 - i,
    {
        assert(frame + 8 * i == slot(frame, i as int));
        let entry: u64 = memory.load(frame + 8 * i);
        let held: u64 = flags::flags(entry);
        if held / PRESENT % 2 == 1 {
            assert(i * span + span <= 512 * span) by (nonlinear_arith)
                requires
                    i < 512,
                    span >= 0,
            ;
            let start: u64 = canonical(base + i * span);
            assert(start == starts(base, i as int, lv));
            if level == 0 || held / HUGE_PAGE % 2 == 1 {
                leaves.push(Leaf::new(start, span, flags::protection(held)));
                assert(leaves@ =~= before + leaves_of(words, frame, lv, base, i + 1));
            } else {
                let next: u64 = flags::frame(entry);
                let ghost shorter = leaves@;
                assert(leads(words[slot(frame, i as int)], lv));
                proof {
                    lemma_start(base as int, i as int, lv);
                }
                walk(memory, next, level - 1, start, leaves);
                assert(leaves@ =~= before + leaves_of(words, frame, lv, base, i + 1));
            }
        } else {
            assert(leaves@ =~= before + leaves_of(words, frame, lv, base, i + 1));
        }
        i = i + 1;
    }
}

/// Entries start on multiples of what they cover, and end in their half.
proof fn lemma_start(base: int, i: int, level: nat)
    requires
        0 <= base,
        base % (512 * reach(level)) == 0,
        0 <= i < 512,
        level <= 3,
    ensures
        canonical_of(base + i * reach(level)) % reach(level) == 0,
        0 <= canonical_of(base + i * reach(level)),
        canonical_of(base + i * reach(level)) + reach(level) <= u64::MAX + 1,
{
    if level == 0 {
        lemma_unit(base, i, 0x1000, 0x10_0000_0000);
    } else if level == 1 {
        lemma_unit(base, i, 0x20_0000, 0x800_0000);
    } else if level == 2 {
        lemma_unit(base, i, 0x4000_0000, 0x4_0000);
    } else {
        lemma_unit(base, i, 0x80_0000_0000, 0x200);
    }
}

proof fn lemma_unit(base: int, i: int, unit: int, units: int)
    requires
        0 <= base,
        0 <= i,
        0 < unit,
        base % (512 * unit) == 0,
        units * unit == 0x1_0000_0000_0000,
    ensures
        canonical_of(base + i * unit) % unit == 0,
        canonical_of(base + i * unit) + unit <= u64::MAX + 1,
{
    let q = 512 * (base / (512 * unit)) + i;
    let x = base + i * unit;
    vstd::arithmetic::div_mod::lemma_fundamental_div_mod(base, 512 * unit);
    assert(x == q * unit) by (nonlinear_arith)
        requires
            base == (512 * unit) * (base / (512 * unit)),
            x == base + i * unit,
            q == 512 * (base / (512 * unit)) + i,
    ;
    let k = x / 0x1_0000_0000_0000;
    let low = x % 0x1_0000_0000_0000;
    let r = q - k * units;
    assert(low == r * unit) by (nonlinear_arith)
        requires
            low == x - 0x1_0000_0000_0000 * k,
            x == q * unit,
            units * unit == 0x1_0000_0000_0000,
            r == q - k * units,
    ;
    vstd::arithmetic::div_mod::lemma_mod_multiples_basic(r, unit);
    assert(r < units) by (nonlinear_arith)
        requires
            r * unit < units * unit,
            unit > 0,
    ;
    assert((r + 1) * unit <= units * unit) by (nonlinear_arith)
        requires
            r + 1 <= units,
            unit > 0,
    ;
    assert((r + 1) * unit == low + unit) by (nonlinear_arith)
        requires
            low == r * unit,
    ;
    let high = r + 0xffff * units;
    assert(low + 0xffff_0000_0000_0000 == high * unit) by (nonlinear_arith)
        requires
            low == r * unit,
            units * unit == 0x1_0000_0000_0000,
            high == r + 0xffff * units,
    ;
    vstd::arithmetic::div_mod::lemma_mod_multiples_basic(high, unit);
}

/// What one entry of a level covers.
pub open spec fn unit(level: nat) -> int {
    if level == 0 {
        4096
    } else if level == 1 {
        2097152
    } else if level == 2 {
        1073741824
    } else {
        549755813888
    }
}

/// What a processor finds for the low 48 bits of an address, by the numbers: nine
/// bits pick a word of each table, which holds if it is odd, is a leaf at the
/// last level or where bit 7 is set, and else says which frame is the next table.
pub open spec fn resolved(words: Map<u64, u64>, table: int, level: nat, low: int) -> Option<
    (u64, nat),
>
    decreases level,
{
    let entry = words[(table + 8 * (low / unit(level) % 512)) as u64];
    if entry % 2 == 0 {
        None
    } else if level == 0 || entry / 128 % 2 == 1 {
        Some((entry, level))
    } else {
        resolved(
            words,
            entry as int / 4096 % 0x100_0000_0000 * 4096,
            (level - 1) as nat,
            low,
        )
    }
}

/// Whether a leaf is what an entry of a level says: as long as the level's
/// entries cover, writable by bit 1, not to be run by bit 63, and a device's by
/// bits 3 and 4.
pub open spec fn says(leaf: Leaf, entry: u64, level: nat) -> bool {
    &&& leaf.size == unit(level)
    &&& leaf.protection.read == (entry % 2 == 1)
    &&& leaf.protection.write == (entry / 2 % 2 == 1)
    &&& leaf.protection.execute == (entry / 0x8000_0000_0000_0000 == 0)
    &&& leaf.protection.cache == if entry / 8 % 2 == 1 && entry / 16 % 2 == 1 {
        Cache::Device
    } else {
        Cache::WriteBack
    }
}

/// Whether the low bits of an address lie in a leaf.
pub open spec fn lies(leaf: Leaf, low: int) -> bool {
    let start = leaf.start as int % 0x1_0000_0000_0000;
    start <= low < start + leaf.size
}

proof fn lemma_entry(entry: u64, level: nat)
    ensures
        flags::set(flags_of(entry), PRESENT) <==> entry % 2 == 1,
        is_leaf(entry, level) <==> level == 0 || entry / 128 % 2 == 1,
        address_bits(entry) == entry as int / 4096 % 0x100_0000_0000 * 4096,
        permitted(flags_of(entry)).read == (entry % 2 == 1),
        permitted(flags_of(entry)).write == (entry / 2 % 2 == 1),
        permitted(flags_of(entry)).execute == (entry / 0x8000_0000_0000_0000 == 0),
        permitted(flags_of(entry)).cache == if entry / 8 % 2 == 1 && entry / 16 % 2 == 1 {
            Cache::Device
        } else {
            Cache::WriteBack
        },
{
    let e = entry as int;
    let f = flags_of(entry);
    let low = e % 4096;
    let middle = e / 4096 % 0x100_0000_0000;
    let high = e / 0x10_0000_0000_0000;
    assert(e / 4096 == 0x100_0000_0000 * high + middle);
    assert(e == 4096 * (0x100_0000_0000 * high + middle) + low);
    assert(e % 0x10_0000_0000_0000 == 4096 * middle + low);
    assert(f == 4096 * (0x100_0000_0000 * high) + low);
    lemma_low_digits(0x100_0000_0000 * high + middle, low);
    lemma_low_digits(0x100_0000_0000 * high, low);
    lemma_top_digit(e, f, high);
}

proof fn lemma_low_digits(rest: int, low: int)
    requires
        0 <= rest,
        0 <= low < 4096,
    ensures
        (4096 * rest + low) % 2 == low % 2,
        (4096 * rest + low) / 2 % 2 == low / 2 % 2,
        (4096 * rest + low) / 8 % 2 == low / 8 % 2,
        (4096 * rest + low) / 16 % 2 == low / 16 % 2,
        (4096 * rest + low) / 128 % 2 == low / 128 % 2,
{
    let n = 4096 * rest + low;
    assert(n / 2 == 2048 * rest + low / 2);
    assert(n / 8 == 512 * rest + low / 8);
    assert(n / 16 == 256 * rest + low / 16);
    assert(n / 128 == 32 * rest + low / 128);
}

proof fn lemma_top_digit(e: int, f: int, high: int)
    requires
        0 <= high < 4096,
        high * 0x10_0000_0000_0000 <= e < (high + 1) * 0x10_0000_0000_0000,
        high * 0x10_0000_0000_0000 <= f < (high + 1) * 0x10_0000_0000_0000,
    ensures
        e / 0x8000_0000_0000_0000 == high / 2048,
        f / 0x8000_0000_0000_0000 == high / 2048,
        f / 0x8000_0000_0000_0000 % 2 == high / 2048,
{
}

/// The entry an address of a run of entries picks.
proof fn lemma_picked(base: int, size: int, i: int, low: int)
    requires
        size > 0,
        base % (512 * size) == 0,
        0 <= base,
        0 <= i < 512,
        base + i * size <= low < base + (i + 1) * size,
    ensures
        low / size % 512 == i,
{
    let q = base / (512 * size);
    vstd::arithmetic::div_mod::lemma_fundamental_div_mod(base, 512 * size);
    let r = low - base - i * size;
    assert(base + i * size == (512 * q + i) * size) by (nonlinear_arith)
        requires
            base == (512 * size) * q,
    ;
    assert((i + 1) * size == i * size + size) by (nonlinear_arith);
    vstd::arithmetic::div_mod::lemma_fundamental_div_mod_converse(low, size, 512 * q + i, r);
}

/// Where the first entry of a run stands, canonical, and below 48 bits.
proof fn lemma_starts(base: u64, i: int, level: nat)
    requires
        level <= 3,
        0 <= i < 512,
        base == canonical_of(base as int),
        base as int % 0x1_0000_0000_0000 + 512 * unit(level) <= 0x1_0000_0000_0000,
        base as int % 0x1_0000_0000_0000 % (512 * unit(level)) == 0,
    ensures
        starts(base, i, level) as int % 0x1_0000_0000_0000 == base as int % 0x1_0000_0000_0000 + i
            * unit(level),
        starts(base, i, level) == canonical_of(starts(base, i, level) as int),
        (base as int % 0x1_0000_0000_0000 + i * unit(level)) % unit(level) == 0,
{
    let size = unit(level);
    let low = base as int % 0x1_0000_0000_0000;
    assert(size == reach(level));
    assert(0 <= i * size < 512 * size) by (nonlinear_arith)
        requires
            0 <= i < 512,
            size > 0,
    ;
    let at = base + i * size;
    assert(at % 0x1_0000_0000_0000 == low + i * size);
    let q = low / (512 * size);
    vstd::arithmetic::div_mod::lemma_fundamental_div_mod(low, 512 * size);
    assert(low + i * size == (512 * q + i) * size) by (nonlinear_arith)
        requires
            low == (512 * size) * q,
    ;
    vstd::arithmetic::div_mod::lemma_mod_multiples_basic(512 * q + i, size);
}

/// Whether the leaves found so far are those of `low`s of a run and no others.
spec fn swept(
    words: Map<u64, u64>,
    frame: u64,
    level: nat,
    leaves: Seq<Leaf>,
    from: int,
    to: int,
) -> bool {
    &&& forall|i: int| 0 <= i < leaves.len() ==> inside(#[trigger] leaves[i], from, to)
    &&& forall|i: int, low: int|
        0 <= i < leaves.len() && #[trigger] lies(leaves[i], low) ==> (resolved(
            words,
            frame as int,
            level,
            low,
        ) matches Some((entry, at)) && says(leaves[i], entry, at))
    &&& forall|low: int|
        from <= low < to && #[trigger] resolved(words, frame as int, level, low) is Some
            ==> exists|i: int| 0 <= i < leaves.len() && #[trigger] lies(leaves[i], low)
}

spec fn inside(leaf: Leaf, from: int, to: int) -> bool {
    let start = leaf.start as int % 0x1_0000_0000_0000;
    &&& from <= start
    &&& start + leaf.size <= to
    &&& leaf.start == canonical_of(leaf.start as int)
}

/// Leaves of one run and of the next are those of both.
proof fn lemma_swept_joins(
    words: Map<u64, u64>,
    frame: u64,
    level: nat,
    a: Seq<Leaf>,
    b: Seq<Leaf>,
    from: int,
    middle: int,
    to: int,
)
    requires
        from <= middle <= to,
        swept(words, frame, level, a, from, middle),
        swept(words, frame, level, b, middle, to),
    ensures
        swept(words, frame, level, a + b, from, to),
{
    let all = a + b;
    assert forall|i: int| 0 <= i < all.len() implies inside(#[trigger] all[i], from, to) by {
        if i < a.len() {
            assert(inside(a[i], from, middle));
        } else {
            assert(inside(b[i - a.len()], middle, to));
        }
    }
    assert forall|i: int, low: int|
        0 <= i < all.len() && #[trigger] lies(all[i], low) implies (resolved(
        words,
        frame as int,
        level,
        low,
    ) matches Some((entry, at)) && says(all[i], entry, at)) by {
        if i < a.len() {
            assert(lies(a[i], low));
        } else {
            assert(lies(b[i - a.len()], low));
        }
    }
    assert forall|low: int|
        from <= low < to && #[trigger] resolved(words, frame as int, level, low) is Some implies exists|
        i: int,
    | 0 <= i < all.len() && #[trigger] lies(all[i], low) by {
        if low < middle {
            let i = choose|i: int| 0 <= i < a.len() && #[trigger] lies(a[i], low);
            assert(lies(all[i], low));
        } else {
            let i = choose|i: int| 0 <= i < b.len() && #[trigger] lies(b[i], low);
            assert(lies(all[a.len() + i], low));
        }
    }
}

/// The leaves below one entry.
proof fn lemma_swept_entry(words: Map<u64, u64>, frame: u64, level: nat, base: u64, i: int)
    requires
        level <= 3,
        0 <= i < 512,
        base == canonical_of(base as int),
        base as int % 0x1_0000_0000_0000 + 512 * unit(level) <= 0x1_0000_0000_0000,
        base as int % 0x1_0000_0000_0000 % (512 * unit(level)) == 0,
    ensures
        ({
            let from = base as int % 0x1_0000_0000_0000 + i * unit(level);
            let entry = words[slot(frame, i)];
            let start = starts(base, i, level);
            let leaves = if !flags::set(flags_of(entry), PRESENT) {
                seq![]
            } else if is_leaf(entry, level) {
                seq![
                    Leaf {
                        start,
                        size: reach(level) as u64,
                        protection: permitted(flags_of(entry)),
                    },
                ]
            } else {
                leaves_of(words, address_bits(entry) as u64, (level - 1) as nat, start, 512)
            };
            swept(words, frame, level, leaves, from, from + unit(level))
        }),
    decreases level, 600int,
{
    let size = unit(level);
    let low_base = base as int % 0x1_0000_0000_0000;
    let from = low_base + i * size;
    let entry = words[slot(frame, i)];
    let start = starts(base, i, level);
    lemma_starts(base, i, level);
    lemma_entry(entry, level);
    assert((i + 1) * size == i * size + size) by (nonlinear_arith);
    assert forall|low: int| from <= low < from + size implies words[slot(
        frame,
        #[trigger] (low / size % 512),
    )] == entry by {
        lemma_picked(low_base, size, i, low);
    }
    assert forall|low: int|
        from <= low < from + size implies #[trigger] resolved(words, frame as int, level, low)
        == if entry % 2 == 0 {
        None
    } else if level == 0 || entry / 128 % 2 == 1 {
        Some((entry, level))
    } else {
        resolved(words, address_bits(entry), (level - 1) as nat, low)
    } by {
        assert(words[slot(frame, low / size % 512)] == entry);
    }
    if flags::set(flags_of(entry), PRESENT) && is_leaf(entry, level) {
        let leaf = Leaf { start, size: reach(level) as u64, protection: permitted(flags_of(entry)) };
        assert(says(leaf, entry, level));
        let leaves = seq![leaf];
        assert forall|low: int|
            from <= low < from + size && #[trigger] resolved(
                words,
                frame as int,
                level,
                low,
            ) is Some implies exists|k: int| 0 <= k < leaves.len() && #[trigger] lies(
            leaves[k],
            low,
        ) by {
            assert(lies(leaves[0], low));
        }
    } else if flags::set(flags_of(entry), PRESENT) {
        let next = address_bits(entry) as u64;
        let below = (level - 1) as nat;
        assert(512 * unit(below) == size);
        assert(from + size <= 0x1_0000_0000_0000) by {
            assert(i * size + size <= 512 * size) by (nonlinear_arith)
                requires
                    0 <= i < 512,
                    size > 0,
            ;
        }
        lemma_swept(words, next, below, start, 512);
        let leaves = leaves_of(words, next, below, start, 512);
        assert(swept(words, next, below, leaves, from, from + size));
        assert forall|k: int, low: int|
            0 <= k < leaves.len() && #[trigger] lies(leaves[k], low) implies (resolved(
            words,
            frame as int,
            level,
            low,
        ) matches Some((found, at)) && says(leaves[k], found, at)) by {
            assert(inside(leaves[k], from, from + size));
            assert(resolved(words, next as int, below, low) is Some);
        }
        assert forall|low: int|
            from <= low < from + size && #[trigger] resolved(
                words,
                frame as int,
                level,
                low,
            ) is Some implies exists|k: int| 0 <= k < leaves.len() && #[trigger] lies(
            leaves[k],
            low,
        ) by {
            assert(resolved(words, next as int, below, low) is Some);
        }
    }
}

proof fn lemma_swept(words: Map<u64, u64>, frame: u64, level: nat, base: u64, n: int)
    requires
        level <= 3,
        0 <= n <= 512,
        base == canonical_of(base as int),
        base as int % 0x1_0000_0000_0000 + 512 * unit(level) <= 0x1_0000_0000_0000,
        base as int % 0x1_0000_0000_0000 % (512 * unit(level)) == 0,
    ensures
        swept(
            words,
            frame,
            level,
            leaves_of(words, frame, level, base, n),
            base as int % 0x1_0000_0000_0000,
            base as int % 0x1_0000_0000_0000 + n * unit(level),
        ),
    decreases level, 601 + n,
{
    let from = base as int % 0x1_0000_0000_0000;
    let size = unit(level);
    if n > 0 {
        lemma_swept(words, frame, level, base, n - 1);
        lemma_swept_entry(words, frame, level, base, n - 1);
        let before = leaves_of(words, frame, level, base, n - 1);
        let entry = words[slot(frame, n - 1)];
        let start = starts(base, n - 1, level);
        let more = if !flags::set(flags_of(entry), PRESENT) {
            seq![]
        } else if is_leaf(entry, level) {
            seq![
                Leaf { start, size: reach(level) as u64, protection: permitted(flags_of(entry)) },
            ]
        } else {
            leaves_of(words, address_bits(entry) as u64, (level - 1) as nat, start, 512)
        };
        assert(0 <= (n - 1) * size && (n - 1) * size + size == n * size) by (nonlinear_arith)
            requires
                n >= 1,
                size > 0,
        ;
        lemma_swept_joins(
            words,
            frame,
            level,
            before,
            more,
            from,
            from + (n - 1) * size,
            from + n * size,
        );
        assert(leaves_of(words, frame, level, base, n) =~= before + more);
    } else {
        assert(0 * size == 0);
    }
}

/// A sweep finds what a processor translates through, and nothing else: every
/// leaf is found, at its canonical address, as long as it is and with what it
/// grants; and wherever an address of a found leaf is looked up, that leaf is
/// what translates it.
pub proof fn law_sweep_finds_what_translates(words: Map<u64, u64>, root: u64, low: int)
    requires
        0 <= low < 0x1_0000_0000_0000,
    ensures
        ({
            let leaves = leaves_of(words, root, 3, 0, 512);
            &&& resolved(words, root as int, 3, low) is Some <==> exists|i: int|
                0 <= i < leaves.len() && #[trigger] lies(leaves[i], low)
            &&& forall|i: int|
                0 <= i < leaves.len() && #[trigger] lies(leaves[i], low) ==> (resolved(
                    words,
                    root as int,
                    3,
                    low,
                ) matches Some((entry, at)) && says(leaves[i], entry, at))
            &&& forall|i: int|
                0 <= i < leaves.len() ==> (#[trigger] leaves[i]).start == canonical_of(
                    leaves[i].start as int,
                )
        }),
{
    lemma_swept(words, root, 3, 0, 512);
    let leaves = leaves_of(words, root, 3, 0, 512);
    assert(swept(words, root, 3, leaves, 0, 0x1_0000_0000_0000));
    assert forall|i: int| 0 <= i < leaves.len() implies (#[trigger] leaves[i]).start == canonical_of(
        leaves[i].start as int,
    ) by {
        assert(inside(leaves[i], 0, 0x1_0000_0000_0000));
    }
}

} // verus!
