//! Runs of leaves: whole ranges mapped, granted and revoked.
use vstd::prelude::*;

use crate::align;
use crate::arch::{MappingError, Rights, ViewError};
use crate::riscv::entry::{
    self, encoded, page, reach, span, PTE_A, PTE_D, PTE_R, PTE_RWX, PTE_W, PTE_X,
};
use crate::memory::Memory;
use crate::riscv::table::{self, drawn, Tables};

verus! {

pub const PAGE_4K: u64 = 0x1000;

pub const PAGE_2M: u64 = 0x20_0000;

pub const PAGE_1G: u64 = 0x4000_0000;

/// Whether a range may be mapped by leaves larger than a page.
#[derive(Clone, Copy, Debug, PartialEq, Eq, Structural)]
pub enum Granularity {
    Small,
    LargeOk,
}

/// Leaf flags for `rights`, with access and dirty pre-set.
pub open spec fn flags_for(rights: Rights) -> u64 {
    PTE_A | (if rights.read || rights.write {
        PTE_R
    } else {
        0
    }) | (if rights.write {
        PTE_W | PTE_D
    } else {
        0
    }) | (if rights.execute {
        PTE_X
    } else {
        0
    })
}

pub fn leaf_flags(rights: Rights) -> (flags: u64)
    ensures
        flags == flags_for(rights),
{
    let reading: u64 = if rights.is_read() || rights.is_write() {
        PTE_R
    } else {
        0
    };
    let writing: u64 = if rights.is_write() {
        PTE_W | PTE_D
    } else {
        0
    };
    let executing: u64 = if rights.is_execute() {
        PTE_X
    } else {
        0
    };
    PTE_A | reading | writing | executing
}

/// A leaf mapped for `rights` reads back as granting them: writing implies
/// reading, and nothing else is implied.
pub proof fn law_rights_read_back(rights: Rights, pa: u64)
    requires
        rights.read || rights.write || rights.execute,
    ensures
        flags_for(rights) & PTE_RWX != 0,
        encoded(pa, flags_for(rights)) & PTE_R != 0 <==> rights.read || rights.write,
        encoded(pa, flags_for(rights)) & PTE_W != 0 <==> rights.write,
        encoded(pa, flags_for(rights)) & PTE_X != 0 <==> rights.execute,
{
    let (r, w, x) = (rights.read, rights.write, rights.execute);
    let flags = flags_for(rights);
    let entry = encoded(pa, flags);
    assert((flags & 14 != 0) && ((entry & 2 != 0) == (r || w)) && ((entry & 4 != 0) == w) && ((entry
        & 8 != 0) == x)) by (bit_vector)
        requires
            r || w || x,
            flags == 64 | (if r || w {
                2u64
            } else {
                0
            }) | (if w {
                4u64 | 128
            } else {
                0
            }) | (if x {
                8u64
            } else {
                0
            }),
            entry == ((pa >> 12) << 10) | flags | 1,
    ;
}

/// The flags a range of `rights` is mapped with: accessed, and dirty if it can
/// be written.
pub open spec fn range_flags(rights: u64) -> u64 {
    if rights & PTE_W != 0 {
        rights | PTE_A | PTE_D
    } else {
        rights | PTE_A
    }
}

proof fn lemma_range_flags(rights: u64)
    requires
        rights & PTE_RWX != 0,
    ensures
        range_flags(rights) & PTE_RWX != 0,
{
    assert(rights & 14 != 0 ==> (rights | 64 | 128) & 14 != 0 && (rights | 64) & 14 != 0)
        by (bit_vector);
}

/// The biggest level at which a leaf starts at `va` without running past
/// `end`.
pub open spec fn biggest(va: int, end: int, granularity: Granularity) -> nat {
    if granularity is Small {
        0
    } else if va % span(2) == 0 && end - va >= span(2) {
        2
    } else if va % span(1) == 0 && end - va >= span(1) {
        1
    } else {
        0
    }
}

/// The biggest leaf that starts at `va` without running past `end`.
///
/// A gigapage is worth asking for and not only for the table frames it saves:
/// one TLB entry covers what 262 144 pages would. Nothing here splits a leaf
/// later, so a range that only *starts* aligned still gets the small leaves it
/// needs at the ends.
pub fn leaf_level(va: u64, end: u64, granularity: Granularity) -> (level: usize)
    requires
        va <= end,
    ensures
        level == biggest(va as int, end as int, granularity),
        level <= 2,
{
    proof {
        entry::lemma_span_values();
    }
    if granularity == Granularity::Small {
        return 0;
    }
    if va % PAGE_1G == 0 && end - va >= PAGE_1G {
        return 2;
    }
    if va % PAGE_2M == 0 && end - va >= PAGE_2M {
        return 1;
    }
    0
}

/// Where the `n`th leaf of a run from `from` to `to` starts.
pub open spec fn stop(from: int, to: int, granularity: Granularity, n: nat) -> int
    decreases n,
{
    if n == 0 {
        from
    } else {
        let before = stop(from, to, granularity, (n - 1) as nat);
        before + span(biggest(before, to, granularity))
    }
}

/// How many tables there are on the way to the addresses from `from` to `last`,
/// below a root at `top`: one for each page of each level above the leaves.
pub open spec fn tables_between(from: int, last: int, top: nat) -> int
    decreases top,
{
    if top == 0 {
        0
    } else {
        tables_between(from, last, (top - 1) as nat) + page(last, top) - page(from, top) + 1
    }
}

/// How many tables mapping `from..to` may take.
pub open spec fn tables_for(from: int, to: int, top: nat) -> int {
    if from < to {
        tables_between(from, to - 1, top)
    } else {
        0
    }
}

/// The way to one address has a table for each level.
proof fn lemma_first_tables(from: int, top: nat)
    ensures
        tables_between(from, from, top) == top,
    decreases top,
{
    if top > 0 {
        lemma_first_tables(from, (top - 1) as nat);
    }
}

/// Going on from one address to a later one takes a table more for every level
/// at which they lie in different pages.
proof fn lemma_more_tables(from: int, last: int, next: int, shared: nat, top: nat)
    requires
        0 <= last <= next,
        1 <= shared,
        forall|level: nat| 1 <= level < shared ==> #[trigger] page(last, level) < page(next, level),
    ensures
        tables_between(from, next, top) >= tables_between(from, last, top) + if shared - 1 <= top {
            shared - 1
        } else {
            top as int
        },
    decreases top,
{
    if top > 0 {
        lemma_more_tables(from, last, next, shared, (top - 1) as nat);
        entry::lemma_span(top);
        vstd::arithmetic::div_mod::lemma_div_is_ordered(last, next, span(top));
        if top < shared {
            assert(page(last, top) < page(next, top));
        }
    }
}

/// The lowest level at which two addresses lie in one page.
proof fn lemma_shared(last: int, next: int, top: nat) -> (shared: nat)
    requires
        0 <= last <= next < reach(top),
    ensures
        1 <= shared <= top + 1,
        page(last, shared) == page(next, shared),
        forall|level: nat| 1 <= level < shared ==> #[trigger] page(last, level) < page(next, level),
    decreases top,
{
    if top == 0 {
        entry::lemma_span(1);
        vstd::arithmetic::div_mod::lemma_basic_div(last, span(1));
        vstd::arithmetic::div_mod::lemma_basic_div(next, span(1));
        1
    } else {
        lemma_shared_from(last, next, top, 1)
    }
}

proof fn lemma_shared_from(last: int, next: int, top: nat, from: nat) -> (shared: nat)
    requires
        0 <= last <= next < reach(top),
        1 <= from <= top + 1,
        forall|level: nat| 1 <= level < from ==> #[trigger] page(last, level) < page(next, level),
    ensures
        from <= shared <= top + 1,
        page(last, shared) == page(next, shared),
        forall|level: nat| 1 <= level < shared ==> #[trigger] page(last, level) < page(next, level),
    decreases top + 1 - from,
{
    entry::lemma_span(from);
    vstd::arithmetic::div_mod::lemma_div_is_ordered(last, next, span(from));
    if page(last, from) == page(next, from) {
        from
    } else {
        if from == top + 1 {
            vstd::arithmetic::div_mod::lemma_basic_div(last, span(from));
            vstd::arithmetic::div_mod::lemma_basic_div(next, span(from));
        }
        lemma_shared_from(last, next, top, from + 1)
    }
}

/// The leaf after one that is mapped lacks no more tables than there are more
/// of on the way to it.
proof fn lemma_next_lacks<M: Memory>(
    tables: Tables<M>,
    root: u64,
    from: int,
    last: u64,
    found: nat,
    next: u64,
    level: nat,
)
    requires
        last + span(found) == next,
        next < reach(tables.top as nat),
        tables.translate(root, last) matches Some((_, level)) && level == found,
    ensures
        tables.lacking(root, next, level) matches Some(lacking) ==> lacking <= tables_between(
            from,
            next as int,
            tables.top as nat,
        ) - tables_between(from, last as int, tables.top as nat),
{
    let top = tables.top as nat;
    entry::lemma_span(found);
    vstd::arithmetic::div_mod::lemma_small_mod(next as nat, reach(top) as nat);
    vstd::arithmetic::div_mod::lemma_small_mod(last as nat, reach(top) as nat);
    let shared = lemma_shared(last as int, next as int, top);
    lemma_more_tables(from, last as int, next as int, shared, top);
    // A whole leaf on, the page of its level is another one.
    assert(page(next as int, found) == page(last as int, found) + 1) by {
        vstd::arithmetic::div_mod::lemma_div_plus_one(last as int, span(found));
    }
    if shared <= found {
        table::lemma_page_above(last as int, next as int, shared, found);
    }
    table::lemma_gap_shared(
        tables.words(),
        root,
        top,
        last as int,
        next as int,
        shared,
        level,
    );
}

/// No run takes less than no tables.
pub proof fn lemma_some_tables(from: int, to: int, top: nat)
    requires
        0 <= from,
    ensures
        tables_for(from, to, top) >= 0,
{
    if from < to {
        lemma_first_tables(from, top);
        lemma_tables_grow(from, from, to - 1, top);
    }
}

/// More addresses take no fewer tables.
proof fn lemma_tables_grow(from: int, last: int, next: int, top: nat)
    requires
        0 <= last <= next,
    ensures
        tables_between(from, last, top) <= tables_between(from, next, top),
{
    lemma_more_tables(from, last, next, 1, top);
}

/// Whether a leaf translates `va` to itself.
pub open spec fn identity(leaf: Option<(u64, nat)>, va: int, flags: u64) -> bool {
    &&& leaf matches Some((entry, level))
    &&& entry == encoded((va - va % span(level)) as u64, flags)
}

/// The addresses that share an aligned address's leaf are those from it on.
pub proof fn lemma_aligned(at: int, va: int, level: nat)
    requires
        at >= 0,
        va >= 0,
        at % span(level) == 0,
    ensures
        page(va, level) == page(at, level) <==> at <= va < at + span(level),
        at <= va < at + span(level) ==> va - va % span(level) == at,
{
    entry::lemma_span(level);
    let s = span(level);
    let q = at / s;
    vstd::arithmetic::div_mod::lemma_fundamental_div_mod(at, s);
    vstd::arithmetic::div_mod::lemma_fundamental_div_mod(va, s);
    vstd::arithmetic::div_mod::lemma_mod_bound(va, s);
    if at <= va < at + s {
        assert(va == q * s + (va - at)) by (nonlinear_arith)
            requires
                at == s * q + 0,
        ;
        vstd::arithmetic::div_mod::lemma_fundamental_div_mod_converse(va, s, q, va - at);
    } else if page(va, level) == q {
        assert(s * q == at);
    }
}

/// Whether the page an address ends in ends past every address.
pub open spec fn unplaced(end: u64) -> bool {
    align::up(end as int, 4096) > u64::MAX
}

impl<M: Memory> Tables<M> {
    /// The trees once `from..to` of one was mapped to itself.
    pub open spec fn identified(
        &self,
        root: u64,
        from: int,
        to: int,
        flags: u64,
        after: Self,
    ) -> bool {
        &&& after.top == self.top
        &&& forall|r: u64| #[trigger] after.is_root(r) == self.is_root(r)
        &&& forall|r: u64, va: u64|
            #![trigger after.translate(r, va)]
            self.is_root(r) ==> if r == root && from <= self.low(va) < to {
                identity(after.translate(r, va), self.low(va), flags)
            } else {
                after.translate(r, va) == self.translate(r, va)
            }
    }

    /// The trees of `path` go one leaf on from the `i`th: that of the run at
    /// its `i`th stop.
    pub open spec fn stepped(
        path: Seq<Self>,
        i: int,
        root: u64,
        from: int,
        to: int,
        flags: u64,
        granularity: Granularity,
    ) -> bool {
        let va = stop(from, to, granularity, i as nat);
        &&& va < to
        &&& path[i].leafed(
            root,
            va as u64,
            va as u64,
            flags,
            biggest(va, to, granularity),
            path[i + 1],
        )
    }

    /// The trees as leaf after leaf of a run was mapped.
    pub open spec fn stepping(
        &self,
        path: Seq<Self>,
        root: u64,
        from: int,
        to: int,
        flags: u64,
        granularity: Granularity,
    ) -> bool {
        &&& path.len() >= 1
        &&& path[0] == *self
        &&& forall|i: int|
            0 <= i < path.len() - 1 ==> #[trigger] Self::stepped(
                path,
                i,
                root,
                from,
                to,
                flags,
                granularity,
            )
    }

    /// What mapping `start..end`, widened to whole pages, to itself came to:
    /// every leaf mapped, or those before the first that could not be. A range
    /// that ends in no page is refused as it is.
    pub open spec fn ranged(
        &self,
        root: u64,
        start: u64,
        end: u64,
        rights: u64,
        granularity: Granularity,
        after: Self,
        done: Result<(), MappingError>,
    ) -> bool {
        let from = align::down(start as int, 4096);
        let to = align::up(end as int, 4096);
        let flags = range_flags(rights);
        match done {
            Ok(()) => {
                &&& !unplaced(end)
                &&& self.identified(root, from, to, flags, after)
                &&& exists|path: Seq<Self>|
                    {
                        &&& #[trigger] self.stepping(path, root, from, to, flags, granularity)
                        &&& stop(from, to, granularity, (path.len() - 1) as nat) >= to
                        &&& path.last() == after
                    }
            },
            Err(error) => if unplaced(end) {
                error == MappingError::InvalidAddress && after == *self
            } else {
                exists|path: Seq<Self>|
                    {
                        let va = stop(from, to, granularity, (path.len() - 1) as nat);
                        &&& #[trigger] self.stepping(path, root, from, to, flags, granularity)
                        &&& from <= va < to
                        &&& path.last().jammed(
                            root,
                            va as u64,
                            biggest(va, to, granularity),
                            error,
                            after,
                        )
                        &&& self.identified(root, from, va, flags, after)
                    }
            },
        }
    }

    /// Whether a leaf of the run `from..to` is smaller than the one that
    /// translates its address already.
    pub open spec fn obstructed(
        &self,
        root: u64,
        from: int,
        to: int,
        granularity: Granularity,
    ) -> bool {
        exists|va: u64|
            from <= va < to && #[trigger] self.blocked(
                root,
                va,
                biggest(va as int, to, granularity),
            )
    }

    /// Maps `start..end`, widened to whole pages, to itself. A range that ends
    /// in no page is refused as it is.
    ///
    /// Stops at the first leaf that cannot be mapped, leaving the ones before
    /// it in place.
    pub fn map_range(
        &mut self,
        root: u64,
        start: u64,
        end: u64,
        rights: u64,
        granularity: Granularity,
    ) -> (done: Result<(), MappingError>)
        requires
            old(self).wf(),
            old(self).is_root(root),
            old(self).top >= 2,
            unplaced(end) || align::up(end as int, 4096) <= reach(old(self).top as nat),
            rights & PTE_RWX != 0,
        ensures
            final(self).wf(),
            drawn(old(self).pool@, final(self).pool@),
            old(self).confined(*final(self)),
            old(self).ranged(root, start, end, rights, granularity, *final(self), done),
            done is Ok ==> old(self).pool@.len() - final(self).pool@.len() <= tables_for(
                align::down(start as int, 4096),
                align::up(end as int, 4096),
                old(self).top as nat,
            ),
            done is Err ==> {
                ||| unplaced(end)
                ||| old(self).pool@.len() < tables_for(
                    align::down(start as int, 4096),
                    align::up(end as int, 4096),
                    old(self).top as nat,
                )
                ||| old(self).obstructed(
                    root,
                    align::down(start as int, 4096),
                    align::up(end as int, 4096),
                    granularity,
                )
            },
    {
        let ghost before = *self;
        let ghost top = self.top as nat;
        proof {
            entry::lemma_span_values();
            lemma_range_flags(rights);
            align::lemma_down(start as int, 4096);
            align::lemma_up(end as int, 4096);
        }
        let flags: u64 = if rights & PTE_W != 0 {
            rights | PTE_A | PTE_D
        } else {
            rights | PTE_A
        };
        let from: u64 = align::align_down(start, PAGE_4K);
        let to: u64 = match align::align_up(end, PAGE_4K) {
            Some(to) => to,
            None => return Err(MappingError::InvalidAddress),
        };
        let mut va: u64 = from;
        let ghost mut path: Seq<Self> = seq![before];
        let ghost mut last: u64 = from;
        let ghost mut found: nat = 0;
        while va < to
            invariant
                path.len() >= 1,
                path.last() == *self,
                before.stepping(path, root, from as int, to as int, flags, granularity),
                va == stop(from as int, to as int, granularity, (path.len() - 1) as nat),
                va > from ==> {
                    &&& from <= last
                    &&& last + span(found) == va
                    &&& last < to
                    &&& self.translate(root, last) matches Some((_, level))
                    &&& level == found
                    &&& before.pool@.len() - self.pool@.len() <= tables_between(
                        from as int,
                        last as int,
                        top,
                    )
                },
                va == from ==> self.pool@.len() == before.pool@.len(),
                before == *old(self),
                top == before.top,
                top >= 2,
                self.top == before.top,
                self.wf(),
                before.is_root(root),
                !unplaced(end),
                drawn(before.pool@, self.pool@),
                before.confined(*self),
                flags == range_flags(rights),
                flags & PTE_RWX != 0,
                from <= va,
                from == align::down(start as int, 4096),
                to == align::up(end as int, 4096),
                va % 4096 == 0,
                to % 4096 == 0,
                to <= reach(top),
                va <= to || va == from,
                reach(top) <= 0x200_0000_0000_0000,
                before.identified(root, from as int, va as int, flags, *self),
            decreases to - va,
        {
            let level: usize = leaf_level(va, to, granularity);
            let ghost held = *self;
            proof {
                entry::lemma_span_values();
                entry::lemma_span(level as nat);
                assert(held.is_root(root) == before.is_root(root));
                vstd::arithmetic::div_mod::lemma_small_mod(va as nat, reach(top) as nat);
                table::lemma_gap(held.words(), root, top, va as int, level as nat);
                if va > from {
                    lemma_next_lacks(held, root, from as int, last, found, va, level as nat);
                } else {
                    lemma_first_tables(from as int, top);
                }
                lemma_tables_grow(from as int, va as int, to - 1, top);
            }
            let step: u64 = entry::span_of(level);
            let done = self.map_leaf(root, va, va, flags, level);
            proof {
                table::lemma_confined(before, held, *self);
            }
            if let Err(error) = done {
                proof {
                    assert(held.translate(root, va) == before.translate(root, va));
                    if held.lacking(root, va, level as nat) is None {
                        assert(before.blocked(root, va, level as nat));
                        assert(before.obstructed(root, from as int, to as int, granularity));
                    }
                }
                assert(before.identified(root, from as int, va as int, flags, *self)) by {
                    assert forall|r: u64| #[trigger] self.is_root(r) == before.is_root(r) by {
                        assert(held.is_root(r) == before.is_root(r));
                    }
                    assert forall|r: u64, other: u64|
                        #![trigger self.translate(r, other)]
                        before.is_root(r) implies if r == root && from <= before.low(other) < va {
                        identity(self.translate(r, other), before.low(other), flags)
                    } else {
                        self.translate(r, other) == before.translate(r, other)
                    } by {
                        assert(held.is_root(r));
                        assert(self.translate(r, other) == held.translate(r, other));
                    }
                }
                return Err(error);
            }
            assert(before.identified(root, from as int, va + step, flags, *self)) by {
                assert forall|r: u64| #[trigger] self.is_root(r) == before.is_root(r) by {
                    assert(held.is_root(r) == before.is_root(r));
                }
                assert forall|r: u64, other: u64|
                    #![trigger self.translate(r, other)]
                    before.is_root(r) implies if r == root && from <= before.low(other) < va
                    + step {
                    identity(self.translate(r, other), before.low(other), flags)
                } else {
                    self.translate(r, other) == before.translate(r, other)
                } by {
                    assert(held.is_root(r));
                    table::lemma_low(other, top);
                    vstd::arithmetic::div_mod::lemma_small_mod(va as nat, reach(top) as nat);
                    lemma_aligned(va as int, before.low(other), level as nat);
                    assert(held.translate(r, other) == held.translate(r, other));
                }
            }
            proof {
                let longer = path.push(*self);
                assert forall|i: int| 0 <= i < longer.len() - 1 implies #[trigger] Self::stepped(
                    longer,
                    i,
                    root,
                    from as int,
                    to as int,
                    flags,
                    granularity,
                ) by {
                    if i < path.len() - 1 {
                        assert(Self::stepped(
                            path,
                            i,
                            root,
                            from as int,
                            to as int,
                            flags,
                            granularity,
                        ));
                        assert(longer[i] == path[i] && longer[i + 1] == path[i + 1]);
                    } else {
                        assert(longer[i] == held && longer[i + 1] == *self);
                    }
                }
                path = longer;
                last = va;
                found = level as nat;
                assert(held.same_page(va, va, level as nat));
                assert(self.translate(root, va) == Some(
                    (encoded(va, flags), level as nat),
                ));
            }
            va = va + step;
        }
        proof {
            if va > to {
                assert(before.identified(root, from as int, to as int, flags, *self));
            }
            if va > from {
                lemma_tables_grow(from as int, last as int, to - 1, top);
            }
        }
        Ok(())
    }
}

impl<M: Memory> Tables<M> {
    /// Whether a leaf larger than `level` translates `va`.
    pub open spec fn blocked(&self, root: u64, va: u64, level: nat) -> bool {
        self.translate(root, va) matches Some((_, found)) && found > level
    }

    /// The trees once `leaves` leaves of one, from `start` on, were mapped to
    /// the memory from `pa` on.
    pub open spec fn granted(
        &self,
        root: u64,
        start: u64,
        pa: u64,
        level: nat,
        leaves: int,
        flags: u64,
        after: Self,
    ) -> bool {
        &&& after.top == self.top
        &&& forall|r: u64| #[trigger] after.is_root(r) == self.is_root(r)
        &&& forall|r: u64, va: u64|
            #![trigger after.translate(r, va)]
            self.is_root(r) ==> after.translate(r, va) == if r == root && start <= self.low(va)
                < start + leaves * span(level) {
                let offset = (page(self.low(va), level) - page(start as int, level)) * span(level);
                Some((encoded((pa + offset) as u64, flags), level))
            } else {
                self.translate(r, va)
            }
    }

    /// Whether no leaf larger than `level` translates an address of
    /// `start..end`.
    pub open spec fn unblocked(&self, root: u64, start: int, end: int, level: nat) -> bool {
        forall|va: u64| start <= va < end ==> !#[trigger] self.blocked(root, va, level)
    }

    /// The trees of `path` go one leaf on from the `i`th: the `i`th of a run of
    /// leaves of one level.
    pub open spec fn run_stepped(
        path: Seq<Self>,
        i: int,
        root: u64,
        start: u64,
        pa: u64,
        level: nat,
        flags: u64,
    ) -> bool {
        path[i].leafed(
            root,
            (start + i * span(level)) as u64,
            (pa + i * span(level)) as u64,
            flags,
            level,
            path[i + 1],
        )
    }

    /// The trees as leaf after leaf of a run of one level was mapped.
    pub open spec fn running(
        &self,
        path: Seq<Self>,
        root: u64,
        start: u64,
        pa: u64,
        level: nat,
        flags: u64,
    ) -> bool {
        &&& path.len() >= 1
        &&& path[0] == *self
        &&& forall|i: int|
            0 <= i < path.len() - 1 ==> #[trigger] Self::run_stepped(
                path,
                i,
                root,
                start,
                pa,
                level,
                flags,
            )
    }

    /// A run of leaves, mapped one after another with nothing larger in their
    /// way.
    pub open spec fn run_mapped(
        &self,
        root: u64,
        start: u64,
        pa: u64,
        level: nat,
        leaves: int,
        flags: u64,
        after: Self,
    ) -> bool {
        &&& self.granted(root, start, pa, level, leaves, flags, after)
        &&& self.unblocked(root, start as int, start + leaves * span(level), level)
        &&& exists|path: Seq<Self>|
            {
                &&& #[trigger] self.running(path, root, start, pa, level, flags)
                &&& path.len() == leaves + 1
                &&& path.last() == after
            }
    }

    /// The trees after a grant stopped at its leaf `n`: a larger leaf was in
    /// the way, or the pool ran out.
    pub open spec fn halted(
        &self,
        root: u64,
        start: u64,
        pa: u64,
        level: nat,
        n: int,
        flags: u64,
        error: MappingError,
        after: Self,
    ) -> bool {
        let va = (start + n * span(level)) as u64;
        &&& self.granted(root, start, pa, level, n, flags, after)
        &&& self.unblocked(root, start as int, start + n * span(level), level)
        &&& exists|path: Seq<Self>|
            {
                &&& #[trigger] self.running(path, root, start, pa, level, flags)
                &&& path.len() == n + 1
                &&& path.last().jammed(root, va, level, error, after)
            }
        &&& match error {
            MappingError::Backend => self.blocked(root, va, level),
            MappingError::OutOfFrames => !self.blocked(root, va, level) && after.pool@.len() == 0,
            _ => false,
        }
    }

    /// Maps `leaves` leaves of one level, from `start` on, to the memory from
    /// `pa` on.
    ///
    /// Stops at the first leaf that cannot be mapped, leaving the ones before
    /// it in place.
    pub fn map_run(
        &mut self,
        root: u64,
        start: u64,
        pa: u64,
        level: usize,
        leaves: u64,
        flags: u64,
    ) -> (done: Result<(), MappingError>)
        requires
            old(self).wf(),
            old(self).is_root(root),
            level <= old(self).top,
            start as int % span(level as nat) == 0,
            start + leaves * span(level as nat) <= reach(old(self).top as nat),
            pa + leaves * span(level as nat) <= u64::MAX,
            flags & PTE_RWX != 0,
        ensures
            final(self).wf(),
            drawn(old(self).pool@, final(self).pool@),
            old(self).confined(*final(self)),
            match done {
                Ok(()) => old(self).run_mapped(
                    root,
                    start,
                    pa,
                    level as nat,
                    leaves as int,
                    flags,
                    *final(self),
                ),
                Err(error) => exists|n: int|
                    0 <= n < leaves && #[trigger] old(self).halted(
                        root,
                        start,
                        pa,
                        level as nat,
                        n,
                        flags,
                        error,
                        *final(self),
                    ),
            },
            done is Ok || !(old(self).pool@.len() >= leaves * (old(self).top - level) && forall|
                va: u64,
            |
                start <= va < start + leaves * span(level as nat) ==> !#[trigger] old(self).blocked(
                    root,
                    va,
                    level as nat,
                )),
    {
        let ghost before = *self;
        let ghost top = self.top as nat;
        let ghost lv = level as nat;
        let ghost s = span(lv);
        proof {
            entry::lemma_span_values();
            entry::lemma_span(lv);
        }
        let step: u64 = entry::span_of(level);
        let mut k: u64 = 0;
        let ghost mut path: Seq<Self> = seq![before];
        assert(0 * s == 0);
        while k < leaves
            invariant
                before == *old(self),
                before.wf(),
                path.len() == k + 1,
                path.last() == *self,
                before.running(path, root, start, pa, lv, flags),
                before.unblocked(root, start as int, start + k * s, lv),
                drawn(before.pool@, self.pool@),
                before.confined(*self),
                top == before.top,
                lv == level,
                level <= top,
                top <= 4,
                self.top == before.top,
                self.wf(),
                before.is_root(root),
                s == span(lv),
                step == s,
                step >= 4096,
                k <= leaves,
                start as int % s == 0,
                start + leaves * s <= reach(top),
                reach(top) <= 0x200_0000_0000_0000,
                pa + leaves * s <= u64::MAX,
                flags & PTE_RWX != 0,
                before.granted(root, start, pa, lv, k as int, flags, *self),
                self.pool@.len() >= before.pool@.len() - k * (top - level),
            decreases leaves - k,
        {
            let ghost held = *self;
            proof {
                assert(held.is_root(root) == before.is_root(root));
                lemma_run_step(start as int, lv, k as int, leaves as int);
                assert((k + 1) * (top - level) == k * (top - level) + (top - level))
                    by (nonlinear_arith);
                assert((k + 1) * (top - level) <= leaves * (top - level)) by (nonlinear_arith)
                    requires
                        k + 1 <= leaves,
                        top - level >= 0,
                ;
            }
            let offset: u64 = k * step;
            let va: u64 = start + offset;
            proof {
                vstd::arithmetic::div_mod::lemma_small_mod(va as nat, reach(top) as nat);
                table::lemma_gap(held.words(), root, top, held.low(va), lv);
            }
            let done = self.map_leaf(root, va, pa + offset, flags, level);
            proof {
                table::lemma_confined(before, held, *self);
            }
            if let Err(error) = done {
                proof {
                    lemma_grant_kept(before, held, *self, root, start, pa, lv, k as int, flags);
                    assert(held.translate(root, va) == before.translate(root, va));
                    assert(held.blocked(root, va, lv) == before.blocked(root, va, lv));
                    assert(before.halted(root, start, pa, lv, k as int, flags, error, *self));
                }
                return Err(error);
            }
            proof {
                lemma_grant_grows(before, held, *self, root, start, pa, lv, k as int, flags, va);
                assert(held.translate(root, va) == before.translate(root, va));
                assert(!before.blocked(root, va, lv));
                assert forall|other: u64| start <= other < start + (k + 1) * s implies
                !#[trigger] before.blocked(root, other, lv) by {
                    if other >= va && before.blocked(root, other, lv) {
                        lemma_blocked_whole(before, root, va, other, lv);
                    }
                }
                let longer = path.push(*self);
                assert forall|i: int| 0 <= i < longer.len() - 1 implies #[trigger] Self::run_stepped(
                    longer,
                    i,
                    root,
                    start,
                    pa,
                    lv,
                    flags,
                ) by {
                    if i < path.len() - 1 {
                        assert(Self::run_stepped(path, i, root, start, pa, lv, flags));
                        assert(longer[i] == path[i] && longer[i + 1] == path[i + 1]);
                    } else {
                        assert(longer[i] == held && longer[i + 1] == *self);
                    }
                }
                path = longer;
            }
            k = k + 1;
        }
        Ok(())
    }

    /// The trees once `leaves` leaves of one, from `start` on, were cleared.
    pub open spec fn revoked(
        &self,
        root: u64,
        start: u64,
        level: nat,
        leaves: int,
        after: Self,
    ) -> bool {
        &&& after.top == self.top
        &&& forall|r: u64| #[trigger] after.is_root(r) == self.is_root(r)
        &&& forall|r: u64, va: u64|
            #![trigger after.translate(r, va)]
            self.is_root(r) ==> after.translate(r, va) == if r == root && start <= self.low(va)
                < start + leaves * span(level) {
                None
            } else {
                self.translate(r, va)
            }
    }

    /// Whether the tree has a leaf of exactly `level` at `va`.
    pub open spec fn granted_at(&self, root: u64, va: int, level: nat) -> bool {
        self.translate(root, va as u64) matches Some((_, found)) && found == level
    }

    /// Clears `leaves` leaves of one level, from `start` on.
    ///
    /// Stops at the first leaf that is not there, with the ones before it gone.
    pub fn unmap_run(&mut self, root: u64, start: u64, level: usize, leaves: u64) -> (done: Result<
        (),
        ViewError,
    >)
        requires
            old(self).wf(),
            old(self).is_root(root),
            level <= old(self).top,
            start as int % span(level as nat) == 0,
            start + leaves * span(level as nat) <= reach(old(self).top as nat),
        ensures
            final(self).wf(),
            final(self).pool == old(self).pool,
            old(self).confined(*final(self)),
            match done {
                Ok(()) => {
                    &&& forall|k: int|
                        0 <= k < leaves ==> #[trigger] old(self).granted_at(
                            root,
                            start + k * span(level as nat),
                            level as nat,
                        )
                    &&& old(self).revoked(root, start, level as nat, leaves as int, *final(self))
                },
                Err(error) => {
                    &&& error == ViewError::Absent
                    &&& exists|n: int|
                        {
                            &&& 0 <= n < leaves
                            &&& !#[trigger] old(self).granted_at(
                                root,
                                start + n * span(level as nat),
                                level as nat,
                            )
                            &&& forall|k: int|
                                0 <= k < n ==> #[trigger] old(self).granted_at(
                                    root,
                                    start + k * span(level as nat),
                                    level as nat,
                                )
                            &&& old(self).revoked(root, start, level as nat, n, *final(self))
                        }
                },
            },
    {
        let ghost before = *self;
        let ghost top = self.top as nat;
        let ghost lv = level as nat;
        let ghost s = span(lv);
        proof {
            entry::lemma_span_values();
            entry::lemma_span(lv);
        }
        let step: u64 = entry::span_of(level);
        let mut k: u64 = 0;
        assert(0 * s == 0);
        while k < leaves
            invariant
                before == *old(self),
                top == before.top,
                lv == level,
                level <= top,
                top <= 4,
                self.top == before.top,
                self.pool == before.pool,
                before.confined(*self),
                self.wf(),
                before.is_root(root),
                s == span(lv),
                step == s,
                step >= 4096,
                k <= leaves,
                start as int % s == 0,
                start + leaves * s <= reach(top),
                reach(top) <= 0x200_0000_0000_0000,
                before.revoked(root, start, lv, k as int, *self),
                forall|i: int|
                    0 <= i < k ==> #[trigger] before.granted_at(root, start + i * s, lv),
            decreases leaves - k,
        {
            let ghost held = *self;
            proof {
                assert(held.is_root(root) == before.is_root(root));
                lemma_run_step(start as int, lv, k as int, leaves as int);
            }
            let offset: u64 = k * step;
            let va: u64 = start + offset;
            proof {
                vstd::arithmetic::div_mod::lemma_small_mod(va as nat, reach(top) as nat);
                assert(held.translate(root, va) == before.translate(root, va));
                assert(before.granted_at(root, start + k * s, lv) == (held.translate(
                    root,
                    va,
                ) matches Some((_, found)) && found == lv));
            }
            let done = self.unmap_leaf(root, va, level);
            proof {
                table::lemma_confined(before, held, *self);
            }
            done?;
            proof {
                lemma_revoke_grows(before, held, *self, root, start, lv, k as int, va);
            }
            k = k + 1;
        }
        Ok(())
    }
}

/// The `k`th leaf of an aligned run is aligned, and inside it.
proof fn lemma_run_step(start: int, level: nat, k: int, leaves: int)
    requires
        start >= 0,
        0 <= k < leaves,
        start % span(level) == 0,
    ensures
        (k + 1) * span(level) == k * span(level) + span(level),
        0 <= k * span(level),
        k * span(level) + span(level) <= leaves * span(level),
        (start + k * span(level)) % span(level) == 0,
        page(start + k * span(level), level) == page(start, level) + k,
{
    entry::lemma_span(level);
    let s = span(level);
    assert((k + 1) * s == k * s + s && 0 <= k * s && k * s + s <= leaves * s) by (nonlinear_arith)
        requires
            0 <= k,
            k + 1 <= leaves,
            s >= 0,
    ;
    vstd::arithmetic::div_mod::lemma_fundamental_div_mod(start, s);
    let q = start / s;
    assert(start + k * s == (q + k) * s + 0) by (nonlinear_arith)
        requires
            start == s * q + 0,
    ;
    vstd::arithmetic::div_mod::lemma_fundamental_div_mod_converse(start + k * s, s, q + k, 0);
}

/// A leaf in the way of one address of a page is in the way of its first.
proof fn lemma_blocked_whole<M: Memory>(
    tables: Tables<M>,
    root: u64,
    va: u64,
    other: u64,
    level: nat,
)
    requires
        tables.wf(),
        tables.is_root(root),
        va as int % span(level) == 0,
        va <= other < va + span(level),
        va + span(level) <= reach(tables.top as nat),
        tables.blocked(root, other, level),
    ensures
        tables.blocked(root, va, level),
{
    let top = tables.top as nat;
    let found = (tables.translate(root, other)->0).1;
    vstd::arithmetic::div_mod::lemma_small_mod(va as nat, reach(top) as nat);
    vstd::arithmetic::div_mod::lemma_small_mod(other as nat, reach(top) as nat);
    lemma_aligned(va as int, other as int, level);
    table::lemma_page_above(other as int, va as int, level, found);
    table::lemma_translate_page(tables, root, other);
    assert(tables.same_page(va, other, found));
}

proof fn lemma_grant_kept<M: Memory>(
    before: Tables<M>,
    held: Tables<M>,
    after: Tables<M>,
    root: u64,
    start: u64,
    pa: u64,
    level: nat,
    k: int,
    flags: u64,
)
    requires
        before.granted(root, start, pa, level, k, flags, held),
        held.unchanged(after),
    ensures
        before.granted(root, start, pa, level, k, flags, after),
{
    assert forall|r: u64| #[trigger] after.is_root(r) == before.is_root(r) by {
        assert(held.is_root(r) == before.is_root(r));
    }
    assert forall|r: u64, va: u64|
        #![trigger after.translate(r, va)]
        before.is_root(r) implies after.translate(r, va) == held.translate(r, va) by {
        assert(held.is_root(r));
    }
}

proof fn lemma_grant_grows<M: Memory>(
    before: Tables<M>,
    held: Tables<M>,
    after: Tables<M>,
    root: u64,
    start: u64,
    pa: u64,
    level: nat,
    k: int,
    flags: u64,
    va: u64,
)
    requires
        before.granted(root, start, pa, level, k, flags, held),
        k >= 0,
        start as int % span(level) == 0,
        va == start + k * span(level),
        va < reach(before.top as nat),
        pa + k * span(level) <= u64::MAX,
        held.changed(
            root,
            va,
            level,
            Some((encoded((pa + k * span(level)) as u64, flags), level)),
            after,
        ),
    ensures
        before.granted(root, start, pa, level, k + 1, flags, after),
{
    let s = span(level);
    let top = before.top as nat;
    entry::lemma_span(level);
    lemma_run_step(start as int, level, k, k + 1);
    assert forall|r: u64| #[trigger] after.is_root(r) == before.is_root(r) by {
        assert(held.is_root(r) == before.is_root(r));
    }
    assert forall|r: u64, other: u64|
        #![trigger after.translate(r, other)]
        before.is_root(r) implies after.translate(r, other) == if r == root && start <= before.low(
        other,
    ) < start + (k + 1) * s {
        let offset = (page(before.low(other), level) - page(start as int, level)) * s;
        Some((encoded((pa + offset) as u64, flags), level))
    } else {
        before.translate(r, other)
    } by {
        assert(held.is_root(r));
        table::lemma_low(other, top);
        vstd::arithmetic::div_mod::lemma_small_mod(va as nat, reach(top) as nat);
        lemma_aligned(va as int, before.low(other), level);
        assert(held.translate(r, other) == held.translate(r, other));
    }
}

proof fn lemma_revoke_grows<M: Memory>(
    before: Tables<M>,
    held: Tables<M>,
    after: Tables<M>,
    root: u64,
    start: u64,
    level: nat,
    k: int,
    va: u64,
)
    requires
        before.revoked(root, start, level, k, held),
        k >= 0,
        start as int % span(level) == 0,
        va == start + k * span(level),
        va < reach(before.top as nat),
        held.changed(root, va, level, None, after),
    ensures
        before.revoked(root, start, level, k + 1, after),
{
    let s = span(level);
    let top = before.top as nat;
    entry::lemma_span(level);
    lemma_run_step(start as int, level, k, k + 1);
    assert forall|r: u64| #[trigger] after.is_root(r) == before.is_root(r) by {
        assert(held.is_root(r) == before.is_root(r));
    }
    assert forall|r: u64, other: u64|
        #![trigger after.translate(r, other)]
        before.is_root(r) implies after.translate(r, other) == if r == root && start <= before.low(
        other,
    ) < start + (k + 1) * s {
        None
    } else {
        before.translate(r, other)
    } by {
        assert(held.is_root(r));
        table::lemma_low(other, top);
        vstd::arithmetic::div_mod::lemma_small_mod(va as nat, reach(top) as nat);
        lemma_aligned(va as int, before.low(other), level);
        assert(held.translate(r, other) == held.translate(r, other));
    }
}

/// Revoking what was granted leaves every tree as it was, where nothing was
/// mapped before.
pub proof fn law_revoke_undoes_grant<M: Memory>(
    before: Tables<M>,
    held: Tables<M>,
    after: Tables<M>,
    root: u64,
    start: u64,
    pa: u64,
    level: nat,
    leaves: int,
    flags: u64,
)
    requires
        before.granted(root, start, pa, level, leaves, flags, held),
        held.revoked(root, start, level, leaves, after),
        forall|va: u64|
            start <= before.low(va) < start + leaves * span(level) ==> #[trigger] before.translate(
                root,
                va,
            ) is None,
    ensures
        before.unchanged(after),
{
    assert forall|r: u64| #[trigger] after.is_root(r) == before.is_root(r) by {
        assert(held.is_root(r) == before.is_root(r));
    }
    assert forall|r: u64, va: u64| before.is_root(r) implies #[trigger] after.translate(r, va)
        == before.translate(r, va) by {
        assert(held.is_root(r));
        assert(held.translate(r, va) == held.translate(r, va));
        if r == root && start <= before.low(va) < start + leaves * span(level) {
            assert(before.translate(root, va) is None);
        }
    }
}

/// A grant into one tree is invisible in every other.
pub proof fn law_views_are_apart<M: Memory>(
    before: Tables<M>,
    after: Tables<M>,
    root: u64,
    other: u64,
    start: u64,
    pa: u64,
    level: nat,
    leaves: int,
    flags: u64,
    va: u64,
)
    requires
        before.granted(root, start, pa, level, leaves, flags, after),
        before.is_root(other),
        other != root,
    ensures
        after.translate(other, va) == before.translate(other, va),
{
}

/// A leaf in numbers: the frame's number from bit 10 on, accessed (64), readable
/// (2) where it may be read or written, writable and dirty (4 and 128) where it
/// may be written, executable (8) where it may be run.
pub proof fn law_leaf_in_numbers(rights: Rights, pa: u64)
    requires
        pa % 4096 == 0,
        pa < 0x100_0000_0000_0000,
    ensures
        encoded(pa, flags_for(rights)) == pa / 4096 * 1024 + 65 + (if rights.read || rights.write {
            2int
        } else {
            0
        }) + (if rights.write {
            132int
        } else {
            0
        }) + (if rights.execute {
            8int
        } else {
            0
        }),
{
    let r = rights.read || rights.write;
    let w = rights.write;
    let x = rights.execute;
    let flags = flags_for(rights);
    assert(flags < 1024 && flags % 2 == 0 && flags == 64 + (if r {
        2int
    } else {
        0
    }) + (if w {
        132int
    } else {
        0
    }) + (if x {
        8int
    } else {
        0
    })) by (bit_vector)
        requires
            flags == 64u64 | (if r {
                2u64
            } else {
                0u64
            }) | (if w {
                4u64 | 128u64
            } else {
                0u64
            }) | (if x {
                8u64
            } else {
                0u64
            }),
    ;
    entry::law_entry_in_numbers(pa, flags);
}

/// A leaf starts on a boundary of its own size and ends no later than asked, and
/// where large ones will do, none of the larger sizes does both: a gibibyte, two
/// mebibytes, a page.
pub proof fn law_leaf_is_the_largest_that_fits(va: int, end: int, granularity: Granularity)
    requires
        0 <= va,
        va % 4096 == 0,
    ensures
        granularity is Small ==> biggest(va, end, granularity) == 0,
        granularity is LargeOk ==> {
            let giga = va % 1073741824 == 0 && va + 1073741824 <= end;
            let mega = va % 2097152 == 0 && va + 2097152 <= end;
            &&& biggest(va, end, granularity) == 2 <==> giga
            &&& biggest(va, end, granularity) == 1 <==> mega && !giga
            &&& biggest(va, end, granularity) == 0 <==> !mega && !giga
        },
{
    entry::law_levels_in_numbers(va);
    if va % 1073741824 == 0 && va + 1073741824 <= end {
        assert(va % 2097152 == 0);
    }
}

/// An address of a grant reaches the memory it was granted, byte for byte: as far
/// into the memory as it is into the grant, whatever the leaves' size.
pub proof fn law_granted_address_reaches_its_memory<M: Memory>(
    before: Tables<M>,
    after: Tables<M>,
    root: u64,
    start: u64,
    pa: u64,
    level: nat,
    leaves: int,
    rights: Rights,
    va: u64,
)
    requires
        before.granted(root, start, pa, level, leaves, flags_for(rights), after),
        before.is_root(root),
        level <= 4,
        leaves >= 0,
        start as int % span(level) == 0,
        pa as int % span(level) == 0,
        pa + leaves * span(level) <= 0x100_0000_0000_0000,
        start <= before.low(va) < start + leaves * span(level),
    ensures
        ({
            &&& after.translate(root, va) matches Some((found, at))
            &&& at == level
            &&& entry::target(found) + before.low(va) % span(level) == pa + (before.low(va) - start)
            &&& found % 1024 == 65 + (if rights.read || rights.write {
                2int
            } else {
                0
            }) + (if rights.write {
                132int
            } else {
                0
            }) + (if rights.execute {
                8int
            } else {
                0
            })
        }),
{
    let low = before.low(va);
    let size = span(level);
    let offset = (page(low, level) - page(start as int, level)) * size;
    lemma_offset(low, start as int, pa as int, size, level, leaves);
    let frame = (pa + offset) as u64;
    assert(after.translate(root, va) == Some((encoded(frame, flags_for(rights)), level)));
    law_leaf_in_numbers(rights, frame);
    lemma_flags(rights);
    entry::law_entry_in_numbers(frame, flags_for(rights));
    lemma_low_bits(frame as int, encoded(frame, flags_for(rights)) - frame as int / 4096 * 1024);
}

proof fn lemma_low_bits(frame: int, flags: int)
    requires
        0 <= frame,
        0 <= flags < 1024,
    ensures
        (frame / 4096 * 1024 + flags) % 1024 == flags,
{
}

/// The frame an address of a run is in, as far into the memory as the address is
/// into the run.
proof fn lemma_offset(low: int, start: int, pa: int, size: int, level: nat, leaves: int)
    requires
        level <= 4,
        size == span(level),
        0 <= start <= low < start + leaves * size,
        start % size == 0,
        0 <= pa,
        pa % size == 0,
        pa + leaves * size <= 0x100_0000_0000_0000,
    ensures
        ({
            let offset = (low / size - start / size) * size;
            &&& 0 <= offset
            &&& offset + low % size == low - start
            &&& pa + offset < 0x100_0000_0000_0000
            &&& (pa + offset) % 4096 == 0
        }),
{
    let offset = (low / size - start / size) * size;
    entry::law_levels_in_numbers(low);
    assert(low / size * size == low - low % size) by {
        vstd::arithmetic::div_mod::lemma_fundamental_div_mod(low, size);
        vstd::arithmetic::mul::lemma_mul_is_commutative(low / size, size);
    }
    assert(start / size * size == start) by {
        vstd::arithmetic::div_mod::lemma_fundamental_div_mod(start, size);
        vstd::arithmetic::mul::lemma_mul_is_commutative(start / size, size);
    }
    assert(offset == low - low % size - start) by (nonlinear_arith)
        requires
            offset == (low / size - start / size) * size,
            low / size * size == low - low % size,
            start / size * size == start,
    ;
    vstd::arithmetic::div_mod::lemma_mod_bound(low, size);
    lemma_rounded(low, start, size, level);
    lemma_frame(pa, offset, size, level);
}

/// What lies between two multiples of a size is none of it, or a whole one.
proof fn lemma_rounded(low: int, start: int, size: int, level: nat)
    requires
        level <= 4,
        size == span(level),
        0 <= start <= low,
        start % size == 0,
    ensures
        low - low % size >= start,
        (low - low % size - start) % size == 0,
{
    entry::law_levels_in_numbers(low);
    if level == 0 {
    } else if level == 1 {
    } else if level == 2 {
    } else if level == 3 {
    } else {
    }
}

proof fn lemma_frame(pa: int, offset: int, size: int, level: nat)
    requires
        level <= 4,
        size == span(level),
        pa % size == 0,
        offset % size == 0,
    ensures
        (pa + offset) % 4096 == 0,
{
    entry::law_levels_in_numbers(0);
    if level == 0 {
    } else if level == 1 {
    } else if level == 2 {
    } else if level == 3 {
    } else {
    }
}

proof fn lemma_flags(rights: Rights)
    ensures
        flags_for(rights) < 1024,
        flags_for(rights) % 2 == 0,
{
    let r = rights.read || rights.write;
    let w = rights.write;
    let x = rights.execute;
    let flags = flags_for(rights);
    assert(flags < 1024 && flags % 2 == 0) by (bit_vector)
        requires
            flags == 64u64 | (if r {
                2u64
            } else {
                0u64
            }) | (if w {
                4u64 | 128u64
            } else {
                0u64
            }) | (if x {
                8u64
            } else {
                0u64
            }),
    ;
}

} // verus!
