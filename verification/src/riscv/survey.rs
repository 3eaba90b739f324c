//! Every leaf of a tree, in address order.
use vstd::prelude::*;

use crate::riscv::entry::{self, digit, is_leaf, page, reach, span, valid, PTE_RWX, PTE_V};
use crate::memory::{slot, Memory};
use crate::riscv::table::{self, walk, Tables};

verus! {

/// One leaf a survey met: its first address, its level and its entry.
#[derive(Clone, Copy, Debug, PartialEq, Eq, Structural)]
pub struct Found {
    pub start: u64,
    pub level: usize,
    pub entry: u64,
}

impl Found {
    /// The address just past the leaf.
    pub open spec fn end(self) -> int {
        self.start + span(self.level as nat)
    }

    /// Whether the leaf translates `va`.
    pub open spec fn covers(self, va: int) -> bool {
        self.start <= va < self.end()
    }
}

/// Whether every leaf from `from` on is one the tree under `frame` has.
pub open spec fn genuine(
    words: Map<u64, u64>,
    frame: u64,
    level: nat,
    found: Seq<Found>,
    from: int,
) -> bool {
    forall|k: int, va: int|
        #![trigger found[k].covers(va)]
        from <= k < found.len() && found[k].covers(va) ==> walk(words, frame, level, va) == Some(
            (found[k].entry, found[k].level as nat),
        )
}

/// Whether every leaf the tree under `frame` has in `start..end` is listed
/// from `from` on.
pub open spec fn whole(
    words: Map<u64, u64>,
    frame: u64,
    level: nat,
    found: Seq<Found>,
    from: int,
    start: int,
    end: int,
) -> bool {
    forall|va: int|
        #![trigger walk(words, frame, level, va)]
        start <= va < end && walk(words, frame, level, va) is Some ==> exists|k: int|
            from <= k < found.len() && #[trigger] found[k].covers(va)
}

/// Whether the leaves from `from` on lie in `start..end`, one after another.
pub open spec fn ordered(found: Seq<Found>, from: int, start: int, end: int) -> bool {
    &&& forall|k: int|
        from <= k < found.len() ==> start <= (#[trigger] found[k]).start && found[k].end() <= end
    &&& forall|j: int, k: int|
        #![trigger found[j], found[k]]
        from <= j < k < found.len() ==> found[j].end() <= found[k].start
}

/// The addresses of one entry are those whose page number it is.
proof fn lemma_entry_page(prefix: int, level: nat, i: int, va: int)
    requires
        prefix >= 0,
        0 <= i < 512,
        prefix * span(level + 1) + i * span(level) <= va,
        va < prefix * span(level + 1) + (i + 1) * span(level),
    ensures
        va >= 0,
        page(va, level) == prefix * 512 + i,
        digit(va, level) == i,
        page(va, level + 1) == prefix,
{
    entry::lemma_span(level);
    let s = span(level);
    let q = prefix * 512 + i;
    assert(prefix * span(level + 1) + i * s == q * s) by (nonlinear_arith)
        requires
            span(level + 1) == 512 * s,
            q == prefix * 512 + i,
    ;
    assert((i + 1) * s == i * s + s) by (nonlinear_arith);
    assert(0 <= q * s) by (nonlinear_arith)
        requires
            q >= 0,
            s >= 0,
    ;
    vstd::arithmetic::div_mod::lemma_fundamental_div_mod_converse(va, s, q, va - q * s);
    entry::lemma_page(va, level);
}

impl<M: Memory> Tables<M> {
    /// Every leaf of the tree at `root`, in address order.
    pub fn leaves(&self, root: u64) -> (found: Vec<Found>)
        requires
            self.wf(),
            self.is_root(root),
        ensures
            ordered(found@, 0, 0, reach(self.top as nat)),
            forall|k: int, va: u64|
                #![trigger found@[k].covers(va as int)]
                0 <= k < found@.len() && found@[k].covers(va as int) ==> self.translate(root, va)
                    == Some((found@[k].entry, found@[k].level as nat)),
            forall|va: u64|
                va < reach(self.top as nat) && #[trigger] self.translate(root, va) is Some
                    ==> exists|k: int|
                    0 <= k < found@.len() && #[trigger] found@[k].covers(va as int),
    {
        let mut found: Vec<Found> = Vec::new();
        let ghost top = self.top as nat;
        proof {
            entry::lemma_span_values();
            entry::lemma_span(top);
        }
        self.collect(root, root, self.top, 0, &mut found);
        proof {
            assert forall|k: int, va: u64|
                #![trigger found@[k].covers(va as int)]
                0 <= k < found@.len() && found@[k].covers(va as int) implies self.translate(
                root,
                va,
            ) == Some((found@[k].entry, found@[k].level as nat)) by {
                assert(found@[k].end() <= reach(top));
                vstd::arithmetic::div_mod::lemma_small_mod(va as nat, reach(top) as nat);
                assert(walk(self.words(), root, top, va as int) == Some(
                    (found@[k].entry, found@[k].level as nat),
                ));
            }
            assert forall|va: u64|
                va < reach(top) && #[trigger] self.translate(root, va) is Some implies exists|k: int|
                0 <= k < found@.len() && #[trigger] found@[k].covers(va as int) by {
                vstd::arithmetic::div_mod::lemma_small_mod(va as nat, reach(top) as nat);
                assert(walk(self.words(), root, top, va as int) is Some);
            }
        }
        found
    }

    fn collect(&self, root: u64, table: u64, level: usize, base: u64, found: &mut Vec<Found>)
        requires
            self.wf(),
            self.nodes@.contains_key(table),
            self.nodes@[table].root == root,
            self.nodes@[table].level == level,
            base == self.nodes@[table].prefix * span(level as nat + 1),
            base + span(level as nat + 1) <= reach(self.top as nat),
        ensures
            old(found)@.len() <= final(found)@.len(),
            final(found)@.take(old(found)@.len() as int) == old(found)@,
            ordered(
                final(found)@,
                old(found)@.len() as int,
                base as int,
                base + span(level as nat + 1),
            ),
            genuine(self.words(), table, level as nat, final(found)@, old(found)@.len() as int),
            whole(
                self.words(),
                table,
                level as nat,
                final(found)@,
                old(found)@.len() as int,
                base as int,
                base + span(level as nat + 1),
            ),
        decreases level,
    {
        let ghost words = self.words();
        let ghost prefix = self.nodes@[table].prefix;
        let ghost first = found@.len() as int;
        let ghost before = found@;
        let ghost lv = level as nat;
        proof {
            entry::lemma_span_values();
            entry::lemma_span(lv);
            entry::lemma_span(self.top as nat);
        }
        let step: u64 = entry::span_of(level);
        let mut i: u64 = 0;
        assert(found@.take(first) =~= before);
        while i < 512
            invariant
                i <= 512,
                self.wf(),
                self.nodes@.contains_key(table),
                self.nodes@[table].root == root,
                self.nodes@[table].level == level,
                self.nodes@[table].prefix == prefix,
                prefix >= 0,
                words == self.words(),
                lv == level,
                step == span(lv),
                step >= 4096,
                span(lv + 1) == 512 * step,
                level <= 4,
                base == prefix * span(lv + 1),
                base + span(lv + 1) <= reach(self.top as nat),
                reach(self.top as nat) <= 0x200_0000_0000_0000,
                first == before.len(),
                first <= found@.len(),
                found@.take(first) == before,
                ordered(found@, first, base as int, base + i * step),
                genuine(words, table, lv, found@, first),
                whole(words, table, lv, found@, first, base as int, base + i * step),
            decreases 512 - i,
        {
            let ghost held = found@;
            assert(i * step + step <= 512 * step) by (nonlinear_arith)
                requires
                    i < 512,
                    step >= 0,
            ;
            assert((i + 1) * step == i * step + step) by (nonlinear_arith);
            let start: u64 = base + i * step;
            let place: u64 = table + 8 * i;
            assert(place == slot(table, i as int));
            let word: u64 = self.memory.load(place);
            proof {
                assert forall|va: int| start <= va < start + step implies digit(va, lv) == i
                    && va >= 0 && #[trigger] page(va, lv) == prefix * 512 + i by {
                    lemma_entry_page(prefix, lv, i as int, va);
                }
            }
            if word & PTE_V != 0 {
                if word & PTE_RWX != 0 {
                    found.push(Found { start, level, entry: word });
                    proof {
                        assert(found@.take(held.len() as int) =~= held);
                        assert(found@[held.len() as int].end() == start + step);
                        lemma_listed(
                            words,
                            table,
                            lv,
                            held,
                            found@,
                            first,
                            base as int,
                            start as int,
                            step as int,
                            i as int,
                            prefix,
                        );
                    }
                } else {
                    let next: u64 = (word >> 10) << 12;
                    assert(words[slot(table, i as int)] == word);
                    proof {
                        assert((prefix * 512 + i) * step == start) by (nonlinear_arith)
                            requires
                                start == base + i * step,
                                base == prefix * (512 * step),
                        ;
                    }
                    self.collect(root, next, level - 1, start, found);
                    proof {
                        lemma_collected(
                            words,
                            table,
                            next,
                            lv,
                            held,
                            found@,
                            first,
                            base as int,
                            start as int,
                            step as int,
                            i as int,
                            prefix,
                        );
                    }
                }
            } else {
                proof {
                    assert forall|va: int|
                        #![trigger walk(words, table, lv, va)]
                        base <= va < start + step && walk(words, table, lv, va) is Some implies exists|
                        k: int,
                    | first <= k < found@.len() && #[trigger] found@[k].covers(va) by {
                        if va >= start {
                            assert(page(va, lv) == prefix * 512 + i);
                        }
                    }
                }
            }
            assert(found@.take(first) =~= before) by {
                assert(held.take(first) =~= before);
                assert(found@.take(held.len() as int) =~= held);
                assert forall|k: int| 0 <= k < first implies found@[k] == before[k] by {
                    assert(found@.take(held.len() as int)[k] == held[k]);
                    assert(held.take(first)[k] == before[k]);
                }
            }
            i = i + 1;
        }
    }
}

/// A leaf entry adds itself to a survey.
proof fn lemma_listed(
    words: Map<u64, u64>,
    table: u64,
    level: nat,
    held: Seq<Found>,
    found: Seq<Found>,
    first: int,
    base: int,
    start: int,
    step: int,
    i: int,
    prefix: int,
)
    requires
        0 <= first <= held.len(),
        held.len() + 1 == found.len(),
        found.take(held.len() as int) == held,
        ordered(held, first, base, start),
        genuine(words, table, level, held, first),
        whole(words, table, level, held, first, base, start),
        found.last().start == start,
        found.last().level == level,
        found.last().end() == start + step,
        found.last().entry == words[slot(table, i)],
        valid(words[slot(table, i)]),
        is_leaf(words[slot(table, i)]),
        step > 0,
        base <= start,
        forall|va: int| start <= va < start + step ==> digit(va, level) == i && va >= 0
            && #[trigger] page(va, level) == prefix * 512 + i,
    ensures
        ordered(found, first, base, start + step),
        genuine(words, table, level, found, first),
        whole(words, table, level, found, first, base, start + step),
{
    let n = held.len() as int;
    assert(forall|k: int| 0 <= k < n ==> #[trigger] found[k] == held[k]) by {
        assert forall|k: int| 0 <= k < n implies #[trigger] found[k] == held[k] by {
            assert(found.take(n)[k] == held[k]);
        }
    }
    assert forall|k: int, va: int|
        #![trigger found[k].covers(va)]
        first <= k < found.len() && found[k].covers(va) implies walk(words, table, level, va)
        == Some((found[k].entry, found[k].level as nat)) by {
        if k < n {
            assert(held[k].covers(va));
        } else {
            assert(page(va, level) == prefix * 512 + i);
        }
    }
    assert forall|va: int|
        #![trigger walk(words, table, level, va)]
        base <= va < start + step && walk(words, table, level, va) is Some implies exists|k: int|
        first <= k < found.len() && #[trigger] found[k].covers(va) by {
        if va >= start {
            assert(found[n].covers(va));
        } else {
            let k = choose|k: int| first <= k < held.len() && #[trigger] held[k].covers(va);
            assert(found[k].covers(va));
        }
    }
}

/// A pointer entry adds the leaves of its table to a survey.
proof fn lemma_collected(
    words: Map<u64, u64>,
    table: u64,
    next: u64,
    level: nat,
    held: Seq<Found>,
    found: Seq<Found>,
    first: int,
    base: int,
    start: int,
    step: int,
    i: int,
    prefix: int,
)
    requires
        level > 0,
        0 <= first <= held.len(),
        held.len() <= found.len(),
        found.take(held.len() as int) == held,
        ordered(held, first, base, start),
        genuine(words, table, level, held, first),
        whole(words, table, level, held, first, base, start),
        ordered(found, held.len() as int, start, start + step),
        genuine(words, next, (level - 1) as nat, found, held.len() as int),
        whole(words, next, (level - 1) as nat, found, held.len() as int, start, start + step),
        entry::is_pointer(words[slot(table, i)]),
        entry::target(words[slot(table, i)]) == next,
        step > 0,
        base <= start,
        forall|va: int| start <= va < start + step ==> digit(va, level) == i && va >= 0
            && #[trigger] page(va, level) == prefix * 512 + i,
    ensures
        ordered(found, first, base, start + step),
        genuine(words, table, level, found, first),
        whole(words, table, level, found, first, base, start + step),
{
    let n = held.len() as int;
    assert(forall|k: int| 0 <= k < n ==> #[trigger] found[k] == held[k]) by {
        assert forall|k: int| 0 <= k < n implies #[trigger] found[k] == held[k] by {
            assert(found.take(n)[k] == held[k]);
        }
    }
    assert forall|k: int, va: int|
        #![trigger found[k].covers(va)]
        first <= k < found.len() && found[k].covers(va) implies walk(words, table, level, va)
        == Some((found[k].entry, found[k].level as nat)) by {
        if k < n {
            assert(held[k].covers(va));
        } else {
            assert(found[k].end() <= start + step);
            assert(page(va, level) == prefix * 512 + i);
            assert(walk(words, next, (level - 1) as nat, va) == Some(
                (found[k].entry, found[k].level as nat),
            ));
        }
    }
    assert forall|va: int|
        #![trigger walk(words, table, level, va)]
        base <= va < start + step && walk(words, table, level, va) is Some implies exists|k: int|
        first <= k < found.len() && #[trigger] found[k].covers(va) by {
        if va >= start {
            assert(page(va, level) == prefix * 512 + i);
            assert(walk(words, next, (level - 1) as nat, va) is Some);
        } else {
            let k = choose|k: int| first <= k < held.len() && #[trigger] held[k].covers(va);
            assert(found[k].covers(va));
        }
    }
    assert forall|j: int, k: int|
        #![trigger found[j], found[k]]
        first <= j < k < found.len() implies found[j].end() <= found[k].start by {
        if k < n {
            assert(held[j].end() <= held[k].start);
        } else if j < n {
            assert(held[j].end() <= start);
        }
    }
}

} // verus!
