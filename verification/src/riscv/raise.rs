//! Rooting a tree deeper than it was built.
//!
//! Nothing about the tree below changes: every mapping a boot tree holds is
//! inside the narrowest mode's reach, so a wider mode needs no new leaves, only
//! a root whose first entry points at the root below it. The candidates are
//! built first, out of frames no tree uses; whichever the hart accepts is then
//! adopted as the root.
use vstd::prelude::*;

use crate::arch::MappingError;
use crate::riscv::entry::{self, digit, encoded, page, reach, span, DEEPEST};
use crate::memory::{backed, slot, Memory};
use crate::riscv::table::{
    self, crowned, distinct, hangs, linked, present, rooted, roots, sound, spare, walk, Node,
    Tables,
};

verus! {

/// Whether `above` is a table with one entry, its first, that leads to `below`.
pub open spec fn tops(words: Map<u64, u64>, above: u64, below: u64) -> bool {
    &&& backed(words, above)
    &&& words[slot(above, 0)] == encoded(below, 0)
    &&& forall|j: int| 1 <= j < 512 ==> words[#[trigger] slot(above, j)] == 0
}

/// The record with every table in the tree of `above`, which tops it.
pub open spec fn crowned_by(nodes: Map<u64, Node>, top: nat, above: u64) -> Map<u64, Node> {
    Map::new(
        |f: u64| nodes.contains_key(f) || f == above,
        |f: u64|
            if f == above {
                Node { root: above, level: top + 1, prefix: 0 }
            } else {
                Node { root: above, ..nodes[f] }
            },
    )
}

impl<M: Memory> Tables<M> {
    /// Whether `frame` belongs to no tree and is not waiting in the pool.
    pub open spec fn unused(&self, frame: u64) -> bool {
        !self.nodes@.contains_key(frame) && !self.pool@.contains(frame)
    }

    /// Builds a candidate root over `below`, which no tree notices.
    pub fn raise(&mut self, below: u64) -> (above: Result<u64, MappingError>)
        requires
            old(self).wf(),
        ensures
            final(self).wf(),
            final(self).nodes == old(self).nodes,
            old(self).unchanged(*final(self)),
            old(self).confined(*final(self)),
            match above {
                Ok(above) => {
                    &&& old(self).pool@.len() > 0
                    &&& above == old(self).pool@.last()
                    &&& final(self).pool@ == old(self).pool@.drop_last()
                    &&& final(self).unused(above)
                    &&& tops(final(self).words(), above, below)
                    &&& forall|other: u64, under: u64|
                        old(self).unused(other) && #[trigger] tops(old(self).words(), other, under)
                            ==> tops(final(self).words(), other, under)
                },
                Err(error) => {
                    &&& old(self).pool@.len() == 0
                    &&& error == MappingError::OutOfFrames
                    &&& *final(self) == *old(self)
                },
            },
    {
        let ghost before = *self;
        let ghost top = self.top as nat;
        let above: u64 = match self.pool.take() {
            Some(above) => above,
            None => return Err(MappingError::OutOfFrames),
        };
        proof {
            table::lemma_fresh(before.words(), before.nodes@, before.pool@, above);
        }
        self.zero(above);
        let ghost zeroed = self.words();
        assert(above == slot(above, 0));
        self.memory.store(above, entry::pte(below, 0));
        proof {
            assert(self.words().dom() =~= before.words().dom());
            assert forall|j: int| 1 <= j < 512 implies self.words()[#[trigger] slot(above, j)]
                == 0 by {
                if slot(above, j) == slot(above, 0) {
                    table::lemma_slots(above, j, above, 0);
                }
            }
            assert forall|g: u64, j: int|
                #![trigger self.words()[slot(g, j)]]
                g as int % 4096 == 0 && 0 <= j < 512 && g != above implies self.words()[slot(g, j)]
                == before.words()[slot(g, j)] by {
                if slot(g, j) == slot(above, 0) {
                    table::lemma_slots(g, j, above, 0);
                }
                assert(zeroed[slot(g, j)] == before.words()[slot(g, j)]);
            }
            table::lemma_elsewhere(
                before.words(),
                self.words(),
                before.nodes@,
                top,
                before.pool@,
                above,
            );
            table::lemma_same_walks(before, *self);
            table::lemma_drawn_owned(before, above, *self);
            assert(self.unused(above)) by {
                assert forall|k: int| 0 <= k < self.pool@.len() implies self.pool@[k] != above by {
                    assert(before.pool@[k] != before.pool@[before.pool@.len() - 1]);
                }
            }
            assert forall|other: u64, under: u64|
                before.unused(other) && #[trigger] tops(before.words(), other, under) implies tops(
                self.words(),
                other,
                under,
            ) by {
                assert(before.pool@.contains(above)) by {
                    assert(before.pool@[before.pool@.len() - 1] == above);
                }
                assert(self.words()[slot(other, 0)] == before.words()[slot(other, 0)]);
                assert forall|j: int| 1 <= j < 512 implies self.words()[#[trigger] slot(other, j)]
                    == 0 by {
                    assert(self.words()[slot(other, j)] == before.words()[slot(other, j)]);
                }
            }
        }
        Ok(above)
    }

    /// Candidate roots for every depth, from the tree's own up.
    pub fn candidates(&mut self, built: u64) -> (candidates: Result<[u64; 3], MappingError>)
        requires
            old(self).wf(),
            old(self).is_root(built),
        ensures
            final(self).wf(),
            final(self).nodes == old(self).nodes,
            old(self).unchanged(*final(self)),
            old(self).confined(*final(self)),
            match candidates {
                Ok(candidates) => {
                    &&& old(self).pool@.len() >= 2
                    &&& candidates@[0] == built
                    &&& candidates@[1] == old(self).pool@.last()
                    &&& candidates@[2] == old(self).pool@[old(self).pool@.len() - 2]
                    &&& final(self).pool@ == old(self).pool@.take(old(self).pool@.len() - 2)
                    &&& tops(final(self).words(), candidates@[1], built)
                    &&& tops(final(self).words(), candidates@[2], candidates@[1])
                    &&& final(self).unused(candidates@[1])
                    &&& final(self).unused(candidates@[2])
                    &&& candidates@[1] != candidates@[2]
                },
                Err(error) => {
                    &&& old(self).pool@.len() < 2
                    &&& final(self).pool@.len() == 0
                    &&& error == MappingError::OutOfFrames
                },
            },
    {
        let ghost before = *self;
        let fourth: u64 = self.raise(built)?;
        let ghost held = *self;
        let fifth = self.raise(fourth);
        proof {
            table::lemma_confined(before, held, *self);
        }
        let fifth: u64 = fifth?;
        proof {
            assert(tops(held.words(), fourth, built));
            assert(held.pool@.contains(fifth)) by {
                assert(held.pool@[held.pool@.len() - 1] == fifth);
            }
            assert(self.unused(fourth)) by {
                assert forall|k: int| 0 <= k < self.pool@.len() implies self.pool@[k] != fourth by {
                    assert(held.pool@[k] == self.pool@[k]);
                    assert(held.pool@.contains(held.pool@[k]));
                }
            }
            lemma_unchanged_through(before, held, *self);
        }
        Ok([built, fourth, fifth])
    }

    /// Takes `above` as the root of the one tree there is, one level deeper.
    ///
    /// Every address the tree could tell apart translates as before, and the
    /// addresses that are new translate to nothing.
    pub fn adopt(&mut self, built: u64, above: u64)
        requires
            old(self).wf(),
            old(self).top < DEEPEST,
            old(self).is_root(built),
            forall|f: u64| #[trigger]
                old(self).nodes@.contains_key(f) ==> old(self).nodes@[f].root == built,
            old(self).unused(above),
            tops(old(self).words(), above, built),
        ensures
            final(self).wf(),
            final(self).memory == old(self).memory,
            final(self).pool == old(self).pool,
            final(self).top == old(self).top + 1,
            forall|r: u64| #[trigger] final(self).is_root(r) <==> r == above,
            forall|f: u64| #[trigger]
                final(self).nodes@.contains_key(f) <==> old(self).nodes@.contains_key(f) || f
                    == above,
            forall|f: u64| #[trigger]
                final(self).nodes@.contains_key(f) ==> final(self).nodes@[f].root == above,
            forall|va: u64| #[trigger]
                final(self).translate(above, va) == if final(self).low(va) < reach(
                    old(self).top as nat,
                ) {
                    old(self).translate(built, va)
                } else {
                    None
                },
    {
        let ghost before = *self;
        let ghost top = self.top as nat;
        self.nodes = Ghost(crowned_by(self.nodes@, top, above));
        self.top = self.top + 1;
        proof {
            lemma_adopted(before.words(), before.nodes@, top, before.pool@, built, above);
            assert forall|r: u64| #[trigger] self.is_root(r) <==> r == above by {
                if self.is_root(r) && r != above {
                    assert(before.nodes@.contains_key(r));
                }
            }
            assert forall|va: u64| #[trigger] self.translate(above, va) == if self.low(va) < reach(
                top,
            ) {
                before.translate(built, va)
            } else {
                None
            } by {
                lemma_adopted_walk(before.words(), top, built, above, va as int);
            }
        }
    }
}

proof fn lemma_unchanged_through<M: Memory>(before: Tables<M>, held: Tables<M>, after: Tables<M>)
    requires
        before.unchanged(held),
        held.unchanged(after),
    ensures
        before.unchanged(after),
{
    assert forall|r: u64| #[trigger] after.is_root(r) == before.is_root(r) by {
        assert(held.is_root(r) == before.is_root(r));
    }
    assert forall|r: u64, va: u64| before.is_root(r) implies #[trigger] after.translate(r, va)
        == before.translate(r, va) by {
        assert(held.is_root(r));
        assert(held.translate(r, va) == before.translate(r, va));
    }
}

/// The tree one level deeper is as sound as it was.
proof fn lemma_adopted(
    words: Map<u64, u64>,
    nodes: Map<u64, Node>,
    top: nat,
    pool: Seq<u64>,
    built: u64,
    above: u64,
)
    requires
        sound(words, nodes, top, pool),
        roots(nodes, top, built),
        forall|f: u64| #[trigger] nodes.contains_key(f) ==> nodes[f].root == built,
        !nodes.contains_key(above),
        !pool.contains(above),
        tops(words, above, built),
    ensures
        sound(words, crowned_by(nodes, top, above), top + 1, pool),
{
    let after = crowned_by(nodes, top, above);
    entry::lemma_zero();
    assert(backed(words, built)) by {
        assert(nodes.contains_key(built));
    }
    entry::lemma_pointer(built);
    assert(present(words, after, top + 1)) by {
        assert forall|f: u64| #[trigger] after.contains_key(f) implies backed(words, f)
            && after[f].level <= top + 1 && after[f].prefix >= 0 by {
            if f != above {
                assert(nodes.contains_key(f));
            }
        }
    }
    assert(linked(words, after)) by {
        assert forall|f: u64, i: int|
            #![trigger words[slot(f, i)]]
            after.contains_key(f) && 0 <= i < 512 && entry::is_pointer(words[slot(f, i)]) implies {
            let child = entry::target(words[slot(f, i)]);
            &&& after[f].level > 0
            &&& after.contains_key(child)
            &&& after[child] == Node {
                root: after[f].root,
                level: (after[f].level - 1) as nat,
                prefix: after[f].prefix * 512 + i,
            }
        } by {
            if f == above {
                if i != 0 {
                    assert(words[slot(above, i)] == 0);
                }
            } else {
                assert(nodes.contains_key(f));
            }
        }
    }
    assert(distinct(after)) by {
        assert forall|f: u64, g: u64|
            #![trigger after[f], after[g]]
            after.contains_key(f) && after.contains_key(g) && after[f] == after[g] implies f == g by {
            if f != above && g != above {
                assert(nodes.contains_key(f) && nodes.contains_key(g));
                assert(nodes[f] == nodes[g]);
            } else if f != above {
                assert(nodes.contains_key(f));
            } else if g != above {
                assert(nodes.contains_key(g));
            }
        }
    }
    assert(rooted(words, after, top + 1)) by {
        reveal(rooted);
        assert forall|f: u64| #[trigger]
            after.contains_key(f) && after[f].level < top + 1 implies exists|parent: u64| #[trigger]
            hangs(words, after, f, parent) by {
            assert(nodes.contains_key(f));
            if nodes[f].level == top {
                assert(nodes[f] == nodes[built]);
                assert(hangs(words, after, f, above));
            } else {
                let parent = choose|parent: u64| #[trigger] hangs(words, nodes, f, parent);
                assert(hangs(words, nodes, f, parent));
                assert(hangs(words, after, f, parent));
            }
        }
    }
    assert(crowned(after, top + 1)) by {
        assert forall|f: u64| #[trigger]
            after.contains_key(f) && after[f].level == top + 1 implies after[f] == (Node {
            root: f,
            level: top + 1,
            prefix: 0,
        }) by {
            if f != above {
                assert(nodes.contains_key(f));
            }
        }
    }
    assert(spare(words, after, pool)) by {
        assert forall|k: int| 0 <= k < pool.len() implies backed(words, #[trigger] pool[k])
            && !after.contains_key(pool[k]) by {
            assert(pool.contains(pool[k]));
        }
    }
}

/// What the deeper root translates.
proof fn lemma_adopted_walk(words: Map<u64, u64>, top: nat, built: u64, above: u64, va: int)
    requires
        va >= 0,
        built as int % 4096 == 0,
        tops(words, above, built),
    ensures
        walk(words, above, top + 1, va % reach(top + 1)) == if va % reach(top + 1) < reach(top) {
            walk(words, built, top, va % reach(top))
        } else {
            None
        },
{
    entry::lemma_span(top);
    entry::lemma_span(top + 1);
    entry::lemma_zero();
    entry::lemma_pointer(built);
    let v = va % reach(top + 1);
    vstd::arithmetic::div_mod::lemma_mod_bound(va, reach(top + 1));
    entry::lemma_page(v, top + 1);
    let q = page(v, top + 1);
    vstd::arithmetic::div_mod::lemma_fundamental_div_mod(v, span(top + 1));
    vstd::arithmetic::div_mod::lemma_mod_bound(v, span(top + 1));
    assert(q < 512) by (nonlinear_arith)
        requires
            v == span(top + 1) * q + v % span(top + 1),
            0 <= v % span(top + 1),
            v < 512 * span(top + 1),
            span(top + 1) > 0,
    ;
    assert(digit(v, top + 1) == q);
    if v < reach(top) {
        vstd::arithmetic::div_mod::lemma_basic_div(v, span(top + 1));
        vstd::arithmetic::div_mod::lemma_mod_mod(va, reach(top), 512);
        assert(reach(top) * 512 == reach(top + 1));
        assert(v % reach(top) == va % reach(top));
        vstd::arithmetic::div_mod::lemma_small_mod(v as nat, reach(top) as nat);
    } else {
        assert(q >= 1) by (nonlinear_arith)
            requires
                v == span(top + 1) * q + v % span(top + 1),
                v % span(top + 1) < span(top + 1),
                v >= span(top + 1),
                span(top + 1) > 0,
        ;
        assert(words[slot(above, q)] == 0);
    }
}

} // verus!
