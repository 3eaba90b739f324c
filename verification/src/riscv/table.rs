//! Translation tables: a tree of frames whose entries point down to leaves.
//!
//! What matters of a tree is which leaf it translates each address through,
//! [`Tables::translate`]. Every operation states what it did to that, for every
//! address and every tree that shares the memory. To know it, the tables keep
//! a ghost record of which frame is which tree's table for which addresses:
//! no frame is two of them, and every table but a root hangs from the one
//! above it.
use vstd::prelude::*;

use crate::arch::{MappingError, ViewError};
use crate::riscv::entry::{
    self, digit, encoded, is_leaf, is_pointer, page, reach, span, target, valid, DEEPEST, PTE_RWX,
    PTE_V,
};
use crate::memory::{backed, slot, FramePool, Memory};

verus! {

/// Which table a frame is: the tree it belongs to, the level it sits at, and
/// the page number, one level up, of the addresses it translates.
pub struct Node {
    pub root: u64,
    pub level: nat,
    pub prefix: int,
}

/// The leaf that translates `va`, and its level, in the tree under `frame`.
pub open spec fn walk(words: Map<u64, u64>, frame: u64, level: nat, va: int) -> Option<(u64, nat)>
    decreases level,
{
    let entry = words[slot(frame, digit(va, level))];
    if !valid(entry) {
        None
    } else if is_leaf(entry) {
        Some((entry, level))
    } else if level == 0 {
        None
    } else {
        walk(words, target(entry), (level - 1) as nat, va)
    }
}

/// The table at level `to` on the way to `va`, if pointers lead there.
pub open spec fn descend(
    words: Map<u64, u64>,
    frame: u64,
    level: nat,
    va: int,
    to: nat,
) -> Option<u64>
    decreases level,
{
    if level <= to {
        Some(frame)
    } else {
        let entry = words[slot(frame, digit(va, level))];
        if is_pointer(entry) {
            descend(words, target(entry), (level - 1) as nat, va, to)
        } else {
            None
        }
    }
}

/// How many tables are missing between `frame` and level `to` on the way to
/// `va`: none can be added where a leaf is in the way.
pub open spec fn gap(words: Map<u64, u64>, frame: u64, level: nat, va: int, to: nat) -> Option<nat>
    decreases level,
{
    if level <= to {
        Some(0)
    } else {
        let entry = words[slot(frame, digit(va, level))];
        if !valid(entry) {
            Some((level - to) as nat)
        } else if is_leaf(entry) {
            None
        } else {
            gap(words, target(entry), (level - 1) as nat, va, to)
        }
    }
}

/// A page number, `levels` levels up.
pub open spec fn above(page: int, levels: nat) -> int
    decreases levels,
{
    if levels == 0 {
        page
    } else {
        above(page / 512, (levels - 1) as nat)
    }
}

/// Whether a node translates only addresses of the level-`level` page `page`
/// of the tree at `root`.
pub open spec fn under(node: Node, root: u64, level: nat, page: int) -> bool {
    node.root == root && node.level < level && above(
        node.prefix,
        (level - 1 - node.level) as nat,
    ) == page
}

/// Every table the record names is there, and no deeper than the root.
pub open spec fn present(words: Map<u64, u64>, nodes: Map<u64, Node>, top: nat) -> bool {
    forall|f: u64| #[trigger]
        nodes.contains_key(f) ==> backed(words, f) && nodes[f].level <= top && nodes[f].prefix >= 0
}

/// A pointer leads to the table for the addresses of its entry.
pub open spec fn linked(words: Map<u64, u64>, nodes: Map<u64, Node>) -> bool {
    forall|f: u64, i: int|
        #![trigger words[slot(f, i)]]
        nodes.contains_key(f) && 0 <= i < 512 && is_pointer(words[slot(f, i)]) ==> {
            let child = target(words[slot(f, i)]);
            &&& nodes[f].level > 0
            &&& nodes.contains_key(child)
            &&& nodes[child] == Node {
                root: nodes[f].root,
                level: (nodes[f].level - 1) as nat,
                prefix: nodes[f].prefix * 512 + i,
            }
        }
}

/// No two frames are one table.
pub open spec fn distinct(nodes: Map<u64, Node>) -> bool {
    forall|f: u64, g: u64|
        #![trigger nodes[f], nodes[g]]
        nodes.contains_key(f) && nodes.contains_key(g) && nodes[f] == nodes[g] ==> f == g
}

/// `f` hangs from the table `parent`.
pub open spec fn hangs(words: Map<u64, u64>, nodes: Map<u64, Node>, f: u64, parent: u64) -> bool {
    let i = nodes[f].prefix % 512;
    &&& nodes.contains_key(parent)
    &&& nodes[parent] == Node {
        root: nodes[f].root,
        level: nodes[f].level + 1,
        prefix: nodes[f].prefix / 512,
    }
    &&& is_pointer(words[slot(parent, i)])
    &&& target(words[slot(parent, i)]) == f
}

/// Every table but a root hangs from another.
#[verifier::opaque]
pub open spec fn rooted(words: Map<u64, u64>, nodes: Map<u64, Node>, top: nat) -> bool {
    forall|f: u64| #[trigger]
        nodes.contains_key(f) && nodes[f].level < top ==> exists|parent: u64| #[trigger]
            hangs(words, nodes, f, parent)
}

/// The frames a pool holds are there, each once, and none is a table.
pub open spec fn spare(words: Map<u64, u64>, nodes: Map<u64, Node>, pool: Seq<u64>) -> bool {
    &&& pool.no_duplicates()
    &&& forall|k: int|
        0 <= k < pool.len() ==> backed(words, #[trigger] pool[k]) && !nodes.contains_key(pool[k])
}

/// Whether `after` is what is left of a pool that frames were taken from.
pub open spec fn drawn(before: Seq<u64>, after: Seq<u64>) -> bool {
    after.len() <= before.len() && after =~= before.take(after.len() as int)
}

/// The trees sharing one memory.
pub struct Tables<M: Memory> {
    pub memory: M,
    pub pool: FramePool,
    /// The level every root sits at.
    pub top: usize,
    pub nodes: Ghost<Map<u64, Node>>,
}

/// Two frames share no entry.
pub proof fn lemma_slots(f: u64, i: int, g: u64, j: int)
    requires
        f as int % 4096 == 0,
        g as int % 4096 == 0,
        0 <= i < 512,
        0 <= j < 512,
        slot(f, i) == slot(g, j),
    ensures
        f == g,
        i == j,
{
    assert(f + 8 * i <= u64::MAX);
    assert(g + 8 * j <= u64::MAX);
}

/// A change to one entry, `at` of table `t`, or to frames that are no tables,
/// leaves the translation of every address elsewhere alone.
proof fn lemma_unaffected(
    nodes: Map<u64, Node>,
    top: nat,
    w1: Map<u64, u64>,
    w2: Map<u64, u64>,
    f: u64,
    va: int,
    t: u64,
    at: int,
)
    requires
        present(w1, nodes, top),
        linked(w1, nodes),
        nodes.contains_key(f),
        va >= 0,
        page(va, nodes[f].level + 1) == nodes[f].prefix,
        forall|g: u64, j: int|
            #![trigger w2[slot(g, j)]]
            nodes.contains_key(g) && 0 <= j < 512 && !(g == t && j == at) ==> w2[slot(g, j)]
                == w1[slot(g, j)],
        !(nodes.contains_key(t) && nodes[t].root == nodes[f].root && nodes[t].level
            <= nodes[f].level && page(va, nodes[t].level) == nodes[t].prefix * 512 + at),
    ensures
        walk(w2, f, nodes[f].level, va) == walk(w1, f, nodes[f].level, va),
    decreases nodes[f].level,
{
    let level = nodes[f].level;
    let i = digit(va, level);
    entry::lemma_page(va, level);
    assert(page(va, level) == nodes[f].prefix * 512 + i);
    assert(!(f == t && i == at));
    let word = w1[slot(f, i)];
    assert(w2[slot(f, i)] == word);
    if is_pointer(word) && level > 0 {
        let child = target(word);
        lemma_unaffected(nodes, top, w1, w2, child, va, t, at);
    }
}

/// Where pointers lead, the walk goes.
proof fn lemma_walk_descends(words: Map<u64, u64>, frame: u64, level: nat, va: int, to: nat)
    requires
        descend(words, frame, level, va, to) is Some,
        to <= level,
    ensures
        walk(words, frame, level, va) == walk(words, descend(words, frame, level, va, to)->0, to, va),
    decreases level,
{
    if level > to {
        let word = words[slot(frame, digit(va, level))];
        lemma_walk_descends(words, target(word), (level - 1) as nat, va, to);
    }
}

/// Pointers lead to the table the record says.
proof fn lemma_descend_node(
    nodes: Map<u64, Node>,
    words: Map<u64, u64>,
    f: u64,
    va: int,
    to: nat,
)
    requires
        linked(words, nodes),
        nodes.contains_key(f),
        va >= 0,
        page(va, nodes[f].level + 1) == nodes[f].prefix,
        to <= nodes[f].level,
        descend(words, f, nodes[f].level, va, to) is Some,
    ensures
        ({
            let t = descend(words, f, nodes[f].level, va, to)->0;
            &&& nodes.contains_key(t)
            &&& nodes[t] == Node { root: nodes[f].root, level: to, prefix: page(va, to + 1) }
        }),
    decreases nodes[f].level,
{
    let level = nodes[f].level;
    if level > to {
        entry::lemma_page(va, level);
        let word = words[slot(f, digit(va, level))];
        lemma_descend_node(nodes, words, target(word), va, to);
    }
}

/// Addresses that share a page at level `to + 1` share the tables above it,
/// whatever happens to one entry at level `to` or below.
proof fn lemma_descend_same(
    nodes: Map<u64, Node>,
    w1: Map<u64, u64>,
    w2: Map<u64, u64>,
    f: u64,
    va: int,
    other: int,
    to: nat,
    t: u64,
    at: int,
)
    requires
        linked(w1, nodes),
        nodes.contains_key(f),
        nodes[f].level >= to,
        va >= 0,
        other >= 0,
        page(va, nodes[f].level + 1) == nodes[f].prefix,
        page(va, to + 1) == page(other, to + 1),
        nodes.contains_key(t) ==> nodes[t].level <= to,
        forall|g: u64, j: int|
            #![trigger w2[slot(g, j)]]
            nodes.contains_key(g) && 0 <= j < 512 && !(g == t && j == at) ==> w2[slot(g, j)]
                == w1[slot(g, j)],
    ensures
        descend(w2, f, nodes[f].level, other, to) == descend(w1, f, nodes[f].level, va, to),
    decreases nodes[f].level,
{
    let level = nodes[f].level;
    if level > to {
        lemma_page_above(va, other, to + 1, level);
        entry::lemma_page(va, level);
        let word = w1[slot(f, digit(va, level))];
        assert(w2[slot(f, digit(va, level))] == word);
        if is_pointer(word) {
            lemma_descend_same(nodes, w1, w2, target(word), va, other, to, t, at);
        }
    }
}

/// Sharing a page means sharing every larger one.
pub proof fn lemma_page_above(va: int, other: int, from: nat, to: nat)
    requires
        va >= 0,
        other >= 0,
        from <= to,
        page(va, from) == page(other, from),
    ensures
        page(va, to) == page(other, to),
    decreases to - from,
{
    if from < to {
        entry::lemma_page(va, from);
        entry::lemma_page(other, from);
        lemma_page_above(va, other, from + 1, to);
    }
}

/// The page of an address `levels` levels up.
proof fn lemma_above_page(va: int, from: nat, levels: nat)
    requires
        va >= 0,
    ensures
        above(page(va, from), levels) == page(va, from + levels),
    decreases levels,
{
    if levels > 0 {
        entry::lemma_page(va, from);
        lemma_above_page(va, from + 1, (levels - 1) as nat);
    }
}

/// A table at the top level is its own tree's root.
pub open spec fn crowned(nodes: Map<u64, Node>, top: nat) -> bool {
    forall|f: u64| #[trigger]
        nodes.contains_key(f) && nodes[f].level == top ==> nodes[f] == (Node {
            root: f,
            level: top,
            prefix: 0,
        })
}

/// Everything the record promises of memory.
pub open spec fn sound(
    words: Map<u64, u64>,
    nodes: Map<u64, Node>,
    top: nat,
    pool: Seq<u64>,
) -> bool {
    &&& present(words, nodes, top)
    &&& linked(words, nodes)
    &&& distinct(nodes)
    &&& rooted(words, nodes, top)
    &&& crowned(nodes, top)
    &&& spare(words, nodes, pool)
}

/// Whether `frame` roots a tree.
pub open spec fn roots(nodes: Map<u64, Node>, top: nat, frame: u64) -> bool {
    nodes.contains_key(frame) && nodes[frame] == (Node { root: frame, level: top, prefix: 0 })
}

/// One more step down.
proof fn lemma_descend_step(words: Map<u64, u64>, frame: u64, level: nat, va: int, to: nat)
    requires
        to < level,
        descend(words, frame, level, va, to + 1) is Some,
    ensures
        ({
            let parent = descend(words, frame, level, va, to + 1)->0;
            let word = words[slot(parent, digit(va, to + 1))];
            descend(words, frame, level, va, to) == if is_pointer(word) {
                Some(target(word))
            } else {
                None
            }
        }),
    decreases level,
{
    if level > to + 1 {
        let word = words[slot(frame, digit(va, level))];
        lemma_descend_step(words, target(word), (level - 1) as nat, va, to);
    } else {
        let word = words[slot(frame, digit(va, level))];
        if is_pointer(word) {
            assert(descend(words, target(word), to, va, to) == Some(target(word)));
        }
    }
}

/// The root of a table's tree leads to the table, for every address the table
/// translates.
proof fn lemma_reaches(
    words: Map<u64, u64>,
    nodes: Map<u64, Node>,
    top: nat,
    t: u64,
    va: int,
)
    requires
        present(words, nodes, top),
        rooted(words, nodes, top),
        crowned(nodes, top),
        nodes.contains_key(t),
        0 <= va < reach(top),
        page(va, nodes[t].level + 1) == nodes[t].prefix,
    ensures
        roots(nodes, top, nodes[t].root),
        descend(words, nodes[t].root, top, va, nodes[t].level) == Some(t),
    decreases top - nodes[t].level,
{
    reveal(rooted);
    let level = nodes[t].level;
    if level < top {
        let parent = choose|parent: u64| #[trigger] hangs(words, nodes, t, parent);
        assert(hangs(words, nodes, t, parent));
        entry::lemma_page(va, level + 1);
        lemma_reaches(words, nodes, top, parent, va);
        lemma_descend_step(words, nodes[t].root, top, va, level);
    }
}

/// The table entry `i` of table `t` would lead to.
pub open spec fn child(nodes: Map<u64, Node>, t: u64, i: int) -> Node {
    Node {
        root: nodes[t].root,
        level: (nodes[t].level - 1) as nat,
        prefix: nodes[t].prefix * 512 + i,
    }
}

/// Every entry of every frame but entry `at` of `t` and the frame `fresh`
/// reads as it did.
pub open spec fn kept(w1: Map<u64, u64>, w2: Map<u64, u64>, t: u64, at: int, fresh: u64) -> bool {
    &&& w2.dom() == w1.dom()
    &&& forall|g: u64, j: int|
        #![trigger w2[slot(g, j)]]
        g as int % 4096 == 0 && 0 <= j < 512 && g != fresh && !(g == t && j == at) ==> w2[slot(
            g,
            j,
        )] == w1[slot(g, j)]
}

/// A fresh, empty table was hung where nothing was.
pub open spec fn hung(
    w1: Map<u64, u64>,
    w2: Map<u64, u64>,
    nodes: Map<u64, Node>,
    pool: Seq<u64>,
    t: u64,
    i: int,
    fresh: u64,
) -> bool {
    &&& nodes.contains_key(t)
    &&& nodes[t].level > 0
    &&& 0 <= i < 512
    &&& !valid(w1[slot(t, i)])
    &&& pool.len() > 0
    &&& fresh == pool.last()
    &&& w2[slot(t, i)] == encoded(fresh, 0)
    &&& forall|j: int| 0 <= j < 512 ==> w2[#[trigger] slot(fresh, j)] == 0
    &&& kept(w1, w2, t, i, fresh)
}

/// A spare frame is no table.
pub proof fn lemma_fresh(
    w1: Map<u64, u64>,
    nodes: Map<u64, Node>,
    pool: Seq<u64>,
    fresh: u64,
)
    requires
        spare(w1, nodes, pool),
        pool.len() > 0,
        fresh == pool.last(),
    ensures
        !nodes.contains_key(fresh),
        backed(w1, fresh),
{
    assert(pool[pool.len() - 1] == fresh);
}

/// No table is already the one being hung: its parent would be `t`, whose
/// entry is empty.
proof fn lemma_hung_new(w1: Map<u64, u64>, nodes: Map<u64, Node>, top: nat, t: u64, i: int, g: u64)
    requires
        present(w1, nodes, top),
        distinct(nodes),
        rooted(w1, nodes, top),
        nodes.contains_key(t),
        nodes[t].level > 0,
        0 <= i < 512,
        !valid(w1[slot(t, i)]),
        nodes.contains_key(g),
    ensures
        nodes[g] != child(nodes, t, i),
{
    reveal(rooted);
    let node = child(nodes, t, i);
    if nodes[g] == node {
        let parent = choose|parent: u64| #[trigger] hangs(w1, nodes, g, parent);
        assert(hangs(w1, nodes, g, parent));
        assert(node.prefix % 512 == i && node.prefix / 512 == nodes[t].prefix);
        assert(nodes[parent] == nodes[t]);
    }
}

proof fn lemma_hung_linked(
    w1: Map<u64, u64>,
    w2: Map<u64, u64>,
    nodes: Map<u64, Node>,
    top: nat,
    pool: Seq<u64>,
    t: u64,
    i: int,
    fresh: u64,
)
    requires
        present(w1, nodes, top),
        linked(w1, nodes),
        spare(w1, nodes, pool),
        hung(w1, w2, nodes, pool, t, i, fresh),
    ensures
        linked(w2, nodes.insert(fresh, child(nodes, t, i))),
{
    let after = nodes.insert(fresh, child(nodes, t, i));
    lemma_fresh(w1, nodes, pool, fresh);
    entry::lemma_pointer(fresh);
    entry::lemma_zero();
    assert forall|f: u64, j: int|
        #![trigger w2[slot(f, j)]]
        after.contains_key(f) && 0 <= j < 512 && is_pointer(w2[slot(f, j)]) implies {
        let next = target(w2[slot(f, j)]);
        &&& after[f].level > 0
        &&& after.contains_key(next)
        &&& after[next] == Node {
            root: after[f].root,
            level: (after[f].level - 1) as nat,
            prefix: after[f].prefix * 512 + j,
        }
    } by {
        if f == fresh {
            assert(w2[slot(fresh, j)] == 0);
        } else if !(f == t && j == i) {
            assert(nodes.contains_key(f));
            assert(w2[slot(f, j)] == w1[slot(f, j)]);
        }
    }
}

proof fn lemma_hung_rooted(
    w1: Map<u64, u64>,
    w2: Map<u64, u64>,
    nodes: Map<u64, Node>,
    top: nat,
    pool: Seq<u64>,
    t: u64,
    i: int,
    fresh: u64,
)
    requires
        present(w1, nodes, top),
        rooted(w1, nodes, top),
        spare(w1, nodes, pool),
        hung(w1, w2, nodes, pool, t, i, fresh),
    ensures
        rooted(w2, nodes.insert(fresh, child(nodes, t, i)), top),
{
    reveal(rooted);
    let node = child(nodes, t, i);
    let after = nodes.insert(fresh, node);
    lemma_fresh(w1, nodes, pool, fresh);
    entry::lemma_pointer(fresh);
    assert forall|f: u64| #[trigger]
        after.contains_key(f) && after[f].level < top implies exists|parent: u64| #[trigger]
        hangs(w2, after, f, parent) by {
        if f == fresh {
            assert(node.prefix % 512 == i && node.prefix / 512 == nodes[t].prefix);
            assert(hangs(w2, after, fresh, t));
        } else {
            assert(nodes.contains_key(f));
            let parent = choose|parent: u64| #[trigger] hangs(w1, nodes, f, parent);
            assert(hangs(w1, nodes, f, parent));
            let j = nodes[f].prefix % 512;
            assert(!(parent == t && j == i));
            assert(w2[slot(parent, j)] == w1[slot(parent, j)]);
            assert(hangs(w2, after, f, parent));
        }
    }
}

proof fn lemma_hung_walk(
    w1: Map<u64, u64>,
    w2: Map<u64, u64>,
    nodes: Map<u64, Node>,
    top: nat,
    pool: Seq<u64>,
    t: u64,
    i: int,
    fresh: u64,
    r: u64,
    va: int,
)
    requires
        sound(w1, nodes, top, pool),
        hung(w1, w2, nodes, pool, t, i, fresh),
        roots(nodes, top, r),
        0 <= va < reach(top),
    ensures
        walk(w2, r, top, va) == walk(w1, r, top, va),
{
    let node = child(nodes, t, i);
    lemma_fresh(w1, nodes, pool, fresh);
    lemma_within(va, top);
    let level = nodes[t].level;
    if nodes[t].root == r && page(va, level) == node.prefix {
        entry::lemma_pointer(fresh);
        entry::lemma_zero();
        entry::lemma_page(va, level);
        lemma_reaches(w1, nodes, top, t, va);
        lemma_walk_descends(w1, r, top, va, level);
        assert(digit(va, level) == i);
        lemma_descend_same(nodes, w1, w2, r, va, va, level, t, i);
        lemma_walk_descends(w2, r, top, va, level);
        entry::lemma_page(va, node.level);
        assert(w2[slot(fresh, digit(va, node.level))] == 0);
        assert(walk(w2, fresh, node.level, va) is None);
    } else {
        lemma_unaffected(nodes, top, w1, w2, r, va, t, i);
    }
}

/// An address a tree tells apart has no digit above the root.
pub proof fn lemma_within(va: int, top: nat)
    requires
        0 <= va < reach(top),
    ensures
        page(va, top + 1) == 0,
{
    vstd::arithmetic::div_mod::lemma_basic_div(va, reach(top));
}

/// Hanging a fresh, empty table where nothing was changes no translation.
proof fn lemma_hung(
    w1: Map<u64, u64>,
    w2: Map<u64, u64>,
    nodes: Map<u64, Node>,
    top: nat,
    pool: Seq<u64>,
    t: u64,
    i: int,
    fresh: u64,
)
    requires
        sound(w1, nodes, top, pool),
        hung(w1, w2, nodes, pool, t, i, fresh),
    ensures
        sound(w2, nodes.insert(fresh, child(nodes, t, i)), top, pool.drop_last()),
        forall|r: u64, va: int|
            roots(nodes, top, r) && 0 <= va < reach(top) ==> #[trigger] walk(w2, r, top, va)
                == walk(w1, r, top, va),
{
    let node = child(nodes, t, i);
    let after = nodes.insert(fresh, node);
    lemma_fresh(w1, nodes, pool, fresh);
    lemma_hung_linked(w1, w2, nodes, top, pool, t, i, fresh);
    lemma_hung_rooted(w1, w2, nodes, top, pool, t, i, fresh);
    assert(distinct(after)) by {
        assert forall|f: u64, g: u64|
            #![trigger after[f], after[g]]
            after.contains_key(f) && after.contains_key(g) && after[f] == after[g] implies f == g by {
            if f != fresh && g != fresh {
                assert(nodes[f] == nodes[g]);
            } else if g != fresh {
                lemma_hung_new(w1, nodes, top, t, i, g);
            } else if f != fresh {
                lemma_hung_new(w1, nodes, top, t, i, f);
            }
        }
    }
    assert(present(w2, after, top));
    assert(crowned(after, top));
    assert(spare(w2, after, pool.drop_last())) by {
        assert forall|k: int| 0 <= k < pool.len() - 1 implies backed(
            w2,
            #[trigger] pool.drop_last()[k],
        ) && !after.contains_key(pool.drop_last()[k]) by {
            assert(pool.drop_last()[k] == pool[k]);
        }
    }
    assert forall|r: u64, va: int| roots(nodes, top, r) && 0 <= va < reach(top) implies #[trigger] walk(
        w2,
        r,
        top,
        va,
    ) == walk(w1, r, top, va) by {
        lemma_hung_walk(w1, w2, nodes, top, pool, t, i, fresh, r, va);
    }
}

/// The record without the tables of one page.
pub open spec fn trimmed(nodes: Map<u64, Node>, root: u64, level: nat, page: int) -> Map<
    u64,
    Node,
> {
    nodes.remove_keys(Set::new(|f: u64| under(nodes[f], root, level, page)))
}

/// One entry was set to a leaf, or to nothing.
pub open spec fn replaced(
    w1: Map<u64, u64>,
    w2: Map<u64, u64>,
    nodes: Map<u64, Node>,
    t: u64,
    i: int,
    value: u64,
) -> bool {
    &&& nodes.contains_key(t)
    &&& 0 <= i < 512
    &&& !is_pointer(value)
    &&& w2 == w1.insert(slot(t, i), value)
}

proof fn lemma_replaced_kept(
    w1: Map<u64, u64>,
    w2: Map<u64, u64>,
    nodes: Map<u64, Node>,
    top: nat,
    t: u64,
    i: int,
    value: u64,
)
    requires
        present(w1, nodes, top),
        replaced(w1, w2, nodes, t, i, value),
    ensures
        w2.dom() == w1.dom(),
        w2[slot(t, i)] == value,
        forall|g: u64, j: int|
            #![trigger w2[slot(g, j)]]
            g as int % 4096 == 0 && 0 <= j < 512 && !(g == t && j == i) ==> w2[slot(g, j)]
                == w1[slot(g, j)],
{
    assert(w2.dom() =~= w1.dom());
    assert forall|g: u64, j: int|
        #![trigger w2[slot(g, j)]]
        g as int % 4096 == 0 && 0 <= j < 512 && !(g == t && j == i) implies w2[slot(g, j)]
        == w1[slot(g, j)] by {
        if slot(g, j) == slot(t, i) {
            lemma_slots(g, j, t, i);
        }
    }
}

/// The child of a table outside a page lies outside it too, unless it hangs
/// from the page's own entry.
proof fn lemma_outside(nodes: Map<u64, Node>, f: u64, j: int, t: u64, i: int, next: u64)
    requires
        nodes.contains_key(f),
        nodes.contains_key(t),
        distinct(nodes),
        0 <= i < 512,
        0 <= j < 512,
        nodes[f].level > 0,
        nodes[next] == child(nodes, f, j),
        !(f == t && j == i),
        !under(nodes[f], nodes[t].root, nodes[t].level, nodes[t].prefix * 512 + i),
    ensures
        !under(nodes[next], nodes[t].root, nodes[t].level, nodes[t].prefix * 512 + i),
{
    let level = nodes[t].level;
    let q = nodes[t].prefix * 512 + i;
    let p = nodes[f].prefix * 512 + j;
    if under(nodes[next], nodes[t].root, level, q) {
        assert(p / 512 == nodes[f].prefix);
        if nodes[f].level < level {
            assert(above(p, (level - nodes[f].level) as nat) == above(
                p / 512,
                (level - nodes[f].level - 1) as nat,
            ));
        } else {
            assert(above(p, 0) == p);
            assert(p % 512 == j && q % 512 == i && q / 512 == nodes[t].prefix);
            assert(nodes[f] == nodes[t]);
        }
    }
}

proof fn lemma_replaced_linked(
    w1: Map<u64, u64>,
    w2: Map<u64, u64>,
    nodes: Map<u64, Node>,
    top: nat,
    t: u64,
    i: int,
    value: u64,
)
    requires
        present(w1, nodes, top),
        linked(w1, nodes),
        distinct(nodes),
        replaced(w1, w2, nodes, t, i, value),
    ensures
        linked(w2, trimmed(nodes, nodes[t].root, nodes[t].level, nodes[t].prefix * 512 + i)),
{
    let after = trimmed(nodes, nodes[t].root, nodes[t].level, nodes[t].prefix * 512 + i);
    lemma_replaced_kept(w1, w2, nodes, top, t, i, value);
    assert forall|f: u64, j: int|
        #![trigger w2[slot(f, j)]]
        after.contains_key(f) && 0 <= j < 512 && is_pointer(w2[slot(f, j)]) implies {
        let next = target(w2[slot(f, j)]);
        &&& after[f].level > 0
        &&& after.contains_key(next)
        &&& after[next] == Node {
            root: after[f].root,
            level: (after[f].level - 1) as nat,
            prefix: after[f].prefix * 512 + j,
        }
    } by {
        assert(nodes.contains_key(f));
        assert(!(f == t && j == i));
        assert(w2[slot(f, j)] == w1[slot(f, j)]);
        lemma_outside(nodes, f, j, t, i, target(w1[slot(f, j)]));
    }
}

proof fn lemma_replaced_rooted(
    w1: Map<u64, u64>,
    w2: Map<u64, u64>,
    nodes: Map<u64, Node>,
    top: nat,
    t: u64,
    i: int,
    value: u64,
)
    requires
        present(w1, nodes, top),
        rooted(w1, nodes, top),
        replaced(w1, w2, nodes, t, i, value),
    ensures
        rooted(w2, trimmed(nodes, nodes[t].root, nodes[t].level, nodes[t].prefix * 512 + i), top),
{
    reveal(rooted);
    let level = nodes[t].level;
    let q = nodes[t].prefix * 512 + i;
    let root = nodes[t].root;
    let after = trimmed(nodes, root, level, q);
    lemma_replaced_kept(w1, w2, nodes, top, t, i, value);
    assert forall|f: u64| #[trigger]
        after.contains_key(f) && after[f].level < top implies exists|parent: u64| #[trigger]
        hangs(w2, after, f, parent) by {
        assert(nodes.contains_key(f));
        let parent = choose|parent: u64| #[trigger] hangs(w1, nodes, f, parent);
        assert(hangs(w1, nodes, f, parent));
        let p = nodes[f].prefix;
        let j = p % 512;
        if under(nodes[parent], root, level, q) {
            assert(above(p, (level - 1 - nodes[f].level) as nat) == above(
                p / 512,
                (level - 2 - nodes[f].level) as nat,
            ));
            assert(under(nodes[f], root, level, q));
        }
        if parent == t && j == i {
            assert(p == q);
            assert(above(p, 0) == p);
            assert(under(nodes[f], root, level, q));
        }
        assert(w2[slot(parent, j)] == w1[slot(parent, j)]);
        assert(hangs(w2, after, f, parent));
    }
}

/// The leaf an entry's addresses are translated through once it was set.
pub open spec fn set_to(value: u64, level: nat) -> Option<(u64, nat)> {
    if valid(value) {
        Some((value, level))
    } else {
        None
    }
}

proof fn lemma_replaced_walk(
    w1: Map<u64, u64>,
    w2: Map<u64, u64>,
    nodes: Map<u64, Node>,
    top: nat,
    pool: Seq<u64>,
    t: u64,
    i: int,
    value: u64,
    r: u64,
    va: int,
)
    requires
        sound(w1, nodes, top, pool),
        replaced(w1, w2, nodes, t, i, value),
        roots(nodes, top, r),
        0 <= va < reach(top),
    ensures
        walk(w2, r, top, va) == if r == nodes[t].root && page(va, nodes[t].level)
            == nodes[t].prefix * 512 + i {
            set_to(value, nodes[t].level)
        } else {
            walk(w1, r, top, va)
        },
{
    let level = nodes[t].level;
    let q = nodes[t].prefix * 512 + i;
    lemma_replaced_kept(w1, w2, nodes, top, t, i, value);
    lemma_within(va, top);
    if r == nodes[t].root && page(va, level) == q {
        entry::lemma_page(va, level);
        lemma_reaches(w1, nodes, top, t, va);
        assert(digit(va, level) == i);
        lemma_descend_same(nodes, w1, w2, r, va, va, level, t, i);
        lemma_walk_descends(w2, r, top, va, level);
    } else {
        lemma_unaffected(nodes, top, w1, w2, r, va, t, i);
    }
}

/// Setting one entry to a leaf, or to nothing, changes the translation of
/// exactly the addresses that entry covers.
proof fn lemma_replaced(
    w1: Map<u64, u64>,
    w2: Map<u64, u64>,
    nodes: Map<u64, Node>,
    top: nat,
    pool: Seq<u64>,
    t: u64,
    i: int,
    value: u64,
)
    requires
        sound(w1, nodes, top, pool),
        replaced(w1, w2, nodes, t, i, value),
    ensures
        sound(
            w2,
            trimmed(nodes, nodes[t].root, nodes[t].level, nodes[t].prefix * 512 + i),
            top,
            pool,
        ),
        forall|r: u64, va: int|
            roots(nodes, top, r) && 0 <= va < reach(top) ==> #[trigger] walk(w2, r, top, va)
                == if r == nodes[t].root && page(va, nodes[t].level) == nodes[t].prefix * 512 + i {
                set_to(value, nodes[t].level)
            } else {
                walk(w1, r, top, va)
            },
{
    let after = trimmed(nodes, nodes[t].root, nodes[t].level, nodes[t].prefix * 512 + i);
    lemma_replaced_kept(w1, w2, nodes, top, t, i, value);
    lemma_replaced_linked(w1, w2, nodes, top, t, i, value);
    lemma_replaced_rooted(w1, w2, nodes, top, t, i, value);
    assert(present(w2, after, top)) by {
        assert forall|f: u64| #[trigger] after.contains_key(f) implies backed(w2, f) && after[f].level
            <= top && after[f].prefix >= 0 by {
            assert(nodes.contains_key(f));
        }
    }
    assert(distinct(after)) by {
        assert forall|f: u64, g: u64|
            #![trigger after[f], after[g]]
            after.contains_key(f) && after.contains_key(g) && after[f] == after[g] implies f == g by {
            assert(nodes[f] == nodes[g]);
        }
    }
    assert(crowned(after, top)) by {
        assert forall|f: u64| #[trigger]
            after.contains_key(f) && after[f].level == top implies after[f] == (Node {
            root: f,
            level: top,
            prefix: 0,
        }) by {
            assert(nodes.contains_key(f));
        }
    }
    assert(spare(w2, after, pool));
    assert forall|r: u64, va: int| roots(nodes, top, r) && 0 <= va < reach(top) implies #[trigger] walk(
        w2,
        r,
        top,
        va,
    ) == if r == nodes[t].root && page(va, nodes[t].level) == nodes[t].prefix * 512 + i {
        set_to(value, nodes[t].level)
    } else {
        walk(w1, r, top, va)
    } by {
        lemma_replaced_walk(w1, w2, nodes, top, pool, t, i, value, r, va);
    }
}

impl<M: Memory> Tables<M> {
    pub open spec fn words(&self) -> Map<u64, u64> {
        self.memory.words()
    }

    pub open spec fn wf(&self) -> bool {
        &&& self.top <= DEEPEST
        &&& sound(self.words(), self.nodes@, self.top as nat, self.pool@)
    }

    /// Whether `frame` roots one of the trees.
    pub open spec fn is_root(&self, frame: u64) -> bool {
        roots(self.nodes@, self.top as nat, frame)
    }

    /// The part of an address the trees tell apart.
    pub open spec fn low(&self, va: u64) -> int {
        va as int % reach(self.top as nat)
    }

    /// The leaf, and its level, that the tree at `root` translates `va`
    /// through.
    pub open spec fn translate(&self, root: u64, va: u64) -> Option<(u64, nat)> {
        walk(self.words(), root, self.top as nat, self.low(va))
    }

    /// Whether two addresses lie in one leaf of a level.
    pub open spec fn same_page(&self, va: u64, other: u64, level: nat) -> bool {
        page(self.low(va), level) == page(self.low(other), level)
    }

    /// How many tables a leaf at `level` for `va` lacks, unless a larger leaf
    /// is in its way.
    pub open spec fn lacking(&self, root: u64, va: u64, level: nat) -> Option<nat> {
        gap(self.words(), root, self.top as nat, self.low(va), level)
    }

    /// Whether a frame is a table, or one to make a table of.
    pub open spec fn owns(&self, frame: u64) -> bool {
        self.nodes@.contains_key(frame) || self.pool@.contains(frame)
    }

    /// Whether nothing was written but tables, and frames of the pool, and no
    /// other frame was taken.
    pub open spec fn confined(&self, after: Self) -> bool {
        &&& forall|f: u64| #[trigger] after.owns(f) ==> self.owns(f)
        &&& after.words().dom() == self.words().dom()
        &&& forall|f: u64, j: int|
            #![trigger after.words()[slot(f, j)]]
            f as int % 4096 == 0 && 0 <= j < 512 && !self.owns(f) ==> after.words()[slot(f, j)]
                == self.words()[slot(f, j)]
    }

    /// The same trees, each translating every address as before.
    pub open spec fn unchanged(&self, after: Self) -> bool {
        &&& after.top == self.top
        &&& forall|r: u64| #[trigger] after.is_root(r) == self.is_root(r)
        &&& forall|r: u64, va: u64|
            self.is_root(r) ==> #[trigger] after.translate(r, va) == self.translate(r, va)
    }

    /// The same trees, with the addresses of one leaf of `root` translated as
    /// `leaf` says and every other as before.
    pub open spec fn changed(
        &self,
        root: u64,
        va: u64,
        level: nat,
        leaf: Option<(u64, nat)>,
        after: Self,
    ) -> bool {
        &&& after.top == self.top
        &&& forall|r: u64| #[trigger] after.is_root(r) == self.is_root(r)
        &&& forall|r: u64, other: u64|
            self.is_root(r) ==> #[trigger] after.translate(r, other) == if r == root
                && self.same_page(other, va, level) {
                leaf
            } else {
                self.translate(r, other)
            }
    }

    /// The same trees, with one leaf mapped and the tables it lacked taken out
    /// of the pool.
    pub open spec fn leafed(
        &self,
        root: u64,
        va: u64,
        pa: u64,
        flags: u64,
        level: nat,
        after: Self,
    ) -> bool {
        &&& self.lacking(root, va, level) matches Some(tables)
        &&& tables <= self.pool@.len()
        &&& after.pool@ == self.pool@.take(self.pool@.len() - tables)
        &&& self.changed(root, va, level, Some((encoded(pa, flags), level)), after)
    }

    /// Why a leaf could not be mapped, and what is left: a larger leaf is in
    /// the way, or there are fewer frames than tables it lacks.
    pub open spec fn jammed(
        &self,
        root: u64,
        va: u64,
        level: nat,
        error: MappingError,
        after: Self,
    ) -> bool {
        match self.lacking(root, va, level) {
            None => error == MappingError::Backend && after == *self,
            Some(tables) => {
                &&& tables > self.pool@.len()
                &&& error == MappingError::OutOfFrames
                &&& self.unchanged(after)
                &&& after.pool@.len() == 0
            },
        }
    }

    /// The same trees and an empty one, rooted at the frame the pool gave.
    pub open spec fn sprouted(&self, root: u64, after: Self) -> bool {
        &&& self.pool@.len() > 0
        &&& root == self.pool@.last()
        &&& after.pool@ == self.pool@.drop_last()
        &&& after.top == self.top
        &&& forall|r: u64| #[trigger] after.is_root(r) <==> self.is_root(r) || r == root
        &&& forall|r: u64, va: u64|
            self.is_root(r) ==> #[trigger] after.translate(r, va) == self.translate(r, va)
        &&& forall|va: u64| #[trigger] after.translate(root, va) is None
    }

    /// No trees yet, with the frames of `pool` to build them of.
    pub fn new(memory: M, pool: FramePool, top: usize) -> (tables: Self)
        requires
            top <= DEEPEST,
            spare(memory.words(), Map::<u64, Node>::empty(), pool@),
        ensures
            tables.wf(),
            tables.memory == memory,
            tables.pool == pool,
            tables.top == top,
            tables.nodes@ == Map::<u64, Node>::empty(),
    {
        reveal(rooted);
        Tables { memory, pool, top, nodes: Ghost(Map::empty()) }
    }

    /// Zeroes a frame that is no table.
    pub(crate) fn zero(&mut self, frame: u64)
        requires
            backed(old(self).words(), frame),
        ensures
            final(self).pool == old(self).pool,
            final(self).top == old(self).top,
            final(self).nodes == old(self).nodes,
            final(self).words().dom() == old(self).words().dom(),
            forall|j: int| 0 <= j < 512 ==> final(self).words()[#[trigger] slot(frame, j)] == 0,
            forall|g: u64, j: int|
                #![trigger final(self).words()[slot(g, j)]]
                g as int % 4096 == 0 && 0 <= j < 512 && g != frame ==> final(self).words()[slot(
                    g,
                    j,
                )] == old(self).words()[slot(g, j)],
    {
        let ghost before = *self;
        let mut i: u64 = 0;
        while i < 512
            invariant
                i <= 512,
                before == *old(self),
                backed(before.words(), frame),
                self.pool == before.pool,
                self.top == before.top,
                self.nodes == before.nodes,
                self.words().dom() == before.words().dom(),
                forall|j: int| 0 <= j < i ==> self.words()[#[trigger] slot(frame, j)] == 0,
                forall|g: u64, j: int|
                    #![trigger self.words()[slot(g, j)]]
                    g as int % 4096 == 0 && 0 <= j < 512 && g != frame ==> self.words()[slot(g, j)]
                        == before.words()[slot(g, j)],
            decreases 512 - i,
        {
            let ghost words = self.words();
            let at: u64 = frame + 8 * i;
            assert(at == slot(frame, i as int));
            self.memory.store(at, 0);
            assert(self.words().dom() =~= words.dom());
            assert forall|j: int| 0 <= j < i + 1 implies self.words()[#[trigger] slot(frame, j)]
                == 0 by {
                if j < i && slot(frame, j) == slot(frame, i as int) {
                    lemma_slots(frame, j, frame, i as int);
                }
            }
            assert forall|g: u64, j: int|
                #![trigger self.words()[slot(g, j)]]
                g as int % 4096 == 0 && 0 <= j < 512 && g != frame implies self.words()[slot(g, j)]
                == before.words()[slot(g, j)] by {
                if slot(g, j) == at {
                    lemma_slots(g, j, frame, i as int);
                }
                assert(words[slot(g, j)] == before.words()[slot(g, j)]);
            }
            i = i + 1;
        }
    }

    /// Adds an empty tree: it translates nothing, and no other tree notices.
    pub fn open_root(&mut self) -> (root: Result<u64, MappingError>)
        requires
            old(self).wf(),
        ensures
            final(self).wf(),
            final(self).top == old(self).top,
            old(self).confined(*final(self)),
            match root {
                Ok(root) => {
                    &&& old(self).sprouted(root, *final(self))
                    &&& !old(self).is_root(root)
                },
                Err(error) => {
                    &&& old(self).pool@.len() == 0
                    &&& error == MappingError::OutOfFrames
                    &&& *final(self) == *old(self)
                },
            },
    {
        let ghost before = *self;
        let ghost top = self.top as nat;
        let root: u64 = match self.pool.take() {
            Some(root) => root,
            None => return Err(MappingError::OutOfFrames),
        };
        proof {
            lemma_fresh(before.words(), before.nodes@, before.pool@, root);
        }
        self.zero(root);
        self.nodes = Ghost(before.nodes@.insert(root, Node { root, level: top, prefix: 0 }));
        proof {
            lemma_drawn_owned(before, root, *self);
            lemma_opened(before.words(), self.words(), before.nodes@, top, before.pool@, root);
            assert forall|r: u64, va: u64| before.is_root(r) implies #[trigger] self.translate(r, va)
                == before.translate(r, va) by {
                lemma_low(va, top);
                assert(walk(self.words(), r, top, self.low(va)) == walk(
                    before.words(),
                    r,
                    top,
                    before.low(va),
                ));
            }
            assert forall|va: u64| #[trigger] self.translate(root, va) is None by {
                lemma_low(va, top);
                entry::lemma_page(self.low(va), top);
                entry::lemma_zero();
                assert(self.words()[slot(root, digit(self.low(va), top))] == 0);
            }
        }
        Ok(root)
    }

    /// Maps one leaf, building the tables above it as needed.
    ///
    /// A leaf or table already in the leaf's own place gives way to it; a
    /// larger leaf is never split.
    pub fn map_leaf(
        &mut self,
        root: u64,
        va: u64,
        pa: u64,
        flags: u64,
        level: usize,
    ) -> (done: Result<(), MappingError>)
        requires
            old(self).wf(),
            old(self).is_root(root),
            level <= old(self).top,
            flags & PTE_RWX != 0,
        ensures
            final(self).wf(),
            old(self).confined(*final(self)),
            match done {
                Ok(()) => old(self).leafed(root, va, pa, flags, level as nat, *final(self)),
                Err(error) => old(self).jammed(root, va, level as nat, error, *final(self)),
            },
    {
        let ghost before = *self;
        let ghost top = self.top as nat;
        let ghost v = self.low(va);
        let ghost lacking = self.lacking(root, va, level as nat);
        proof {
            lemma_low(va, top);
            lemma_within(v, top);
        }
        let mut table: u64 = root;
        let mut at: usize = self.top;
        assert(before.pool@.take(before.pool@.len() as int) =~= before.pool@);
        while at > level
            invariant
                before == *old(self),
                self.wf(),
                top == self.top,
                top == before.top,
                at <= top,
                level <= at,
                v == self.low(va),
                0 <= v < reach(top),
                before.is_root(root),
                before.unchanged(*self),
                before.confined(*self),
                self.nodes@.contains_key(table),
                self.nodes@[table] == (Node { root, level: at as nat, prefix: page(v, at as nat + 1) }),
                self.pool@ == before.pool@.take(self.pool@.len() as int),
                self.pool@.len() <= before.pool@.len(),
                self.pool@.len() == before.pool@.len() ==> *self == before,
                lacking == before.lacking(root, va, level as nat),
                match lacking {
                    None => self.pool@.len() == before.pool@.len() && gap(
                        self.words(),
                        table,
                        at as nat,
                        v,
                        level as nat,
                    ) is None,
                    Some(tables) => gap(self.words(), table, at as nat, v, level as nat) == Some(
                        (tables - (before.pool@.len() - self.pool@.len())) as nat,
                    ) && before.pool@.len() - self.pool@.len() <= tables,
                },
            decreases at,
        {
            proof {
                entry::lemma_page(v, at as nat);
                entry::lemma_wrapped(va as int, at as nat, top);
            }
            let i: u64 = entry::index(va, at);
            assert(i == digit(v, at as nat));
            let place: u64 = table + 8 * i;
            assert(place == slot(table, i as int));
            let word: u64 = self.memory.load(place);
            if word & PTE_V == 0 {
                let ghost held = *self;
                let fresh: u64 = match self.pool.take() {
                    Some(fresh) => fresh,
                    None => return Err(MappingError::OutOfFrames),
                };
                proof {
                    lemma_fresh(held.words(), held.nodes@, held.pool@, fresh);
                }
                self.zero(fresh);
                let ghost zeroed = self.words();
                self.memory.store(place, entry::pte(fresh, 0));
                self.nodes = Ghost(held.nodes@.insert(fresh, child(held.nodes@, table, i as int)));
                proof {
                    lemma_hang_kept(
                        held.words(),
                        zeroed,
                        self.words(),
                        table,
                        i as int,
                        fresh,
                        encoded(fresh, 0),
                    );
                    assert(hung(
                        held.words(),
                        self.words(),
                        held.nodes@,
                        held.pool@,
                        table,
                        i as int,
                        fresh,
                    ));
                    lemma_hung(
                        held.words(),
                        self.words(),
                        held.nodes@,
                        top,
                        held.pool@,
                        table,
                        i as int,
                        fresh,
                    );
                    lemma_unchanged(before, held, *self);
                    lemma_hung_owned(held, zeroed, table, i as int, fresh, *self);
                    lemma_confined(before, held, *self);
                    entry::lemma_zero();
                    entry::lemma_page(v, (at - 1) as nat);
                    assert(self.words()[slot(fresh, digit(v, (at - 1) as nat))] == 0);
                    assert(self.pool@ =~= before.pool@.take(self.pool@.len() as int));
                }
                table = fresh;
            } else if word & PTE_RWX != 0 {
                // Ranges are mapped once; splitting a leaf is unsupported.
                return Err(MappingError::Backend);
            } else {
                table = (word >> 10) << 12;
            }
            at = at - 1;
        }
        proof {
            entry::lemma_page(v, level as nat);
            entry::lemma_wrapped(va as int, level as nat, top);
            entry::lemma_leaf(pa, flags);
        }
        let ghost held = *self;
        let i: u64 = entry::index(va, level);
        assert(i == digit(v, level as nat));
        let place: u64 = table + 8 * i;
        assert(place == slot(table, i as int));
        let value: u64 = entry::pte(pa, flags);
        self.memory.store(place, value);
        self.nodes = Ghost(
            trimmed(held.nodes@, root, level as nat, held.nodes@[table].prefix * 512 + i),
        );
        proof {
            lemma_replaced(
                held.words(),
                self.words(),
                held.nodes@,
                top,
                held.pool@,
                table,
                i as int,
                value,
            );
            lemma_changed(before, held, *self, root, va, level as nat, value);
            lemma_stored_owned(held, table, i as int, value, *self);
            lemma_confined(before, held, *self);
        }
        Ok(())
    }
}

impl<M: Memory> Tables<M> {
    /// The table at `level` on the way to `va`, if pointers lead there, and
    /// the walk from there on.
    fn find_table(&self, root: u64, va: u64, level: usize) -> (table: Option<u64>)
        requires
            self.wf(),
            self.is_root(root),
            level <= self.top,
        ensures
            match table {
                Some(table) => {
                    &&& self.nodes@.contains_key(table)
                    &&& self.nodes@[table] == (Node {
                        root,
                        level: level as nat,
                        prefix: page(self.low(va), level as nat + 1),
                    })
                    &&& self.translate(root, va) == walk(
                        self.words(),
                        table,
                        level as nat,
                        self.low(va),
                    )
                },
                None => self.translate(root, va) matches Some((_, found)) ==> found > level,
            },
    {
        let ghost top = self.top as nat;
        let ghost v = self.low(va);
        proof {
            lemma_low(va, top);
            lemma_within(v, top);
        }
        let mut table: u64 = root;
        let mut at: usize = self.top;
        while at > level
            invariant
                self.wf(),
                top == self.top,
                level <= at <= top,
                v == self.low(va),
                0 <= v < reach(top),
                self.nodes@.contains_key(table),
                self.nodes@[table] == (Node { root, level: at as nat, prefix: page(v, at as nat + 1) }),
                self.translate(root, va) == walk(self.words(), table, at as nat, v),
            decreases at,
        {
            proof {
                entry::lemma_page(v, at as nat);
                entry::lemma_wrapped(va as int, at as nat, top);
            }
            let i: u64 = entry::index(va, at);
            let place: u64 = table + 8 * i;
            assert(place == slot(table, i as int));
            let word: u64 = self.memory.load(place);
            if word & PTE_V == 0 || word & PTE_RWX != 0 {
                return None;
            }
            table = (word >> 10) << 12;
            at = at - 1;
        }
        Some(table)
    }

    /// Invalidates the leaf covering `va`, refusing anything but a leaf at
    /// `level`.
    ///
    /// A larger leaf higher up covers the address too, and clearing it would
    /// revoke addresses nobody asked about; that is [`ViewError::Absent`]
    /// rather than a silent over-revoke, because the caller asked about a range
    /// it does not own alone.
    pub fn unmap_leaf(&mut self, root: u64, va: u64, level: usize) -> (done: Result<(), ViewError>)
        requires
            old(self).wf(),
            old(self).is_root(root),
            level <= old(self).top,
        ensures
            final(self).wf(),
            final(self).pool == old(self).pool,
            old(self).confined(*final(self)),
            if old(self).translate(root, va) matches Some((_, found)) && found == level {
                &&& done == Ok::<(), ViewError>(())
                &&& old(self).changed(root, va, level as nat, None, *final(self))
            } else {
                &&& done == Err::<(), ViewError>(ViewError::Absent)
                &&& *final(self) == *old(self)
            },
    {
        let ghost v = self.low(va);
        let table: u64 = match self.find_table(root, va, level) {
            Some(table) => table,
            None => return Err(ViewError::Absent),
        };
        proof {
            lemma_low(va, self.top as nat);
            entry::lemma_page(v, level as nat);
            entry::lemma_wrapped(va as int, level as nat, self.top as nat);
        }
        let i: u64 = entry::index(va, level);
        let place: u64 = table + 8 * i;
        assert(place == slot(table, i as int));
        let word: u64 = self.memory.load(place);
        if word & PTE_V == 0 || word & PTE_RWX == 0 {
            proof {
                if is_pointer(word) && level > 0 {
                    lemma_walk_below(self.words(), target(word), (level - 1) as nat, v);
                }
            }
            return Err(ViewError::Absent);
        }
        self.clear(root, va, level, table, i);
        Ok(())
    }

    /// Empties entry `i` of the table at `level` on the way to `va`.
    fn clear(&mut self, root: u64, va: u64, level: usize, table: u64, i: u64)
        requires
            old(self).wf(),
            old(self).is_root(root),
            level <= old(self).top,
            old(self).nodes@.contains_key(table),
            old(self).nodes@[table] == (Node {
                root,
                level: level as nat,
                prefix: page(old(self).low(va), level as nat + 1),
            }),
            i == digit(old(self).low(va), level as nat),
            i < 512,
        ensures
            final(self).wf(),
            final(self).pool == old(self).pool,
            old(self).confined(*final(self)),
            old(self).changed(root, va, level as nat, None, *final(self)),
    {
        let ghost before = *self;
        let place: u64 = table + 8 * i;
        assert(place == slot(table, i as int));
        self.memory.store(place, 0);
        self.nodes = Ghost(
            trimmed(before.nodes@, root, level as nat, before.nodes@[table].prefix * 512 + i),
        );
        proof {
            lemma_low(va, before.top as nat);
            entry::lemma_zero();
            entry::lemma_page(before.low(va), level as nat);
            lemma_replaced(
                before.words(),
                self.words(),
                before.nodes@,
                before.top as nat,
                before.pool@,
                table,
                i as int,
                0,
            );
            lemma_changed(before, before, *self, root, va, level as nat, 0);
            lemma_stored_owned(before, table, i as int, 0, *self);
        }
    }

    /// Clears the level-0 leaf that translates `va`, if one does.
    pub fn clear_leaf(&mut self, root: u64, va: u64)
        requires
            old(self).wf(),
            old(self).is_root(root),
        ensures
            final(self).wf(),
            final(self).pool == old(self).pool,
            old(self).confined(*final(self)),
            if old(self).translate(root, va) matches Some((_, found)) && found == 0 {
                old(self).changed(root, va, 0, None, *final(self))
            } else {
                old(self).unchanged(*final(self))
            },
    {
        let ghost before = *self;
        if let Some(table) = self.find_table(root, va, 0) {
            proof {
                lemma_low(va, self.top as nat);
                entry::lemma_page(self.low(va), 0);
                entry::lemma_wrapped(va as int, 0, self.top as nat);
            }
            let i: u64 = entry::index(va, 0);
            self.clear(root, va, 0, table, i);
            proof {
                assert(before.changed(root, va, 0, None, *self));
                if before.translate(root, va) is None {
                    assert forall|r: u64, other: u64|
                        before.is_root(r) implies #[trigger] self.translate(r, other)
                        == before.translate(r, other) by {
                        if r == root && before.same_page(other, va, 0) {
                            lemma_low(other, before.top as nat);
                            lemma_page_shared(before, root, va, other, table);
                        }
                    }
                }
            }
        }
    }

    /// The leaf entry, and its level, that the tree at `root` translates `va`
    /// through.
    pub fn lookup(&self, root: u64, va: u64) -> (leaf: Option<(u64, usize)>)
        requires
            self.wf(),
            self.is_root(root),
        ensures
            match leaf {
                Some((entry, level)) => level <= self.top && self.translate(root, va) == Some(
                    (entry, level as nat),
                ),
                None => self.translate(root, va) is None,
            },
    {
        let ghost top = self.top as nat;
        let ghost v = self.low(va);
        proof {
            lemma_low(va, top);
            lemma_within(v, top);
        }
        let mut table: u64 = root;
        let mut level: usize = self.top;
        loop
            invariant
                self.wf(),
                top == self.top,
                level <= top,
                v == self.low(va),
                0 <= v < reach(top),
                self.nodes@.contains_key(table),
                self.nodes@[table] == (Node {
                    root,
                    level: level as nat,
                    prefix: page(v, level as nat + 1),
                }),
                self.translate(root, va) == walk(self.words(), table, level as nat, v),
            decreases level,
        {
            proof {
                entry::lemma_page(v, level as nat);
                entry::lemma_wrapped(va as int, level as nat, top);
            }
            let i: u64 = entry::index(va, level);
            let place: u64 = table + 8 * i;
            assert(place == slot(table, i as int));
            let word: u64 = self.memory.load(place);
            if word & PTE_V == 0 {
                return None;
            }
            if word & PTE_RWX != 0 {
                return Some((word, level));
            }
            if level == 0 {
                return None;
            }
            table = (word >> 10) << 12;
            level = level - 1;
        }
    }
}

/// What is confined twice is confined.
pub proof fn lemma_confined<M: Memory>(before: Tables<M>, held: Tables<M>, after: Tables<M>)
    requires
        before.confined(held),
        held.confined(after),
    ensures
        before.confined(after),
{
    assert forall|f: u64| #[trigger] after.owns(f) implies before.owns(f) by {
        assert(held.owns(f));
    }
    assert forall|f: u64, j: int|
        #![trigger after.words()[slot(f, j)]]
        f as int % 4096 == 0 && 0 <= j < 512 && !before.owns(f) implies after.words()[slot(f, j)]
        == before.words()[slot(f, j)] by {
        assert(!held.owns(f));
        assert(held.words()[slot(f, j)] == before.words()[slot(f, j)]);
    }
}

/// Clearing the frame the pool gave, and making it a table or not, is confined.
pub proof fn lemma_drawn_owned<M: Memory>(before: Tables<M>, frame: u64, after: Tables<M>)
    requires
        before.pool@.len() > 0,
        frame == before.pool@.last(),
        after.pool@ == before.pool@.drop_last(),
        forall|f: u64| #[trigger]
            after.nodes@.contains_key(f) ==> before.nodes@.contains_key(f) || f == frame,
        after.words().dom() == before.words().dom(),
        forall|g: u64, j: int|
            #![trigger after.words()[slot(g, j)]]
            g as int % 4096 == 0 && 0 <= j < 512 && g != frame ==> after.words()[slot(g, j)]
                == before.words()[slot(g, j)],
    ensures
        before.confined(after),
{
    assert(before.pool@.contains(frame)) by {
        assert(before.pool@[before.pool@.len() - 1] == frame);
    }
    assert forall|f: u64| #[trigger] after.owns(f) implies before.owns(f) by {
        if after.pool@.contains(f) {
            let k = choose|k: int| 0 <= k < after.pool@.len() && after.pool@[k] == f;
            assert(before.pool@[k] == f);
        }
    }
    assert(before.owns(frame));
}

/// Hanging the frame the pool gave from a table is confined.
proof fn lemma_hung_owned<M: Memory>(
    before: Tables<M>,
    zeroed: Map<u64, u64>,
    table: u64,
    i: int,
    fresh: u64,
    after: Tables<M>,
)
    requires
        before.wf(),
        before.pool@.len() > 0,
        fresh == before.pool@.last(),
        after.pool@ == before.pool@.drop_last(),
        before.nodes@.contains_key(table),
        0 <= i < 512,
        zeroed.dom() == before.words().dom(),
        forall|g: u64, j: int|
            #![trigger zeroed[slot(g, j)]]
            g as int % 4096 == 0 && 0 <= j < 512 && g != fresh ==> zeroed[slot(g, j)]
                == before.words()[slot(g, j)],
        after.words() == zeroed.insert(slot(table, i), encoded(fresh, 0)),
        after.nodes@ == before.nodes@.insert(fresh, child(before.nodes@, table, i)),
    ensures
        before.confined(after),
{
    assert(backed(before.words(), table));
    assert(before.pool@.contains(fresh)) by {
        assert(before.pool@[before.pool@.len() - 1] == fresh);
    }
    assert(before.owns(fresh));
    assert(before.owns(table));
    assert forall|f: u64| #[trigger] after.owns(f) implies before.owns(f) by {
        if after.pool@.contains(f) {
            let k = choose|k: int| 0 <= k < after.pool@.len() && after.pool@[k] == f;
            assert(before.pool@[k] == f);
        }
    }
    assert(after.words().dom() =~= before.words().dom());
    assert forall|f: u64, j: int|
        #![trigger after.words()[slot(f, j)]]
        f as int % 4096 == 0 && 0 <= j < 512 && !before.owns(f) implies after.words()[slot(f, j)]
        == before.words()[slot(f, j)] by {
        if slot(f, j) == slot(table, i) {
            lemma_slots(f, j, table, i);
        }
        assert(zeroed[slot(f, j)] == before.words()[slot(f, j)]);
    }
}

/// Writing one entry of a table is confined.
proof fn lemma_stored_owned<M: Memory>(
    before: Tables<M>,
    table: u64,
    i: int,
    value: u64,
    after: Tables<M>,
)
    requires
        before.wf(),
        after.pool == before.pool,
        before.nodes@.contains_key(table),
        0 <= i < 512,
        after.words() == before.words().insert(slot(table, i), value),
        forall|f: u64| #[trigger] after.nodes@.contains_key(f) ==> before.nodes@.contains_key(f),
    ensures
        before.confined(after),
{
    assert(backed(before.words(), table));
    assert(before.owns(table));
    assert forall|f: u64| #[trigger] after.owns(f) implies before.owns(f) by {}
    assert(after.words().dom() =~= before.words().dom());
    assert forall|f: u64, j: int|
        #![trigger after.words()[slot(f, j)]]
        f as int % 4096 == 0 && 0 <= j < 512 && !before.owns(f) implies after.words()[slot(f, j)]
        == before.words()[slot(f, j)] by {
        if slot(f, j) == slot(table, i) {
            lemma_slots(f, j, table, i);
        }
    }
}

/// A walk finds no leaf above where it starts.
proof fn lemma_walk_below(words: Map<u64, u64>, frame: u64, level: nat, va: int)
    ensures
        walk(words, frame, level, va) matches Some((_, found)) ==> found <= level,
    decreases level,
{
    let word = words[slot(frame, digit(va, level))];
    if is_pointer(word) && level > 0 {
        lemma_walk_below(words, target(word), (level - 1) as nat, va);
    }
}

/// A table is lacking unless a larger leaf is in the way, and never more than
/// one a level.
pub proof fn lemma_gap(words: Map<u64, u64>, frame: u64, level: nat, va: int, to: nat)
    ensures
        gap(words, frame, level, va, to) is None <==> (walk(words, frame, level, va) matches Some(
            (_, found),
        ) && found > to),
        gap(words, frame, level, va, to) matches Some(tables) ==> tables == 0 || tables <= level
            - to,
    decreases level,
{
    lemma_walk_below(words, frame, level, va);
    if level > to {
        let word = words[slot(frame, digit(va, level))];
        if is_pointer(word) {
            lemma_gap(words, target(word), (level - 1) as nat, va, to);
        }
    }
}

/// The way to `other` has the tables it shares with the way to `va`, which ends
/// in a leaf below the page they share.
pub proof fn lemma_gap_shared(
    words: Map<u64, u64>,
    frame: u64,
    level: nat,
    va: int,
    other: int,
    shared: nat,
    to: nat,
)
    requires
        va >= 0,
        other >= 0,
        1 <= shared <= level + 1,
        page(va, shared) == page(other, shared),
        walk(words, frame, level, va) matches Some((_, found)) && found < shared,
    ensures
        gap(words, frame, level, other, to) matches Some(tables) ==> tables == 0 || tables < shared
            - to,
    decreases level,
{
    lemma_gap(words, frame, level, other, to);
    if level >= shared {
        lemma_page_above(va, other, shared, level);
        lemma_walk_below(words, frame, level, va);
        let word = words[slot(frame, digit(va, level))];
        lemma_gap_shared(words, target(word), (level - 1) as nat, va, other, shared, to);
    }
}

/// A leaf translates every address of its page.
pub proof fn lemma_translate_page<M: Memory>(tables: Tables<M>, root: u64, va: u64)
    requires
        tables.wf(),
        tables.is_root(root),
        tables.translate(root, va) is Some,
    ensures
        ({
            let level = (tables.translate(root, va)->0).1;
            &&& level <= tables.top
            &&& forall|other: u64|
                tables.same_page(other, va, level) ==> #[trigger] tables.translate(root, other)
                    == tables.translate(root, va)
        }),
{
    let top = tables.top as nat;
    lemma_walk_below(tables.words(), root, top, tables.low(va));
    let level = (tables.translate(root, va)->0).1;
    lemma_low(va, top);
    assert forall|other: u64| tables.same_page(other, va, level) implies #[trigger] tables.translate(
        root,
        other,
    ) == tables.translate(root, va) by {
        lemma_low(other, top);
        lemma_walk_shared(tables.words(), root, top, tables.low(va), tables.low(other), level);
    }
}

/// Addresses that share a page share the way to its leaf.
proof fn lemma_walk_shared(
    words: Map<u64, u64>,
    frame: u64,
    level: nat,
    va: int,
    other: int,
    to: nat,
)
    requires
        va >= 0,
        other >= 0,
        to <= level,
        page(va, to) == page(other, to),
        walk(words, frame, level, va) matches Some((_, found)) && found == to,
    ensures
        walk(words, frame, level, other) == walk(words, frame, level, va),
    decreases level,
{
    lemma_page_above(va, other, to, level);
    let word = words[slot(frame, digit(va, level))];
    if is_pointer(word) && level > 0 {
        lemma_walk_below(words, target(word), (level - 1) as nat, va);
        lemma_walk_shared(words, target(word), (level - 1) as nat, va, other, to);
    }
}

/// A page of an address a tree tells apart lies within its reach.
pub proof fn lemma_page_within(va: int, level: nat, top: nat)
    requires
        0 <= va < reach(top),
        level <= top,
    ensures
        va - va % span(level) + span(level) <= reach(top),
{
    entry::lemma_span(level);
    entry::lemma_reach_divides(level, top);
    let s = span(level);
    let m = choose|m: int| m > 0 && reach(top) == #[trigger] (m * (512 * s));
    vstd::arithmetic::div_mod::lemma_fundamental_div_mod(va, s);
    vstd::arithmetic::div_mod::lemma_mod_bound(va, s);
    let q = va / s;
    assert(q < 512 * m) by (nonlinear_arith)
        requires
            va == s * q + va % s,
            0 <= va % s,
            va < m * (512 * s),
            s > 0,
    ;
    assert((q + 1) * s <= m * (512 * s)) by (nonlinear_arith)
        requires
            q + 1 <= 512 * m,
            s > 0,
    ;
    assert(va - va % s + s == (q + 1) * s) by (nonlinear_arith)
        requires
            va == s * q + va % s,
    ;
}

/// Where one address of a level-0 page has no leaf, none of the page has.
proof fn lemma_page_shared<M: Memory>(
    tables: Tables<M>,
    root: u64,
    va: u64,
    other: u64,
    table: u64,
)
    requires
        tables.wf(),
        tables.is_root(root),
        tables.nodes@.contains_key(table),
        tables.nodes@[table] == (Node { root, level: 0, prefix: page(tables.low(va), 1) }),
        tables.same_page(other, va, 0),
        tables.translate(root, va) is None,
    ensures
        tables.translate(root, other) is None,
{
    let top = tables.top as nat;
    let v = tables.low(va);
    let o = tables.low(other);
    lemma_low(va, top);
    lemma_low(other, top);
    entry::lemma_page(v, 0);
    entry::lemma_page(o, 0);
    lemma_reaches(tables.words(), tables.nodes@, top, table, v);
    lemma_reaches(tables.words(), tables.nodes@, top, table, o);
    lemma_walk_descends(tables.words(), root, top, v, 0);
    lemma_walk_descends(tables.words(), root, top, o, 0);
}

/// The digits of an address a tree tells apart.
pub proof fn lemma_low(va: u64, top: nat)
    ensures
        0 <= va as int % reach(top) < reach(top),
{
    entry::lemma_span(top);
    vstd::arithmetic::div_mod::lemma_mod_bound(va as int, reach(top));
}

/// Zeroing a fresh frame and then setting one entry keeps everything else.
proof fn lemma_hang_kept(
    w1: Map<u64, u64>,
    zeroed: Map<u64, u64>,
    w2: Map<u64, u64>,
    t: u64,
    i: int,
    fresh: u64,
    value: u64,
)
    requires
        t as int % 4096 == 0,
        fresh as int % 4096 == 0,
        t != fresh,
        0 <= i < 512,
        zeroed.dom() == w1.dom(),
        w1.contains_key(slot(t, i)),
        forall|j: int| 0 <= j < 512 ==> zeroed[#[trigger] slot(fresh, j)] == 0,
        forall|g: u64, j: int|
            #![trigger zeroed[slot(g, j)]]
            g as int % 4096 == 0 && 0 <= j < 512 && g != fresh ==> zeroed[slot(g, j)] == w1[slot(
                g,
                j,
            )],
        w2 == zeroed.insert(slot(t, i), value),
    ensures
        kept(w1, w2, t, i, fresh),
        w2[slot(t, i)] == value,
        forall|j: int| 0 <= j < 512 ==> w2[#[trigger] slot(fresh, j)] == 0,
{
    assert(w2.dom() =~= w1.dom());
    assert forall|j: int| 0 <= j < 512 implies w2[#[trigger] slot(fresh, j)] == 0 by {
        if slot(fresh, j) == slot(t, i) {
            lemma_slots(fresh, j, t, i);
        }
    }
    assert forall|g: u64, j: int|
        #![trigger w2[slot(g, j)]]
        g as int % 4096 == 0 && 0 <= j < 512 && g != fresh && !(g == t && j == i) implies w2[slot(
        g,
        j,
    )] == w1[slot(g, j)] by {
        if slot(g, j) == slot(t, i) {
            lemma_slots(g, j, t, i);
        }
        assert(zeroed[slot(g, j)] == w1[slot(g, j)]);
    }
}

/// Trees that kept their walks kept their translations.
proof fn lemma_unchanged<M: Memory>(before: Tables<M>, held: Tables<M>, after: Tables<M>)
    requires
        before.unchanged(held),
        after.top == held.top,
        held.wf(),
        after.wf(),
        forall|f: u64| held.nodes@.contains_key(f) ==> #[trigger] after.nodes@.contains_key(f)
            && after.nodes@[f] == held.nodes@[f],
        forall|f: u64| #[trigger]
            after.nodes@.contains_key(f) && after.nodes@[f].level == after.top
                ==> held.nodes@.contains_key(f),
        forall|r: u64, va: int|
            roots(held.nodes@, held.top as nat, r) && 0 <= va < reach(held.top as nat)
                ==> #[trigger] walk(after.words(), r, held.top as nat, va) == walk(
                held.words(),
                r,
                held.top as nat,
                va,
            ),
    ensures
        before.unchanged(after),
{
    assert forall|r: u64| #[trigger] after.is_root(r) == before.is_root(r) by {
        assert(held.is_root(r) == before.is_root(r));
        if after.is_root(r) {
            assert(after.nodes@.contains_key(r));
        }
        if held.is_root(r) {
            assert(after.nodes@.contains_key(r));
        }
    }
    assert forall|r: u64, va: u64| before.is_root(r) implies #[trigger] after.translate(r, va)
        == before.translate(r, va) by {
        assert(held.is_root(r));
        lemma_low(va, held.top as nat);
        assert(walk(after.words(), r, held.top as nat, held.low(va)) == walk(
            held.words(),
            r,
            held.top as nat,
            held.low(va),
        ));
        assert(held.translate(r, va) == before.translate(r, va));
    }
}

/// One entry set changes the translation of its own addresses.
proof fn lemma_changed<M: Memory>(
    before: Tables<M>,
    held: Tables<M>,
    after: Tables<M>,
    root: u64,
    va: u64,
    level: nat,
    value: u64,
)
    requires
        before.unchanged(held),
        held.wf(),
        after.top == held.top,
        level <= held.top,
        held.is_root(root),
        after.nodes@ == trimmed(held.nodes@, root, level, page(held.low(va), level)),
        forall|r: u64, v: int|
            roots(held.nodes@, held.top as nat, r) && 0 <= v < reach(held.top as nat)
                ==> #[trigger] walk(after.words(), r, held.top as nat, v) == if r == root && page(
                v,
                level,
            ) == page(held.low(va), level) {
                set_to(value, level)
            } else {
                walk(held.words(), r, held.top as nat, v)
            },
    ensures
        before.changed(root, va, level, set_to(value, level), after),
{
    assert forall|r: u64| #[trigger] after.is_root(r) == before.is_root(r) by {
        assert(held.is_root(r) == before.is_root(r));
    }
    assert forall|r: u64, other: u64| before.is_root(r) implies #[trigger] after.translate(r, other)
        == if r == root && before.same_page(other, va, level) {
        set_to(value, level)
    } else {
        before.translate(r, other)
    } by {
        assert(held.is_root(r));
        lemma_low(other, held.top as nat);
        assert(walk(after.words(), r, held.top as nat, held.low(other)) == if r == root && page(
            held.low(other),
            level,
        ) == page(held.low(va), level) {
            set_to(value, level)
        } else {
            walk(held.words(), r, held.top as nat, held.low(other))
        });
        assert(held.translate(r, other) == before.translate(r, other));
    }
}

/// A frame that is no table may change without any tree noticing.
pub proof fn lemma_elsewhere(
    w1: Map<u64, u64>,
    w2: Map<u64, u64>,
    nodes: Map<u64, Node>,
    top: nat,
    pool: Seq<u64>,
    frame: u64,
)
    requires
        sound(w1, nodes, top, pool),
        pool.len() > 0,
        frame == pool.last(),
        w2.dom() == w1.dom(),
        forall|g: u64, j: int|
            #![trigger w2[slot(g, j)]]
            g as int % 4096 == 0 && 0 <= j < 512 && g != frame ==> w2[slot(g, j)] == w1[slot(g, j)],
    ensures
        sound(w2, nodes, top, pool.drop_last()),
        forall|r: u64, va: int|
            roots(nodes, top, r) && 0 <= va < reach(top) ==> #[trigger] walk(w2, r, top, va)
                == walk(w1, r, top, va),
{
    lemma_fresh(w1, nodes, pool, frame);
    assert(linked(w2, nodes)) by {
        assert forall|f: u64, j: int|
            #![trigger w2[slot(f, j)]]
            nodes.contains_key(f) && 0 <= j < 512 && is_pointer(w2[slot(f, j)]) implies {
            let next = target(w2[slot(f, j)]);
            &&& nodes[f].level > 0
            &&& nodes.contains_key(next)
            &&& nodes[next] == Node {
                root: nodes[f].root,
                level: (nodes[f].level - 1) as nat,
                prefix: nodes[f].prefix * 512 + j,
            }
        } by {
            assert(w2[slot(f, j)] == w1[slot(f, j)]);
        }
    }
    assert(rooted(w2, nodes, top)) by {
        reveal(rooted);
        assert forall|f: u64| #[trigger]
            nodes.contains_key(f) && nodes[f].level < top implies exists|parent: u64| #[trigger]
            hangs(w2, nodes, f, parent) by {
            let parent = choose|parent: u64| #[trigger] hangs(w1, nodes, f, parent);
            assert(hangs(w1, nodes, f, parent));
            assert(w2[slot(parent, nodes[f].prefix % 512)] == w1[slot(
                parent,
                nodes[f].prefix % 512,
            )]);
            assert(hangs(w2, nodes, f, parent));
        }
    }
    assert(spare(w2, nodes, pool.drop_last())) by {
        assert forall|k: int| 0 <= k < pool.len() - 1 implies backed(
            w2,
            #[trigger] pool.drop_last()[k],
        ) && !nodes.contains_key(pool.drop_last()[k]) by {
            assert(pool.drop_last()[k] == pool[k]);
        }
    }
    assert forall|r: u64, va: int| roots(nodes, top, r) && 0 <= va < reach(top) implies #[trigger] walk(
        w2,
        r,
        top,
        va,
    ) == walk(w1, r, top, va) by {
        lemma_within(va, top);
        lemma_unaffected(nodes, top, w1, w2, r, va, frame, 0);
    }
}

/// Trees whose walks are as they were translate as they did.
pub proof fn lemma_same_walks<M: Memory>(before: Tables<M>, after: Tables<M>)
    requires
        after.top == before.top,
        after.nodes@ == before.nodes@,
        forall|r: u64, va: int|
            roots(before.nodes@, before.top as nat, r) && 0 <= va < reach(before.top as nat)
                ==> #[trigger] walk(after.words(), r, before.top as nat, va) == walk(
                before.words(),
                r,
                before.top as nat,
                va,
            ),
    ensures
        before.unchanged(after),
{
    assert forall|r: u64, va: u64| before.is_root(r) implies #[trigger] after.translate(r, va)
        == before.translate(r, va) by {
        lemma_low(va, before.top as nat);
        assert(walk(after.words(), r, before.top as nat, before.low(va)) == walk(
            before.words(),
            r,
            before.top as nat,
            before.low(va),
        ));
    }
}

/// A fresh root changes no other tree.
proof fn lemma_opened(
    w1: Map<u64, u64>,
    w2: Map<u64, u64>,
    nodes: Map<u64, Node>,
    top: nat,
    pool: Seq<u64>,
    root: u64,
)
    requires
        sound(w1, nodes, top, pool),
        pool.len() > 0,
        root == pool.last(),
        w2.dom() == w1.dom(),
        forall|j: int| 0 <= j < 512 ==> w2[#[trigger] slot(root, j)] == 0,
        forall|g: u64, j: int|
            #![trigger w2[slot(g, j)]]
            g as int % 4096 == 0 && 0 <= j < 512 && g != root ==> w2[slot(g, j)] == w1[slot(g, j)],
    ensures
        sound(
            w2,
            nodes.insert(root, Node { root, level: top, prefix: 0 }),
            top,
            pool.drop_last(),
        ),
        forall|r: u64, va: int|
            roots(nodes, top, r) && 0 <= va < reach(top) ==> #[trigger] walk(w2, r, top, va)
                == walk(w1, r, top, va),
{
    let node = Node { root, level: top, prefix: 0 };
    let after = nodes.insert(root, node);
    lemma_fresh(w1, nodes, pool, root);
    entry::lemma_zero();
    assert(linked(w2, after)) by {
        assert forall|f: u64, j: int|
            #![trigger w2[slot(f, j)]]
            after.contains_key(f) && 0 <= j < 512 && is_pointer(w2[slot(f, j)]) implies {
            let next = target(w2[slot(f, j)]);
            &&& after[f].level > 0
            &&& after.contains_key(next)
            &&& after[next] == Node {
                root: after[f].root,
                level: (after[f].level - 1) as nat,
                prefix: after[f].prefix * 512 + j,
            }
        } by {
            if f == root {
                assert(w2[slot(root, j)] == 0);
            } else {
                assert(nodes.contains_key(f));
                assert(w2[slot(f, j)] == w1[slot(f, j)]);
            }
        }
    }
    assert(rooted(w2, after, top)) by {
        reveal(rooted);
        assert forall|f: u64| #[trigger]
            after.contains_key(f) && after[f].level < top implies exists|parent: u64| #[trigger]
            hangs(w2, after, f, parent) by {
            assert(nodes.contains_key(f));
            let parent = choose|parent: u64| #[trigger] hangs(w1, nodes, f, parent);
            assert(hangs(w1, nodes, f, parent));
            assert(w2[slot(parent, nodes[f].prefix % 512)] == w1[slot(
                parent,
                nodes[f].prefix % 512,
            )]);
            assert(hangs(w2, after, f, parent));
        }
    }
    assert(distinct(after)) by {
        assert forall|f: u64, g: u64|
            #![trigger after[f], after[g]]
            after.contains_key(f) && after.contains_key(g) && after[f] == after[g] implies f == g by {
            if f != root && g != root {
                assert(nodes[f] == nodes[g]);
            } else if f != root {
                assert(nodes.contains_key(f));
            } else if g != root {
                assert(nodes.contains_key(g));
            }
        }
    }
    assert(spare(w2, after, pool.drop_last())) by {
        assert forall|k: int| 0 <= k < pool.len() - 1 implies backed(
            w2,
            #[trigger] pool.drop_last()[k],
        ) && !after.contains_key(pool.drop_last()[k]) by {
            assert(pool.drop_last()[k] == pool[k]);
        }
    }
    assert forall|r: u64, va: int| roots(nodes, top, r) && 0 <= va < reach(top) implies #[trigger] walk(
        w2,
        r,
        top,
        va,
    ) == walk(w1, r, top, va) by {
        lemma_within(va, top);
        lemma_unaffected(nodes, top, w1, w2, r, va, root, 0);
    }
}

/// The nine bits of an address that a level looks at.
pub open spec fn vpn(va: int, level: nat) -> int {
    if level == 0 {
        va / 4096 % 512
    } else if level == 1 {
        va / 2097152 % 512
    } else if level == 2 {
        va / 1073741824 % 512
    } else if level == 3 {
        va / 549755813888 % 512
    } else {
        va / 281474976710656 % 512
    }
}

/// What a hart finds at an address, by the numbers: each table is 512 words, the
/// word an address picks holds if it is odd, is a leaf if any of the next three
/// bits is set, and else says which frame is the next table.
pub open spec fn resolved(words: Map<u64, u64>, table: int, level: nat, va: int) -> Option<
    (u64, nat),
>
    decreases level,
{
    let entry = words[(table + 8 * vpn(va, level)) as u64];
    if entry % 2 == 0 {
        None
    } else if entry / 2 % 8 != 0 {
        Some((entry, level))
    } else if level == 0 {
        None
    } else {
        resolved(
            words,
            entry as int / 1024 % 0x10_0000_0000_0000 * 4096,
            (level - 1) as nat,
            va,
        )
    }
}

/// A tree translates an address through the leaf a hart finds for it, level by
/// level from the root down.
pub proof fn law_trees_translate_as_a_hart_does(
    words: Map<u64, u64>,
    table: u64,
    level: nat,
    va: int,
)
    requires
        level <= 4,
        va >= 0,
    ensures
        walk(words, table, level, va) == resolved(words, table as int, level, va),
    decreases level,
{
    entry::law_levels_in_numbers(va);
    let word = words[slot(table, digit(va, level))];
    entry::law_entry_reads_in_numbers(word);
    assert(digit(va, level) == vpn(va, level));
    if level > 0 {
        law_trees_translate_as_a_hart_does(words, target(word), (level - 1) as nat, va);
    }
}

} // verus!
