//! From a pool of frames to the address space the kernel runs in.
//!
//! The boot tree is built three levels deep, with a spare root for every depth
//! a hart may take. Writing `satp` and reading it back is the hart's business:
//! [`wanted`] says what to write for a mode, the widest mode that reads back
//! is the one to keep, and [`Tables::enable`] makes its root the kernel's.
use vstd::prelude::*;

use crate::arch::{MappedRange, MappingError, PlatformError};
use crate::memory::Memory;
use crate::riscv::boot::{
    assigned, boot_log, boot_plan, boot_runs, crossed, lemma_tables_of, misplaced, reachable, tables_of,
    Image, BUILD_LEVEL,
};
use crate::riscv::entry::reach;
use crate::riscv::mappings::{MappingLog, CAPACITY};
use crate::riscv::paging::{Paging, DEVICE_REGION};
use crate::riscv::raise::tops;
use crate::riscv::range::identity;
use crate::riscv::satp::{self, Mode, Tag};
use crate::riscv::table::{self, hangs, rooted, sound, Node, Tables};

verus! {

/// Where physical addresses end.
pub const PHYSICAL_END: u64 = 0x100_0000_0000_0000;

/// Which of the three roots a mode takes.
pub open spec fn depth(mode: Mode) -> int {
    mode.width() / 9 - 2 - BUILD_LEVEL
}

/// With one root there is one tree.
proof fn lemma_one_tree(words: Map<u64, u64>, nodes: Map<u64, Node>, top: nat, pool: Seq<u64>, root: u64, f: u64)
    requires
        sound(words, nodes, top, pool),
        forall|r: u64| #[trigger]
            nodes.contains_key(r) && nodes[r].level == top ==> r == root,
        nodes.contains_key(f),
    ensures
        nodes[f].root == root,
    decreases top - nodes[f].level,
{
    reveal(rooted);
    if nodes[f].level < top {
        let parent = choose|parent: u64| #[trigger] hangs(words, nodes, f, parent);
        assert(hangs(words, nodes, f, parent));
        lemma_one_tree(words, nodes, top, pool, root, parent);
    }
}

/// The `satp` that translates through the root `mode` takes.
pub fn wanted(candidates: [u64; 3], mode: Mode) -> (satp: u64)
    requires
        forall|i: int| 0 <= i < 3 ==> #[trigger] candidates@[i] < PHYSICAL_END,
    ensures
        satp == satp::composed(mode, 0, candidates@[depth(mode)]),
{
    let root: u64 = match mode {
        Mode::Sv39 => candidates[0],
        Mode::Sv48 => candidates[1],
        Mode::Sv57 => candidates[2],
    };
    satp::compose(mode, 0, root)
}

impl<M: Memory> Tables<M> {
    /// One tree, rooted at each depth a hart may take.
    pub open spec fn pending(&self, candidates: [u64; 3]) -> bool {
        &&& self.wf()
        &&& self.top == BUILD_LEVEL
        &&& self.is_root(candidates@[0])
        &&& forall|r: u64| #[trigger] self.is_root(r) ==> r == candidates@[0]
        &&& tops(self.words(), candidates@[1], candidates@[0])
        &&& tops(self.words(), candidates@[2], candidates@[1])
        &&& self.unused(candidates@[1])
        &&& self.unused(candidates@[2])
        &&& candidates@[1] != candidates@[2]
        &&& forall|i: int| 0 <= i < 3 ==> #[trigger] candidates@[i] < PHYSICAL_END
    }

    /// Why there is no boot tree: no frame for its root, a run that could not
    /// be mapped or declared, or no two frames for the roots above.
    pub open spec fn failed(
        &self,
        image: Image,
        ranges: Seq<(u64, u64)>,
        after: Self,
        log: Seq<MappedRange>,
        error: PlatformError,
    ) -> bool {
        let short = PlatformError::Mapping(MappingError::OutOfFrames);
        let root = self.pool@.last();
        let runs = boot_runs(image, ranges, ranges.len() as int);
        let declared = boot_log(image, ranges, ranges.len() as int);
        ||| {
            &&& self.pool@.len() == 0
            &&& error == short
            &&& after == *self
            &&& log.len() == 0
        }
        ||| exists|opened: Self|
            {
                &&& #[trigger] self.sprouted(root, opened)
                &&& opened.built(root, runs, declared, after, log, Err(error))
            }
        ||| exists|opened: Self, built: Self|
            {
                &&& #[trigger] self.sprouted(root, opened)
                &&& #[trigger] opened.built(root, runs, declared, built, log, Ok(()))
                &&& built.pool@.len() < 2
                &&& error == short
                &&& built.unchanged(after)
                &&& after.pool@.len() == 0
            }
    }

    /// Builds the boot tree: the image and all usable RAM mapped to
    /// themselves, and a root for every depth.
    pub fn init(&mut self, log: &mut MappingLog, image: Image, ranges: &[(u64, u64)]) -> (done: Result<
        [u64; 3],
        PlatformError,
    >)
        requires
            old(self).wf(),
            old(self).nodes@ == Map::<u64, Node>::empty(),
            old(self).top == BUILD_LEVEL,
            forall|k: int|
                0 <= k < old(self).pool@.len() ==> #[trigger] old(self).pool@[k] < PHYSICAL_END,
            old(log)@.len() == 0,
            reachable(image, ranges@, BUILD_LEVEL as nat),
        ensures
            final(self).wf(),
            old(self).confined(*final(self)),
            match done {
                Ok(candidates) => {
                    &&& final(self).pending(candidates)
                    &&& !misplaced(image, ranges@)
                    &&& candidates@[0] == old(self).pool@.last()
                    &&& exists|opened: Self, built: Self|
                        {
                            &&& #[trigger] old(self).sprouted(candidates@[0], opened)
                            &&& #[trigger] opened.built(
                                candidates@[0],
                                boot_runs(image, ranges@, ranges@.len() as int),
                                boot_log(image, ranges@, ranges@.len() as int),
                                built,
                                final(log)@,
                                Ok(()),
                            )
                            &&& built.pool@.len() >= 2
                            &&& candidates@[1] == built.pool@.last()
                            &&& candidates@[2] == built.pool@[built.pool@.len() - 2]
                            &&& final(self).pool@ == built.pool@.take(built.pool@.len() - 2)
                        }
                    &&& final(log)@ == boot_log(image, ranges@, ranges@.len() as int)
                    &&& forall|va: u64|
                        #![trigger final(self).translate(candidates@[0], va)]
                        match assigned(
                            boot_plan(image, ranges@, ranges@.len() as int),
                            final(self).low(va),
                        ) {
                            Some(flags) => identity(
                                final(self).translate(candidates@[0], va),
                                final(self).low(va),
                                flags,
                            ),
                            None => final(self).translate(candidates@[0], va) is None,
                        }
                },
                Err(error) => old(self).failed(image, ranges@, *final(self), final(log)@, error),
            },
            done is Err ==> {
                let runs = boot_runs(image, ranges@, ranges@.len() as int);
                ||| misplaced(image, ranges@)
                ||| ranges@.len() + 3 > CAPACITY
                ||| old(self).pool@.len() < 3 + tables_of(runs, BUILD_LEVEL as nat)
                ||| crossed(runs)
            },
    {
        let ghost before = *self;
        proof {
            lemma_tables_of(boot_runs(image, ranges@, ranges@.len() as int), BUILD_LEVEL as nat, 0);
        }
        let root: u64 = match self.open_root() {
            Ok(root) => root,
            Err(error) => return Err(PlatformError::Mapping(error)),
        };
        let ghost opened = *self;
        let ghost runs = boot_runs(image, ranges@, ranges@.len() as int);
        proof {
            assert(!opened.occupied(root, runs)) by {
                assert forall|va: u64| !opened.blocked(root, va, 0) by {
                    assert(opened.translate(root, va) is None);
                }
            }
        }
        let done = self.build(root, log, image, ranges);
        let ghost built = *self;
        proof {
            table::lemma_confined(before, opened, built);
        }
        done?;
        proof {
            assert(opened.is_root(root));
            assert(built.is_root(root) == opened.is_root(root));
        }
        let candidates = self.candidates(root);
        proof {
            table::lemma_confined(before, built, *self);
        }
        let candidates: [u64; 3] = match candidates {
            Ok(candidates) => candidates,
            Err(error) => return Err(PlatformError::Mapping(error)),
        };
        proof {
            assert forall|r: u64| #[trigger] self.is_root(r) implies r == root by {
                assert(built.is_root(r) == opened.is_root(r));
                assert(self.is_root(r) == built.is_root(r));
            }
            assert(self.is_root(root) == built.is_root(root));
            assert forall|va: u64|
                #![trigger self.translate(root, va)]
                match assigned(
                    boot_plan(image, ranges@, ranges@.len() as int),
                    self.low(va),
                ) {
                    Some(flags) => identity(self.translate(root, va), self.low(va), flags),
                    None => self.translate(root, va) is None,
                } by {
                assert(self.translate(root, va) == built.translate(root, va));
                assert(opened.translate(root, va) is None);
                assert(self.low(va) == opened.low(va));
            }
        }
        Ok(candidates)
    }

    /// The address space of a hart that kept `mode`, and read back `tagged`
    /// when every tag bit was written.
    pub fn enable(self, log: MappingLog, candidates: [u64; 3], mode: Mode, tagged: u64) -> (paging:
        Paging<M>)
        requires
            self.pending(candidates),
        ensures
            paging.wf(),
            paging.mode == mode,
            paging.root == candidates@[depth(mode)],
            paging.asid_bits == satp::trailing_ones(Tag::read(tagged) as nat),
            paging.log == log,
            paging.devices == DEVICE_REGION,
            forall|i: int| 0 <= i < 8 ==> #[trigger] paging.views@[i] is None,
            paging.tables.pool == self.pool,
            paging.tables.memory == self.memory,
            forall|r: u64| #[trigger] paging.tables.is_root(r) <==> r == paging.root,
            forall|va: u64|
                va < reach(BUILD_LEVEL as nat) ==> #[trigger] paging.tables.translate(
                    paging.root,
                    va,
                ) == self.translate(candidates@[0], va),
            forall|va: u64|
                reach(BUILD_LEVEL as nat) <= va < reach(paging.tables.top as nat)
                    ==> #[trigger] paging.tables.translate(paging.root, va) is None,
    {
        let mut tables = self;
        proof {
            assert forall|f: u64| #[trigger] tables.nodes@.contains_key(f) implies tables.nodes@[f].root
                == candidates@[0] by {
                assert forall|r: u64| #[trigger]
                    tables.nodes@.contains_key(r) && tables.nodes@[r].level
                        == tables.top implies r == candidates@[0] by {
                    assert(tables.is_root(r));
                }
                lemma_one_tree(
                    tables.words(),
                    tables.nodes@,
                    tables.top as nat,
                    tables.pool@,
                    candidates@[0],
                    f,
                );
            }
        }
        let root: u64 = tables.deepen(candidates, mode);
        Paging {
            tables,
            root,
            mode,
            asid_bits: Tag::width(tagged),
            log,
            devices: DEVICE_REGION,
            views: [None; 8],
        }
    }
}

/// Each mode has a root of its own among the candidates: the table that was
/// built for three levels, the one above it for four, the one above that for
/// five.
pub proof fn law_wider_modes_root_higher()
    ensures
        depth(Mode::Sv39) == 0,
        depth(Mode::Sv48) == 1,
        depth(Mode::Sv57) == 2,
        BUILD_LEVEL == 2,
{
}

} // verus!
