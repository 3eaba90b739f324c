//! Bringing the kernel's address space up, and proving it translates.
//!
//! The image and usable RAM are mapped to themselves, the tree is rooted as
//! deep as the hart turned out to allow, and one page is mapped, touched and
//! unmapped again to show that the tables are the ones the hardware walks.
use vstd::prelude::*;

use crate::align;
use crate::arch::{
    Contents, ImageSection, MappedRange, MappingError, PlatformError, Rights, Span,
};
use crate::frames;
use crate::riscv::entry::{
    self, encoded, reach, PTE_A, PTE_D, PTE_R, PTE_RWX, PTE_W, PTE_X,
};
use crate::riscv::mappings::{MappingLog, CAPACITY};
use crate::memory::Memory;
use crate::riscv::paging::{
    law_write_xor_execute, lemma_roots_kept, section_rights, Paging,
};
use crate::riscv::raise::tops;
use crate::riscv::range::{
    self, flags_for, identity, range_flags, tables_for, unplaced, Granularity, PAGE_4K,
};
use crate::riscv::satp::Mode;
use crate::riscv::table::{self, drawn, Tables};

verus! {

/// The level the tree is built at, before it is known how deep it may root.
pub const BUILD_LEVEL: usize = 2;

/// One run of addresses mapped to themselves.
pub struct Laid {
    pub from: int,
    pub to: int,
    pub flags: u64,
}

/// The flags the last run over `at` was mapped with.
pub open spec fn assigned(plan: Seq<Laid>, at: int) -> Option<u64>
    decreases plan.len(),
{
    if plan.len() == 0 {
        None
    } else if plan.last().from <= at < plan.last().to {
        Some(plan.last().flags)
    } else {
        assigned(plan.drop_last(), at)
    }
}

/// The image's sections, as they are mapped.
pub open spec fn section_plan(section: ImageSection, start: u64, end: u64) -> Laid {
    Laid {
        from: align::down(start as int, 4096),
        to: align::up(end as int, 4096),
        flags: range_flags(section_rights(section)),
    }
}

/// A run of RAM, as it is mapped.
pub open spec fn ram_plan(range: (u64, u64)) -> Laid {
    Laid {
        from: align::down(range.0 as int, 4096),
        to: align::up(range.1 as int, 4096),
        flags: range_flags(section_rights(ImageSection::Data)),
    }
}

/// How an image section is declared.
pub open spec fn section_declared(section: ImageSection, start: u64, end: u64) -> MappedRange {
    MappedRange {
        start: align::down(start as int, 4096) as u64,
        end: align::up(end as int, 4096) as u64,
        contents: Contents::Section(section),
    }
}

/// How a run of RAM is declared.
pub open spec fn ram_declared(range: (u64, u64)) -> MappedRange {
    MappedRange { start: range.0, end: range.1, contents: Contents::Ram }
}

/// Where the image's sections are.
#[derive(Clone, Copy, Debug, PartialEq, Eq)]
pub struct Image {
    pub text: (u64, u64),
    pub rodata: (u64, u64),
    pub data: (u64, u64),
}

/// Everything that is mapped: the image, then the first `n` runs of RAM.
pub open spec fn boot_plan(image: Image, ranges: Seq<(u64, u64)>, n: int) -> Seq<Laid> {
    seq![
        section_plan(ImageSection::Text, image.text.0, image.text.1),
        section_plan(ImageSection::Rodata, image.rodata.0, image.rodata.1),
        section_plan(ImageSection::Data, image.data.0, image.data.1),
    ] + Seq::new(n as nat, |i: int| ram_plan(ranges[i]))
}

/// One run of addresses to map: where from and to, and how.
pub struct Run {
    pub start: u64,
    pub end: u64,
    pub rights: u64,
    pub granularity: Granularity,
}

impl Run {
    /// The first address that is mapped.
    pub open spec fn from(self) -> int {
        align::down(self.start as int, 4096)
    }

    /// The address after the last that is mapped.
    pub open spec fn to(self) -> int {
        align::up(self.end as int, 4096)
    }

    pub open spec fn within(self, va: int) -> bool {
        self.from() <= va < self.to()
    }

    /// The run as it is mapped.
    pub open spec fn laid(self) -> Laid {
        Laid { from: self.from(), to: self.to(), flags: range_flags(self.rights) }
    }
}

/// A section of the image, which is mapped page by page.
pub open spec fn section_run(section: ImageSection, at: (u64, u64)) -> Run {
    Run {
        start: at.0,
        end: at.1,
        rights: section_rights(section),
        granularity: Granularity::Small,
    }
}

/// A run of RAM, which is mapped by leaves as large as they get.
pub open spec fn ram_run(range: (u64, u64)) -> Run {
    Run {
        start: range.0,
        end: range.1,
        rights: section_rights(ImageSection::Data),
        granularity: Granularity::LargeOk,
    }
}

/// Everything there is to map, in order: the image, then the first `n` runs of
/// RAM.
pub open spec fn boot_runs(image: Image, ranges: Seq<(u64, u64)>, n: int) -> Seq<Run> {
    seq![
        section_run(ImageSection::Text, image.text),
        section_run(ImageSection::Rodata, image.rodata),
        section_run(ImageSection::Data, image.data),
    ] + Seq::new(n as nat, |i: int| ram_run(ranges[i]))
}

/// How many tables mapping some runs may take.
pub open spec fn tables_of(runs: Seq<Run>, top: nat) -> int
    decreases runs.len(),
{
    if runs.len() == 0 {
        0
    } else {
        tables_of(runs.drop_last(), top) + tables_for(runs.last().from(), runs.last().to(), top)
    }
}

/// Whether two of some runs share an address.
pub open spec fn crossed(runs: Seq<Run>) -> bool {
    exists|i: int, j: int, va: int|
        #![trigger runs[i].within(va), runs[j].within(va)]
        0 <= i < j < runs.len() && runs[i].within(va) && runs[j].within(va)
}

/// One more run takes the tables it takes.
proof fn lemma_one_more(runs: Seq<Run>, top: nat, n: int)
    requires
        0 <= n < runs.len(),
    ensures
        tables_of(runs.take(n + 1), top) == tables_of(runs.take(n), top) + tables_for(
            runs[n].from(),
            runs[n].to(),
            top,
        ),
{
    assert(runs.take(n + 1).drop_last() =~= runs.take(n));
}

/// The first runs take no more tables than all of them.
pub proof fn lemma_tables_of(runs: Seq<Run>, top: nat, n: int)
    requires
        0 <= n <= runs.len(),
    ensures
        0 <= tables_of(runs.take(n), top) <= tables_of(runs, top),
    decreases runs.len(),
{
    if n < runs.len() {
        let before = runs.drop_last();
        lemma_tables_of(before, top, n);
        assert(before.take(n) =~= runs.take(n));
        align::lemma_down(runs.last().start as int, 4096);
        range::lemma_some_tables(runs.last().from(), runs.last().to(), top);
    } else {
        assert(runs.take(n) =~= runs);
        if runs.len() > 0 {
            let before = runs.drop_last();
            lemma_tables_of(before, top, before.len() as int);
            assert(before.take(before.len() as int) =~= before);
            align::lemma_down(runs.last().start as int, 4096);
            range::lemma_some_tables(runs.last().from(), runs.last().to(), top);
        }
    }
}

/// What is mapped over an address was mapped by one of the runs.
proof fn lemma_assigned(runs: Seq<Run>, plan: Seq<Laid>, va: int)
    requires
        plan.len() == runs.len(),
        forall|i: int| 0 <= i < runs.len() ==> #[trigger] plan[i] == runs[i].laid(),
        assigned(plan, va) is Some,
    ensures
        exists|i: int| 0 <= i < runs.len() && #[trigger] runs[i].within(va),
    decreases runs.len(),
{
    let last = runs.len() - 1;
    assert(plan[last] == runs[last].laid());
    if runs[last].within(va) {
    } else {
        lemma_assigned(runs.drop_last(), plan.drop_last(), va);
        let i = choose|i: int|
            0 <= i < runs.len() - 1 && #[trigger] runs.drop_last()[i].within(va);
        assert(runs[i].within(va));
    }
}

/// A boot plan lays what its runs say.
proof fn lemma_plan_runs(image: Image, ranges: Seq<(u64, u64)>, n: int)
    requires
        0 <= n <= ranges.len(),
    ensures
        boot_plan(image, ranges, n).len() == boot_runs(image, ranges, n).len(),
        forall|i: int|
            0 <= i < n + 3 ==> #[trigger] boot_plan(image, ranges, n)[i] == boot_runs(
                image,
                ranges,
                n,
            )[i].laid(),
        boot_runs(image, ranges, ranges.len() as int).take(n + 3) == boot_runs(image, ranges, n),
{
    assert(boot_runs(image, ranges, ranges.len() as int).take(n + 3) =~= boot_runs(
        image,
        ranges,
        n,
    ));
}

/// Everything that is declared, in the same order.
pub open spec fn boot_log(image: Image, ranges: Seq<(u64, u64)>, n: int) -> Seq<MappedRange> {
    seq![
        section_declared(ImageSection::Text, image.text.0, image.text.1),
        section_declared(ImageSection::Rodata, image.rodata.0, image.rodata.1),
        section_declared(ImageSection::Data, image.data.0, image.data.1),
    ] + Seq::new(n as nat, |i: int| ram_declared(ranges[i]))
}

/// Whether everything that is to be mapped has an address, or ends in no page.
pub open spec fn reachable(image: Image, ranges: Seq<(u64, u64)>, top: nat) -> bool {
    &&& unplaced(image.text.1) || align::up(image.text.1 as int, 4096) <= reach(top)
    &&& unplaced(image.rodata.1) || align::up(image.rodata.1 as int, 4096) <= reach(top)
    &&& unplaced(image.data.1) || align::up(image.data.1 as int, 4096) <= reach(top)
    &&& forall|i: int|
        0 <= i < ranges.len() ==> unplaced((#[trigger] ranges[i]).1) || align::up(
            ranges[i].1 as int,
            4096,
        ) <= reach(top)
}

/// Whether something that is to be mapped ends in no page.
pub open spec fn misplaced(image: Image, ranges: Seq<(u64, u64)>) -> bool {
    ||| unplaced(image.text.1)
    ||| unplaced(image.rodata.1)
    ||| unplaced(image.data.1)
    ||| exists|i: int| 0 <= i < ranges.len() && unplaced((#[trigger] ranges[i]).1)
}

/// Nothing a boot plan maps is both writable and executable.
pub proof fn law_boot_keeps_write_and_execute_apart(
    image: Image,
    ranges: Seq<(u64, u64)>,
    n: int,
    at: int,
)
    requires
        0 <= n <= ranges.len(),
    ensures
        assigned(boot_plan(image, ranges, n), at) matches Some(flags) ==> {
            ||| flags & PTE_W == 0
            ||| flags & PTE_X == 0
        },
    decreases n,
{
    let plan = boot_plan(image, ranges, n);
    lemma_apart(ImageSection::Text);
    lemma_apart(ImageSection::Rodata);
    lemma_apart(ImageSection::Data);
    if n > 0 {
        assert(plan.drop_last() =~= boot_plan(image, ranges, n - 1));
        law_boot_keeps_write_and_execute_apart(image, ranges, n - 1, at);
    } else {
        reveal_with_fuel(assigned, 4);
        assert(plan.drop_last().drop_last().drop_last() =~= Seq::<Laid>::empty());
    }
}

proof fn lemma_apart(section: ImageSection)
    ensures
        range_flags(section_rights(section)) & PTE_W == 0 || range_flags(section_rights(section))
            & PTE_X == 0,
{
    assert((2u64 | 8) & 4 == 0 && 2u64 & 4 == 0 && (2u64 | 8 | 64) & 4 == 0 && (2u64 | 64) & 4 == 0
        && (2u64 | 4 | 64 | 128) & 8 == 0 && (2u64 | 4 | 64) & 8 == 0) by (bit_vector);
}

impl<M: Memory> Tables<M> {
    /// The tree at `root` once `plan` was mapped over what it was.
    pub open spec fn laid(&self, root: u64, plan: Seq<Laid>, after: Self) -> bool {
        &&& after.top == self.top
        &&& forall|r: u64| #[trigger] after.is_root(r) == self.is_root(r)
        &&& forall|va: u64|
            #![trigger after.translate(root, va)]
            match assigned(plan, self.low(va)) {
                Some(flags) => identity(after.translate(root, va), self.low(va), flags),
                None => after.translate(root, va) == self.translate(root, va),
            }
    }

    proof fn lemma_laid(self, root: u64, plan: Seq<Laid>, held: Self, next: Laid, after: Self)
        requires
            self.is_root(root),
            self.laid(root, plan, held),
            held.identified(root, next.from, next.to, next.flags, after),
        ensures
            self.laid(root, plan.push(next), after),
    {
        let longer = plan.push(next);
        assert(longer.drop_last() =~= plan);
        assert(held.is_root(root) == self.is_root(root));
        assert forall|r: u64| #[trigger] after.is_root(r) == self.is_root(r) by {
            assert(held.is_root(r) == self.is_root(r));
        }
        assert forall|va: u64| #![trigger after.translate(root, va)]
            match assigned(longer, self.low(va)) {
                Some(flags) => identity(after.translate(root, va), self.low(va), flags),
                None => after.translate(root, va) == self.translate(root, va),
            } by {
            assert(held.low(va) == self.low(va));
            assert(held.translate(root, va) == held.translate(root, va));
        }
    }

    /// The trees of `stages` go one run on from the `i`th.
    pub open spec fn staged(stages: Seq<Self>, i: int, root: u64, runs: Seq<Run>) -> bool {
        stages[i].ran(root, runs[i], stages[i + 1], Ok(()))
    }

    /// What mapping one run came to.
    pub open spec fn ran(
        &self,
        root: u64,
        run: Run,
        after: Self,
        done: Result<(), MappingError>,
    ) -> bool {
        self.ranged(root, run.start, run.end, run.rights, run.granularity, after, done)
    }

    /// The trees as run after run was mapped.
    pub open spec fn staging(&self, stages: Seq<Self>, root: u64, runs: Seq<Run>) -> bool {
        &&& 1 <= stages.len() <= runs.len() + 1
        &&& stages[0] == *self
        &&& forall|i: int|
            0 <= i < stages.len() - 1 ==> #[trigger] Self::staged(stages, i, root, runs)
    }

    /// What mapping and declaring some runs came to: all of them, or those
    /// before the first that could not be mapped, or not be declared.
    pub open spec fn built(
        &self,
        root: u64,
        runs: Seq<Run>,
        declared: Seq<MappedRange>,
        after: Self,
        log: Seq<MappedRange>,
        done: Result<(), PlatformError>,
    ) -> bool {
        match done {
            Ok(()) => {
                &&& log == declared
                &&& exists|stages: Seq<Self>|
                    {
                        &&& #[trigger] self.staging(stages, root, runs)
                        &&& stages.len() == runs.len() + 1
                        &&& stages.last() == after
                    }
            },
            Err(error) => {
                &&& error matches PlatformError::Mapping(error)
                &&& exists|stages: Seq<Self>|
                    {
                        let n = stages.len() - 1;
                        &&& #[trigger] self.staging(stages, root, runs)
                        &&& n < runs.len()
                        &&& log == declared.take(n)
                        &&& {
                            ||| stages.last().ran(root, runs[n], after, Err(error))
                            ||| {
                                &&& stages.last().ran(root, runs[n], after, Ok(()))
                                &&& n >= CAPACITY
                                &&& error == MappingError::Backend
                            }
                        }
                    }
            },
        }
    }

    /// Whether an address of some runs is translated by a leaf larger than a
    /// page already.
    pub open spec fn occupied(&self, root: u64, runs: Seq<Run>) -> bool {
        exists|i: int, va: u64|
            #![trigger runs[i].within(va as int), self.blocked(root, va, 0)]
            0 <= i < runs.len() && runs[i].within(va as int) && self.blocked(root, va, 0)
    }

    /// Whether something may keep a run from being mapped: it ends in no page,
    /// there may be too few frames, or a larger leaf is in the way.
    pub open spec fn hindered(&self, root: u64, run: Run) -> bool {
        ||| unplaced(run.end)
        ||| self.pool@.len() < tables_for(run.from(), run.to(), self.top as nat)
        ||| self.obstructed(root, run.from(), run.to(), run.granularity)
    }

    /// One more run mapped.
    proof fn lemma_staging(self, stages: Seq<Self>, root: u64, runs: Seq<Run>, after: Self)
        requires
            self.staging(stages, root, runs),
            stages.len() <= runs.len(),
            stages.last().ran(root, runs[stages.len() - 1], after, Ok(())),
        ensures
            self.staging(stages.push(after), root, runs),
    {
        let longer = stages.push(after);
        assert forall|i: int| 0 <= i < longer.len() - 1 implies #[trigger] Self::staged(
            longer,
            i,
            root,
            runs,
        ) by {
            if i < stages.len() - 1 {
                assert(Self::staged(stages, i, root, runs));
                assert(longer[i] == stages[i] && longer[i + 1] == stages[i + 1]);
            }
        }
    }

    /// Why a run of a plan could not be mapped, told by what there was before
    /// the first.
    proof fn lemma_run_fails(
        self,
        held: Self,
        root: u64,
        runs: Seq<Run>,
        plan: Seq<Laid>,
        k: int,
    )
        requires
            self.is_root(root),
            self.laid(root, plan, held),
            0 <= k < runs.len(),
            plan.len() == k,
            forall|i: int| 0 <= i < k ==> #[trigger] plan[i] == runs[i].laid(),
            unplaced(runs[k].end) || runs[k].to() <= reach(self.top as nat),
            self.pool@.len() - held.pool@.len() <= tables_of(runs.take(k), self.top as nat),
            held.hindered(root, runs[k]),
        ensures
            unplaced(runs[k].end) || self.pool@.len() < tables_of(runs, self.top as nat)
                || self.occupied(root, runs) || crossed(runs),
    {
        let top = self.top as nat;
        let run = runs[k];
        lemma_one_more(runs, top, k);
        lemma_tables_of(runs, top, k + 1);
        if !unplaced(run.end) && held.obstructed(root, run.from(), run.to(), run.granularity) {
            let va = choose|va: u64|
                run.from() <= va < run.to() && #[trigger] held.blocked(
                    root,
                    va,
                    range::biggest(va as int, run.to(), run.granularity),
                );
            assert(run.within(va as int));
            assert(runs[k].within(va as int));
            vstd::arithmetic::div_mod::lemma_small_mod(va as nat, reach(top) as nat);
            assert(held.low(va) == va);
            assert(held.translate(root, va) == held.translate(root, va));
            if assigned(plan, va as int) is Some {
                lemma_assigned(runs.take(k), plan, va as int);
                let i = choose|i: int|
                    0 <= i < k && #[trigger] runs.take(k)[i].within(va as int);
                assert(runs[i].within(va as int));
                assert(crossed(runs));
            } else {
                assert(self.blocked(root, va, 0));
                assert(self.occupied(root, runs));
            }
        }
    }

    /// Maps the image and all usable RAM to themselves, and declares them.
    ///
    /// Stops at the first run that cannot be mapped or declared.
    pub fn build(
        &mut self,
        root: u64,
        log: &mut MappingLog,
        image: Image,
        ranges: &[(u64, u64)],
    ) -> (done: Result<(), PlatformError>)
        requires
            old(self).wf(),
            old(self).is_root(root),
            old(self).top == BUILD_LEVEL,
            old(log)@.len() == 0,
            reachable(image, ranges@, BUILD_LEVEL as nat),
        ensures
            final(self).wf(),
            drawn(old(self).pool@, final(self).pool@),
            old(self).confined(*final(self)),
            done is Ok ==> {
                &&& !misplaced(image, ranges@)
                &&& old(self).laid(
                    root,
                    boot_plan(image, ranges@, ranges@.len() as int),
                    *final(self),
                )
            },
            old(self).built(
                root,
                boot_runs(image, ranges@, ranges@.len() as int),
                boot_log(image, ranges@, ranges@.len() as int),
                *final(self),
                final(log)@,
                done,
            ),
            done is Ok ==> old(self).pool@.len() - final(self).pool@.len() <= tables_of(
                boot_runs(image, ranges@, ranges@.len() as int),
                BUILD_LEVEL as nat,
            ),
            done is Err ==> {
                let runs = boot_runs(image, ranges@, ranges@.len() as int);
                ||| misplaced(image, ranges@)
                ||| ranges@.len() + 3 > CAPACITY
                ||| old(self).pool@.len() < tables_of(runs, BUILD_LEVEL as nat)
                ||| old(self).occupied(root, runs)
                ||| crossed(runs)
            },
    {
        let ghost before = *self;
        let ghost none = Seq::<Laid>::empty();
        let ghost runs = boot_runs(image, ranges@, ranges@.len() as int);
        let ghost declared = boot_log(image, ranges@, ranges@.len() as int);
        let ghost top = BUILD_LEVEL as nat;
        let ghost mut stages: Seq<Self> = seq![before];
        proof {
            entry::lemma_span_values();
            assert forall|va: u64| assigned(none, before.low(va)) is None by {}
            assert(before.staging(stages, root, runs));
            assert(tables_of(runs.take(0), top) == 0);
            assert(declared.take(0) =~= log@);
        }
        let done = self.map_section(root, log, ImageSection::Text, image.text.0, image.text.1);
        let ghost text = section_plan(ImageSection::Text, image.text.0, image.text.1);
        let ghost held = *self;
        proof {
            assert(runs[0] == section_run(ImageSection::Text, image.text));
            if done is Err {
                before.lemma_run_fails(before, root, runs, none, 0);
            } else {
                before.lemma_staging(stages, root, runs, held);
                stages = stages.push(held);
                before.lemma_laid(root, none, before, text, held);
                assert(held.is_root(root) == before.is_root(root));
                lemma_one_more(runs, top, 0);
                assert(declared.take(1) =~= log@);
            }
        }
        done?;
        let done = self.map_section(
            root,
            log,
            ImageSection::Rodata,
            image.rodata.0,
            image.rodata.1,
        );
        let ghost rodata = section_plan(ImageSection::Rodata, image.rodata.0, image.rodata.1);
        proof {
            table::lemma_confined(before, held, *self);
            assert(runs[1] == section_run(ImageSection::Rodata, image.rodata));
            assert(none.push(text)[0] == runs[0].laid());
            if done is Err {
                before.lemma_run_fails(held, root, runs, none.push(text), 1);
            } else {
                before.lemma_staging(stages, root, runs, *self);
                stages = stages.push(*self);
                before.lemma_laid(root, none.push(text), held, rodata, *self);
                assert(self.is_root(root) == before.is_root(root));
                lemma_one_more(runs, top, 1);
                assert(declared.take(2) =~= log@);
            }
        }
        done?;
        let ghost held = *self;
        let done = self.map_section(root, log, ImageSection::Data, image.data.0, image.data.1);
        let ghost data = section_plan(ImageSection::Data, image.data.0, image.data.1);
        proof {
            let plan = none.push(text).push(rodata);
            table::lemma_confined(before, held, *self);
            assert(runs[2] == section_run(ImageSection::Data, image.data));
            assert(plan[0] == runs[0].laid() && plan[1] == runs[1].laid());
            if done is Err {
                before.lemma_run_fails(held, root, runs, plan, 2);
            } else {
                before.lemma_staging(stages, root, runs, *self);
                stages = stages.push(*self);
                before.lemma_laid(root, plan, held, data, *self);
                assert(self.is_root(root) == before.is_root(root));
                assert(plan.push(data) =~= boot_plan(image, ranges@, 0));
                assert(log@ =~= boot_log(image, ranges@, 0));
                lemma_one_more(runs, top, 2);
                assert(declared.take(3) =~= log@);
            }
        }
        done?;
        let mut i: usize = 0;
        while i < ranges.len()
            invariant
                i <= ranges@.len(),
                before == *old(self),
                before.is_root(root),
                before.top == BUILD_LEVEL,
                self.wf(),
                self.top == BUILD_LEVEL,
                self.is_root(root),
                reachable(image, ranges@, BUILD_LEVEL as nat),
                drawn(before.pool@, self.pool@),
                before.confined(*self),
                !unplaced(image.text.1),
                !unplaced(image.rodata.1),
                !unplaced(image.data.1),
                forall|j: int| 0 <= j < i ==> !unplaced((#[trigger] ranges@[j]).1),
                before.laid(root, boot_plan(image, ranges@, i as int), *self),
                log@ == boot_log(image, ranges@, i as int),
                runs == boot_runs(image, ranges@, ranges@.len() as int),
                declared == boot_log(image, ranges@, ranges@.len() as int),
                top == BUILD_LEVEL,
                before.staging(stages, root, runs),
                stages.len() == i + 4,
                stages.last() == *self,
                before.pool@.len() - self.pool@.len() <= tables_of(runs.take(i + 3), top),
            decreases ranges.len() - i,
        {
            let (start, end) = ranges[i];
            let ghost held = *self;
            proof {
                law_write_xor_execute(ImageSection::Data);
                assert(ranges@[i as int] == (start, end));
            }
            let done = self.map_range(root, start, end, PTE_R | PTE_W, Granularity::LargeOk);
            proof {
                table::lemma_confined(before, held, *self);
                lemma_plan_runs(image, ranges@, i as int);
                assert(runs[i + 3] == ram_run((start, end)));
                assert(declared.take(i + 3) =~= boot_log(image, ranges@, i as int));
                assert forall|j: int| 0 <= j < i + 3 implies #[trigger] boot_plan(
                    image,
                    ranges@,
                    i as int,
                )[j] == runs[j].laid() by {
                    assert(runs.take(i + 3)[j] == runs[j]);
                }
                if done is Err {
                    before.lemma_run_fails(
                        held,
                        root,
                        runs,
                        boot_plan(image, ranges@, i as int),
                        i + 3,
                    );
                }
            }
            if let Err(error) = done {
                return Err(PlatformError::Mapping(error));
            }
            proof {
                lemma_one_more(runs, top, i + 3);
            }
            let ghost next = ram_plan((start, end));
            proof {
                before.lemma_laid(root, boot_plan(image, ranges@, i as int), held, next, *self);
                assert(self.is_root(root) == before.is_root(root));
                assert(boot_plan(image, ranges@, i as int).push(next) =~= boot_plan(
                    image,
                    ranges@,
                    i + 1,
                ));
            }
            if let Err(error) = log.push(MappedRange::ram(start, end)) {
                return Err(PlatformError::Mapping(error));
            }
            proof {
                assert(log@ =~= boot_log(image, ranges@, i + 1));
                before.lemma_staging(stages, root, runs, *self);
                stages = stages.push(*self);
            }
            i = i + 1;
        }
        assert(runs.take(runs.len() as int) =~= runs);
        Ok(())
    }

    /// Roots the tree as deep as `mode` wants, the hart having kept it.
    ///
    /// Nothing about the tree below changes: every mapping is inside the first
    /// 512 GiB, so a wider mode needs no new leaves, only a root whose first
    /// entry points at the root below it.
    pub fn deepen(&mut self, candidates: [u64; 3], mode: Mode) -> (root: u64)
        requires
            old(self).wf(),
            old(self).top == BUILD_LEVEL,
            old(self).is_root(candidates@[0]),
            forall|f: u64| #[trigger]
                old(self).nodes@.contains_key(f) ==> old(self).nodes@[f].root == candidates@[0],
            tops(old(self).words(), candidates@[1], candidates@[0]),
            tops(old(self).words(), candidates@[2], candidates@[1]),
            old(self).unused(candidates@[1]),
            old(self).unused(candidates@[2]),
            candidates@[1] != candidates@[2],
        ensures
            final(self).wf(),
            final(self).top == mode.width() / 9 - 2,
            final(self).memory == old(self).memory,
            final(self).pool == old(self).pool,
            root == candidates@[final(self).top - BUILD_LEVEL],
            forall|r: u64| #[trigger] final(self).is_root(r) ==> r == root,
            final(self).is_root(root),
            forall|va: u64|
                va < reach(BUILD_LEVEL as nat) ==> #[trigger] final(self).translate(root, va)
                    == old(self).translate(candidates@[0], va),
            forall|va: u64|
                reach(BUILD_LEVEL as nat) <= va < reach(final(self).top as nat)
                    ==> #[trigger] final(self).translate(root, va) is None,
    {
        let ghost before = *self;
        let built: u64 = candidates[0];
        proof {
            entry::lemma_span_values();
            assert forall|r: u64| #[trigger] before.is_root(r) implies r == built by {}
            assert forall|va: u64| va < reach(2) implies #[trigger] before.low(va) == va by {
                vstd::arithmetic::div_mod::lemma_small_mod(va as nat, reach(2) as nat);
            }
        }
        match mode {
            Mode::Sv39 => built,
            Mode::Sv48 => {
                self.adopt(built, candidates[1]);
                proof {
                    lemma_small(3);
                    assert forall|va: u64| va < reach(3) implies #[trigger] self.low(va)
                        == va by {
                        vstd::arithmetic::div_mod::lemma_small_mod(va as nat, reach(3) as nat);
                    }
                }
                candidates[1]
            },
            Mode::Sv57 => {
                self.adopt(built, candidates[1]);
                let ghost middle = *self;
                assert(self.words() == before.words());
                self.adopt(candidates[1], candidates[2]);
                proof {
                    lemma_small(4);
                    assert forall|va: u64| va < reach(3) implies #[trigger] middle.low(va)
                        == va by {
                        vstd::arithmetic::div_mod::lemma_small_mod(va as nat, reach(3) as nat);
                    }
                    assert forall|va: u64| va < reach(4) implies #[trigger] self.low(va)
                        == va by {
                        vstd::arithmetic::div_mod::lemma_small_mod(va as nat, reach(4) as nat);
                    }
                    assert forall|va: u64|
                        reach(2) <= va < reach(4) implies #[trigger] self.translate(
                        candidates@[2],
                        va,
                    ) is None by {
                        assert(self.low(va) == va);
                        if va < reach(3) {
                            assert(middle.low(va) == va);
                            assert(middle.translate(candidates@[1], va) is None);
                        }
                    }
                    assert forall|va: u64|
                        va < reach(2) implies #[trigger] self.translate(candidates@[2], va)
                        == before.translate(built, va) by {
                        assert(self.low(va) == va);
                        assert(middle.low(va) == va);
                        assert(middle.translate(candidates@[1], va) == before.translate(
                            built,
                            va,
                        ));
                    }
                }
                candidates[2]
            },
        }
    }
}

proof fn lemma_small(top: nat)
    requires
        2 <= top <= 4,
    ensures
        reach(2) <= reach(3) <= reach(4),
        0 < reach(top),
{
    entry::lemma_span_values();
}

/// What is written through the probe's page, and has to be read back.
pub const PROBE_VALUE: u64 = 0x004d_4f4c_545f_5758;

/// The flags of the probe's page: a page to be read and written.
pub open spec fn probe_flags() -> u64 {
    PTE_A | PTE_D | PTE_R | PTE_W
}

proof fn lemma_probe_flags()
    ensures
        probe_flags() & PTE_RWX != 0,
{
    assert((64u64 | 128u64 | 2u64 | 4u64) & 14u64 != 0) by (bit_vector);
}

/// The console's registers, and where they are mapped to be tried out.
pub const UART_MMIO: u64 = 0x1000_0000;

pub const UART_WINDOW: u64 = 0x3000_0000;

/// Where a byte to send is written, and where the line says how it is doing.
pub const UART_THR: u64 = 0;

pub const UART_LSR: u64 = 5;

/// Whether the line status says that the console takes another byte.
pub fn uart_ready(line_status: u8) -> (ready: bool)
    ensures
        ready == (line_status / 0x20 % 2 == 1),
{
    line_status / 0x20 % 2 == 1
}

impl<M: Memory> Paging<M> {
    /// Everything but the tables.
    pub open spec fn settled(&self, after: Self) -> bool {
        self.same_settings(after) && after.views == self.views
    }

    /// Maps the probe's page to `frame`, at an address only this mode has.
    ///
    /// On Sv48 it is at 64 TiB and on Sv57 at 16 PiB, addresses no narrower
    /// mode could have produced. Writing and reading one back is what turns
    /// "the wide mode was accepted" into a translation that was performed.
    pub fn open_probe(&mut self, frame: u64) -> (va: Result<u64, PlatformError>)
        requires
            old(self).wf(),
        ensures
            final(self).wf(),
            old(self).settled(*final(self)),
            old(self).tables.confined(final(self).tables),
            match va {
                Ok(va) => {
                    &&& va == self_probe(old(self).mode)
                    &&& old(self).tables.leafed(
                        old(self).root,
                        va,
                        frame,
                        probe_flags(),
                        0,
                        final(self).tables,
                    )
                },
                Err(error) => {
                    &&& error matches PlatformError::Mapping(error)
                    &&& old(self).tables.jammed(
                        old(self).root,
                        self_probe(old(self).mode),
                        0,
                        error,
                        final(self).tables,
                    )
                },
            },
    {
        let ghost before = *self;
        proof {
            lemma_probe_flags();
        }
        let va: u64 = self.mode.probe_va();
        let done = self.tables.map_leaf(
            self.root,
            va,
            frame,
            PTE_A | PTE_D | PTE_R | PTE_W,
            0,
        );
        proof {
            lemma_roots_kept(before, *self);
        }
        match done {
            Ok(()) => Ok(va),
            Err(error) => Err(PlatformError::Mapping(error)),
        }
    }

    /// What the probe showed: the value that was written, or tables nothing
    /// translates through.
    pub fn probed(read: u64) -> (outcome: Result<(), PlatformError>)
        ensures
            outcome == if read == PROBE_VALUE {
                Ok::<(), PlatformError>(())
            } else {
                Err::<(), PlatformError>(PlatformError::Mapping(MappingError::Backend))
            },
    {
        if read != PROBE_VALUE {
            return Err(PlatformError::Mapping(MappingError::Backend));
        }
        Ok(())
    }

    /// Removes the probe's page again.
    pub fn close_probe(&mut self)
        requires
            old(self).wf(),
        ensures
            final(self).wf(),
            old(self).settled(*final(self)),
            final(self).tables.pool == old(self).tables.pool,
            old(self).tables.confined(final(self).tables),
            if old(self).tables.translate(old(self).root, self_probe(old(self).mode)) matches Some(
                (_, found),
            ) && found == 0 {
                old(self).tables.changed(
                    old(self).root,
                    self_probe(old(self).mode),
                    0,
                    None,
                    final(self).tables,
                )
            } else {
                old(self).tables.unchanged(final(self).tables)
            },
    {
        let ghost before = *self;
        let va: u64 = self.mode.probe_va();
        self.tables.clear_leaf(self.root, va);
        proof {
            lemma_roots_kept(before, *self);
        }
    }

    /// Maps the console's registers, which must not be RAM, and declares them.
    pub fn map_uart(&mut self, ranges: &[(u64, u64)]) -> (done: Result<(), PlatformError>)
        requires
            old(self).wf(),
        ensures
            final(self).wf(),
            final(self).root == old(self).root,
            final(self).mode == old(self).mode,
            final(self).asid_bits == old(self).asid_bits,
            final(self).views == old(self).views,
            final(self).devices == old(self).devices,
            old(self).tables.confined(final(self).tables),
            match done {
                Ok(()) => {
                    &&& !frames::in_ram(ranges@, Span { start: UART_MMIO, bytes: 4096 })
                    &&& old(self).tables.leafed(
                        old(self).root,
                        UART_WINDOW,
                        UART_MMIO,
                        flags_for(Rights { read: true, write: true, execute: false }),
                        0,
                        final(self).tables,
                    )
                    &&& final(self).log@ == old(self).log@.push(
                        MappedRange {
                            start: UART_WINDOW,
                            end: (UART_WINDOW + 4096) as u64,
                            contents: Contents::Device,
                        },
                    )
                },
                Err(error) => {
                    &&& error matches PlatformError::Mapping(error)
                    &&& final(self).log@ == old(self).log@
                    &&& if frames::in_ram(ranges@, Span { start: UART_MMIO, bytes: 4096 }) {
                        error == MappingError::InvalidAddress && *final(self) == *old(self)
                    } else {
                        ||| old(self).tables.jammed(
                            old(self).root,
                            UART_WINDOW,
                            0,
                            error,
                            final(self).tables,
                        )
                        ||| {
                            &&& old(self).tables.leafed(
                                old(self).root,
                                UART_WINDOW,
                                UART_MMIO,
                                flags_for(Rights { read: true, write: true, execute: false }),
                                0,
                                final(self).tables,
                            )
                            &&& error == MappingError::Backend
                            &&& old(self).log@.len() >= CAPACITY
                        }
                    }
                },
            },
    {
        let ghost before = *self;
        if let Err(error) = frames::device(ranges, Span { start: UART_MMIO, bytes: PAGE_4K }) {
            return Err(PlatformError::Mapping(error));
        }
        let rights = Rights::new(true, true, false);
        proof {
            range::law_rights_read_back(rights, 0);
        }
        let done = self.tables.map_leaf(
            self.root,
            UART_WINDOW,
            UART_MMIO,
            range::leaf_flags(rights),
            0,
        );
        proof {
            lemma_roots_kept(before, *self);
        }
        if let Err(error) = done {
            return Err(PlatformError::Mapping(error));
        }
        match self.log.push(MappedRange::device(UART_WINDOW, UART_WINDOW + PAGE_4K)) {
            Ok(()) => Ok(()),
            Err(error) => Err(PlatformError::Mapping(error)),
        }
    }
}

/// Where the probe's page goes in a mode.
pub open spec fn self_probe(mode: Mode) -> u64 {
    match mode {
        Mode::Sv39 => 0x2000_0000u64,
        Mode::Sv48 => 0x4000_0000_0000,
        Mode::Sv57 => 0x40_0000_0000_0000,
    }
}

/// Nothing is left of a probe once it is over: an address space that had
/// nothing at the probe's page translates every address as before.
pub proof fn law_probe_leaves_no_trace<M: Memory>(
    before: Tables<M>,
    during: Tables<M>,
    after: Tables<M>,
    root: u64,
    va: u64,
    frame: u64,
)
    requires
        before.is_root(root),
        before.changed(root, va, 0, Some((encoded(frame, probe_flags()), 0)), during),
        during.changed(root, va, 0, None, after),
        forall|other: u64|
            before.same_page(other, va, 0) ==> #[trigger] before.translate(root, other) is None,
    ensures
        before.unchanged(after),
{
    assert forall|r: u64| #[trigger] after.is_root(r) == before.is_root(r) by {
        assert(during.is_root(r) == before.is_root(r));
    }
    assert forall|r: u64, other: u64| before.is_root(r) implies #[trigger] after.translate(r, other)
        == before.translate(r, other) by {
        assert(during.is_root(r));
        assert(during.translate(r, other) == during.translate(r, other));
        assert(during.same_page(other, va, 0) == before.same_page(other, va, 0));
    }
}

/// Whether a range has a byte in the page of `at`.
pub open spec fn touches(range: (u64, u64), at: int) -> bool {
    let page = at - at % 4096;
    range.0 < page + 4096 && page < range.1
}

proof fn lemma_touches(range: (u64, u64), at: int)
    requires
        at >= 0,
    ensures
        touches(range, at) <==> align::down(range.0 as int, 4096) <= at < align::up(
            range.1 as int,
            4096,
        ),
{
}

/// What the boot tree grants at an address, whole pages at a time: RAM and the
/// image's data may be read and written and are marked accessed and dirty (198
/// in all), its constants may be read (66), its text read and run (74), and
/// nothing else is there at all. Where RAM covers the image, RAM it is.
pub proof fn law_boot_grants_in_numbers(
    image: Image,
    ranges: Seq<(u64, u64)>,
    n: int,
    at: int,
)
    requires
        0 <= n <= ranges.len(),
        at >= 0,
    ensures
        assigned(boot_plan(image, ranges, n), at) == if exists|i: int|
            0 <= i < n && touches(#[trigger] ranges[i], at) {
            Some(198u64)
        } else if touches(image.data, at) {
            Some(198u64)
        } else if touches(image.rodata, at) {
            Some(66u64)
        } else if touches(image.text, at) {
            Some(74u64)
        } else {
            None
        },
    decreases n,
{
    let plan = boot_plan(image, ranges, n);
    assert((2u64 | 8) & 4 == 0 && (2u64 | 8) | 64 == 74 && 2u64 & 4 == 0 && 2u64 | 64 == 66 && (2u64
        | 4) & 4 != 0 && (2u64 | 4) | 64 | 128 == 198) by (bit_vector);
    if n > 0 {
        assert(plan.drop_last() =~= boot_plan(image, ranges, n - 1));
        law_boot_grants_in_numbers(image, ranges, n - 1, at);
        lemma_touches(ranges[n - 1], at);
        assert(plan.last() == ram_plan(ranges[n - 1]));
        if touches(ranges[n - 1], at) {
            assert(exists|i: int| 0 <= i < n && touches(#[trigger] ranges[i], at));
        } else if exists|i: int| 0 <= i < n && touches(#[trigger] ranges[i], at) {
            let i = choose|i: int| 0 <= i < n && touches(#[trigger] ranges[i], at);
            assert(i < n - 1);
        }
    } else {
        reveal_with_fuel(assigned, 5);
        lemma_touches(image.text, at);
        lemma_touches(image.rodata, at);
        lemma_touches(image.data, at);
        assert(plan.len() == 3);
        assert(plan.drop_last().last() == plan[1]);
        assert(plan.drop_last().drop_last().last() == plan[0]);
    }
}

/// What is mapped and how it is declared go together, run by run: the sections
/// in order, page by page and to whole pages, then RAM as it was given, by the
/// largest leaves that fit.
pub proof fn law_boot_declares_what_it_maps(image: Image, ranges: Seq<(u64, u64)>, n: int, i: int)
    requires
        0 <= n <= ranges.len(),
        0 <= i < n,
    ensures
        boot_log(image, ranges, n).len() == n + 3,
        boot_log(image, ranges, n)[0].contents == Contents::Section(ImageSection::Text),
        boot_log(image, ranges, n)[1].contents == Contents::Section(ImageSection::Rodata),
        boot_log(image, ranges, n)[2].contents == Contents::Section(ImageSection::Data),
        boot_log(image, ranges, n)[3 + i] == (MappedRange {
            start: ranges[i].0,
            end: ranges[i].1,
            contents: Contents::Ram,
        }),
        boot_runs(image, ranges, n)[0] == (Run {
            start: image.text.0,
            end: image.text.1,
            rights: 10,
            granularity: Granularity::Small,
        }),
        boot_runs(image, ranges, n)[1] == (Run {
            start: image.rodata.0,
            end: image.rodata.1,
            rights: 2,
            granularity: Granularity::Small,
        }),
        boot_runs(image, ranges, n)[2] == (Run {
            start: image.data.0,
            end: image.data.1,
            rights: 6,
            granularity: Granularity::Small,
        }),
        boot_runs(image, ranges, n)[3 + i] == (Run {
            start: ranges[i].0,
            end: ranges[i].1,
            rights: 6,
            granularity: Granularity::LargeOk,
        }),
        boot_log(image, ranges, n)[0].start as int == image.text.0 - image.text.0 as int % 4096,
        boot_log(image, ranges, n)[1].start as int == image.rodata.0 - image.rodata.0 as int % 4096,
        boot_log(image, ranges, n)[2].start as int == image.data.0 - image.data.0 as int % 4096,
{
    assert(2u64 | 8 == 10 && 2u64 | 4 == 6) by (bit_vector);
}

} // verus!
