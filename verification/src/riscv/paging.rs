//! Kernel-owned translation tables, Sv39 through Sv57.
//!
//! Each image section is mapped with W^X rights, and beyond the image only
//! firmware-usable RAM. Reserved ranges and device holes remain unmapped so an
//! audit of the live tables can reject stray leaves.
//!
//! Every one of those mappings lives below 512 GiB, so the tree is built three
//! levels deep and then rooted as deep as the hart allows: see
//! [`Tables::raise`]. The width that buys is not for the kernel, which does not
//! need it: it is the address space user domains are given.
use vstd::prelude::*;

use crate::align;
use crate::arch::{
    Cache, Contents, Extent, ImageSection, Kind, Leaf, MappedRange, MappingError, PageProtection,
    PlatformError, Rights, Span, ViewError,
};
use crate::riscv::entry::{self, reach, span, target, PTE_R, PTE_RWX, PTE_W, PTE_X};
use crate::riscv::mappings::{MappingLog, CAPACITY};
use crate::memory::Memory;
use crate::riscv::range::{
    self, flags_for, tables_for, unplaced, Granularity, PAGE_2M, PAGE_4K,
};
use crate::riscv::satp::{self, Mode};
use crate::riscv::table::{drawn, Tables};

verus! {

/// How many views beside the kernel's own may be open.
pub const VIEWS: usize = 8;

/// Where device windows live: 128 GiB, clear of RAM and inside the narrowest
/// mode's lower canonical half, because the tree is built before it is known
/// which mode the hart will take. Not identity-mapped: a driver that reaches a
/// device by guessing its physical address has not been given a capability.
pub const DEVICE_REGION: u64 = 0x20_0000_0000;

pub const DEVICE_REGION_END: u64 = 0x20_4000_0000;

/// One open view, and the tag its translations are cached under.
#[derive(Clone, Copy, Debug, PartialEq, Eq, Structural)]
pub struct AddressView {
    pub index: u16,
    pub asid: u16,
}

/// The live address space: the kernel's tree and the views beside it.
pub struct Paging<M: Memory> {
    pub tables: Tables<M>,
    pub root: u64,
    pub mode: Mode,
    /// How many ASID bits the hart turned out to implement. Zero is a legal
    /// answer and means every view switch costs a flush.
    pub asid_bits: u32,
    /// Every mapped range, in the order they were built.
    pub log: MappingLog,
    /// The next free device address; bumps forward and never back, so a window
    /// handed out once is never handed out again.
    pub devices: u64,
    /// The root of each open view. Empty when opened, and only ever holding
    /// what was granted into it.
    pub views: [Option<u64>; 8],
}

/// Whether an extent is whole leaves the trees can tell apart.
pub open spec fn sized(extent: Extent, top: nat) -> bool {
    extent.level <= top && extent.start + extent.leaves * span(extent.level as nat) <= reach(top)
}

/// The rights and memory type a device window is mapped with: never
/// executable, always uncached.
pub fn device_rights(rights: Rights) -> (mapping: Result<(Rights, Cache), MappingError>)
    ensures
        mapping == if rights.execute || !(rights.read || rights.write) {
            Err(MappingError::InvalidPermissions)
        } else {
            Ok((rights, Cache::Device))
        },
{
    if rights.is_execute() || !(rights.is_read() || rights.is_write()) {
        return Err(MappingError::InvalidPermissions);
    }
    Ok((rights, Cache::Device))
}

/// The rights each part of the image is mapped with: nothing is both writable
/// and executable.
pub open spec fn section_rights(section: ImageSection) -> u64 {
    match section {
        ImageSection::Text => PTE_R | PTE_X,
        ImageSection::Rodata => PTE_R,
        ImageSection::Data => PTE_R | PTE_W,
    }
}

/// No section is mapped both writable and executable.
pub proof fn law_write_xor_execute(section: ImageSection)
    ensures
        section_rights(section) & PTE_RWX != 0,
        section_rights(section) & PTE_W == 0 || section_rights(section) & PTE_X == 0,
{
    assert((2u64 | 8) & 14 != 0 && (2u64 | 8) & 4 == 0 && 2u64 & 14 != 0 && 2u64 & 4 == 0 && (2u64
        | 4) & 14 != 0 && (2u64 | 4) & 8 == 0) by (bit_vector);
}

/// Decodes leaf rights and the physical memory attribute.
///
/// This target lacks `Svpbmt`, so the firmware map supplies the PMA: described
/// memory is write-back and holes are device-ordered.
pub fn protection(entry: u64, kind: Kind) -> (protection: PageProtection)
    ensures
        protection == (PageProtection {
            read: entry & PTE_R != 0,
            write: entry & PTE_W != 0,
            execute: entry & PTE_X != 0,
            cache: if kind is Device {
                Cache::Device
            } else {
                Cache::WriteBack
            },
        }),
{
    let cache = match kind {
        Kind::Ram | Kind::Image | Kind::Reserved => Cache::WriteBack,
        Kind::Device => Cache::Device,
    };
    PageProtection {
        read: entry & PTE_R != 0,
        write: entry & PTE_W != 0,
        execute: entry & PTE_X != 0,
        cache,
    }
}

/// The physical address a leaf entry maps.
pub fn physical(entry: u64) -> (pa: u64)
    ensures
        pa == target(entry),
{
    (entry >> 10) << 12
}

/// The mapping error inside a [`PlatformError`], for the paths that report one.
pub fn mapping_error(error: PlatformError) -> (inner: MappingError)
    ensures
        inner == match error {
            PlatformError::Mapping(error) => error,
            _ => MappingError::Backend,
        },
{
    match error {
        PlatformError::Mapping(error) => error,
        _ => MappingError::Backend,
    }
}

/// The leaf a walk found at `address`.
pub open spec fn leaf_at(found: Option<(u64, nat)>, address: u64, kind: Kind) -> Option<Leaf> {
    match found {
        None => None,
        Some((entry, level)) => Some(
            Leaf {
                start: (address - address as int % span(level)) as u64,
                size: span(level) as u64,
                protection: PageProtection {
                    read: entry & PTE_R != 0,
                    write: entry & PTE_W != 0,
                    execute: entry & PTE_X != 0,
                    cache: if kind is Device {
                        Cache::Device
                    } else {
                        Cache::WriteBack
                    },
                },
            },
        ),
    }
}

/// The leaf that translates `address` in the tree at `root`, its memory being
/// of `kind`.
pub fn leaf<M: Memory>(tables: &Tables<M>, root: u64, address: u64, kind: Kind) -> (leaf: Option<
    Leaf,
>)
    requires
        tables.wf(),
        tables.is_root(root),
    ensures
        leaf == leaf_at(tables.translate(root, address), address, kind),
{
    match tables.lookup(root, address) {
        None => None,
        Some((found, level)) => {
            proof {
                entry::lemma_span_values();
                entry::lemma_span(level as nat);
                align::lemma_down(address as int, span(level as nat));
            }
            let size: u64 = entry::span_of(level);
            let start: u64 = address - address % size;
            Some(Leaf { start, size, protection: protection(found, kind) })
        },
    }
}

impl<M: Memory> Tables<M> {
    /// Maps one section of the image and declares it.
    pub fn map_section(
        &mut self,
        root: u64,
        log: &mut MappingLog,
        section: ImageSection,
        start: u64,
        end: u64,
    ) -> (done: Result<(), PlatformError>)
        requires
            old(self).wf(),
            old(self).is_root(root),
            old(self).top >= 2,
            unplaced(end) || align::up(end as int, 4096) <= reach(old(self).top as nat),
        ensures
            final(self).wf(),
            drawn(old(self).pool@, final(self).pool@),
            old(self).confined(*final(self)),
            match done {
                Ok(()) => {
                    &&& old(self).ranged(
                        root,
                        start,
                        end,
                        section_rights(section),
                        Granularity::Small,
                        *final(self),
                        Ok(()),
                    )
                    &&& final(log)@ == old(log)@.push(
                        MappedRange {
                            start: align::down(start as int, 4096) as u64,
                            end: align::up(end as int, 4096) as u64,
                            contents: Contents::Section(section),
                        },
                    )
                },
                Err(error) => {
                    &&& final(log)@ == old(log)@
                    &&& error matches PlatformError::Mapping(error)
                    &&& {
                        ||| old(self).ranged(
                            root,
                            start,
                            end,
                            section_rights(section),
                            Granularity::Small,
                            *final(self),
                            Err(error),
                        )
                        ||| {
                            &&& old(self).ranged(
                                root,
                                start,
                                end,
                                section_rights(section),
                                Granularity::Small,
                                *final(self),
                                Ok(()),
                            )
                            &&& error == MappingError::Backend
                            &&& old(log)@.len() >= CAPACITY
                        }
                    }
                },
            },
            done is Ok ==> old(self).pool@.len() - final(self).pool@.len() <= tables_for(
                align::down(start as int, 4096),
                align::up(end as int, 4096),
                old(self).top as nat,
            ),
            done is Err ==> {
                ||| unplaced(end)
                ||| old(log)@.len() >= CAPACITY
                ||| old(self).pool@.len() < tables_for(
                    align::down(start as int, 4096),
                    align::up(end as int, 4096),
                    old(self).top as nat,
                )
                ||| old(self).obstructed(
                    root,
                    align::down(start as int, 4096),
                    align::up(end as int, 4096),
                    Granularity::Small,
                )
            },
    {
        proof {
            law_write_xor_execute(section);
            entry::lemma_span_values();
        }
        let rights: u64 = match section {
            ImageSection::Text => PTE_R | PTE_X,
            ImageSection::Rodata => PTE_R,
            ImageSection::Data => PTE_R | PTE_W,
        };
        if let Err(error) = self.map_range(root, start, end, rights, Granularity::Small) {
            return Err(PlatformError::Mapping(error));
        }
        let from: u64 = align::align_down(start, PAGE_4K);
        let to: u64 = match align::align_up(end, PAGE_4K) {
            Some(to) => to,
            None => return Err(PlatformError::Mapping(MappingError::InvalidAddress)),
        };
        match log.push(MappedRange::section(section, from, to)) {
            Ok(()) => Ok(()),
            Err(error) => Err(PlatformError::Mapping(error)),
        }
    }
}

impl<M: Memory> Paging<M> {
    pub open spec fn wf(&self) -> bool {
        &&& self.tables.wf()
        &&& self.tables.top == self.mode.width() / 9 - 2
        &&& self.tables.is_root(self.root)
        &&& self.root < 0x100_0000_0000_0000
        &&& forall|i: int|
            0 <= i < VIEWS ==> (#[trigger] self.views@[i] matches Some(root) ==> self.tables.is_root(
                root,
            ) && root != self.root)
        &&& forall|i: int, j: int|
            #![trigger self.views@[i], self.views@[j]]
            0 <= i < j < VIEWS && self.views@[i] is Some ==> self.views@[i] != self.views@[j]
        &&& DEVICE_REGION <= self.devices <= DEVICE_REGION_END
        &&& self.devices % PAGE_2M == 0
    }

    /// Everything but the tables and the open views.
    pub open spec fn same_settings(&self, after: Self) -> bool {
        &&& after.root == self.root
        &&& after.mode == self.mode
        &&& after.asid_bits == self.asid_bits
        &&& after.devices == self.devices
        &&& after.log == self.log
    }

    /// The `satp` the boot hart runs on, for a hart coming up beside it.
    pub fn satp(&self) -> (satp: u64)
        requires
            self.wf(),
        ensures
            satp == satp::composed(self.mode, 0, self.root),
    {
        satp::compose(self.mode, 0, self.root)
    }

    /// The translation mode the boot hart accepted.
    pub fn mode(&self) -> (mode: Mode)
        ensures
            mode == self.mode,
    {
        self.mode
    }

    /// How many ASID bits the hart implements.
    pub fn asid_bits(&self) -> (bits: u32)
        ensures
            bits == self.asid_bits,
    {
        self.asid_bits
    }

    /// Opens an empty view of the one address space, tagged `asid`.
    ///
    /// The root is a single zeroed frame, which is what makes the claim true:
    /// an empty root translates nothing at all, so the kernel's text, its
    /// stack, and every device window are absent from the view because they
    /// were never put in it, not because something removed them afterwards.
    pub fn open_view(&mut self, asid: u16) -> (view: Result<AddressView, PlatformError>)
        requires
            old(self).wf(),
        ensures
            final(self).wf(),
            old(self).same_settings(*final(self)),
            old(self).tables.confined(final(self).tables),
            match view {
                Ok(view) => {
                    &&& view.asid == asid
                    &&& view.index < VIEWS
                    &&& old(self).views@[view.index as int] is None
                    &&& forall|i: int| 0 <= i < view.index ==> #[trigger] old(self).views@[i] is Some
                    &&& final(self).views@[view.index as int] matches Some(root)
                    &&& final(self).views@ == old(self).views@.update(
                        view.index as int,
                        Some(root),
                    )
                    &&& !old(self).tables.is_root(root)
                    &&& old(self).tables.sprouted(root, final(self).tables)
                },
                Err(error) => {
                    &&& *final(self) == *old(self)
                    &&& error == if forall|i: int|
                        0 <= i < VIEWS ==> #[trigger] old(self).views@[i] is Some {
                        PlatformError::View(ViewError::Capacity)
                    } else {
                        PlatformError::Mapping(MappingError::OutOfFrames)
                    }
                    &&& error is Mapping ==> old(self).tables.pool@.len() == 0
                },
            },
    {
        let ghost before = *self;
        let mut index: usize = 0;
        while index < VIEWS && self.views[index].is_some()
            invariant
                index <= VIEWS,
                forall|i: int| 0 <= i < index ==> #[trigger] self.views@[i] is Some,
            decreases VIEWS - index,
        {
            index = index + 1;
        }
        if index == VIEWS {
            return Err(PlatformError::View(ViewError::Capacity));
        }
        assert(self.views@[index as int] is None);
        let root: u64 = match self.tables.open_root() {
            Ok(root) => root,
            Err(error) => return Err(PlatformError::Mapping(error)),
        };
        self.views[index] = Some(root);
        proof {
            assert(before.tables.is_root(before.root));
            assert forall|i: int| 0 <= i < VIEWS implies (#[trigger] self.views@[i] matches Some(
                other,
            ) ==> self.tables.is_root(other) && other != self.root) by {
                assert(before.views@[i] is Some ==> before.tables.is_root(before.views@[i]->0));
            }
            assert forall|i: int, j: int|
                #![trigger self.views@[i], self.views@[j]]
                0 <= i < j < VIEWS && self.views@[i] is Some implies self.views@[i]
                != self.views@[j] by {
                assert(before.views@[i] is Some ==> before.tables.is_root(before.views@[i]->0));
                assert(before.views@[j] is Some ==> before.tables.is_root(before.views@[j]->0));
            }
        }
        Ok(AddressView { index: index as u16, asid })
    }

    /// The root of a view this platform opened.
    pub open spec fn view_root(&self, view: AddressView) -> Option<u64> {
        if view.index < VIEWS {
            self.views@[view.index as int]
        } else {
            None
        }
    }

    fn root_of(&self, view: AddressView) -> (root: Result<u64, PlatformError>)
        requires
            self.wf(),
        ensures
            root == match self.view_root(view) {
                Some(root) => Ok::<u64, PlatformError>(root),
                None => Err::<u64, PlatformError>(PlatformError::View(ViewError::Unknown)),
            },
            root matches Ok(root) ==> self.tables.is_root(root) && root != self.root,
    {
        if view.index as usize >= VIEWS {
            return Err(PlatformError::View(ViewError::Unknown));
        }
        match self.views[view.index as usize] {
            Some(root) => Ok(root),
            None => Err(PlatformError::View(ViewError::Unknown)),
        }
    }

    /// Whether memory can back an extent: enough of it, and both aligned to
    /// the extent's leaves.
    pub open spec fn backs(extent: Extent, memory: Span) -> bool {
        let granule = span(extent.level as nat);
        &&& memory.bytes >= extent.leaves * granule
        &&& memory.start as int % granule == 0
        &&& extent.start as int % granule == 0
    }

    /// Maps `extent` into `view` at the extent's own leaf size.
    ///
    /// Nothing about the kernel's tables moves: the frames stay mapped where
    /// they already were, and the domain reaches them at the same global
    /// address the kernel calls them by. That is the whole trick of one address
    /// space: the grant is a page-table entry, not a copy and not a relocation.
    pub fn grant(
        &mut self,
        view: AddressView,
        extent: Extent,
        memory: Span,
        rights: Rights,
    ) -> (done: Result<(), PlatformError>)
        requires
            old(self).wf(),
            sized(extent, old(self).tables.top as nat),
            memory.start + memory.bytes <= u64::MAX,
            rights.read || rights.write || rights.execute,
        ensures
            final(self).wf(),
            old(self).same_settings(*final(self)),
            final(self).views == old(self).views,
            old(self).tables.confined(final(self).tables),
            if !Self::backs(extent, memory) {
                &&& done == Err::<(), PlatformError>(PlatformError::View(ViewError::Backing))
                &&& *final(self) == *old(self)
            } else if old(self).view_root(view) is None {
                &&& done == Err::<(), PlatformError>(PlatformError::View(ViewError::Unknown))
                &&& *final(self) == *old(self)
            } else {
                let root = old(self).view_root(view)->0;
                match done {
                    Ok(()) => old(self).tables.run_mapped(
                        root,
                        extent.start,
                        memory.start,
                        extent.level as nat,
                        extent.leaves as int,
                        flags_for(rights),
                        final(self).tables,
                    ),
                    Err(error) => {
                        &&& error matches PlatformError::Mapping(error)
                        &&& exists|n: int|
                            0 <= n < extent.leaves && #[trigger] old(self).tables.halted(
                                root,
                                extent.start,
                                memory.start,
                                extent.level as nat,
                                n,
                                flags_for(rights),
                                error,
                                final(self).tables,
                            )
                    },
                }
            },
            Self::backs(extent, memory) && old(self).view_root(view) is Some && done is Err
                ==> old(self).tables.pool@.len() < extent.leaves * (old(self).tables.top
                - extent.level) || exists|va: u64|
                extent.start <= va < extent.start + extent.leaves * span(extent.level as nat)
                    && #[trigger] old(self).tables.blocked(
                    old(self).view_root(view)->0,
                    va,
                    extent.level as nat,
                ),
    {
        let ghost before = *self;
        proof {
            entry::lemma_span_values();
            entry::lemma_span(extent.level as nat);
            range::law_rights_read_back(rights, 0);
            assert(extent.leaves * span(extent.level as nat) <= reach(self.tables.top as nat));
        }
        let granule: u64 = entry::span_of(extent.level);
        assert(extent.leaves * granule <= u64::MAX);
        let bytes: u64 = extent.leaves * granule;
        if memory.bytes < bytes || memory.start % granule != 0 || extent.start % granule != 0 {
            return Err(PlatformError::View(ViewError::Backing));
        }
        let root: u64 = self.root_of(view)?;
        let flags: u64 = range::leaf_flags(rights);
        let done = self.tables.map_run(
            root,
            extent.start,
            memory.start,
            extent.level,
            extent.leaves,
            flags,
        );
        proof {
            lemma_roots_kept(before, *self);
        }
        match done {
            Ok(()) => Ok(()),
            Err(error) => Err(PlatformError::Mapping(error)),
        }
    }

    /// Clears `extent` out of `view`, and says how many leaves went.
    ///
    /// Only the leaves: the tables above them stay, because a table that held
    /// one leaf will hold the next, and freeing it would cost a second
    /// shootdown to make safe. Nothing here flushes, and nothing here touches
    /// the pool: the caller owes both, in that order.
    pub fn revoke(&mut self, view: AddressView, extent: Extent) -> (gone: Result<u64, PlatformError>)
        requires
            old(self).wf(),
            sized(extent, old(self).tables.top as nat),
            extent.start as int % span(extent.level as nat) == 0,
        ensures
            final(self).wf(),
            old(self).same_settings(*final(self)),
            final(self).views == old(self).views,
            final(self).tables.pool == old(self).tables.pool,
            old(self).tables.confined(final(self).tables),
            match old(self).view_root(view) {
                None => {
                    &&& gone == Err::<u64, PlatformError>(PlatformError::View(ViewError::Unknown))
                    &&& *final(self) == *old(self)
                },
                Some(root) => if forall|k: int|
                    0 <= k < extent.leaves ==> #[trigger] old(self).tables.granted_at(
                        root,
                        extent.start + k * span(extent.level as nat),
                        extent.level as nat,
                    ) {
                    &&& gone == Ok::<u64, PlatformError>(extent.leaves)
                    &&& old(self).tables.revoked(
                        root,
                        extent.start,
                        extent.level as nat,
                        extent.leaves as int,
                        final(self).tables,
                    )
                } else {
                    &&& gone == Err::<u64, PlatformError>(PlatformError::View(ViewError::Absent))
                    &&& exists|n: int|
                        {
                            &&& 0 <= n < extent.leaves
                            &&& !#[trigger] old(self).tables.granted_at(
                                root,
                                extent.start + n * span(extent.level as nat),
                                extent.level as nat,
                            )
                            &&& forall|k: int|
                                0 <= k < n ==> #[trigger] old(self).tables.granted_at(
                                    root,
                                    extent.start + k * span(extent.level as nat),
                                    extent.level as nat,
                                )
                            &&& old(self).tables.revoked(
                                root,
                                extent.start,
                                extent.level as nat,
                                n,
                                final(self).tables,
                            )
                        }
                },
            },
    {
        let ghost before = *self;
        let root: u64 = self.root_of(view)?;
        let done = self.tables.unmap_run(root, extent.start, extent.level, extent.leaves);
        proof {
            lemma_roots_kept(before, *self);
        }
        match done {
            Ok(()) => Ok(extent.leaves),
            Err(error) => Err(PlatformError::View(error)),
        }
    }

    /// What `view` translates `address` through, read back out of its own
    /// tables.
    ///
    /// A view is only ever granted RAM, so its leaves are write-back by
    /// construction.
    pub fn resident(&self, view: AddressView, address: u64) -> (found: Option<Leaf>)
        requires
            self.wf(),
        ensures
            found == match self.view_root(view) {
                None => None,
                Some(root) => leaf_at(self.tables.translate(root, address), address, Kind::Ram),
            },
    {
        match self.root_of(view) {
            Ok(root) => leaf(&self.tables, root, address, Kind::Ram),
            Err(_) => None,
        }
    }

    /// Maps one device window into the kernel's tree and says where.
    ///
    /// A page table without `Svpbmt` has no cacheability bits in a PTE:
    /// uncached ordering comes from the physical address's PMA. The window is
    /// declared before it is mapped, and the address it is put at is never used
    /// for another.
    pub fn map_device(&mut self, window: Span, rights: Rights) -> (base: Result<u64, MappingError>)
        requires
            old(self).wf(),
            window.start + window.bytes <= u64::MAX - 4096,
        ensures
            final(self).wf(),
            final(self).root == old(self).root,
            final(self).mode == old(self).mode,
            final(self).asid_bits == old(self).asid_bits,
            final(self).views == old(self).views,
            final(self).devices >= old(self).devices,
            old(self).tables.confined(final(self).tables),
            if rights.execute || !(rights.read || rights.write) {
                &&& base == Err::<u64, MappingError>(MappingError::InvalidPermissions)
                &&& *final(self) == *old(self)
            } else if old(self).devices + window.bytes > DEVICE_REGION_END {
                &&& base == Err::<u64, MappingError>(
                    if old(self).devices + window.bytes > u64::MAX {
                        MappingError::InvalidAddress
                    } else {
                        MappingError::OutOfFrames
                    },
                )
                &&& *final(self) == *old(self)
            } else {
                match base {
                    Ok(base) => {
                        &&& base == old(self).devices
                        &&& final(self).devices == align::up(base + window.bytes, 0x20_0000)
                        &&& final(self).log@ == old(self).log@.push(
                            MappedRange {
                                start: base,
                                end: (base + window.bytes) as u64,
                                contents: Contents::Device,
                            },
                        )
                        &&& old(self).tables.run_mapped(
                            old(self).root,
                            base,
                            window.start,
                            0,
                            pages(window.bytes),
                            flags_for(rights),
                            final(self).tables,
                        )
                    },
                    Err(error) => {
                        &&& final(self).devices == old(self).devices
                        &&& if old(self).log@.len() >= CAPACITY {
                            &&& error == MappingError::Backend
                            &&& *final(self) == *old(self)
                        } else {
                            &&& final(self).log@ == old(self).log@.push(
                                MappedRange {
                                    start: old(self).devices,
                                    end: (old(self).devices + window.bytes) as u64,
                                    contents: Contents::Device,
                                },
                            )
                            &&& exists|n: int|
                                0 <= n < pages(window.bytes) && #[trigger] old(self).tables.halted(
                                    old(self).root,
                                    old(self).devices,
                                    window.start,
                                    0,
                                    n,
                                    flags_for(rights),
                                    error,
                                    final(self).tables,
                                )
                        }
                    },
                }
            },
            base matches Err(error) && (error == MappingError::Backend || error
                == MappingError::OutOfFrames) && old(self).devices + window.bytes
                <= DEVICE_REGION_END ==> {
                ||| old(self).log@.len() >= CAPACITY
                ||| old(self).tables.pool@.len() < pages(window.bytes) * old(self).tables.top
                ||| exists|va: u64|
                    old(self).devices <= va < old(self).devices + pages(window.bytes) * 4096
                        && #[trigger] old(self).tables.blocked(old(self).root, va, 0)
            },
    {
        let ghost before = *self;
        let (rights, _cache) = device_rights(rights)?;
        let base: u64 = self.devices;
        if base > u64::MAX - window.bytes {
            return Err(MappingError::InvalidAddress);
        }
        let end: u64 = base + window.bytes;
        if end > DEVICE_REGION_END {
            return Err(MappingError::OutOfFrames);
        }
        self.log.push(MappedRange::device(base, end))?;
        let count: u64 = (window.bytes + (PAGE_4K - 1)) / PAGE_4K;
        proof {
            entry::lemma_span_values();
            range::law_rights_read_back(rights, 0);
            lemma_widths(self.mode);
            assert(count == pages(window.bytes));
            align::lemma_up(end as int, 0x20_0000);
            assert(DEVICE_REGION_END as int % 0x20_0000 == 0);
        }
        // Level zero only: a megapage would reach past the window.
        let done = self.tables.map_run(
            self.root,
            base,
            window.start,
            0,
            count,
            range::leaf_flags(rights),
        );
        proof {
            lemma_roots_kept(before, *self);
        }
        done?;
        self.devices = match align::align_up(end, PAGE_2M) {
            Some(next) => next,
            None => end,
        };
        Ok(base)
    }

    /// The largest leaf covering RAM, found by walking the kernel's tree.
    ///
    /// Every address in every range is accounted for, one leaf at a time, so
    /// the answer cannot come from a lucky probe: an unmapped page inside a
    /// declared range is a hole, and the walk stops on it rather than stepping
    /// over it and reporting the gigapage next door.
    pub fn largest_ram_leaf(&self, ranges: &[(u64, u64)]) -> (largest: Result<Leaf, PlatformError>)
        requires
            self.wf(),
            forall|i: int|
                0 <= i < ranges@.len() ==> (#[trigger] ranges@[i]).1 <= reach(
                    self.tables.top as nat,
                ),
        ensures
            match largest {
                Ok(largest) => {
                    &&& exists|i: int, va: u64|
                        {
                            &&& 0 <= i < ranges@.len()
                            &&& ranges@[i].0 <= va < ranges@[i].1
                            &&& #[trigger] self.ram_leaf(i, va) == Some(largest)
                            &&& self.outgrown(ranges@, i, va as int, largest.size)
                        }
                    &&& forall|i: int, va: u64|
                        0 <= i < ranges@.len() && ranges@[i].0 <= va < ranges@[i].1 ==> (
                        #[trigger] self.ram_leaf(i, va) matches Some(leaf) && leaf.size
                            <= largest.size)
                },
                Err(error) => {
                    &&& error == PlatformError::Mapping(MappingError::Unmapped)
                    &&& (forall|i: int, va: u64|
                        0 <= i < ranges@.len() ==> !(ranges@[i].0 <= va < ranges@[i].1
                            && #[trigger] self.ram_leaf(i, va) is Some)) || exists|i: int, va: u64|
                        0 <= i < ranges@.len() && ranges@[i].0 <= va < ranges@[i].1
                            && #[trigger] self.ram_leaf(i, va) is None
                },
            },
    {
        let mut largest: Option<Leaf> = None;
        let mut i: usize = 0;
        while i < ranges.len()
            invariant
                i <= ranges@.len(),
                self.wf(),
                forall|n: int|
                    0 <= n < ranges@.len() ==> (#[trigger] ranges@[n]).1 <= reach(
                        self.tables.top as nat,
                    ),
                self.surveyed(ranges@, i as int, 0, largest),
            decreases ranges.len() - i,
        {
            let (start, end) = ranges[i];
            assert(ranges@[i as int] == (start, end));
            let mut address: u64 = start;
            while address < end
                invariant
                    i < ranges@.len(),
                    ranges@[i as int] == (start, end),
                    self.wf(),
                    end <= reach(self.tables.top as nat),
                    start <= address,
                    self.surveyed(ranges@, i as int, address as int, largest),
                decreases reach(self.tables.top as nat) - address,
            {
                let found = match leaf(&self.tables, self.root, address, Kind::Ram) {
                    Some(found) => found,
                    None => {
                        assert(self.ram_leaf(i as int, address) is None);
                        return Err(PlatformError::Mapping(MappingError::Unmapped));
                    },
                };
                assert(self.ram_leaf(i as int, address) == Some(found));
                let ghost held = largest;
                let bigger = match largest {
                    None => true,
                    Some(held) => held.size < found.size,
                };
                if bigger {
                    largest = Some(found);
                }
                proof {
                    lemma_widths(self.mode);
                    self.lemma_leaf_whole(i as int, address);
                    lemma_surveyed_on(
                        *self,
                        ranges@,
                        i as int,
                        address,
                        found,
                        held,
                        largest,
                    );
                }
                // A leaf ends past the address it was found at.
                address = found.start + found.size;
            }
            assert(self.surveyed(ranges@, i + 1, 0, largest)) by {
                assert forall|n: int, va: u64|
                    0 <= n < i + 1 && ranges@[n].0 <= va < ranges@[n].1 implies (
                #[trigger] self.ram_leaf(n, va) matches Some(leaf) && largest matches Some(held)
                    && leaf.size <= held.size) by {}
            }
            i = i + 1;
        }
        match largest {
            Some(largest) => Ok(largest),
            None => Err(PlatformError::Mapping(MappingError::Unmapped)),
        }
    }

    /// The leaf of RAM range `range` at `va`.
    pub open spec fn ram_leaf(&self, range: int, va: u64) -> Option<Leaf> {
        leaf_at(self.tables.translate(self.root, va), va, Kind::Ram)
    }

    /// Whether every leaf of the ranges before `index`, and of the addresses of
    /// range `index` before `address`, is smaller than `size`.
    pub open spec fn outgrown(
        &self,
        ranges: Seq<(u64, u64)>,
        index: int,
        address: int,
        size: u64,
    ) -> bool {
        forall|n: int, va: u64|
            (0 <= n < index && n < ranges.len() && ranges[n].0 <= va < ranges[n].1 || n == index && n
                < ranges.len() && ranges[n].0 <= va < ranges[n].1 && va < address) ==> (
            #[trigger] self.ram_leaf(n, va) matches Some(leaf) && leaf.size < size)
    }

    /// Whether `largest` is the largest leaf of the ranges before `index` and
    /// of the addresses of range `index` before `address`, and the first that
    /// large.
    pub open spec fn surveyed(
        &self,
        ranges: Seq<(u64, u64)>,
        index: int,
        address: int,
        largest: Option<Leaf>,
    ) -> bool {
        &&& forall|n: int, va: u64|
            (0 <= n < index && n < ranges.len() && ranges[n].0 <= va < ranges[n].1 || n == index && n
                < ranges.len() && ranges[n].0 <= va < ranges[n].1 && va < address) ==> (
            #[trigger] self.ram_leaf(n, va) matches Some(leaf) && largest matches Some(held)
                && leaf.size <= held.size)
        &&& largest matches Some(held) ==> exists|n: int, va: u64|
            {
                &&& 0 <= n < ranges.len()
                &&& ranges[n].0 <= va < ranges[n].1
                &&& #[trigger] self.ram_leaf(n, va) == Some(held)
                &&& self.outgrown(ranges, n, va as int, held.size)
            }
    }

    /// Every address of a leaf is translated through it.
    proof fn lemma_leaf_whole(&self, range: int, va: u64)
        requires
            self.wf(),
            va < reach(self.tables.top as nat),
            self.ram_leaf(range, va) is Some,
        ensures
            ({
                let leaf = self.ram_leaf(range, va)->0;
                &&& leaf.start <= va < leaf.start + leaf.size
                &&& leaf.start + leaf.size <= reach(self.tables.top as nat)
                &&& forall|n: int, other: u64|
                    leaf.start <= other < leaf.start + leaf.size ==> #[trigger] self.ram_leaf(
                        n,
                        other,
                    ) == Some(leaf)
            }),
    {
        let top = self.tables.top as nat;
        entry::lemma_span_values();
        lemma_widths(self.mode);
        let (word, level) = self.tables.translate(self.root, va)->0;
        vstd::arithmetic::div_mod::lemma_small_mod(va as nat, reach(top) as nat);
        crate::riscv::table::lemma_translate_page(self.tables, self.root, va);
        entry::lemma_span(level);
        let s = span(level);
        align::lemma_down(va as int, s);
        let start = va - va as int % s;
        crate::riscv::table::lemma_page_within(va as int, level, top);
        assert forall|n: int, other: u64| start <= other < start + s implies #[trigger] self.ram_leaf(
            n,
            other,
        ) == self.ram_leaf(range, va) by {
            vstd::arithmetic::div_mod::lemma_small_mod(other as nat, reach(top) as nat);
            range::lemma_aligned(start, other as int, level);
            range::lemma_aligned(start, va as int, level);
        }
    }
}

proof fn lemma_surveyed_on<M: Memory>(
    paging: Paging<M>,
    ranges: Seq<(u64, u64)>,
    index: int,
    address: u64,
    found: Leaf,
    held: Option<Leaf>,
    largest: Option<Leaf>,
)
    requires
        0 <= index < ranges.len(),
        ranges[index].0 <= address < ranges[index].1,
        paging.surveyed(ranges, index, address as int, held),
        paging.ram_leaf(index, address) == Some(found),
        largest == if held is None || held->0.size < found.size {
            Some(found)
        } else {
            held
        },
        found.start <= address < found.start + found.size,
        forall|n: int, other: u64|
            found.start <= other < found.start + found.size ==> #[trigger] paging.ram_leaf(n, other)
                == Some(found),
    ensures
        paging.surveyed(ranges, index, found.start + found.size, largest),
{
    assert forall|n: int, va: u64|
        (0 <= n < index && n < ranges.len() && ranges[n].0 <= va < ranges[n].1 || n == index && n
            < ranges.len() && ranges[n].0 <= va < ranges[n].1 && va < found.start + found.size) implies (
    #[trigger] paging.ram_leaf(n, va) matches Some(leaf) && largest matches Some(kept) && leaf.size
        <= kept.size) by {
        if n == index && va >= address {
            assert(paging.ram_leaf(n, va) == Some(found));
        }
    }
}

/// The roots a space holds are still roots once only translations changed.
pub(crate) proof fn lemma_roots_kept<M: Memory>(before: Paging<M>, after: Paging<M>)
    requires
        before.wf(),
        after.tables.wf(),
        after.tables.top == before.tables.top,
        forall|r: u64| #[trigger] after.tables.is_root(r) == before.tables.is_root(r),
        after.root == before.root,
        after.mode == before.mode,
        after.devices == before.devices,
        after.views == before.views,
    ensures
        after.wf(),
{
    assert(after.tables.is_root(after.root) == before.tables.is_root(before.root));
    assert forall|i: int| 0 <= i < VIEWS implies (#[trigger] after.views@[i] matches Some(root)
        ==> after.tables.is_root(root) && root != after.root) by {
        assert(before.views@[i] is Some ==> before.tables.is_root(before.views@[i]->0));
        if let Some(root) = after.views@[i] {
            assert(after.tables.is_root(root) == before.tables.is_root(root));
        }
    }
}

/// How many pages a window takes.
pub open spec fn pages(bytes: u64) -> int {
    (bytes + 4095) / 4096
}

proof fn lemma_widths(mode: Mode)
    ensures
        2 <= mode.width() / 9 - 2 <= 4,
        reach(2) == 0x80_0000_0000,
        reach(3) == 0x1_0000_0000_0000,
        reach(4) == 0x200_0000_0000_0000,
{
    entry::lemma_span_values();
}

/// The leaf found at an address, in numbers: it starts on a boundary of its own
/// size, has the address in it, and grants what bits 1 to 3 of its entry say.
pub proof fn law_leaf_has_its_address(word: u64, level: nat, address: u64, kind: Kind)
    requires
        level <= 4,
    ensures
        ({
            &&& leaf_at(Some((word, level)), address, kind) matches Some(leaf)
            &&& leaf.size == if level == 0 {
                4096u64
            } else if level == 1 {
                2097152
            } else if level == 2 {
                1073741824
            } else if level == 3 {
                549755813888
            } else {
                281474976710656
            }
            &&& leaf.start as int % leaf.size as int == 0
            &&& leaf.start <= address < leaf.start + leaf.size
            &&& leaf.protection.read == (word / 2 % 2 == 1)
            &&& leaf.protection.write == (word / 4 % 2 == 1)
            &&& leaf.protection.execute == (word / 8 % 2 == 1)
            &&& leaf.protection.cache == if kind is Device {
                Cache::Device
            } else {
                Cache::WriteBack
            }
        }),
        leaf_at(None, address, kind) is None,
{
    entry::law_levels_in_numbers(address as int);
    align::lemma_down(address as int, span(level));
    assert(address as int % span(level) < span(level)) by {
        vstd::arithmetic::div_mod::lemma_mod_bound(address as int, span(level));
    }
    assert((word & 2 != 0) == (word / 2 % 2 == 1) && (word & 4 != 0) == (word / 4 % 2 == 1) && (word
        & 8 != 0) == (word / 8 % 2 == 1)) by (bit_vector);
}

/// Memory backs an extent exactly if both start on a boundary of the extent's
/// leaves and the last leaf ends inside the memory.
pub proof fn law_backing_in_numbers<M: Memory>(extent: Extent, memory: Span)
    requires
        extent.level <= 2,
    ensures
        Paging::<M>::backs(extent, memory) <==> {
            let granule = if extent.level == 0 {
                4096int
            } else if extent.level == 1 {
                2097152
            } else {
                1073741824
            };
            &&& extent.start as int % granule == 0
            &&& memory.start as int % granule == 0
            &&& memory.start + extent.leaves * granule <= memory.start + memory.bytes
        },
{
    entry::law_levels_in_numbers(0);
}

/// A window takes as many pages as hold its bytes, and not one more.
pub proof fn law_pages_hold_their_bytes(bytes: u64)
    ensures
        bytes <= 4096 * pages(bytes) < bytes + 4096,
{
}

} // verus!
