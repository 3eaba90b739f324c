//! Where firmware hid the ECAM window, read out of the flattened device tree.
//!
//! Only the ECAM window is decoded. A general device tree API would be a larger
//! and more speculative thing; the kernel currently needs one fact from
//! firmware, so the walk answers that one question and forgets the tree. Two
//! bounds, a token cap and a depth cap, mean a corrupt blob ends the walk with
//! an error instead of spinning the boot hart forever.
use vstd::prelude::*;
use vstd::string::StringSliceAdditionalSpecFns;

use crate::arch::{ConfigSpace, BUS_STRIDE};
use crate::bytes::{self, be32, stands, stands_at};

verus! {

/// Everything a blob can be wrong about, all of them a refusal to trust it.
#[derive(Clone, Copy, Debug, PartialEq, Eq, Structural)]
pub enum FdtError {
    /// The bytes do not start with the flattened device tree magic.
    Magic,
    /// The blob's structure is newer than version 16, which we cannot read.
    Version,
    /// A field, token, or string reaches past the bytes we have.
    Truncated,
    /// No `pci-host-ecam-generic` node in the tree.
    Missing,
    /// A token, cell count, or property length that no conforming blob emits.
    Malformed,
    /// The window firmware reported cannot describe the bus range it claims.
    Range,
}

/// Bytes of the header, through `size_dt_struct`.
pub const HEADER: usize = 40;

pub const MAGIC: u32 = 0xd00d_feed;

/// The structure version this reader implements; a blob whose
/// `last_comp_version` is higher is one we would misread.
pub const COMPATIBLE_VERSION: u32 = 16;

pub const BEGIN_NODE: u32 = 1;

pub const END_NODE: u32 = 2;

pub const PROP: u32 = 3;

pub const NOP: u32 = 4;

pub const END: u32 = 9;

/// A walk longer than this is a corrupt blob, not a large machine: QEMU `virt`
/// with 32 virtio slots emits a few thousand tokens.
pub const MAX_TOKENS: usize = 65536;

/// Nesting deeper than this is likewise garbage; real trees reach four or five.
pub const MAX_DEPTH: usize = 32;

/// The cell widths a node imposes on its children's `reg` properties.
#[derive(Clone, Copy, Debug, PartialEq, Eq, Structural)]
pub struct Cells {
    pub address: u32,
    pub size: u32,
}

/// What QEMU `virt` declares at the root, and what is assumed when a parent
/// declares nothing: an address and a size that are both 64 bits.
pub open spec fn default_cells() -> Cells {
    Cells { address: 2, size: 2 }
}

/// A run of bytes, from the first to just past the last.
#[derive(Clone, Copy, Debug, PartialEq, Eq, Structural)]
pub struct Run {
    pub start: usize,
    pub end: usize,
}

/// The properties of the node currently open, kept only until it closes.
#[derive(Clone, Copy, Debug, PartialEq, Eq, Structural)]
pub struct Node {
    pub matched: bool,
    pub cells: Cells,
    pub reg: Option<Run>,
    pub bus_range: Option<Run>,
    pub domain: Option<Run>,
}

/// A node nothing is known of yet.
pub open spec fn opened(cells: Cells) -> Node {
    Node { matched: false, cells, reg: None, bus_range: None, domain: None }
}

/// The big-endian word at `at`, if all of it is there.
pub open spec fn word_at(s: Seq<u8>, at: int) -> Option<u32> {
    if 0 <= at && at + 4 <= s.len() {
        Some(be32(s, at) as u32)
    } else {
        None
    }
}

/// Where the first NUL at or after `from` is.
pub open spec fn nul_from(s: Seq<u8>, from: int) -> Option<int>
    decreases s.len() - from,
{
    if from < 0 || from >= s.len() {
        None
    } else if s[from] == 0 {
        Some(from)
    } else {
        nul_from(s, from + 1)
    }
}

/// Whether `text` is the whole of the NUL-separated string that starts at `at`.
pub open spec fn names(s: Seq<u8>, at: int, text: Seq<u8>) -> bool {
    &&& 0 <= at <= s.len()
    &&& at == 0 || s[at - 1] == 0
    &&& stands_at(s, at, text)
    &&& at + text.len() == s.len() || s[(at + text.len()) as int] == 0
}

/// Whether `text` is one of the NUL-separated strings of `s`.
pub open spec fn lists(s: Seq<u8>, text: Seq<u8>) -> bool {
    exists|at: int| names(s, at, text)
}

/// One or two big-endian cells as one number.
pub open spec fn number(s: Seq<u8>, at: int, cells: u32) -> int {
    if cells == 1 {
        be32(s, at)
    } else {
        be32(s, at) * 0x1_0000_0000 + be32(s, at + 4)
    }
}

/// The first cell of a property, if it has one.
pub open spec fn cell_of(s: Seq<u8>, run: Run) -> Option<u32> {
    if run.end - run.start >= 4 {
        Some(be32(s, run.start as int) as u32)
    } else {
        None
    }
}

/// What a property named `name` adds to what is known: of its node, and of the
/// widths its node's children use.
pub open spec fn learned(
    structs: Seq<u8>,
    node: Node,
    children: Cells,
    name: Seq<u8>,
    value: Run,
) -> (Node, Cells) {
    let bytes = structs.subrange(value.start as int, value.end as int);
    if name =~= "compatible".spec_bytes() {
        (
            Node {
                matched: node.matched || lists(bytes, "pci-host-ecam-generic".spec_bytes()),
                ..node
            },
            children,
        )
    } else if name =~= "reg".spec_bytes() {
        (Node { reg: Some(value), ..node }, children)
    } else if name =~= "bus-range".spec_bytes() {
        (Node { bus_range: Some(value), ..node }, children)
    } else if name =~= "linux,pci-domain".spec_bytes() {
        (Node { domain: Some(value), ..node }, children)
    } else if name =~= "#address-cells".spec_bytes() {
        (
            node,
            match cell_of(structs, value) {
                Some(address) => Cells { address, ..children },
                None => children,
            },
        )
    } else if name =~= "#size-cells".spec_bytes() {
        (
            node,
            match cell_of(structs, value) {
                Some(size) => Cells { size, ..children },
                None => children,
            },
        )
    } else {
        (node, children)
    }
}

/// The buses a node claims: every one when firmware does not say.
pub open spec fn buses_of(structs: Seq<u8>, node: Node) -> Result<(u8, u8), FdtError> {
    match node.bus_range {
        None => Ok((0, 255)),
        Some(run) => if run.end - run.start < 8 {
            Err(FdtError::Malformed)
        } else {
            let first = be32(structs, run.start as int);
            let last = be32(structs, run.start + 4);
            if first > 255 || last > 255 {
                Err(FdtError::Range)
            } else {
                Ok((first as u8, last as u8))
            }
        },
    }
}

/// The segment a node is: its PCI domain, or zero.
pub open spec fn segment_of(structs: Seq<u8>, node: Node) -> Result<u16, FdtError> {
    match node.domain {
        None => Ok(0),
        Some(run) => match cell_of(structs, run) {
            None => Err(FdtError::Malformed),
            Some(domain) => if domain > 0xffff {
                Err(FdtError::Range)
            } else {
                Ok(domain as u16)
            },
        },
    }
}

/// The ECAM window a node describes: its base from `reg`, refused unless the
/// window is long enough for the buses it claims.
pub open spec fn space_of(structs: Seq<u8>, node: Node) -> Result<ConfigSpace, FdtError> {
    let address = node.cells.address;
    let size = node.cells.size;
    if !(1 <= address <= 2) || !(1 <= size <= 2) || node.reg is None {
        Err(FdtError::Malformed)
    } else {
        let reg = node.reg->0;
        if reg.end - reg.start < 4 * address + 4 * size {
            Err(FdtError::Malformed)
        } else {
            let base = number(structs, reg.start as int, address);
            let window = number(structs, reg.start + 4 * address, size);
            match buses_of(structs, node) {
                Err(error) => Err(error),
                Ok((first, last)) => if first > last || window < (last - first + 1) * BUS_STRIDE {
                    Err(FdtError::Range)
                } else {
                    match segment_of(structs, node) {
                        Err(error) => Err(error),
                        Ok(segment) => Ok(
                            ConfigSpace {
                                base: base as u64,
                                segment,
                                first_bus: first,
                                last_bus: last,
                            },
                        ),
                    }
                },
            }
        }
    }
}

/// How far a walk has got: where the next token is, the widths each open node
/// declares for its children, and the innermost node.
pub struct Scan {
    pub cursor: int,
    pub cells: Seq<Cells>,
    pub node: Node,
}

/// What one token leads to.
pub enum Step {
    On(Scan),
    Done(Result<ConfigSpace, FdtError>),
}

/// An offset rounded up to a whole word, if it still is one.
pub open spec fn aligned(offset: int) -> Option<int> {
    if offset + 3 > usize::MAX {
        None
    } else {
        Some((offset + 3) / 4 * 4)
    }
}

/// What the token at the cursor does. Properties precede subnodes, so a
/// matching node is complete the moment a child opens or it closes.
pub open spec fn step(structs: Seq<u8>, strings: Seq<u8>, scan: Scan) -> Step {
    let after = scan.cursor + 4;
    match word_at(structs, scan.cursor) {
        None => Step::Done(Err(FdtError::Truncated)),
        Some(token) => if token == BEGIN_NODE {
            begin(structs, scan, after)
        } else if token == PROP {
            property(structs, strings, scan, after)
        } else if token == END_NODE {
            if scan.node.matched {
                Step::Done(space_of(structs, scan.node))
            } else if scan.cells.len() == 0 {
                Step::Done(Err(FdtError::Malformed))
            } else {
                Step::On(
                    Scan {
                        cursor: after,
                        cells: scan.cells.drop_last(),
                        node: opened(default_cells()),
                    },
                )
            }
        } else if token == NOP {
            Step::On(Scan { cursor: after, ..scan })
        } else if token == END {
            Step::Done(Err(FdtError::Missing))
        } else {
            Step::Done(Err(FdtError::Malformed))
        },
    }
}

/// A node opens, its name at `at`.
pub open spec fn begin(structs: Seq<u8>, scan: Scan, at: int) -> Step {
    if scan.node.matched {
        Step::Done(space_of(structs, scan.node))
    } else {
        match nul_from(structs, at) {
            None => Step::Done(Err(FdtError::Truncated)),
            Some(nul) => match aligned(nul + 1) {
                None => Step::Done(Err(FdtError::Truncated)),
                Some(cursor) => if scan.cells.len() >= MAX_DEPTH {
                    Step::Done(Err(FdtError::Malformed))
                } else {
                    let parent = if scan.cells.len() == 0 {
                        default_cells()
                    } else {
                        scan.cells.last()
                    };
                    Step::On(
                        Scan {
                            cursor,
                            cells: scan.cells.push(default_cells()),
                            node: opened(parent),
                        },
                    )
                },
            },
        }
    }
}

/// A property, its length and the offset of its name at `at`.
pub open spec fn property(structs: Seq<u8>, strings: Seq<u8>, scan: Scan, at: int) -> Step {
    match (word_at(structs, at), word_at(structs, at + 4)) {
        (Some(len), Some(name_at)) => {
            let end = at + 8 + len;
            if end > structs.len() {
                Step::Done(Err(FdtError::Truncated))
            } else {
                match aligned(end) {
                    None => Step::Done(Err(FdtError::Truncated)),
                    Some(cursor) => if scan.cells.len() == 0 {
                        Step::Done(Err(FdtError::Malformed))
                    } else {
                        match nul_from(strings, name_at as int) {
                            None => Step::Done(Err(FdtError::Truncated)),
                            Some(nul) => {
                                let (node, children) = learned(
                                    structs,
                                    scan.node,
                                    scan.cells.last(),
                                    strings.subrange(name_at as int, nul),
                                    Run { start: (at + 8) as usize, end: end as usize },
                                );
                                Step::On(
                                    Scan {
                                        cursor,
                                        cells: scan.cells.drop_last().push(children),
                                        node,
                                    },
                                )
                            },
                        }
                    },
                }
            }
        },
        _ => Step::Done(Err(FdtError::Truncated)),
    }
}

/// What a walk of at most `tokens` tokens finds.
pub open spec fn scanned(structs: Seq<u8>, strings: Seq<u8>, scan: Scan, tokens: nat) -> Result<
    ConfigSpace,
    FdtError,
>
    decreases tokens,
{
    if tokens == 0 {
        Err(FdtError::Malformed)
    } else {
        match step(structs, strings, scan) {
            Step::Done(result) => result,
            Step::On(next) => scanned(structs, strings, next, (tokens - 1) as nat),
        }
    }
}

/// Where a walk starts.
pub open spec fn fresh() -> Scan {
    Scan { cursor: 0, cells: seq![], node: opened(default_cells()) }
}

/// The size a header vouches for, if its magic and version are accepted.
pub open spec fn size_of(s: Seq<u8>) -> Result<int, FdtError> {
    if s.len() < 4 {
        Err(FdtError::Truncated)
    } else if be32(s, 0) != MAGIC {
        Err(FdtError::Magic)
    } else if s.len() < 28 {
        Err(FdtError::Truncated)
    } else if be32(s, 24) > COMPATIBLE_VERSION {
        Err(FdtError::Version)
    } else if be32(s, 4) < HEADER {
        Err(FdtError::Truncated)
    } else {
        Ok(be32(s, 4))
    }
}

/// One of the two blocks the header locates by offset and size.
pub open spec fn block_of(s: Seq<u8>, size: int, offset_at: int, size_at: int) -> Option<Seq<u8>> {
    let offset = be32(s, offset_at);
    let len = be32(s, size_at);
    if offset + len > size {
        None
    } else {
        Some(s.subrange(offset, offset + len))
    }
}

/// What a whole blob says of its ECAM window.
pub open spec fn space_in(s: Seq<u8>, size: int) -> Result<ConfigSpace, FdtError> {
    match (block_of(s, size, 8, 36), block_of(s, size, 12, 32)) {
        (Some(structs), Some(strings)) => scanned(structs, strings, fresh(), MAX_TOKENS as nat),
        _ => Err(FdtError::Truncated),
    }
}

/// The `totalsize` of a blob whose magic and version we accept.
pub fn size(bytes: &[u8]) -> (size: Result<usize, FdtError>)
    ensures
        match size {
            Ok(size) => size_of(bytes@) == Ok::<int, FdtError>(size as int),
            Err(error) => size_of(bytes@) == Err::<int, FdtError>(error),
        },
{
    if word(bytes, 0)? != MAGIC {
        return Err(FdtError::Magic);
    }
    if word(bytes, 24)? > COMPATIBLE_VERSION {
        return Err(FdtError::Version);
    }
    let size: usize = word(bytes, 4)? as usize;
    if size < HEADER {
        return Err(FdtError::Truncated);
    }
    Ok(size)
}

fn word(bytes: &[u8], at: usize) -> (word: Result<u32, FdtError>)
    ensures
        match word {
            Ok(word) => at + 4 <= bytes@.len() && word == be32(bytes@, at as int),
            Err(error) => at + 4 > bytes@.len() && error == FdtError::Truncated,
        },
{
    if at > bytes.len() || bytes.len() - at < 4 {
        return Err(FdtError::Truncated);
    }
    Ok(bytes::get_be32(bytes, at))
}

fn find_nul(bytes: &[u8], from: usize) -> (nul: Option<usize>)
    ensures
        match nul {
            Some(nul) => nul_from(bytes@, from as int) == Some(nul as int) && from <= nul
                < bytes@.len(),
            None => nul_from(bytes@, from as int) is None,
        },
{
    let mut at: usize = from;
    while at < bytes.len()
        invariant
            from <= at,
            at <= bytes@.len() || at == from,
            nul_from(bytes@, from as int) == nul_from(bytes@, at as int),
        decreases bytes.len() - at,
    {
        if bytes[at] == 0 {
            return Some(at);
        }
        at = at + 1;
    }
    None
}

/// Whether `bytes[from..to]` is `text`.
fn is_text(bytes: &[u8], from: usize, to: usize, text: &[u8]) -> (is: bool)
    requires
        from <= to <= bytes@.len(),
    ensures
        is == (bytes@.subrange(from as int, to as int) =~= text@),
{
    if to - from != text.len() {
        return false;
    }
    stands(bytes, from, text)
}

/// Whether `text` is the whole of the NUL-separated string that starts at `at`.
fn begins(bytes: &[u8], at: usize, text: &[u8]) -> (begins: bool)
    requires
        at <= bytes@.len(),
    ensures
        begins == names(bytes@, at as int, text@),
{
    assert(bytes.len() == bytes@.len());
    (at == 0 || bytes[at - 1] == 0) && stands(bytes, at, text) && (at + text.len() == bytes.len()
        || bytes[at + text.len()] == 0)
}

/// Whether `text` is one of the NUL-separated strings of `bytes[from..to]`.
fn listed(bytes: &[u8], from: usize, to: usize, text: &[u8]) -> (listed: bool)
    requires
        from <= to <= bytes@.len(),
    ensures
        listed == lists(bytes@.subrange(from as int, to as int), text@),
{
    let run = vstd::slice::slice_subrange(bytes, from, to);
    let mut i: usize = 0;
    while i < run.len()
        invariant
            run@ == bytes@.subrange(from as int, to as int),
            i <= run@.len(),
            forall|k: int| 0 <= k < i ==> !names(run@, k, text@),
        decreases run.len() - i,
    {
        if begins(run, i, text) {
            return true;
        }
        i = i + 1;
    }
    begins(run, i, text)
}

fn align(offset: usize) -> (rounded: Result<usize, FdtError>)
    ensures
        match rounded {
            Ok(rounded) => aligned(offset as int) == Some(rounded as int),
            Err(error) => aligned(offset as int) is None && error == FdtError::Truncated,
        },
{
    if offset > usize::MAX - 3 {
        return Err(FdtError::Truncated);
    }
    Ok((offset + 3) / 4 * 4)
}

/// Whether the runs a node holds lie in the struct block.
pub open spec fn inside(node: Node, len: int) -> bool {
    &&& node.reg matches Some(run) ==> run.start <= run.end <= len
    &&& node.bus_range matches Some(run) ==> run.start <= run.end <= len
    &&& node.domain matches Some(run) ==> run.start <= run.end <= len
}

fn cell(bytes: &[u8], run: Run) -> (value: Option<u32>)
    requires
        run.start <= run.end <= bytes@.len(),
    ensures
        value == cell_of(bytes@, run),
{
    if run.end - run.start < 4 {
        return None;
    }
    Some(bytes::get_be32(bytes, run.start))
}

fn cells_at(bytes: &[u8], at: usize, cells: u32) -> (value: u64)
    requires
        1 <= cells <= 2,
        at + 4 * cells <= bytes@.len(),
    ensures
        value == number(bytes@, at as int, cells),
{
    assert(bytes.len() == bytes@.len());
    let first: u64 = bytes::get_be32(bytes, at) as u64;
    if cells == 1 {
        return first;
    }
    first * 0x1_0000_0000 + bytes::get_be32(bytes, at + 4) as u64
}

impl Node {
    fn new(cells: Cells) -> (node: Self)
        ensures
            node == opened(cells),
    {
        Node { matched: false, cells, reg: None, bus_range: None, domain: None }
    }

    /// The bus range, defaulting to every bus when firmware omits it.
    fn buses(&self, structs: &[u8]) -> (buses: Result<(u8, u8), FdtError>)
        requires
            inside(*self, structs@.len() as int),
        ensures
            buses == buses_of(structs@, *self),
    {
        let run = match self.bus_range {
            Some(run) => run,
            None => return Ok((0, 255)),
        };
        if run.end - run.start < 8 {
            return Err(FdtError::Malformed);
        }
        let first: u32 = bytes::get_be32(structs, run.start);
        let last: u32 = bytes::get_be32(structs, run.start + 4);
        if first > 255 || last > 255 {
            return Err(FdtError::Range);
        }
        Ok((first as u8, last as u8))
    }

    fn segment(&self, structs: &[u8]) -> (segment: Result<u16, FdtError>)
        requires
            inside(*self, structs@.len() as int),
        ensures
            segment == segment_of(structs@, *self),
    {
        let run = match self.domain {
            Some(run) => run,
            None => return Ok(0),
        };
        match cell(structs, run) {
            None => Err(FdtError::Malformed),
            Some(domain) => {
                if domain > 0xffff {
                    Err(FdtError::Range)
                } else {
                    Ok(domain as u16)
                }
            },
        }
    }

    fn config_space(&self, structs: &[u8]) -> (space: Result<ConfigSpace, FdtError>)
        requires
            inside(*self, structs@.len() as int),
        ensures
            space == space_of(structs@, *self),
    {
        let address: u32 = self.cells.address;
        let size: u32 = self.cells.size;
        // One cell is 32 bits and two are 64; anything else is a binding this
        // reader would silently misdecode.
        if address < 1 || address > 2 || size < 1 || size > 2 {
            return Err(FdtError::Malformed);
        }
        let reg = match self.reg {
            Some(reg) => reg,
            None => return Err(FdtError::Malformed),
        };
        if reg.end - reg.start < 4 * address as usize + 4 * size as usize {
            return Err(FdtError::Malformed);
        }
        let base: u64 = cells_at(structs, reg.start, address);
        let window: u64 = cells_at(structs, reg.start + 4 * address as usize, size);
        let (first_bus, last_bus) = self.buses(structs)?;
        // A window shorter than the buses it claims would let a later config
        // read walk off the end of the mapping.
        if first_bus > last_bus || window < ((last_bus - first_bus) as u64 + 1) * BUS_STRIDE {
            return Err(FdtError::Range);
        }
        let segment: u16 = self.segment(structs)?;
        match ConfigSpace::new(base, segment, first_bus, last_bus) {
            Ok(space) => Ok(space),
            Err(_) => Err(FdtError::Range),
        }
    }

    /// Records one property, and any cell width it declares for its children.
    fn property(
        &mut self,
        structs: &[u8],
        strings: &[u8],
        name: Run,
        value: Run,
        children: Cells,
    ) -> (after: Cells)
        requires
            inside(*old(self), structs@.len() as int),
            value.start <= value.end <= structs@.len(),
            name.start <= name.end <= strings@.len(),
        ensures
            inside(*final(self), structs@.len() as int),
            (*final(self), after) == learned(
                structs@,
                *old(self),
                children,
                strings@.subrange(name.start as int, name.end as int),
                value,
            ),
    {
        // `compatible` is a list of NUL-separated strings, most specific
        // first, and the generic ECAM binding is rarely the first of them.
        if is_text(strings, name.start, name.end, "compatible".as_bytes()) {
            let found = listed(
                structs,
                value.start,
                value.end,
                "pci-host-ecam-generic".as_bytes(),
            );
            self.matched = self.matched || found;
            children
        } else if is_text(strings, name.start, name.end, "reg".as_bytes()) {
            self.reg = Some(value);
            children
        } else if is_text(strings, name.start, name.end, "bus-range".as_bytes()) {
            self.bus_range = Some(value);
            children
        } else if is_text(strings, name.start, name.end, "linux,pci-domain".as_bytes()) {
            self.domain = Some(value);
            children
        } else if is_text(strings, name.start, name.end, "#address-cells".as_bytes()) {
            match cell(structs, value) {
                Some(address) => Cells { address, size: children.size },
                None => children,
            }
        } else if is_text(strings, name.start, name.end, "#size-cells".as_bytes()) {
            match cell(structs, value) {
                Some(size) => Cells { address: children.address, size },
                None => children,
            }
        } else {
            children
        }
    }
}

/// A borrowed, validated flattened device tree.
pub struct DeviceTree<'dtb> {
    pub bytes: &'dtb [u8],
    pub size: usize,
}

impl<'dtb> DeviceTree<'dtb> {
    pub open spec fn wf(&self) -> bool {
        HEADER <= self.size <= self.bytes@.len()
    }

    /// Validates the header and borrows the whole blob.
    pub fn new(bytes: &'dtb [u8]) -> (tree: Result<Self, FdtError>)
        ensures
            match tree {
                Ok(tree) => {
                    &&& size_of(bytes@) == Ok::<int, FdtError>(tree.size as int)
                    &&& tree.bytes@ == bytes@
                    &&& tree.wf()
                },
                Err(error) => match size_of(bytes@) {
                    Ok(size) => bytes@.len() < size && error == FdtError::Truncated,
                    Err(refusal) => error == refusal,
                },
            },
    {
        let size: usize = size(bytes)?;
        // Everything after this point may trust `size` bytes to be present.
        if bytes.len() < size {
            return Err(FdtError::Truncated);
        }
        Ok(DeviceTree { bytes, size })
    }

    /// The total size the header reports, so a caller can re-borrow exactly.
    pub fn size(&self) -> (size: usize)
        ensures
            size == self.size,
    {
        self.size
    }

    /// The ECAM window of the first `pci-host-ecam-generic` node.
    pub fn config_space(&self) -> (space: Result<ConfigSpace, FdtError>)
        requires
            self.wf(),
        ensures
            space == space_in(self.bytes@, self.size as int),
    {
        let structs = self.block(8, 36)?;
        let strings = self.block(12, 32)?;
        let mut cursor: usize = 0;
        // Cells declared *by* each open node, for its children.
        let mut cells: Vec<Cells> = Vec::new();
        let mut node = Node::new(Cells { address: 2, size: 2 });
        let mut tokens: usize = 0;
        assert(cells@ =~= seq![]);
        while tokens < MAX_TOKENS
            invariant
                tokens <= MAX_TOKENS,
                inside(node, structs@.len() as int),
                cells@.len() <= MAX_DEPTH,
                scanned(structs@, strings@, fresh(), MAX_TOKENS as nat) == scanned(
                    structs@,
                    strings@,
                    Scan { cursor: cursor as int, cells: cells@, node },
                    (MAX_TOKENS - tokens) as nat,
                ),
                space_in(self.bytes@, self.size as int) == scanned(
                    structs@,
                    strings@,
                    fresh(),
                    MAX_TOKENS as nat,
                ),
            decreases MAX_TOKENS - tokens,
        {
            let ghost scan = Scan { cursor: cursor as int, cells: cells@, node };
            assert(structs.len() == structs@.len());
            let token: u32 = word(structs, cursor)?;
            let after: usize = cursor + 4;
            if token == BEGIN_NODE {
                if node.matched {
                    return node.config_space(structs);
                }
                let nul: usize = match find_nul(structs, after) {
                    Some(nul) => nul,
                    None => return Err(FdtError::Truncated),
                };
                let next: usize = align(nul + 1)?;
                if cells.len() >= MAX_DEPTH {
                    return Err(FdtError::Malformed);
                }
                let parent = if cells.len() == 0 {
                    Cells { address: 2, size: 2 }
                } else {
                    cells[cells.len() - 1]
                };
                cells.push(Cells { address: 2, size: 2 });
                node = Node::new(parent);
                cursor = next;
            } else if token == PROP {
                let len: usize = word(structs, after)? as usize;
                let name_at: usize = word(structs, after + 4)? as usize;
                let start: usize = after + 8;
                if len > structs.len() - start {
                    return Err(FdtError::Truncated);
                }
                let end: usize = start + len;
                let next: usize = align(end)?;
                if cells.len() == 0 {
                    return Err(FdtError::Malformed);
                }
                let nul: usize = match find_nul(strings, name_at) {
                    Some(nul) => nul,
                    None => return Err(FdtError::Truncated),
                };
                let last: usize = cells.len() - 1;
                let children = node.property(
                    structs,
                    strings,
                    Run { start: name_at, end: nul },
                    Run { start, end },
                    cells[last],
                );
                cells.pop();
                cells.push(children);
                cursor = next;
            } else if token == END_NODE {
                if node.matched {
                    return node.config_space(structs);
                }
                if cells.len() == 0 {
                    return Err(FdtError::Malformed);
                }
                cells.pop();
                // The parent reopens with its properties already read, so
                // nothing it declares can still arrive.
                node = Node::new(Cells { address: 2, size: 2 });
                cursor = after;
            } else if token == NOP {
                cursor = after;
            } else if token == END {
                return Err(FdtError::Missing);
            } else {
                return Err(FdtError::Malformed);
            }
            assert(step(structs@, strings@, scan) == Step::On(
                Scan { cursor: cursor as int, cells: cells@, node },
            ));
            tokens = tokens + 1;
        }
        Err(FdtError::Malformed)
    }

    fn block(&self, offset_at: usize, size_at: usize) -> (block: Result<&'dtb [u8], FdtError>)
        requires
            self.wf(),
            offset_at + 4 <= HEADER,
            size_at + 4 <= HEADER,
        ensures
            match block {
                Ok(block) => block_of(
                    self.bytes@,
                    self.size as int,
                    offset_at as int,
                    size_at as int,
                ) == Some(block@),
                Err(error) => block_of(
                    self.bytes@,
                    self.size as int,
                    offset_at as int,
                    size_at as int,
                ) is None && error == FdtError::Truncated,
            },
    {
        let offset: usize = word(self.bytes, offset_at)? as usize;
        let len: usize = word(self.bytes, size_at)? as usize;
        if offset > self.size || len > self.size - offset {
            return Err(FdtError::Truncated);
        }
        Ok(vstd::slice::slice_subrange(self.bytes, offset, offset + len))
    }
}

/// The ECAM window of the device tree in `blob`, if firmware left one.
///
/// A hart entered without a device tree pointer has no blob to read; that is
/// [`FdtError::Missing`], refused before any load.
pub fn config_space_at(blob: Option<&[u8]>) -> (space: Result<ConfigSpace, FdtError>)
    ensures
        space == match blob {
            None => Err::<ConfigSpace, FdtError>(FdtError::Missing),
            Some(bytes) => match size_of(bytes@) {
                Err(error) => Err::<ConfigSpace, FdtError>(error),
                Ok(size) => if bytes@.len() < size {
                    Err::<ConfigSpace, FdtError>(FdtError::Truncated)
                } else {
                    space_in(bytes@, size)
                },
            },
        },
{
    match blob {
        None => Err(FdtError::Missing),
        Some(bytes) => {
            let tree = DeviceTree::new(bytes)?;
            tree.config_space()
        },
    }
}

} // verus!
