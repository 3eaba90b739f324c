//! Device trees as trees, flattened to bytes, and what is read back from them.
use vstd::prelude::*;
use vstd::string::StringSliceAdditionalSpecFns;

use crate::arch::ConfigSpace;
use crate::bytes::{be32, stands_at, zeros};

use super::fdt::{self, Cells, FdtError, Node, Run, Scan, Step};

verus! {

/// One thing a node says of itself before its children.
pub enum Item {
    /// A token that says nothing.
    Nop,
    /// A property, its name kept in the strings block at `name_at`.
    Property { name_at: u32, name: Seq<u8>, value: Seq<u8> },
}

/// A node: its name, what it says of itself, and its children in order.
pub struct Branch {
    pub name: Seq<u8>,
    pub items: Seq<Item>,
    pub children: Seq<Branch>,
}

/// A number as four bytes, high byte first.
#[verifier::opaque]
pub open spec fn word(value: int) -> Seq<u8> {
    seq![
        (value / 0x100_0000 % 0x100) as u8,
        (value / 0x1_0000 % 0x100) as u8,
        (value / 0x100 % 0x100) as u8,
        (value % 0x100) as u8,
    ]
}

/// A run of bytes followed by as few zeros as bring it to a whole word.
pub open spec fn padded(s: Seq<u8>) -> Seq<u8> {
    s + zeros(((4 - s.len() % 4) % 4) as nat)
}

pub open spec fn item_bytes(item: Item) -> Seq<u8> {
    match item {
        Item::Nop => word(4),
        Item::Property { name_at, value, .. } => word(3) + (word(value.len() as int) + (word(
            name_at as int,
        ) + padded(value))),
    }
}

pub open spec fn items_bytes(items: Seq<Item>) -> Seq<u8>
    decreases items.len(),
{
    if items.len() == 0 {
        seq![]
    } else {
        item_bytes(items[0]) + items_bytes(items.subrange(1, items.len() as int))
    }
}

/// A tree, flattened: a node opens with its name, says what it says, holds its
/// children one after another, and closes.
pub open spec fn flat(branch: Branch) -> Seq<u8>
    decreases branch,
{
    word(1) + (padded(branch.name.push(0)) + (items_bytes(branch.items) + (forest(branch.children)
        + word(2))))
}

pub open spec fn forest(branches: Seq<Branch>) -> Seq<u8>
    decreases branches,
{
    if branches.len() == 0 {
        seq![]
    } else {
        flat(branches[0]) + forest(branches.subrange(1, branches.len() as int))
    }
}

/// How many tokens a tree takes.
pub open spec fn tokens_in(branch: Branch) -> nat
    decreases branch,
{
    2 + branch.items.len() + tokens_among(branch.children)
}

pub open spec fn tokens_among(branches: Seq<Branch>) -> nat
    decreases branches,
{
    if branches.len() == 0 {
        0
    } else {
        tokens_in(branches[0]) + tokens_among(branches.subrange(1, branches.len() as int))
    }
}

/// Whether no more than `levels` nodes of a tree are ever open at once.
pub open spec fn no_deeper(branch: Branch, levels: int) -> bool
    decreases branch,
{
    levels >= 1 && none_deeper(branch.children, levels - 1)
}

pub open spec fn none_deeper(branches: Seq<Branch>, levels: int) -> bool
    decreases branches,
{
    branches.len() == 0 || no_deeper(branches[0], levels) && none_deeper(
        branches.subrange(1, branches.len() as int),
        levels,
    )
}

/// Whether an item's name stands in the strings block where it says.
pub open spec fn spelled(strings: Seq<u8>, item: Item) -> bool {
    match item {
        Item::Nop => true,
        Item::Property { name_at, name, value } => {
            &&& stands_at(strings, name_at as int, name.push(0))
            &&& forall|i: int| 0 <= i < name.len() ==> #[trigger] name[i] != 0
            &&& value.len() <= 0xffff_ffff
        },
    }
}

/// Whether every name of a tree can be read back.
pub open spec fn readable(strings: Seq<u8>, branch: Branch) -> bool
    decreases branch,
{
    &&& forall|i: int| 0 <= i < branch.name.len() ==> #[trigger] branch.name[i] != 0
    &&& forall|i: int| 0 <= i < branch.items.len() ==> spelled(strings, #[trigger] branch.items[i])
    &&& all_readable(strings, branch.children)
}

pub open spec fn all_readable(strings: Seq<u8>, branches: Seq<Branch>) -> bool
    decreases branches,
{
    branches.len() == 0 || readable(strings, branches[0]) && all_readable(
        strings,
        branches.subrange(1, branches.len() as int),
    )
}

/// The value of the last property of that name.
pub open spec fn value_of(items: Seq<Item>, name: Seq<u8>) -> Option<Seq<u8>>
    decreases items.len(),
{
    if items.len() == 0 {
        None
    } else {
        match items.last() {
            Item::Property { name: own, value, .. } if own == name => Some(value),
            _ => value_of(items.drop_last(), name),
        }
    }
}

/// The number the last property of that name holds, of those long enough to
/// hold one; two where there is none.
pub open spec fn width_of(items: Seq<Item>, name: Seq<u8>) -> int
    decreases items.len(),
{
    if items.len() == 0 {
        2
    } else {
        match items.last() {
            Item::Property { name: own, value, .. } if own == name && value.len() >= 4 => be32(
                value,
                0,
            ),
            _ => width_of(items.drop_last(), name),
        }
    }
}

/// The widths a node declares for its children.
pub open spec fn declared(items: Seq<Item>) -> Cells {
    Cells {
        address: width_of(items, "#address-cells".spec_bytes()) as u32,
        size: width_of(items, "#size-cells".spec_bytes()) as u32,
    }
}

/// Whether a value's NUL-separated strings include the name of a generic ECAM
/// host.
pub open spec fn names_ecam(value: Seq<u8>) -> bool {
    let text = "pci-host-ecam-generic".spec_bytes();
    exists|at: int|
        {
            &&& #[trigger] stands_at(value, at, text)
            &&& at == 0 || value[at - 1] == 0
            &&& at + text.len() == value.len() || value[(at + text.len()) as int] == 0
        }
}

/// Whether a node is a generic ECAM host.
pub open spec fn is_host(items: Seq<Item>) -> bool {
    exists|i: int|
        0 <= i < items.len() && (#[trigger] items[i] matches Item::Property { name, value, .. }
            && name == "compatible".spec_bytes() && names_ecam(value))
}

/// The first host of a tree whose parent declares `parent`, in the order the
/// nodes open, with the widths its own parent declares.
pub open spec fn first_host(branch: Branch, parent: Cells) -> Option<(Seq<Item>, Cells)>
    decreases branch,
{
    if is_host(branch.items) {
        Some((branch.items, parent))
    } else {
        first_among(branch.children, declared(branch.items))
    }
}

pub open spec fn first_among(branches: Seq<Branch>, parent: Cells) -> Option<(Seq<Item>, Cells)>
    decreases branches,
{
    if branches.len() == 0 {
        None
    } else {
        match first_host(branches[0], parent) {
            Some(host) => Some(host),
            None => first_among(branches.subrange(1, branches.len() as int), parent),
        }
    }
}

// Reading the pieces back.

/// Two pieces that stand one behind the other each stand where they stand.
proof fn lemma_split(s: Seq<u8>, at: int, a: Seq<u8>, b: Seq<u8>)
    requires
        stands_at(s, at, a + b),
    ensures
        stands_at(s, at, a),
        stands_at(s, at + a.len(), b),
{
    let whole = s.subrange(at, at + (a + b).len());
    assert forall|i: int| 0 <= i < a.len() implies s[at + i] == #[trigger] a[i] by {
        assert(whole[i] == (a + b)[i]);
    }
    assert forall|i: int| 0 <= i < b.len() implies s[at + a.len() + i] == #[trigger] b[i] by {
        assert(whole[a.len() + i] == (a + b)[a.len() + i]);
    }
    assert(s.subrange(at, at + a.len()) =~= a);
    assert(s.subrange(at + a.len(), at + a.len() + b.len()) =~= b);
}

broadcast proof fn lemma_word_len(value: int)
    ensures
        #[trigger] word(value).len() == 4,
{
    reveal(word);
}

/// Four digits make up their number.
proof fn lemma_digits(value: int)
    requires
        0 <= value <= 0xffff_ffff,
    ensures
        0x100_0000 * (value / 0x100_0000 % 0x100) + 0x1_0000 * (value / 0x1_0000 % 0x100) + 0x100 * (
        value / 0x100 % 0x100) + value % 0x100 == value,
{
    let a = value / 0x100;
    let b = a / 0x100;
    let c = b / 0x100;
    assert(value == 0x100 * a + value % 0x100);
    assert(a == 0x100 * b + a % 0x100);
    assert(b == 0x100 * c + b % 0x100);
    assert(value / 0x1_0000 == b);
    assert(value / 0x100_0000 == c);
    assert(0 <= c < 0x100);
}

proof fn lemma_word(s: Seq<u8>, at: int, value: int)
    requires
        stands_at(s, at, word(value)),
        0 <= value <= 0xffff_ffff,
    ensures
        fdt::word_at(s, at) == Some(value as u32),
        at + 4 <= s.len(),
{
    lemma_word_len(value);
    lemma_word_bytes(value);
    let w = word(value);
    let whole = s.subrange(at, at + w.len());
    assert(whole[0] == w[0] && whole[1] == w[1] && whole[2] == w[2] && whole[3] == w[3]);
    assert(be32(s, at) == value);
}

proof fn lemma_word_bytes(value: int)
    requires
        0 <= value <= 0xffff_ffff,
    ensures
        0x100_0000 * word(value)[0] + 0x1_0000 * word(value)[1] + 0x100 * word(value)[2] + word(
            value,
        )[3] == value,
{
    reveal(word);
    lemma_digits(value);
}

proof fn lemma_nul(s: Seq<u8>, at: int, name: Seq<u8>, skip: int)
    requires
        stands_at(s, at, name.push(0)),
        forall|i: int| 0 <= i < name.len() ==> #[trigger] name[i] != 0,
        0 <= skip <= name.len(),
    ensures
        fdt::nul_from(s, at + skip) == Some(at + name.len()),
    decreases name.len() - skip,
{
    assert(s.subrange(at, at + name.len() + 1)[skip] == name.push(0)[skip]);
    if skip < name.len() {
        assert(name[skip] != 0);
        lemma_nul(s, at, name, skip + 1);
    }
}

proof fn lemma_padded(s: Seq<u8>)
    ensures
        padded(s).len() == (s.len() + 3) / 4 * 4,
        padded(s).len() % 4 == 0,
{
}

proof fn lemma_names_differ()
    ensures
        "compatible".spec_bytes().len() == 10,
        "reg".spec_bytes().len() == 3,
        "bus-range".spec_bytes().len() == 9,
        "linux,pci-domain".spec_bytes().len() == 16,
        "#address-cells".spec_bytes().len() == 14,
        "#size-cells".spec_bytes().len() == 11,
{
    broadcast use vstd::utf8::is_ascii_chars_encode_utf8;

    reveal_strlit("compatible");
    reveal_strlit("reg");
    reveal_strlit("bus-range");
    reveal_strlit("linux,pci-domain");
    reveal_strlit("#address-cells");
    reveal_strlit("#size-cells");
    assert(vstd::utf8::is_ascii_chars("compatible"@));
    assert(vstd::utf8::is_ascii_chars("reg"@));
    assert(vstd::utf8::is_ascii_chars("bus-range"@));
    assert(vstd::utf8::is_ascii_chars("linux,pci-domain"@));
    assert(vstd::utf8::is_ascii_chars("#address-cells"@));
    assert(vstd::utf8::is_ascii_chars("#size-cells"@));
}

/// Whether a run, if there is one, holds a value, if there is one.
spec fn holds(structs: Seq<u8>, run: Option<Run>, value: Option<Seq<u8>>) -> bool {
    match (run, value) {
        (None, None) => true,
        (Some(run), Some(value)) => {
            &&& stands_at(structs, run.start as int, value)
            &&& run.end == run.start + value.len()
        },
        _ => false,
    }
}

/// Whether `node` is what reading `items` below a parent of those widths gives,
/// with `own` the widths it declares.
#[verifier::opaque]
spec fn learnt(
    structs: Seq<u8>,
    items: Seq<Item>,
    parent: Cells,
    node: Node,
    own: Cells,
) -> bool {
    &&& node.cells == parent
    &&& node.matched == is_host(items)
    &&& holds(structs, node.reg, value_of(items, "reg".spec_bytes()))
    &&& holds(structs, node.bus_range, value_of(items, "bus-range".spec_bytes()))
    &&& holds(structs, node.domain, value_of(items, "linux,pci-domain".spec_bytes()))
    &&& own == declared(items)
}

/// What a walk of at most `tokens` tokens finds.
#[verifier::opaque]
spec fn walked(structs: Seq<u8>, strings: Seq<u8>, scan: Scan, tokens: nat) -> Result<
    ConfigSpace,
    FdtError,
> {
    fdt::scanned(structs, strings, scan, tokens)
}

/// What a node describes.
#[verifier::opaque]
spec fn window_at(structs: Seq<u8>, node: Node) -> Result<ConfigSpace, FdtError> {
    fdt::space_of(structs, node)
}

/// One token gone, the walk goes on from where it led.
proof fn lemma_on(structs: Seq<u8>, strings: Seq<u8>, scan: Scan, next: Scan, tokens: nat)
    requires
        fdt::step(structs, strings, scan) == Step::On(next),
        tokens >= 1,
    ensures
        walked(structs, strings, scan, tokens) == walked(
            structs,
            strings,
            next,
            (tokens - 1) as nat,
        ),
{
    reveal(walked);
}

proof fn lemma_host_grows(items: Seq<Item>, item: Item)
    ensures
        is_host(items.push(item)) == (is_host(items) || (item matches Item::Property {
            name,
            value,
            ..
        } && name == "compatible".spec_bytes() && names_ecam(value))),
{
    let more = items.push(item);
    if is_host(items) {
        let i = choose|i: int|
            0 <= i < items.len() && (#[trigger] items[i] matches Item::Property { name, value, .. }
                && name == "compatible".spec_bytes() && names_ecam(value));
        assert(more[i] == items[i]);
    }
    if is_host(more) {
        let i = choose|i: int|
            0 <= i < more.len() && (#[trigger] more[i] matches Item::Property { name, value, .. }
                && name == "compatible".spec_bytes() && names_ecam(value));
        if i < items.len() {
            assert(items[i] == more[i]);
        }
    }
    assert(more[items.len() as int] == item);
}

proof fn lemma_lists(value: Seq<u8>)
    ensures
        fdt::lists(value, "pci-host-ecam-generic".spec_bytes()) == names_ecam(value),
{
    let text = "pci-host-ecam-generic".spec_bytes();
    if fdt::lists(value, text) {
        let at = choose|at: int| fdt::names(value, at, text);
        assert(stands_at(value, at, text));
    }
    if names_ecam(value) {
        let at = choose|at: int|
            {
                &&& #[trigger] stands_at(value, at, text)
                &&& at == 0 || value[at - 1] == 0
                &&& at + text.len() == value.len() || value[(at + text.len()) as int] == 0
            };
        assert(fdt::names(value, at, text));
    }
}

/// One property read adds what it says and nothing else.
proof fn lemma_learned(
    structs: Seq<u8>,
    items: Seq<Item>,
    item: Item,
    parent: Cells,
    scan: Scan,
    run: Run,
)
    requires
        learnt(structs, items, parent, scan.node, scan.cells.last()),
        item matches Item::Property { value, .. } && holds(structs, Some(run), Some(value)),
    ensures
        learnt(
            structs,
            items.push(item),
            parent,
            told(structs, scan, item->name, run).0,
            told(structs, scan, item->name, run).1,
        ),
{
    reveal(learnt);
    reveal(told);
    lemma_names_differ();
    lemma_host_grows(items, item);
    let value = item->value;
    lemma_lists(value);
    let more = items.push(item);
    assert(more.drop_last() =~= items);
    assert(structs.subrange(run.start as int, run.end as int) =~= value);
    if value.len() >= 4 {
        assert(be32(structs, run.start as int) == be32(value, 0)) by {
            let whole = structs.subrange(run.start as int, run.end as int);
            assert(whole[0] == value[0] && whole[1] == value[1] && whole[2] == value[2] && whole[3]
                == value[3]);
        }
    }
}

/// Where a property's parts stand.
proof fn lemma_property_parts(structs: Seq<u8>, at: int, name_at: u32, value: Seq<u8>)
    requires
        stands_at(
            structs,
            at,
            word(3) + (word(value.len() as int) + (word(name_at as int) + padded(value))),
        ),
        value.len() <= 0xffff_ffff,
    ensures
        fdt::word_at(structs, at) == Some(3u32),
        fdt::word_at(structs, at + 4) == Some(value.len() as u32),
        fdt::word_at(structs, at + 8) == Some(name_at),
        stands_at(structs, at + 12, value),
{
    broadcast use lemma_word_len;

    let tail = word(name_at as int) + padded(value);
    lemma_split(structs, at, word(3), word(value.len() as int) + tail);
    lemma_split(structs, at + 4, word(value.len() as int), tail);
    lemma_split(structs, at + 8, word(name_at as int), padded(value));
    lemma_split(structs, at + 12, value, zeros(((4 - value.len() % 4) % 4) as nat));
    lemma_word(structs, at, 3);
    lemma_word(structs, at + 4, value.len() as int);
    lemma_word(structs, at + 8, name_at as int);
}

/// A name in the strings block is read up to its end.
proof fn lemma_name(strings: Seq<u8>, at: int, name: Seq<u8>)
    requires
        stands_at(strings, at, name.push(0)),
        forall|i: int| 0 <= i < name.len() ==> #[trigger] name[i] != 0,
    ensures
        fdt::nul_from(strings, at) == Some(at + name.len()),
        strings.subrange(at, at + name.len()) == name,
{
    lemma_nul(strings, at, name, 0);
    assert forall|i: int| 0 <= i < name.len() implies strings[at + i] == #[trigger] name[i] by {
        assert(strings.subrange(at, at + name.push(0).len())[i] == name.push(0)[i]);
    }
    assert(strings.subrange(at, at + name.len()) =~= name);
}

/// What a property adds to what is known.
#[verifier::opaque]
spec fn told(structs: Seq<u8>, scan: Scan, name: Seq<u8>, run: Run) -> (Node, Cells) {
    fdt::learned(structs, scan.node, scan.cells.last(), name, run)
}

/// The token of a property leads past it.
proof fn lemma_property_step(
    structs: Seq<u8>,
    strings: Seq<u8>,
    scan: Scan,
    name_at: u32,
    name: Seq<u8>,
    len: int,
    end: int,
    tokens: nat,
)
    requires
        tokens >= 1,
        scan.cells.len() > 0,
        scan.cursor >= 0,
        fdt::word_at(structs, scan.cursor) == Some(3u32),
        fdt::word_at(structs, scan.cursor + 4) == Some(len as u32),
        fdt::word_at(structs, scan.cursor + 8) == Some(name_at),
        0 <= len <= 0xffff_ffff,
        scan.cursor + 12 + len <= structs.len(),
        fdt::aligned(scan.cursor + 12 + len) == Some(end),
        fdt::nul_from(strings, name_at as int) == Some(name_at + name.len()),
        strings.subrange(name_at as int, name_at + name.len()) == name,
    ensures
        ({
            let run = Run {
                start: (scan.cursor + 12) as usize,
                end: (scan.cursor + 12 + len) as usize,
            };
            walked(structs, strings, scan, tokens) == walked(
                structs,
                strings,
                Scan {
                    cursor: end,
                    cells: scan.cells.drop_last().push(told(structs, scan, name, run).1),
                    node: told(structs, scan, name, run).0,
                },
                (tokens - 1) as nat,
            )
        }),
{
    let run = Run { start: (scan.cursor + 12) as usize, end: (scan.cursor + 12 + len) as usize };
    let next = Scan {
        cursor: end,
        cells: scan.cells.drop_last().push(told(structs, scan, name, run).1),
        node: told(structs, scan, name, run).0,
    };
    assert(fdt::step(structs, strings, scan) == Step::On(next)) by {
        reveal(told);
    }
    lemma_on(structs, strings, scan, next, tokens);
}

/// A property read adds what it says and moves the walk past it.
proof fn lemma_property(
    structs: Seq<u8>,
    strings: Seq<u8>,
    scan: Scan,
    items: Seq<Item>,
    item: Item,
    parent: Cells,
    tokens: nat,
) -> (next: Scan)
    requires
        item is Property,
        structs.len() <= 0xffff_ffff,
        scan.cursor % 4 == 0,
        scan.cells.len() > 0,
        stands_at(structs, scan.cursor, item_bytes(item)),
        scan.cursor + item_bytes(item).len() + 4 <= structs.len(),
        spelled(strings, item),
        learnt(structs, items, parent, scan.node, scan.cells.last()),
        tokens >= 1,
    ensures
        walked(structs, strings, scan, tokens) == walked(
            structs,
            strings,
            next,
            (tokens - 1) as nat,
        ),
        next.cursor == scan.cursor + item_bytes(item).len(),
        next.cursor % 4 == 0,
        next.cells.len() == scan.cells.len(),
        next.cells.drop_last() == scan.cells.drop_last(),
        learnt(structs, items.push(item), parent, next.node, next.cells.last()),
{
    broadcast use lemma_word_len;

    let at = scan.cursor;
    let value = item->value;
    let name = item->name;
    let name_at = item->name_at;
    lemma_padded(value);
    assert(item_bytes(item).len() == 12 + padded(value).len());
    lemma_property_parts(structs, at, name_at, value);
    lemma_name(strings, name_at as int, name);
    let end = at + 12 + padded(value).len();
    assert(fdt::aligned(at + 12 + value.len()) == Some(end));
    lemma_property_step(structs, strings, scan, name_at, name, value.len() as int, end, tokens);
    let run = Run { start: (at + 12) as usize, end: (at + 12 + value.len()) as usize };
    lemma_learned(structs, items, item, parent, scan, run);
    let next = Scan {
        cursor: end,
        cells: scan.cells.drop_last().push(told(structs, scan, name, run).1),
        node: told(structs, scan, name, run).0,
    };
    assert(next.cells.drop_last() =~= scan.cells.drop_last());
    next
}

/// A token that says nothing is stepped over.
proof fn lemma_nop(
    structs: Seq<u8>,
    strings: Seq<u8>,
    scan: Scan,
    items: Seq<Item>,
    parent: Cells,
    tokens: nat,
)
    requires
        stands_at(structs, scan.cursor, word(4)),
        learnt(structs, items, parent, scan.node, scan.cells.last()),
        tokens >= 1,
    ensures
        learnt(structs, items.push(Item::Nop), parent, scan.node, scan.cells.last()),
        walked(structs, strings, scan, tokens) == walked(
            structs,
            strings,
            Scan { cursor: scan.cursor + 4, ..scan },
            (tokens - 1) as nat,
        ),
{
    lemma_word(structs, scan.cursor, 4);
    lemma_on(structs, strings, scan, Scan { cursor: scan.cursor + 4, ..scan }, tokens);
    assert(learnt(structs, items.push(Item::Nop), parent, scan.node, scan.cells.last())) by {
        reveal(learnt);
        lemma_host_grows(items, Item::Nop);
        assert(items.push(Item::Nop).drop_last() =~= items);
    }
}

/// One item read moves the walk past it.
proof fn lemma_item(
    structs: Seq<u8>,
    strings: Seq<u8>,
    scan: Scan,
    items: Seq<Item>,
    item: Item,
    parent: Cells,
    tokens: nat,
) -> (next: Scan)
    requires
        structs.len() <= 0xffff_ffff,
        scan.cursor % 4 == 0,
        scan.cells.len() > 0,
        stands_at(structs, scan.cursor, item_bytes(item)),
        scan.cursor + item_bytes(item).len() + 4 <= structs.len(),
        spelled(strings, item),
        learnt(structs, items, parent, scan.node, scan.cells.last()),
        tokens >= 1,
    ensures
        walked(structs, strings, scan, tokens) == walked(
            structs,
            strings,
            next,
            (tokens - 1) as nat,
        ),
        next.cursor == scan.cursor + item_bytes(item).len(),
        next.cursor % 4 == 0,
        next.cells.len() == scan.cells.len(),
        next.cells.drop_last() == scan.cells.drop_last(),
        learnt(structs, items.push(item), parent, next.node, next.cells.last()),
{
    broadcast use lemma_word_len;

    let at = scan.cursor;
    match item {
        Item::Nop => {
            lemma_nop(structs, strings, scan, items, parent, tokens);
            Scan { cursor: at + 4, ..scan }
        },
        Item::Property { .. } => lemma_property(
            structs,
            strings,
            scan,
            items,
            item,
            parent,
            tokens,
        ),
    }
}

/// All of a node's items read, one after another.
proof fn lemma_items(
    structs: Seq<u8>,
    strings: Seq<u8>,
    scan: Scan,
    done: Seq<Item>,
    items: Seq<Item>,
    parent: Cells,
    tokens: nat,
) -> (end: Scan)
    requires
        structs.len() <= 0xffff_ffff,
        scan.cursor % 4 == 0,
        scan.cells.len() > 0,
        stands_at(structs, scan.cursor, items_bytes(items)),
        scan.cursor + items_bytes(items).len() + 4 <= structs.len(),
        forall|i: int| 0 <= i < items.len() ==> spelled(strings, #[trigger] items[i]),
        learnt(structs, done, parent, scan.node, scan.cells.last()),
        tokens >= items.len(),
    ensures
        end.cursor == scan.cursor + items_bytes(items).len(),
        end.cursor % 4 == 0,
        end.cells.len() == scan.cells.len(),
        end.cells.drop_last() == scan.cells.drop_last(),
        learnt(structs, done + items, parent, end.node, end.cells.last()),
        walked(structs, strings, scan, tokens) == walked(
            structs,
            strings,
            end,
            (tokens - items.len()) as nat,
        ),
    decreases items.len(),
{
    if items.len() == 0 {
        assert(done + items =~= done);
        scan
    } else {
        let rest = items.subrange(1, items.len() as int);
        lemma_split(structs, scan.cursor, item_bytes(items[0]), items_bytes(rest));
        assert(spelled(strings, items[0]));
        let next = lemma_item(structs, strings, scan, done, items[0], parent, tokens);
        assert forall|i: int| 0 <= i < rest.len() implies spelled(strings, #[trigger] rest[i]) by {
            assert(spelled(strings, items[i + 1]));
        }
        let end = lemma_items(
            structs,
            strings,
            next,
            done.push(items[0]),
            rest,
            parent,
            (tokens - 1) as nat,
        );
        assert(done.push(items[0]) + rest =~= done + items);
        end
    }
}

/// Where a node's parts stand.
proof fn lemma_branch_parts(structs: Seq<u8>, at: int, branch: Branch)
    requires
        stands_at(structs, at, flat(branch)),
    ensures
        ({
            let named = at + 4;
            let said = named + padded(branch.name.push(0)).len();
            let held = said + items_bytes(branch.items).len();
            let closed = held + forest(branch.children).len();
            &&& stands_at(structs, at, word(1))
            &&& stands_at(structs, named, padded(branch.name.push(0)))
            &&& stands_at(structs, said, items_bytes(branch.items))
            &&& stands_at(structs, held, forest(branch.children))
            &&& stands_at(structs, closed, word(2))
            &&& flat(branch).len() == closed + 4 - at
        }),
{
    broadcast use lemma_word_len;

    let name = padded(branch.name.push(0));
    let items = items_bytes(branch.items);
    let children = forest(branch.children);
    lemma_split(structs, at, word(1), name + (items + (children + word(2))));
    lemma_split(structs, at + 4, name, items + (children + word(2)));
    lemma_split(structs, at + 4 + name.len(), items, children + word(2));
    lemma_split(structs, at + 4 + name.len() + items.len(), children, word(2));
}

/// The token that opens a node leads to what it says of itself.
proof fn lemma_begin(
    structs: Seq<u8>,
    strings: Seq<u8>,
    scan: Scan,
    name: Seq<u8>,
    parent: Cells,
    tokens: nat,
)
    requires
        tokens >= 1,
        structs.len() <= 0xffff_ffff,
        scan.cursor % 4 == 0,
        scan.cells.len() < 32,
        !scan.node.matched,
        stands_at(structs, scan.cursor, word(1)),
        stands_at(structs, scan.cursor + 4, padded(name.push(0))),
        scan.cursor + 4 + padded(name.push(0)).len() + 4 <= structs.len(),
        forall|i: int| 0 <= i < name.len() ==> #[trigger] name[i] != 0,
        parent == if scan.cells.len() == 0 {
            Cells { address: 2, size: 2 }
        } else {
            scan.cells.last()
        },
    ensures
        walked(structs, strings, scan, tokens) == walked(
            structs,
            strings,
            Scan {
                cursor: scan.cursor + 4 + padded(name.push(0)).len(),
                cells: scan.cells.push(Cells { address: 2, size: 2 }),
                node: fdt::opened(parent),
            },
            (tokens - 1) as nat,
        ),
        (scan.cursor + 4 + padded(name.push(0)).len()) % 4 == 0,
{
    let spelled = name.push(0);
    let at = scan.cursor + 4;
    lemma_word(structs, scan.cursor, 1);
    lemma_padded(spelled);
    lemma_split(structs, at, spelled, zeros(((4 - spelled.len() % 4) % 4) as nat));
    lemma_nul(structs, at, name, 0);
    assert(fdt::aligned(at + name.len() + 1) == Some(at + padded(spelled).len()));
    let next = Scan {
        cursor: scan.cursor + 4 + padded(name.push(0)).len(),
        cells: scan.cells.push(Cells { address: 2, size: 2 }),
        node: fdt::opened(parent),
    };
    lemma_on(structs, strings, scan, next, tokens);
}

/// The token that closes a node leaves the nodes still open as they were.
proof fn lemma_close(
    structs: Seq<u8>,
    strings: Seq<u8>,
    scan: Scan,
    closed: Scan,
    tokens: nat,
)
    requires
        tokens >= 1,
        !scan.node.matched,
        scan.cells.len() > 0,
        stands_at(structs, scan.cursor, word(2)),
        closed.cursor == scan.cursor + 4,
        closed.cells == scan.cells.drop_last(),
        closed.node == fdt::opened(Cells { address: 2, size: 2 }),
    ensures
        walked(structs, strings, scan, tokens) == walked(
            structs,
            strings,
            closed,
            (tokens - 1) as nat,
        ),
{
    lemma_word(structs, scan.cursor, 2);
    lemma_on(structs, strings, scan, closed, tokens);
}

proof fn lemma_learnt(structs: Seq<u8>, items: Seq<Item>, parent: Cells, scan: Scan)
    requires
        learnt(structs, items, parent, scan.node, scan.cells.last()),
    ensures
        scan.node.matched == is_host(items),
        scan.cells.last() == declared(items),
{
    reveal(learnt);
}

/// A host is complete once a child opens or it closes.
proof fn lemma_host_ends(
    structs: Seq<u8>,
    strings: Seq<u8>,
    scan: Scan,
    children: Seq<Branch>,
    tokens: nat,
)
    requires
        scan.node.matched,
        tokens >= 1,
        stands_at(structs, scan.cursor, forest(children)),
        stands_at(structs, scan.cursor + forest(children).len(), word(2)),
    ensures
        walked(structs, strings, scan, tokens) == window_at(structs, scan.node),
{
    reveal(walked);
    reveal(window_at);
    if children.len() == 0 {
        lemma_word(structs, scan.cursor, 2);
    } else {
        lemma_split(
            structs,
            scan.cursor,
            flat(children[0]),
            forest(children.subrange(1, children.len() as int)),
        );
        lemma_branch_parts(structs, scan.cursor, children[0]);
        lemma_word(structs, scan.cursor, 1);
    }
}

/// A node that opens, holds no host and closes leaves the walk as it was, but
/// for being past it; else the walk ends at its first host.
proof fn lemma_branch(
    structs: Seq<u8>,
    strings: Seq<u8>,
    scan: Scan,
    branch: Branch,
    parent: Cells,
    tokens: nat,
) -> (found: Node)
    requires
        structs.len() <= 0xffff_ffff,
        scan.cursor % 4 == 0,
        !scan.node.matched,
        stands_at(structs, scan.cursor, flat(branch)),
        scan.cursor + flat(branch).len() + 4 <= structs.len(),
        readable(strings, branch),
        no_deeper(branch, 32 - scan.cells.len()),
        tokens >= tokens_in(branch),
        parent == if scan.cells.len() == 0 {
            Cells { address: 2, size: 2 }
        } else {
            scan.cells.last()
        },
    ensures
        match first_host(branch, parent) {
            None => {
                &&& flat(branch).len() % 4 == 0
                &&& walked(structs, strings, scan, tokens) == walked(
                    structs,
                    strings,
                    Scan {
                        cursor: scan.cursor + flat(branch).len(),
                        cells: scan.cells,
                        node: fdt::opened(Cells { address: 2, size: 2 }),
                    },
                    (tokens - tokens_in(branch)) as nat,
                )
            },
            Some((items, above)) => {
                &&& walked(structs, strings, scan, tokens) == window_at(structs, found)
                &&& learnt(structs, items, above, found, declared(items))
            },
        },
    decreases branch,
{
    lemma_branch_parts(structs, scan.cursor, branch);
    lemma_begin(structs, strings, scan, branch.name, parent, tokens);
    let first = Scan {
        cursor: scan.cursor + 4 + padded(branch.name.push(0)).len(),
        cells: scan.cells.push(Cells { address: 2, size: 2 }),
        node: fdt::opened(parent),
    };
    let none: Seq<Item> = seq![];
    assert(learnt(structs, none, parent, first.node, first.cells.last())) by {
        reveal(learnt);
    }
    let end = lemma_items(
        structs,
        strings,
        first,
        none,
        branch.items,
        parent,
        (tokens - 1) as nat,
    );
    assert(none + branch.items =~= branch.items);
    assert(first.cells.drop_last() =~= scan.cells);
    let left = (tokens - 1 - branch.items.len()) as nat;
    lemma_learnt(structs, branch.items, parent, end);
    if is_host(branch.items) {
        lemma_host_ends(structs, strings, end, branch.children, left);
        end.node
    } else {
        let found = lemma_forest(structs, strings, end, branch.children, left);
        if first_among(branch.children, declared(branch.items)) is None {
            let last = Scan {
                cursor: end.cursor + forest(branch.children).len(),
                cells: end.cells,
                node: found,
            };
            let closed = Scan {
                cursor: last.cursor + 4,
                cells: scan.cells,
                node: fdt::opened(Cells { address: 2, size: 2 }),
            };
            assert(last.cells.drop_last() =~= scan.cells);
            lemma_close(
                structs,
                strings,
                last,
                closed,
                (left - tokens_among(branch.children)) as nat,
            );
        }
        found
    }
}

/// Any number of nodes without a host, one after another, are stepped over.
proof fn lemma_forest(
    structs: Seq<u8>,
    strings: Seq<u8>,
    scan: Scan,
    branches: Seq<Branch>,
    tokens: nat,
) -> (found: Node)
    requires
        structs.len() <= 0xffff_ffff,
        scan.cursor % 4 == 0,
        scan.cells.len() > 0,
        !scan.node.matched,
        stands_at(structs, scan.cursor, forest(branches)),
        scan.cursor + forest(branches).len() + 4 <= structs.len(),
        all_readable(strings, branches),
        none_deeper(branches, 32 - scan.cells.len()),
        tokens >= tokens_among(branches),
    ensures
        match first_among(branches, scan.cells.last()) {
            None => {
                &&& !found.matched
                &&& forest(branches).len() % 4 == 0
                &&& walked(structs, strings, scan, tokens) == walked(
                    structs,
                    strings,
                    Scan {
                        cursor: scan.cursor + forest(branches).len(),
                        cells: scan.cells,
                        node: found,
                    },
                    (tokens - tokens_among(branches)) as nat,
                )
            },
            Some((items, above)) => {
                &&& walked(structs, strings, scan, tokens) == window_at(structs, found)
                &&& learnt(structs, items, above, found, declared(items))
            },
        },
    decreases branches,
{
    if branches.len() == 0 {
        scan.node
    } else {
        let rest = branches.subrange(1, branches.len() as int);
        lemma_split(structs, scan.cursor, flat(branches[0]), forest(rest));
        let found = lemma_branch(
            structs,
            strings,
            scan,
            branches[0],
            scan.cells.last(),
            tokens,
        );
        if first_host(branches[0], scan.cells.last()) is None {
            let next = Scan {
                cursor: scan.cursor + flat(branches[0]).len(),
                cells: scan.cells,
                node: fdt::opened(Cells { address: 2, size: 2 }),
            };
            lemma_forest(
                structs,
                strings,
                next,
                rest,
                (tokens - tokens_in(branches[0])) as nat,
            )
        } else {
            found
        }
    }
}

/// What a host says, its values read with the widths its parent declares.
spec fn described(items: Seq<Item>, parent: Cells) -> Result<ConfigSpace, FdtError> {
    let reg = value_of(items, "reg".spec_bytes());
    let buses = value_of(items, "bus-range".spec_bytes());
    let domain = value_of(items, "linux,pci-domain".spec_bytes());
    let address = parent.address as int;
    let size = parent.size as int;
    if !(1 <= address <= 2) || !(1 <= size <= 2) || reg is None || reg->0.len() < 4 * address + 4
        * size {
        Err(FdtError::Malformed)
    } else {
        let base = fdt::number(reg->0, 0, parent.address);
        let window = fdt::number(reg->0, 4 * address, parent.size);
        let first = if buses is None { 0 } else { be32(buses->0, 0) };
        let last = if buses is None { 255 } else { be32(buses->0, 4) };
        let segment = if domain is None { 0 } else { be32(domain->0, 0) };
        if buses is Some && buses->0.len() < 8 {
            Err(FdtError::Malformed)
        } else if first > 255 || last > 255 || first > last || window < (last - first + 1)
            * 0x10_0000 {
            Err(FdtError::Range)
        } else if domain is Some && domain->0.len() < 4 {
            Err(FdtError::Malformed)
        } else if segment > 0xffff {
            Err(FdtError::Range)
        } else {
            Ok(
                ConfigSpace {
                    base: base as u64,
                    segment: segment as u16,
                    first_bus: first as u8,
                    last_bus: last as u8,
                },
            )
        }
    }
}

/// A cell of a value is the cell of the run that holds it.
proof fn lemma_cell(structs: Seq<u8>, run: Run, value: Seq<u8>, at: int)
    requires
        holds(structs, Some(run), Some(value)),
        0 <= at,
        at + 4 <= value.len(),
    ensures
        be32(structs, run.start + at) == be32(value, at),
{
    let whole = structs.subrange(run.start as int, run.start + value.len());
    assert(whole[at] == value[at] && whole[at + 1] == value[at + 1] && whole[at + 2] == value[at
        + 2] && whole[at + 3] == value[at + 3]);
}

proof fn lemma_described(structs: Seq<u8>, items: Seq<Item>, parent: Cells, node: Node)
    requires
        learnt(structs, items, parent, node, declared(items)),
    ensures
        window_at(structs, node) == described(items, parent),
{
    reveal(learnt);
    reveal(window_at);
    if node.reg is Some {
        let run = node.reg->0;
        let value = value_of(items, "reg".spec_bytes())->0;
        if value.len() >= 4 {
            lemma_cell(structs, run, value, 0);
        }
        if value.len() >= 8 {
            lemma_cell(structs, run, value, 4);
        }
        if value.len() >= 12 {
            lemma_cell(structs, run, value, 8);
        }
        if value.len() >= 16 {
            lemma_cell(structs, run, value, 12);
        }
    }
    if node.bus_range is Some {
        let value = value_of(items, "bus-range".spec_bytes())->0;
        if value.len() >= 8 {
            lemma_cell(structs, node.bus_range->0, value, 0);
            lemma_cell(structs, node.bus_range->0, value, 4);
        }
    }
    if node.domain is Some {
        let value = value_of(items, "linux,pci-domain".spec_bytes())->0;
        if value.len() >= 4 {
            lemma_cell(structs, node.domain->0, value, 0);
        }
    }
}

/// Whether `s` is a blob that holds the tree `root`, flattened, in the structure
/// block its header locates, its names in the strings block.
pub open spec fn flattened(s: Seq<u8>, root: Branch) -> bool {
    let total = be32(s, 4);
    let at = be32(s, 8);
    let names_at = be32(s, 12);
    let names_len = be32(s, 32);
    let len = be32(s, 36);
    &&& 40 <= total <= s.len()
    &&& be32(s, 0) == 0xd00d_feed
    &&& be32(s, 24) <= 16
    &&& at + len <= total
    &&& names_at + names_len <= total
    &&& stands_at(s.subrange(at, at + len), 0, flat(root) + word(9))
    &&& readable(s.subrange(names_at, names_at + names_len), root)
    &&& no_deeper(root, 32)
    &&& tokens_in(root) < 65536
}

proof fn lemma_flattened(s: Seq<u8>, root: Branch)
    requires
        flattened(s, root),
    ensures
        fdt::size_of(s) == Ok::<int, FdtError>(be32(s, 4)),
        fdt::space_in(s, be32(s, 4)) == match first_host(root, Cells { address: 2, size: 2 }) {
            None => Err::<ConfigSpace, FdtError>(FdtError::Missing),
            Some((items, parent)) => described(items, parent),
        },
{
    broadcast use lemma_word_len;

    let structs = s.subrange(be32(s, 8), be32(s, 8) + be32(s, 36));
    let strings = s.subrange(be32(s, 12), be32(s, 12) + be32(s, 32));
    lemma_split(structs, 0, flat(root), word(9));
    let start = fdt::fresh();
    let found = lemma_branch(
        structs,
        strings,
        start,
        root,
        Cells { address: 2, size: 2 },
        65536,
    );
    assert(fdt::space_in(s, be32(s, 4)) == walked(structs, strings, start, 65536)) by {
        reveal(walked);
    }
    match first_host(root, Cells { address: 2, size: 2 }) {
        None => {
            let end = Scan {
                cursor: flat(root).len() as int,
                cells: seq![],
                node: fdt::opened(Cells { address: 2, size: 2 }),
            };
            lemma_word(structs, flat(root).len() as int, 9);
            assert(start.cells =~= end.cells);
            reveal(walked);
        },
        Some((items, parent)) => {
            lemma_described(structs, items, parent, found);
        },
    }
}

/// A number as one big-endian cell or two.
pub open spec fn cells(value: int, width: int) -> Seq<u8> {
    if width == 1 {
        word(value)
    } else {
        word(value / 0x1_0000_0000) + word(value % 0x1_0000_0000)
    }
}

proof fn lemma_be(s: Seq<u8>, at: int, value: int)
    requires
        stands_at(s, at, word(value)),
        0 <= value <= 0xffff_ffff,
    ensures
        be32(s, at) == value,
{
    lemma_word(s, at, value);
}

proof fn lemma_number(s: Seq<u8>, at: int, value: u64, width: u32)
    requires
        1 <= width <= 2,
        width == 1 ==> value <= 0xffff_ffff,
        stands_at(s, at, cells(value as int, width as int)),
    ensures
        fdt::number(s, at, width) == value,
        cells(value as int, width as int).len() == 4 * width,
{
    broadcast use lemma_word_len;

    if width == 1 {
        lemma_be(s, at, value as int);
    } else {
        let high = value as int / 0x1_0000_0000;
        let low = value as int % 0x1_0000_0000;
        lemma_split(s, at, word(high), word(low));
        lemma_be(s, at, high);
        lemma_be(s, at + 4, low);
    }
}

/// Whether a property that may be left out says `said`, or is left out and
/// `said` is what that means.
pub open spec fn says(value: Option<Seq<u8>>, said: Seq<u8>, unsaid: bool) -> bool {
    match value {
        None => unsaid,
        Some(value) => stands_at(value, 0, said),
    }
}

/// A flattened tree yields the window its first host describes, its `reg` taken
/// apart by the widths the host's own parent declares: an address of so many
/// cells, then a size. The buses are all of them and the segment is zero where
/// the host does not say. A window too short for its buses, at a mebibyte each,
/// is refused.
pub proof fn law_first_host_is_read(
    s: Seq<u8>,
    root: Branch,
    items: Seq<Item>,
    parent: Cells,
    base: u64,
    window: u64,
    first: u8,
    last: u8,
    segment: u16,
)
    requires
        flattened(s, root),
        first_host(root, Cells { address: 2, size: 2 }) == Some((items, parent)),
        1 <= parent.address <= 2,
        1 <= parent.size <= 2,
        parent.address == 1 ==> base <= 0xffff_ffff,
        parent.size == 1 ==> window <= 0xffff_ffff,
        value_of(items, "reg".spec_bytes()) is Some,
        stands_at(
            value_of(items, "reg".spec_bytes())->0,
            0,
            cells(base as int, parent.address as int) + cells(window as int, parent.size as int),
        ),
        says(
            value_of(items, "bus-range".spec_bytes()),
            word(first as int) + word(last as int),
            first == 0 && last == 255,
        ),
        says(
            value_of(items, "linux,pci-domain".spec_bytes()),
            word(segment as int),
            segment == 0,
        ),
        first <= last,
    ensures
        fdt::size_of(s) == Ok::<int, FdtError>(be32(s, 4)),
        fdt::space_in(s, be32(s, 4)) == if window >= (last - first + 1) * 1048576 {
            Ok::<ConfigSpace, FdtError>(
                ConfigSpace { base, segment, first_bus: first, last_bus: last },
            )
        } else {
            Err(FdtError::Range)
        },
{
    broadcast use lemma_word_len;

    lemma_flattened(s, root);
    let reg = value_of(items, "reg".spec_bytes())->0;
    lemma_split(
        reg,
        0,
        cells(base as int, parent.address as int),
        cells(window as int, parent.size as int),
    );
    lemma_number(reg, 0, base, parent.address);
    lemma_number(reg, 4 * parent.address, window, parent.size);
    if value_of(items, "bus-range".spec_bytes()) is Some {
        let buses = value_of(items, "bus-range".spec_bytes())->0;
        lemma_split(buses, 0, word(first as int), word(last as int));
        lemma_be(buses, 0, first as int);
        lemma_be(buses, 4, last as int);
    }
    if value_of(items, "linux,pci-domain".spec_bytes()) is Some {
        lemma_be(value_of(items, "linux,pci-domain".spec_bytes())->0, 0, segment as int);
    }
}

/// A tree without a host has no window to give.
pub proof fn law_no_host_is_missing(s: Seq<u8>, root: Branch)
    requires
        flattened(s, root),
        hostless(root),
    ensures
        fdt::space_in(s, be32(s, 4)) == Err::<ConfigSpace, FdtError>(FdtError::Missing),
{
    lemma_flattened(s, root);
    lemma_hostless(root, Cells { address: 2, size: 2 });
}

/// Two trees with the same first host, below parents of the same widths, yield
/// the same, whatever else is in them and however they were laid out.
pub proof fn law_only_the_first_host_matters(s: Seq<u8>, root: Branch, t: Seq<u8>, other: Branch)
    requires
        flattened(s, root),
        flattened(t, other),
        first_host(root, Cells { address: 2, size: 2 }) == first_host(
            other,
            Cells { address: 2, size: 2 },
        ),
    ensures
        fdt::space_in(s, be32(s, 4)) == fdt::space_in(t, be32(t, 4)),
{
    lemma_flattened(s, root);
    lemma_flattened(t, other);
}

/// Whether no node of a tree is a host.
pub open spec fn hostless(branch: Branch) -> bool
    decreases branch,
{
    !is_host(branch.items) && all_hostless(branch.children)
}

pub open spec fn all_hostless(branches: Seq<Branch>) -> bool
    decreases branches,
{
    branches.len() == 0 || hostless(branches[0]) && all_hostless(
        branches.subrange(1, branches.len() as int),
    )
}

proof fn lemma_hostless(branch: Branch, parent: Cells)
    requires
        hostless(branch),
    ensures
        first_host(branch, parent) is None,
    decreases branch,
{
    lemma_all_hostless(branch.children, seq![], declared(branch.items));
    assert(branch.children + Seq::<Branch>::empty() =~= branch.children);
}

proof fn lemma_all_hostless(branches: Seq<Branch>, more: Seq<Branch>, parent: Cells)
    requires
        all_hostless(branches),
    ensures
        first_among(branches + more, parent) == first_among(more, parent),
    decreases branches,
{
    if branches.len() == 0 {
        assert(branches + more =~= more);
    } else {
        let rest = branches.subrange(1, branches.len() as int);
        let all = branches + more;
        lemma_hostless(branches[0], parent);
        lemma_all_hostless(rest, more, parent);
        assert(all.subrange(1, all.len() as int) =~= rest + more);
    }
}

/// A tree with any number of complete nodes without a host in front of its
/// other children yields what it yields without them: what they declared is
/// gone once they close.
pub proof fn law_closed_siblings_do_not_matter(
    s: Seq<u8>,
    t: Seq<u8>,
    root: Branch,
    siblings: Seq<Branch>,
)
    requires
        flattened(s, Branch { children: siblings + root.children, ..root }),
        flattened(t, root),
        all_hostless(siblings),
    ensures
        fdt::space_in(s, be32(s, 4)) == fdt::space_in(t, be32(t, 4)),
{
    let fuller = Branch { children: siblings + root.children, ..root };
    lemma_all_hostless(siblings, root.children, declared(root.items));
    law_only_the_first_host_matters(s, fuller, t, root);
}

/// What a header is refused for, in the order it is looked at: its first word,
/// then a structure newer than version 16, then a length shorter than the header
/// itself; and being cut short of any of them.
pub proof fn law_headers_are_refused_in_order(s: Seq<u8>)
    ensures
        fdt::size_of(s) == if s.len() < 4 {
            Err::<int, FdtError>(FdtError::Truncated)
        } else if s.subrange(0, 4) != seq![0xd0u8, 0x0d, 0xfe, 0xed] {
            Err(FdtError::Magic)
        } else if s.len() < 28 {
            Err(FdtError::Truncated)
        } else if be32(s, 24) > 16 {
            Err(FdtError::Version)
        } else if be32(s, 4) < 40 {
            Err(FdtError::Truncated)
        } else {
            Ok(be32(s, 4))
        },
{
    if s.len() >= 4 {
        let first = s.subrange(0, 4);
        let magic = seq![0xd0u8, 0x0d, 0xfe, 0xed];
        assert(first[0] == s[0] && first[1] == s[1] && first[2] == s[2] && first[3] == s[3]);
        if be32(s, 0) == 0xd00d_feed {
            assert(s[0] == 0xd0 && s[1] == 0x0d && s[2] == 0xfe && s[3] == 0xed);
            assert(first =~= magic);
        }
    }
}

/// A host is refused as malformed without a `reg` long enough for the widths its
/// parent declares, or below a parent that declares a width other than one cell
/// or two.
pub proof fn law_hosts_without_a_window_are_malformed(
    s: Seq<u8>,
    root: Branch,
    items: Seq<Item>,
    parent: Cells,
)
    requires
        flattened(s, root),
        first_host(root, Cells { address: 2, size: 2 }) == Some((items, parent)),
        parent.address == 0 || parent.address > 2 || parent.size == 0 || parent.size > 2 || value_of(
            items,
            "reg".spec_bytes(),
        ) is None || value_of(items, "reg".spec_bytes())->0.len() < 4 * (parent.address
            + parent.size),
    ensures
        fdt::space_in(s, be32(s, 4)) == Err::<ConfigSpace, FdtError>(FdtError::Malformed),
{
    lemma_flattened(s, root);
}

} // verus!
