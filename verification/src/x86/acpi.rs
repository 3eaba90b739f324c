//! Where firmware hid the ECAM window, read out of ACPI tables.
//!
//! Tables are read out of whatever memory [`Physical`] reaches. Entries are
//! read byte-wise because firmware aligns the XSDT to 4 bytes.
use vstd::prelude::*;
use vstd::string::StringSliceAdditionalSpecFns;

use crate::arch::ConfigSpace;
use crate::bytes::{self, le16, le32, le64, same, stands, stands_at};

verus! {

/// Why ACPI parsing failed.
#[derive(Clone, Copy, Debug, PartialEq, Eq, Structural)]
pub enum AcpiError {
    /// Not an RSDP at the reported address.
    Rsdp,
    /// Table bytes do not sum to zero.
    Checksum,
    /// RSDP names no root table in either width.
    Revision,
    /// No RSDP address or no direct map to read through.
    Absent,
    /// Wrong table signature.
    Signature,
    /// Implausible or out-of-bounds `length`.
    Truncated,
    /// No table of the signature asked for, or nothing usable in it.
    Missing,
    /// Bus range `ConfigSpace` refuses.
    Range,
}

/// A word for `error`, for the boot line that reports why ACPI told us nothing.
pub fn reason(error: AcpiError) -> (word: &'static str)
    ensures
        word@ == match error {
            AcpiError::Rsdp => "no RSD PTR signature at the reported address"@,
            AcpiError::Checksum => "a table's bytes do not sum to zero"@,
            AcpiError::Revision => "the RSDP names neither an RSDT nor an XSDT"@,
            AcpiError::Absent =>
                "firmware reported no RSDP, or no direct map to read it through"@,
            AcpiError::Signature => "a table carries the wrong signature"@,
            AcpiError::Truncated => "a table's length is implausible"@,
            AcpiError::Missing => "ACPI lists no table of the signature molt asked for"@,
            AcpiError::Range => "the MCFG allocation names a bus range molt refuses"@,
        },
{
    match error {
        AcpiError::Rsdp => "no RSD PTR signature at the reported address",
        AcpiError::Checksum => "a table's bytes do not sum to zero",
        AcpiError::Revision => "the RSDP names neither an RSDT nor an XSDT",
        AcpiError::Absent => "firmware reported no RSDP, or no direct map to read it through",
        AcpiError::Signature => "a table carries the wrong signature",
        AcpiError::Truncated => "a table's length is implausible",
        AcpiError::Missing => "ACPI lists no table of the signature molt asked for",
        AcpiError::Range => "the MCFG allocation names a bus range molt refuses",
    }
}

pub const HEADER: usize = 36;

pub const MAX_TABLE: usize = 65536;

/// The root table an RSDP names.
///
/// Both forms are real: legacy BIOS gives a revision-0 RSDP with a 32-bit
/// RSDT pointer; UEFI gives revision 2 with an XSDT. XSDT is preferred where
/// both exist because it can name tables above 4 GiB.
#[derive(Clone, Copy, Debug, PartialEq, Eq, Structural)]
pub enum Root {
    /// ACPI 1.0: 32-bit entries.
    Rsdt(u64),
    /// ACPI 2.0: 64-bit entries.
    Xsdt(u64),
}

/// The sum of a run of bytes.
pub open spec fn total(s: Seq<u8>) -> int
    decreases s.len(),
{
    if s.len() == 0 {
        0
    } else {
        total(s.drop_last()) + s.last()
    }
}

/// Whether a run of bytes sums to zero in eight bits.
pub open spec fn balanced(s: Seq<u8>) -> bool {
    total(s) % 256 == 0
}

/// The root table an RSDP image names.
pub open spec fn root_of(s: Seq<u8>) -> Result<Root, AcpiError> {
    let rsdt = le32(s, 16) as u64;
    let length = le32(s, 20);
    let xsdt = le64(s, 24) as u64;
    if s.len() < 20 {
        Err(AcpiError::Truncated)
    } else if !stands_at(s.take(20), 0, "RSD PTR ".spec_bytes()) {
        Err(AcpiError::Rsdp)
    } else if !balanced(s.take(20)) {
        Err(AcpiError::Checksum)
    } else if s[15] < 2 {
        if rsdt == 0 {
            Err(AcpiError::Revision)
        } else {
            Ok(Root::Rsdt(rsdt))
        }
    } else if s.len() < 24 || length < HEADER || s.len() < length {
        Err(AcpiError::Truncated)
    } else if !balanced(s.take(length)) {
        Err(AcpiError::Checksum)
    } else if xsdt != 0 {
        Ok(Root::Xsdt(xsdt))
    } else if rsdt != 0 {
        Ok(Root::Rsdt(rsdt))
    } else {
        Err(AcpiError::Revision)
    }
}

/// The `length` a table header reports, refused when it cannot be one.
pub open spec fn length_of(s: Seq<u8>) -> Result<int, AcpiError> {
    let length = le32(s, 4);
    if s.len() < HEADER || length < HEADER || length > MAX_TABLE {
        Err(AcpiError::Truncated)
    } else {
        Ok(length)
    }
}

/// A table's checksummed body, once its signature and length are believable.
pub open spec fn table_of(s: Seq<u8>, signature: Seq<u8>) -> Result<Seq<u8>, AcpiError> {
    match length_of(s) {
        Err(error) => Err(error),
        Ok(length) => if !(s.take(4) =~= signature) {
            Err(AcpiError::Signature)
        } else if s.len() < length {
            Err(AcpiError::Truncated)
        } else if !balanced(s.take(length)) {
            Err(AcpiError::Checksum)
        } else {
            Ok(s.take(length))
        },
    }
}

/// The addresses a root table lists.
pub open spec fn entries_of(root: Root, s: Seq<u8>) -> Result<Seq<u64>, AcpiError> {
    match root {
        Root::Rsdt(_) => match table_of(s, "RSDT".spec_bytes()) {
            Err(error) => Err(error),
            Ok(body) => Ok(
                Seq::new(
                    ((body.len() - HEADER) / 4) as nat,
                    |i: int| le32(body, HEADER + 4 * i) as u64,
                ),
            ),
        },
        Root::Xsdt(_) => match table_of(s, "XSDT".spec_bytes()) {
            Err(error) => Err(error),
            Ok(body) => Ok(
                Seq::new(
                    ((body.len() - HEADER) / 8) as nat,
                    |i: int| le64(body, HEADER + 8 * i) as u64,
                ),
            ),
        },
    }
}

/// The configuration space of an MCFG's first allocation.
pub open spec fn space_of(s: Seq<u8>) -> Result<ConfigSpace, AcpiError> {
    match table_of(s, "MCFG".spec_bytes()) {
        Err(error) => Err(error),
        Ok(body) => if body.len() < 60 {
            Err(AcpiError::Missing)
        } else if body[54] > body[55] {
            Err(AcpiError::Range)
        } else {
            Ok(
                ConfigSpace {
                    base: le64(body, 44) as u64,
                    segment: le16(body, 52) as u16,
                    first_bus: body[54],
                    last_bus: body[55],
                },
            )
        },
    }
}

/// Whether the record at `at` is a whole one: as long as it says, and at least
/// as long as its own header.
pub open spec fn record_at(body: Seq<u8>, at: int) -> bool {
    at + 2 <= body.len() && body[at + 1] >= 2 && at + body[at + 1] <= body.len()
}

/// Whether the record at `at` is a local APIC that is enabled or may be started
/// later, by the low two bits of its flags.
pub open spec fn startable(body: Seq<u8>, at: int) -> bool {
    body[at] == 0 && body[at + 1] >= 8 && body[at + 4] % 4 != 0
}

/// The identifiers of the usable processors among the records from `at` on.
pub open spec fn startable_from(body: Seq<u8>, at: int) -> Seq<u8>
    decreases body.len() - at,
{
    if !record_at(body, at) {
        seq![]
    } else {
        let rest = startable_from(body, at + body[at + 1]);
        if startable(body, at) {
            seq![body[at + 3]] + rest
        } else {
            rest
        }
    }
}

/// The identifiers a MADT reports usable, in its order.
pub open spec fn processors_of(s: Seq<u8>) -> Result<Seq<u8>, AcpiError> {
    match table_of(s, "APIC".spec_bytes()) {
        Err(error) => Err(error),
        Ok(body) => Ok(startable_from(body, HEADER + 8)),
    }
}

/// The smaller of two lengths.
pub open spec fn least(a: int, b: int) -> int {
    if a < b {
        a
    } else {
        b
    }
}

/// What a buffer holds once as many identifiers as fit were put at its front.
pub open spec fn filled(before: Seq<u8>, ids: Seq<u8>) -> Seq<u8> {
    let count = least(before.len() as int, ids.len() as int);
    ids.take(count) + before.skip(count)
}

fn sum(bytes: &[u8], until: usize) -> (sum: u8)
    requires
        until <= bytes@.len(),
    ensures
        sum == total(bytes@.take(until as int)) % 256,
{
    let mut sum: u8 = 0;
    let mut i: usize = 0;
    while i < until
        invariant
            i <= until <= bytes@.len(),
            sum == total(bytes@.take(i as int)) % 256,
        decreases until - i,
    {
        assert(bytes@.take(i + 1).drop_last() =~= bytes@.take(i as int));
        sum = sum.wrapping_add(bytes[i]);
        i = i + 1;
    }
    sum
}

/// The root table's physical address from an RSDP image.
pub fn rsdp(bytes: &[u8]) -> (root: Result<Root, AcpiError>)
    ensures
        root == root_of(bytes@),
{
    if bytes.len() < 20 {
        return Err(AcpiError::Truncated);
    }
    let first = vstd::slice::slice_subrange(bytes, 0, 20);
    assert(first@ =~= bytes@.take(20));
    if !stands(first, 0, "RSD PTR ".as_bytes()) {
        return Err(AcpiError::Rsdp);
    }
    if sum(bytes, 20) != 0 {
        return Err(AcpiError::Checksum);
    }
    let rsdt: u64 = bytes::get_le32(bytes, 16) as u64;
    // Revision 0: RSDP is 20 bytes; extended fields do not exist.
    if bytes[15] < 2 {
        return if rsdt == 0 {
            Err(AcpiError::Revision)
        } else {
            Ok(Root::Rsdt(rsdt))
        };
    }
    // A revision past 1 promises a length field after the first 20 bytes.
    if bytes.len() < 24 {
        return Err(AcpiError::Truncated);
    }
    let length: usize = bytes::get_le32(bytes, 20) as usize;
    if length < HEADER || bytes.len() < length {
        return Err(AcpiError::Truncated);
    }
    if sum(bytes, length) != 0 {
        return Err(AcpiError::Checksum);
    }
    let xsdt: u64 = bytes::get_le64(bytes, 24);
    if xsdt != 0 {
        Ok(Root::Xsdt(xsdt))
    } else if rsdt != 0 {
        Ok(Root::Rsdt(rsdt))
    } else {
        Err(AcpiError::Revision)
    }
}

fn length(bytes: &[u8]) -> (length: Result<usize, AcpiError>)
    ensures
        match length {
            Ok(length) => length_of(bytes@) == Ok::<int, AcpiError>(length as int),
            Err(error) => length_of(bytes@) == Err::<int, AcpiError>(error),
        },
{
    if bytes.len() < HEADER {
        return Err(AcpiError::Truncated);
    }
    let length: usize = bytes::get_le32(bytes, 4) as usize;
    if length < HEADER || length > MAX_TABLE {
        return Err(AcpiError::Truncated);
    }
    Ok(length)
}

fn table<'bytes>(bytes: &'bytes [u8], signature: &[u8]) -> (body: Result<&'bytes [u8], AcpiError>)
    ensures
        match body {
            Ok(body) => table_of(bytes@, signature@) == Ok::<Seq<u8>, AcpiError>(body@)
                && body@.len() >= HEADER,
            Err(error) => table_of(bytes@, signature@) == Err::<Seq<u8>, AcpiError>(error),
        },
{
    let length: usize = length(bytes)?;
    let head = vstd::slice::slice_subrange(bytes, 0, 4);
    assert(head@ =~= bytes@.take(4));
    if !same(head, signature) {
        return Err(AcpiError::Signature);
    }
    if bytes.len() < length {
        return Err(AcpiError::Truncated);
    }
    if sum(bytes, length) != 0 {
        return Err(AcpiError::Checksum);
    }
    let body = vstd::slice::slice_subrange(bytes, 0, length);
    assert(body@ =~= bytes@.take(length as int));
    Ok(body)
}

/// Physical addresses of the tables a root table lists.
pub fn entries(root: Root, bytes: &[u8]) -> (listed: Result<Vec<u64>, AcpiError>)
    ensures
        match listed {
            Ok(listed) => entries_of(root, bytes@) == Ok::<Seq<u64>, AcpiError>(listed@),
            Err(error) => entries_of(root, bytes@) == Err::<Seq<u64>, AcpiError>(error),
        },
{
    let mut listed: Vec<u64> = Vec::new();
    match root {
        Root::Rsdt(_) => {
            let body = table(bytes, "RSDT".as_bytes())?;
            assert(body.len() == body@.len());
            let count: usize = (body.len() - HEADER) / 4;
            let mut i: usize = 0;
            while i < count
                invariant
                    i <= count,
                    count == (body@.len() - HEADER) / 4,
                    body@.len() <= usize::MAX,
                    body@.len() >= HEADER,
                    listed@.len() == i,
                    forall|k: int| 0 <= k < i ==> listed@[k] == le32(body@, HEADER + 4 * k) as u64,
                decreases count - i,
            {
                listed.push(bytes::get_le32(body, HEADER + 4 * i) as u64);
                i = i + 1;
            }
            assert(listed@ =~= entries_of(root, bytes@)->Ok_0);
        },
        Root::Xsdt(_) => {
            let body = table(bytes, "XSDT".as_bytes())?;
            assert(body.len() == body@.len());
            let count: usize = (body.len() - HEADER) / 8;
            let mut i: usize = 0;
            while i < count
                invariant
                    i <= count,
                    count == (body@.len() - HEADER) / 8,
                    body@.len() <= usize::MAX,
                    body@.len() >= HEADER,
                    listed@.len() == i,
                    forall|k: int| 0 <= k < i ==> listed@[k] == le64(body@, HEADER + 8 * k) as u64,
                decreases count - i,
            {
                listed.push(bytes::get_le64(body, HEADER + 8 * i));
                i = i + 1;
            }
            assert(listed@ =~= entries_of(root, bytes@)->Ok_0);
        },
    }
    Ok(listed)
}

/// Configuration space from the first MCFG allocation.
pub fn mcfg(bytes: &[u8]) -> (space: Result<ConfigSpace, AcpiError>)
    ensures
        space == space_of(bytes@),
{
    let body = table(bytes, "MCFG".as_bytes())?;
    // 8 reserved bytes after the header, then 16-byte allocations.
    if body.len() < 60 {
        return Err(AcpiError::Missing);
    }
    let base: u64 = bytes::get_le64(body, 44);
    let segment: u16 = bytes::get_le16(body, 52);
    match ConfigSpace::new(base, segment, body[54], body[55]) {
        Ok(space) => Ok(space),
        Err(_) => Err(AcpiError::Range),
    }
}

/// The local APIC identifier of every processor a MADT reports usable, as many
/// as `into` has room for.
///
/// Only the 8-bit entries are read. A machine that needs the 32-bit ones has
/// more processors than molt has per-core blocks, so the ones it would find
/// there are ones it would drop anyway.
pub fn madt(bytes: &[u8], into: &mut [u8]) -> (count: Result<usize, AcpiError>)
    ensures
        match count {
            Ok(count) => {
                &&& processors_of(bytes@) is Ok
                &&& final(into)@ == filled(old(into)@, processors_of(bytes@)->Ok_0)
                &&& count == least(
                    old(into)@.len() as int,
                    processors_of(bytes@)->Ok_0.len() as int,
                )
            },
            Err(error) => processors_of(bytes@) == Err::<Seq<u8>, AcpiError>(error)
                && final(into)@ == old(into)@,
        },
{
    let body = table(bytes, "APIC".as_bytes())?;
    // The header is followed by the legacy APIC address and flags, then by
    // length-prefixed records: type 0 is a processor's local APIC.
    let mut at: usize = HEADER + 8;
    let mut count: usize = 0;
    let ghost before = into@;
    let ghost ids = startable_from(body@, HEADER + 8);
    assert(body.len() == body@.len());
    assert(into@ =~= ids.take(0) + before.skip(0));
    while at <= body.len() && body.len() - at >= 2 && body[at + 1] >= 2 && body.len() - at >= body[
        at + 1] as usize
        invariant
            HEADER + 8 <= at,
            body@.len() == body.len(),
            count <= before.len(),
            into@.len() == before.len(),
            count <= ids.len(),
            into@ == ids.take(count as int) + before.skip(count as int),
            ids == startable_from(body@, HEADER + 8),
            ids =~= ids.take(count as int) + startable_from(body@, at as int),
            processors_of(bytes@) == Ok::<Seq<u8>, AcpiError>(ids),
            before == old(into)@,
        decreases body.len() - at,
    {
        let length: usize = body[at + 1] as usize;
        if body[at] == 0 && length >= 8 && body[at + 4] % 4 != 0 {
            if count == into.len() {
                assert(ids.len() > count);
                assert(into@ =~= filled(before, ids));
                return Ok(count);
            }
            let ghost rest = startable_from(body@, at as int);
            assert(ids[count as int] == rest[0]);
            into[count] = body[at + 3];
            count = count + 1;
            assert(into@ =~= ids.take(count as int) + before.skip(count as int));
            assert(rest.skip(1) =~= startable_from(body@, at + length));
            assert(ids =~= ids.take(count as int) + rest.skip(1));
        }
        at = at + length;
    }
    assert(startable_from(body@, at as int) =~= seq![]);
    assert(ids.take(count as int) =~= ids);
    assert(into@ =~= filled(before, ids));
    Ok(count)
}

/// Physical memory as the tables are read out of it.
///
/// As for a [`Window`](crate::window::Window), a model left out is any at all.
pub trait Physical {
    /// The `len` bytes at `physical`, where they can be reached.
    closed spec fn reached(&self, physical: u64, len: usize) -> Option<Seq<u8>> {
        arbitrary()
    }

    /// Borrows `len` bytes of physical memory.
    fn image(&self, physical: u64, len: usize) -> (bytes: Option<&[u8]>)
        ensures
            match bytes {
                Some(bytes) => self.reached(physical, len) == Some(bytes@) && bytes@.len() == len,
                None => self.reached(physical, len) is None,
            },
    ;
}

/// A run of physical memory held in bytes.
pub struct Held<'bytes> {
    pub base: u64,
    pub bytes: &'bytes [u8],
}

impl<'bytes> Physical for Held<'bytes> {
    open spec fn reached(&self, physical: u64, len: usize) -> Option<Seq<u8>> {
        if self.base <= physical && physical - self.base + len <= self.bytes@.len() {
            Some(
                self.bytes@.subrange(physical - self.base, physical - self.base + len),
            )
        } else {
            None
        }
    }

    fn image(&self, physical: u64, len: usize) -> (bytes: Option<&[u8]>) {
        assert(self.bytes.len() == self.bytes@.len());
        if physical < self.base || physical - self.base > self.bytes.len() as u64 {
            return None;
        }
        let at: usize = (physical - self.base) as usize;
        if len > self.bytes.len() - at {
            return None;
        }
        Some(vstd::slice::slice_subrange(self.bytes, at, at + len))
    }
}

/// The first table among `listed[from..]` that carries `signature`.
pub open spec fn first_of<P: Physical>(
    memory: P,
    listed: Seq<u64>,
    from: int,
    signature: Seq<u8>,
) -> Result<Seq<u8>, AcpiError>
    decreases listed.len() - from,
{
    if from < 0 || from >= listed.len() {
        Err(AcpiError::Missing)
    } else {
        match memory.reached(listed[from], 4) {
            None => Err(AcpiError::Absent),
            Some(head) => if head =~= signature {
                whole_at(memory, listed[from])
            } else {
                first_of(memory, listed, from + 1, signature)
            },
        }
    }
}

/// The table at `physical`, as long as its header says it is.
pub open spec fn whole_at<P: Physical>(memory: P, physical: u64) -> Result<Seq<u8>, AcpiError> {
    match memory.reached(physical, HEADER) {
        None => Err(AcpiError::Absent),
        Some(header) => match length_of(header) {
            Err(error) => Err(error),
            Ok(length) => match memory.reached(physical, length as usize) {
                None => Err(AcpiError::Absent),
                Some(bytes) => Ok(bytes),
            },
        },
    }
}

/// The image of the one table carrying `signature`, from the RSDP down.
pub open spec fn found_in<P: Physical>(memory: P, rsdp: u64, signature: Seq<u8>) -> Result<
    Seq<u8>,
    AcpiError,
> {
    match memory.reached(rsdp, HEADER) {
        None => Err(AcpiError::Absent),
        Some(pointer) => match root_of(pointer) {
            Err(error) => Err(error),
            Ok(root) => {
                let physical = match root {
                    Root::Rsdt(physical) => physical,
                    Root::Xsdt(physical) => physical,
                };
                match whole_at(memory, physical) {
                    Err(error) => Err(error),
                    Ok(listing) => match entries_of(root, listing) {
                        Err(error) => Err(error),
                        Ok(listed) => first_of(memory, listed, 0, signature),
                    },
                }
            },
        },
    }
}

fn whole<P: Physical>(memory: &P, physical: u64) -> (bytes: Result<&[u8], AcpiError>)
    ensures
        match bytes {
            Ok(bytes) => whole_at(*memory, physical) == Ok::<Seq<u8>, AcpiError>(bytes@),
            Err(error) => whole_at(*memory, physical) == Err::<Seq<u8>, AcpiError>(error),
        },
{
    // The header is what tells us how much more to read.
    let header = match memory.image(physical, HEADER) {
        Some(header) => header,
        None => return Err(AcpiError::Absent),
    };
    let length: usize = length(header)?;
    match memory.image(physical, length) {
        Some(bytes) => Ok(bytes),
        None => Err(AcpiError::Absent),
    }
}

/// The image of the one table carrying `signature`.
fn find<'map, P: Physical>(memory: &'map P, rsdp_physical: u64, signature: &[u8]) -> (bytes: Result<
    &'map [u8],
    AcpiError,
>)
    ensures
        match bytes {
            Ok(bytes) => found_in(*memory, rsdp_physical, signature@) == Ok::<Seq<u8>, AcpiError>(
                bytes@,
            ),
            Err(error) => found_in(*memory, rsdp_physical, signature@) == Err::<
                Seq<u8>,
                AcpiError,
            >(error),
        },
{
    // The extended form is 36 bytes.
    let pointer = match memory.image(rsdp_physical, HEADER) {
        Some(pointer) => pointer,
        None => return Err(AcpiError::Absent),
    };
    let root = rsdp(pointer)?;
    let root_physical: u64 = match root {
        Root::Rsdt(physical) => physical,
        Root::Xsdt(physical) => physical,
    };
    let listing = whole(memory, root_physical)?;
    let listed = entries(root, listing)?;
    let mut i: usize = 0;
    while i < listed.len()
        invariant
            i <= listed@.len(),
            found_in(*memory, rsdp_physical, signature@) == first_of(
                *memory,
                listed@,
                i as int,
                signature@,
            ),
        decreases listed.len() - i,
    {
        // A listed table starts with its 4-byte signature.
        let head = match memory.image(listed[i], 4) {
            Some(head) => head,
            None => return Err(AcpiError::Absent),
        };
        if same(head, signature) {
            return whole(memory, listed[i]);
        }
        i = i + 1;
    }
    Err(AcpiError::Missing)
}

/// Finds the PCI configuration space described by ACPI.
pub fn config_space<P: Physical>(memory: &P, rsdp_physical: u64) -> (space: Result<
    ConfigSpace,
    AcpiError,
>)
    ensures
        space == match found_in(*memory, rsdp_physical, "MCFG".spec_bytes()) {
            Ok(table) => space_of(table),
            Err(error) => Err::<ConfigSpace, AcpiError>(error),
        },
{
    mcfg(find(memory, rsdp_physical, "MCFG".as_bytes())?)
}

/// What ACPI says of the processors it lists.
pub open spec fn listed_in<P: Physical>(memory: P, rsdp: u64) -> Result<Seq<u8>, AcpiError> {
    match found_in(memory, rsdp, "APIC".spec_bytes()) {
        Ok(table) => processors_of(table),
        Err(error) => Err(error),
    }
}

/// Finds the processors ACPI listed.
pub fn processors<P: Physical>(memory: &P, rsdp_physical: u64, into: &mut [u8]) -> (count: Result<
    usize,
    AcpiError,
>)
    ensures
        match count {
            Ok(count) => {
                &&& listed_in(*memory, rsdp_physical) is Ok
                &&& final(into)@ == filled(old(into)@, listed_in(*memory, rsdp_physical)->Ok_0)
                &&& count == least(
                    old(into)@.len() as int,
                    listed_in(*memory, rsdp_physical)->Ok_0.len() as int,
                )
            },
            Err(error) => listed_in(*memory, rsdp_physical) == Err::<Seq<u8>, AcpiError>(error)
                && final(into)@ == old(into)@,
        },
{
    let table = find(memory, rsdp_physical, "APIC".as_bytes())?;
    madt(table, into)
}

} // verus!
