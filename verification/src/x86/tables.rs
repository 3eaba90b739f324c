//! ACPI tables as firmware lays them out, and what is read back from them.
use vstd::prelude::*;
use vstd::string::StringSliceAdditionalSpecFns;

use crate::arch::ConfigSpace;
use crate::bytes::{self, le32, le64};

use super::acpi::{self, AcpiError, Physical, Root};

verus! {

/// The sum of a run of bytes, folded from the left.
pub open spec fn sum_of(s: Seq<u8>) -> int {
    s.fold_left(0int, |sum: int, byte: u8| sum + byte)
}

/// Whether `s` is one whole table and no more: four signature bytes, its own
/// length in the four after, and bytes that sum to a multiple of 256.
pub open spec fn sealed(s: Seq<u8>, signature: Seq<u8>) -> bool {
    &&& 36 <= s.len() <= 65536
    &&& s.subrange(0, 4) == signature
    &&& s.subrange(4, 8) == bytes::le32_bytes(s.len() as u32)
    &&& sum_of(s) % 256 == 0
}

/// One record of a MADT.
pub enum Entry {
    /// A processor's local APIC, with whatever a later revision put behind it.
    Local { uid: u8, id: u8, flags: u32, more: Seq<u8> },
    /// Anything else: another kind, or one too short to be a local APIC.
    Other { kind: u8, body: Seq<u8> },
}

/// Whether a record can be written down.
pub open spec fn writable(entry: Entry) -> bool {
    match entry {
        Entry::Local { more, .. } => more.len() <= 247,
        Entry::Other { kind, body } => body.len() <= 253 && (kind != 0 || body.len() < 6),
    }
}

/// A record's bytes: its kind, its length, then what it holds. A local APIC
/// holds the processor's UID, its APIC identifier and its flags, in that order.
pub open spec fn written(entry: Entry) -> Seq<u8> {
    match entry {
        Entry::Local { uid, id, flags, more } => seq![0u8, (8 + more.len()) as u8, uid, id]
            + bytes::le32_bytes(flags) + more,
        Entry::Other { kind, body } => seq![kind, (2 + body.len()) as u8] + body,
    }
}

/// The bytes of a list of records, one after another.
pub open spec fn listing(entries: Seq<Entry>) -> Seq<u8>
    decreases entries.len(),
{
    if entries.len() == 0 {
        seq![]
    } else {
        written(entries[0]) + listing(entries.skip(1))
    }
}

/// The identifier a record has to report: a local APIC's, where its flags say
/// the processor is enabled (bit 0) or can be brought online later (bit 1).
pub open spec fn reported(entry: Entry) -> Seq<u8> {
    match entry {
        Entry::Local { id, flags, .. } => if flags % 2 == 1 || flags / 2 % 2 == 1 {
            seq![id]
        } else {
            seq![]
        },
        Entry::Other { .. } => seq![],
    }
}

/// The identifiers a list of records has to report, in its order.
pub open spec fn usable(entries: Seq<Entry>) -> Seq<u8>
    decreases entries.len(),
{
    if entries.len() == 0 {
        seq![]
    } else {
        reported(entries[0]) + usable(entries.skip(1))
    }
}

proof fn lemma_sum(s: Seq<u8>)
    ensures
        sum_of(s) == acpi::total(s),
    decreases s.len(),
{
    reveal_with_fuel(Seq::fold_left, 2);
    if s.len() > 0 {
        lemma_sum(s.drop_last());
    }
}

/// The one byte that differs moves the sum by as much.
proof fn lemma_sum_moves(s: Seq<u8>, at: int, value: u8)
    requires
        0 <= at < s.len(),
    ensures
        acpi::total(s.update(at, value)) == acpi::total(s) - s[at] + value,
    decreases s.len(),
{
    let t = s.update(at, value);
    if at == s.len() - 1 {
        assert(t.drop_last() =~= s.drop_last());
    } else {
        lemma_sum_moves(s.drop_last(), at, value);
        assert(t.drop_last() =~= s.drop_last().update(at, value));
    }
}

proof fn lemma_signature(text: &str, signature: Seq<u8>)
    requires
        text@.len() == signature.len(),
        forall|i: int| 0 <= i < text@.len() ==> (#[trigger] text@[i]) as int == signature[i]
            && signature[i] < 128,
    ensures
        text.spec_bytes() == signature,
{
    broadcast use vstd::utf8::is_ascii_chars_encode_utf8;

    assert(vstd::utf8::is_ascii_chars(text@));
    assert(text.spec_bytes() =~= signature);
}

proof fn lemma_sealed(s: Seq<u8>, signature: Seq<u8>)
    requires
        sealed(s, signature),
    ensures
        acpi::table_of(s, signature) == Ok::<Seq<u8>, AcpiError>(s),
{
    broadcast use bytes::law_le32_round_trip;

    lemma_sum(s);
    let n = bytes::le32_bytes(s.len() as u32);
    assert forall|i: int| 0 <= i < 4 implies s[4 + i] == #[trigger] n[0 + i] by {
        assert(s.subrange(4, 8)[i] == n[i]);
    }
    bytes::lemma_le_window(s, 4, n, 0, 4);
    assert(s.take(s.len() as int) =~= s);
    assert(s.take(4) =~= s.subrange(0, 4));
}

/// What is read from a record on depends on nothing before it.
proof fn lemma_listing(s: Seq<u8>, at: int, entries: Seq<Entry>)
    requires
        0 <= at <= s.len(),
        s.skip(at) == listing(entries),
        forall|i: int| 0 <= i < entries.len() ==> writable(#[trigger] entries[i]),
    ensures
        acpi::startable_from(s, at) == usable(entries),
    decreases entries.len(),
{
    if entries.len() == 0 {
        assert(s.len() == at);
    } else {
        let first = written(entries[0]);
        let rest = entries.skip(1);
        assert(s.skip(at).len() == first.len() + listing(rest).len());
        assert forall|i: int| 0 <= i < first.len() implies s[at + i] == #[trigger] first[i] by {
            assert(s.skip(at)[i] == listing(entries)[i]);
        }
        assert(writable(entries[0]));
        assert(first[0] == s[at + 0]);
        assert(first[1] == s[at + 1]);
        assert(s.skip(at + first.len()) =~= listing(rest)) by {
            assert(s.skip(at + first.len()) =~= s.skip(at).skip(first.len() as int));
            assert(listing(entries).skip(first.len() as int) =~= listing(rest));
        }
        assert forall|i: int| 0 <= i < rest.len() implies writable(#[trigger] rest[i]) by {
            assert(writable(entries[i + 1]));
        }
        assert(s.len() >= at + first.len()) by {
            assert(s.skip(at).len() == listing(entries).len());
        }
        lemma_listing(s, at + first.len(), rest);
        match entries[0] {
            Entry::Local { uid, id, flags, more } => {
                let word = bytes::le32_bytes(flags);
                assert(first[3] == s[at + 3]);
                assert(first[4] == s[at + 4]);
                assert(first[4] == word[0]);
                assert(first.len() == 8 + more.len());
                assert(first[4] % 4 == flags % 4);
            },
            Entry::Other { kind, body } => {
                assert(first.len() == 2 + body.len());
            },
        }
    }
}

/// A MADT made of any list of records reports the identifier, and not the UID,
/// of each local APIC whose flags permit a start, in the list's order. A buffer
/// takes as many of them as it has room for at its front and keeps its rest.
pub proof fn law_madt_reports_identifiers(s: Seq<u8>, entries: Seq<Entry>, buffer: Seq<u8>)
    requires
        sealed(s, seq![0x41u8, 0x50, 0x49, 0x43]),
        s.len() >= 44,
        s.subrange(44, s.len() as int) == listing(entries),
        forall|i: int| 0 <= i < entries.len() ==> writable(#[trigger] entries[i]),
    ensures
        acpi::processors_of(s) == Ok::<Seq<u8>, AcpiError>(usable(entries)),
        acpi::filled(buffer, usable(entries)).len() == buffer.len(),
        forall|i: int|
            0 <= i < buffer.len() ==> #[trigger] acpi::filled(buffer, usable(entries))[i] == if i
                < usable(entries).len() {
                usable(entries)[i]
            } else {
                buffer[i]
            },
        acpi::least(buffer.len() as int, usable(entries).len() as int) <= buffer.len(),
        acpi::least(buffer.len() as int, usable(entries).len() as int) <= usable(entries).len(),
        acpi::least(buffer.len() as int, usable(entries).len() as int) == buffer.len()
            || acpi::least(buffer.len() as int, usable(entries).len() as int) == usable(
            entries,
        ).len(),
{
    reveal_strlit("APIC");
    lemma_signature("APIC", seq![0x41u8, 0x50, 0x49, 0x43]);
    lemma_sealed(s, seq![0x41u8, 0x50, 0x49, 0x43]);
    assert(s.skip(44) =~= s.subrange(44, s.len() as int));
    lemma_listing(s, 44, entries);
}

/// Every local APIC a MADT lists with its first flag set is reported, whatever
/// its UID and whatever stands around it, and nothing else is.
pub proof fn law_enabled_processors_are_reported(entries: Seq<Entry>, id: u8)
    ensures
        usable(entries).contains(id) <==> exists|i: int|
            0 <= i < entries.len() && (#[trigger] entries[i] matches Entry::Local {
                id: own,
                flags,
                ..
            } && own == id && flags % 4 != 0),
    decreases entries.len(),
{
    if entries.len() > 0 {
        let rest = entries.skip(1);
        law_enabled_processors_are_reported(rest, id);
        let head = reported(entries[0]);
        if usable(entries).contains(id) {
            let k = choose|k: int| 0 <= k < usable(entries).len() && usable(entries)[k] == id;
            if k < head.len() {
                assert(entries[0] is Local);
            } else {
                assert(usable(rest)[k - head.len()] == id);
                assert(usable(rest).contains(id));
                let i = choose|i: int|
                    0 <= i < rest.len() && (#[trigger] rest[i] matches Entry::Local {
                        id: own,
                        flags,
                        ..
                    } && own == id && flags % 4 != 0);
                assert(entries[i + 1] == rest[i]);
            }
        }
        if exists|i: int|
            0 <= i < entries.len() && (#[trigger] entries[i] matches Entry::Local {
                id: own,
                flags,
                ..
            } && own == id && flags % 4 != 0) {
            let i = choose|i: int|
                0 <= i < entries.len() && (#[trigger] entries[i] matches Entry::Local {
                    id: own,
                    flags,
                    ..
                } && own == id && flags % 4 != 0);
            if i == 0 {
                assert(head.len() == 1);
                assert(usable(entries)[0] == id);
            } else {
                assert(rest[i - 1] == entries[i]);
                assert(usable(rest).contains(id));
                let k = choose|k: int| 0 <= k < usable(rest).len() && usable(rest)[k] == id;
                assert(usable(entries)[k + head.len()] == id);
            }
        }
    }
}

/// An MCFG's first allocation is read as it was written: base address, segment,
/// first bus, last bus. A range that ends before it starts is refused.
pub proof fn law_mcfg_reads_back(s: Seq<u8>, base: u64, segment: u16, first: u8, last: u8)
    requires
        sealed(s, seq![0x4du8, 0x43, 0x46, 0x47]),
        s.len() >= 60,
        s.subrange(44, 56) == bytes::le64_bytes(base) + bytes::le16_bytes(segment) + seq![
            first,
            last,
        ],
    ensures
        first <= last ==> acpi::space_of(s) == Ok::<ConfigSpace, AcpiError>(
            ConfigSpace { base, segment, first_bus: first, last_bus: last },
        ),
        first > last ==> acpi::space_of(s) == Err::<ConfigSpace, AcpiError>(AcpiError::Range),
{
    broadcast use bytes::law_le64_round_trip, bytes::law_le16_round_trip;

    reveal_strlit("MCFG");
    lemma_signature("MCFG", seq![0x4du8, 0x43, 0x46, 0x47]);
    lemma_sealed(s, seq![0x4du8, 0x43, 0x46, 0x47]);
    let wide = bytes::le64_bytes(base);
    let narrow = bytes::le16_bytes(segment);
    let all = wide + narrow + seq![first, last];
    assert forall|i: int| 0 <= i < 12 implies s[44 + i] == #[trigger] all[i] by {
        assert(s.subrange(44, 56)[i] == all[i]);
    }
    assert forall|i: int| 0 <= i < 8 implies s[44 + i] == #[trigger] wide[0 + i] by {
        assert(all[i] == wide[i]);
    }
    bytes::lemma_le_window(s, 44, wide, 0, 8);
    assert forall|i: int| 0 <= i < 2 implies s[52 + i] == #[trigger] narrow[0 + i] by {
        assert(all[8 + i] == narrow[i]);
    }
    bytes::lemma_le_window(s, 52, narrow, 0, 2);
    assert(all[10] == first && all[11] == last);
}

/// The bytes of a list of addresses, each `width` bytes, low byte first.
pub open spec fn addresses(listed: Seq<u64>, wide: bool) -> Seq<u8>
    decreases listed.len(),
{
    if listed.len() == 0 {
        seq![]
    } else {
        addresses(listed.drop_last(), wide) + if wide {
            bytes::le64_bytes(listed.last())
        } else {
            bytes::le32_bytes(listed.last() as u32)
        }
    }
}

proof fn lemma_addresses(listed: Seq<u64>, wide: bool)
    requires
        wide || forall|i: int| 0 <= i < listed.len() ==> #[trigger] listed[i] < 0x1_0000_0000,
    ensures
        addresses(listed, wide).len() == listed.len() * if wide {
            8int
        } else {
            4int
        },
        forall|i: int|
            0 <= i < listed.len() ==> (#[trigger] listed[i]) == if wide {
                le64(addresses(listed, wide), 8 * i)
            } else {
                le32(addresses(listed, wide), 4 * i)
            },
    decreases listed.len(),
{
    broadcast use bytes::law_le64_round_trip, bytes::law_le32_round_trip;

    if listed.len() > 0 {
        let short = listed.drop_last();
        lemma_addresses(short, wide);
        let before = addresses(short, wide);
        let all = addresses(listed, wide);
        let k = short.len() as int;
        assert forall|i: int| 0 <= i < listed.len() implies (#[trigger] listed[i]) == if wide {
            le64(all, 8 * i)
        } else {
            le32(all, 4 * i)
        } by {
            if i < k {
                assert(short[i] == listed[i]);
            } else {
                let own = bytes::le64_bytes(listed.last());
                let small = bytes::le32_bytes(listed.last() as u32);
                if wide {
                    assert forall|j: int| 0 <= j < 8 implies all[8 * k + j] == #[trigger] own[0
                        + j] by {}
                    bytes::lemma_le_window(all, 8 * k, own, 0, 8);
                } else {
                    assert forall|j: int| 0 <= j < 4 implies all[4 * k + j] == #[trigger] small[0
                        + j] by {}
                    bytes::lemma_le_window(all, 4 * k, small, 0, 4);
                }
            }
        }
    }
}

/// An XSDT lists the 64-bit addresses written behind its header, all of them
/// and in order.
pub proof fn law_xsdt_reads_back(s: Seq<u8>, listed: Seq<u64>, root: u64)
    requires
        sealed(s, seq![0x58u8, 0x53, 0x44, 0x54]),
        s.subrange(36, s.len() as int) == addresses(listed, true),
    ensures
        acpi::entries_of(Root::Xsdt(root), s) == Ok::<Seq<u64>, AcpiError>(listed),
{
    reveal_strlit("XSDT");
    lemma_signature("XSDT", seq![0x58u8, 0x53, 0x44, 0x54]);
    lemma_sealed(s, seq![0x58u8, 0x53, 0x44, 0x54]);
    lemma_addresses(listed, true);
    let all = addresses(listed, true);
    assert(s.len() - 36 == all.len());
    let read = Seq::new(
        ((s.len() - 36) / 8) as nat,
        |i: int| le64(s, acpi::HEADER + 8 * i) as u64,
    );
    assert forall|i: int| 0 <= i < listed.len() implies read[i] == #[trigger] listed[i] by {
        assert forall|j: int| 0 <= j < 8 implies s[36 + 8 * i + j] == #[trigger] all[8 * i + j] by {
            assert(s.subrange(36, s.len() as int)[8 * i + j] == all[8 * i + j]);
        }
        bytes::lemma_le_window(s, 36 + 8 * i, all, 8 * i, 8);
    }
    assert(read =~= listed);
}

/// An RSDT lists the 32-bit addresses written behind its header, all of them
/// and in order.
pub proof fn law_rsdt_reads_back(s: Seq<u8>, listed: Seq<u64>, root: u64)
    requires
        sealed(s, seq![0x52u8, 0x53, 0x44, 0x54]),
        s.subrange(36, s.len() as int) == addresses(listed, false),
        forall|i: int| 0 <= i < listed.len() ==> #[trigger] listed[i] < 0x1_0000_0000,
    ensures
        acpi::entries_of(Root::Rsdt(root), s) == Ok::<Seq<u64>, AcpiError>(listed),
{
    reveal_strlit("RSDT");
    lemma_signature("RSDT", seq![0x52u8, 0x53, 0x44, 0x54]);
    lemma_sealed(s, seq![0x52u8, 0x53, 0x44, 0x54]);
    lemma_addresses(listed, false);
    let all = addresses(listed, false);
    assert(s.len() - 36 == all.len());
    let read = Seq::new(
        ((s.len() - 36) / 4) as nat,
        |i: int| le32(s, acpi::HEADER + 4 * i) as u64,
    );
    assert forall|i: int| 0 <= i < listed.len() implies read[i] == #[trigger] listed[i] by {
        assert forall|j: int| 0 <= j < 4 implies s[36 + 4 * i + j] == #[trigger] all[4 * i + j] by {
            assert(s.subrange(36, s.len() as int)[4 * i + j] == all[4 * i + j]);
        }
        bytes::lemma_le_window(s, 36 + 4 * i, all, 4 * i, 4);
    }
    assert(read =~= listed);
}

/// An RSDP names the root its fields say: the 64-bit one at byte 24 from
/// revision 2 on, where it is there, and else the 32-bit one at byte 16.
pub proof fn law_rsdp_names_its_root(s: Seq<u8>, rsdt: u32, xsdt: u64)
    requires
        s.len() == 36,
        s.subrange(0, 8) == seq![0x52u8, 0x53, 0x44, 0x20, 0x50, 0x54, 0x52, 0x20],
        s.subrange(16, 20) == bytes::le32_bytes(rsdt),
        sum_of(s.subrange(0, 20)) % 256 == 0,
        s[15] >= 2 ==> s.subrange(20, 24) == seq![36u8, 0, 0, 0] && sum_of(s) % 256 == 0
            && s.subrange(24, 32) == bytes::le64_bytes(xsdt),
    ensures
        acpi::root_of(s) == if s[15] >= 2 && xsdt != 0 {
            Ok::<Root, AcpiError>(Root::Xsdt(xsdt))
        } else if rsdt != 0 {
            Ok(Root::Rsdt(rsdt as u64))
        } else {
            Err(AcpiError::Revision)
        },
{
    broadcast use bytes::law_le64_round_trip, bytes::law_le32_round_trip;

    reveal_strlit("RSD PTR ");
    let mark = seq![0x52u8, 0x53, 0x44, 0x20, 0x50, 0x54, 0x52, 0x20];
    lemma_signature("RSD PTR ", mark);
    lemma_sum(s);
    lemma_sum(s.subrange(0, 20));
    assert(s.take(20) =~= s.subrange(0, 20));
    assert(s.take(20).subrange(0, 8) =~= s.subrange(0, 8));
    let old = bytes::le32_bytes(rsdt);
    assert forall|i: int| 0 <= i < 4 implies s[16 + i] == #[trigger] old[0 + i] by {
        assert(s.subrange(16, 20)[i] == old[i]);
    }
    bytes::lemma_le_window(s, 16, old, 0, 4);
    if s[15] >= 2 {
        let own = bytes::le64_bytes(xsdt);
        assert forall|i: int| 0 <= i < 8 implies s[24 + i] == #[trigger] own[0 + i] by {
            assert(s.subrange(24, 32)[i] == own[i]);
        }
        bytes::lemma_le_window(s, 24, own, 0, 8);
        let len = seq![36u8, 0, 0, 0];
        assert forall|i: int| 0 <= i < 4 implies s[20 + i] == #[trigger] len[0 + i] by {
            assert(s.subrange(20, 24)[i] == len[i]);
        }
        bytes::lemma_le_window(s, 20, len, 0, 4);
        assert(s.take(36) =~= s);
    }
}

/// A table that was believed is refused once any one byte behind its length
/// field changed.
pub proof fn law_one_byte_unseals_a_table(s: Seq<u8>, signature: Seq<u8>, at: int, value: u8)
    requires
        sealed(s, signature),
        8 <= at < s.len(),
        s[at] != value,
    ensures
        acpi::table_of(s.update(at, value), signature) == Err::<Seq<u8>, AcpiError>(
            AcpiError::Checksum,
        ),
{
    lemma_sealed(s, signature);
    let t = s.update(at, value);
    lemma_sum(s);
    lemma_sum_moves(s, at, value);
    assert(t.take(t.len() as int) =~= t);
    assert(t.take(4) =~= s.take(4));
    assert(le32(t, 4) == le32(s, 4));
    assert(s.take(s.len() as int) =~= s);
}

/// The table taken is the first one listed that carries the signature, read
/// whole: as many bytes as its own header says.
pub proof fn law_first_table_is_taken<P: Physical>(
    memory: P,
    listed: Seq<u64>,
    at: int,
    signature: Seq<u8>,
    header: Seq<u8>,
    table: Seq<u8>,
)
    requires
        0 <= at < listed.len(),
        forall|i: int|
            0 <= i < at ==> memory.reached(#[trigger] listed[i], 4) is Some && memory.reached(
                listed[i],
                4,
            )->Some_0 != signature,
        memory.reached(listed[at], 4) == Some(signature),
        memory.reached(listed[at], 36) == Some(header),
        header.len() == 36,
        36 <= le32(header, 4) <= 65536,
        memory.reached(listed[at], le32(header, 4) as usize) == Some(table),
    ensures
        acpi::first_of(memory, listed, 0, signature) == Ok::<Seq<u8>, AcpiError>(table),
{
    lemma_first(memory, listed, 0, at, signature);
}

proof fn lemma_first<P: Physical>(
    memory: P,
    listed: Seq<u64>,
    from: int,
    at: int,
    signature: Seq<u8>,
)
    requires
        0 <= from <= at < listed.len(),
        forall|i: int|
            0 <= i < at ==> memory.reached(#[trigger] listed[i], 4) is Some && memory.reached(
                listed[i],
                4,
            )->Some_0 != signature,
        memory.reached(listed[at], 4) == Some(signature),
    ensures
        acpi::first_of(memory, listed, from, signature) == acpi::whole_at(memory, listed[at]),
    decreases at - from,
{
    if from < at {
        lemma_first(memory, listed, from + 1, at, signature);
    }
}

/// A table is found from the RSDP down: through the root the RSDP names, the
/// addresses the root lists, and the first of them that opens with the
/// signature.
pub proof fn law_table_is_found_from_the_rsdp<P: Physical>(
    memory: P,
    rsdp: u64,
    pointer: Seq<u8>,
    root: Root,
    header: Seq<u8>,
    listing: Seq<u8>,
    listed: Seq<u64>,
    at: int,
    signature: Seq<u8>,
    head: Seq<u8>,
    table: Seq<u8>,
)
    requires
        memory.reached(rsdp, 36) == Some(pointer),
        acpi::root_of(pointer) == Ok::<Root, AcpiError>(root),
        ({
            let physical = match root {
                Root::Rsdt(physical) => physical,
                Root::Xsdt(physical) => physical,
            };
            &&& memory.reached(physical, 36) == Some(header)
            &&& header.len() == 36
            &&& 36 <= le32(header, 4) <= 65536
            &&& memory.reached(physical, le32(header, 4) as usize) == Some(listing)
        }),
        acpi::entries_of(root, listing) == Ok::<Seq<u64>, AcpiError>(listed),
        0 <= at < listed.len(),
        forall|i: int|
            0 <= i < at ==> memory.reached(#[trigger] listed[i], 4) is Some && memory.reached(
                listed[i],
                4,
            )->Some_0 != signature,
        memory.reached(listed[at], 4) == Some(signature),
        memory.reached(listed[at], 36) == Some(head),
        head.len() == 36,
        36 <= le32(head, 4) <= 65536,
        memory.reached(listed[at], le32(head, 4) as usize) == Some(table),
    ensures
        acpi::found_in(memory, rsdp, signature) == Ok::<Seq<u8>, AcpiError>(table),
        signature == "APIC".spec_bytes() ==> acpi::listed_in(memory, rsdp) == acpi::processors_of(
            table,
        ),
{
    law_first_table_is_taken(memory, listed, at, signature, head, table);
}

} // verus!
