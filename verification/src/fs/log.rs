//! File payload records in the append-only checkpoint log.
use vstd::prelude::*;

use crate::bytes::{self, le32, le32_bytes, le64, le64_bytes};
use crate::crc::{checksum, fed, law_cuts_do_not_matter, law_one_byte_is_told, Crc};
use crate::fs::error::FsError;
use crate::fs::layout::BLOCK;

verus! {

/// Every record starts on a sector so one device write never tears two records.
pub const ALIGN: u64 = 512;

/// Bytes in the fixed record header, before its checksum table and payload.
pub const HEADER: usize = 32;

/// The tag of a record that holds file bytes.
pub const WRITE: u8 = 2;

/// The signature a record opens with, "MLOG".
pub open spec fn magic() -> Seq<u8> {
    seq![0x4d, 0x4c, 0x4f, 0x47]
}

/// One file payload header. Its checksum table and bytes follow.
#[derive(Clone, Copy, Debug, PartialEq, Eq, Structural)]
pub struct Record {
    pub object: u32,
    pub offset: u64,
    pub bytes: u32,
}

/// The smallest multiple of `unit` that is at least `n`, in units.
pub open spec fn units(n: int, unit: int) -> int {
    (n + unit - 1) / unit
}

/// Whether every byte of a run is zero.
pub open spec fn blank(s: Seq<u8>, from: int, to: int) -> bool {
    forall|i: int| from <= i < to ==> s[i] == 0
}

/// Whether `s` opens with the header of a record that holds something.
pub open spec fn heads(s: Seq<u8>, record: Record) -> bool {
    &&& s.len() >= HEADER
    &&& s.take(4) =~= magic()
    &&& s[4] == WRITE
    &&& blank(s, 5, 8)
    &&& le32(s, 8) == record.bytes
    &&& le32(s, 12) == record.object
    &&& blank(s, 16, 20)
    &&& le64(s, 20) == record.offset
    &&& blank(s, 28, 32)
}

/// The record a header holds, if it is one.
pub open spec fn parsed(s: Seq<u8>) -> Option<Record> {
    let record = Record {
        object: le32(s, 12) as u32,
        offset: le64(s, 20) as u64,
        bytes: le32(s, 8) as u32,
    };
    if heads(s, record) && record.bytes != 0 {
        Some(record)
    } else {
        None
    }
}

impl Record {
    /// How many checksummed chunks the payload is.
    pub open spec fn spec_chunks(self) -> int {
        units(self.bytes as int, BLOCK as int)
    }

    /// The bytes from a record's first to the next one's.
    pub open spec fn spec_span(self) -> int {
        ALIGN * units(HEADER + 4 * self.spec_chunks() + self.bytes, ALIGN as int)
    }

    pub fn write(object: u32, offset: u64, bytes: usize) -> (record: Result<Self, FsError>)
        ensures
            record == if 0 < bytes <= u32::MAX {
                Ok(Record { object, offset, bytes: bytes as u32 })
            } else {
                Err(FsError::Range)
            },
    {
        if bytes == 0 || bytes > 0xffff_ffff {
            return Err(FsError::Range);
        }
        Ok(Record { object, offset, bytes: bytes as u32 })
    }

    pub fn checked(object: u32, offset: u64, bytes: u32) -> (record: Result<Self, FsError>)
        ensures
            record == if bytes > 0 {
                Ok(Record { object, offset, bytes })
            } else {
                Err(FsError::Range)
            },
    {
        if bytes == 0 {
            return Err(FsError::Range);
        }
        Ok(Record { object, offset, bytes })
    }

    pub fn payload(self) -> (bytes: u32)
        ensures
            bytes == self.bytes,
    {
        self.bytes
    }

    /// The bytes the whole record takes, its tail padded out to a sector.
    pub fn span(self) -> (span: Result<u64, FsError>)
        ensures
            span == Ok::<u64, FsError>(self.spec_span() as u64),
            0 < self.spec_span() <= 0x2_0000_0000,
    {
        let bytes: u64 = 32 + 4 * (self.chunks() as u64) + self.bytes as u64;
        Ok((bytes + 511) / 512 * 512)
    }

    pub fn chunks(self) -> (chunks: u32)
        ensures
            chunks == self.spec_chunks(),
            chunks <= 0x10_0000,
    {
        ((self.bytes as u64 + 4095) / 4096) as u32
    }

    /// Where the payload starts in the record, behind its checksum table.
    pub fn payload_at(self) -> (at: Result<u64, FsError>)
        ensures
            at == Ok::<u64, FsError>((HEADER + 4 * self.spec_chunks()) as u64),
    {
        Ok(32 + 4 * (self.chunks() as u64))
    }

    /// Where the checksum of chunk `chunk` is in the record.
    pub fn checksum_at(self, chunk: u32) -> (at: Result<u64, FsError>)
        ensures
            at == if chunk < self.spec_chunks() {
                Ok((HEADER + 4 * chunk) as u64)
            } else {
                Err(FsError::Range)
            },
    {
        if chunk >= self.chunks() {
            return Err(FsError::Range);
        }
        Ok(32 + 4 * (chunk as u64))
    }

    /// Which payload bytes chunk `chunk` is: where they start, and how many.
    pub fn chunk(self, chunk: u32) -> (run: Result<(u64, u32), FsError>)
        ensures
            match run {
                Ok((offset, bytes)) => {
                    &&& chunk < self.spec_chunks()
                    &&& offset == chunk * BLOCK
                    &&& bytes == if self.bytes - offset < BLOCK {
                        self.bytes - offset
                    } else {
                        BLOCK as int
                    }
                    &&& bytes > 0
                },
                Err(error) => chunk >= self.spec_chunks() && error == FsError::Range,
            },
    {
        if chunk >= self.chunks() {
            return Err(FsError::Range);
        }
        let offset: u64 = (chunk as u64) * 4096;
        let left: u64 = self.bytes as u64 - offset;
        let bytes: u32 = if left < 4096 {
            left as u32
        } else {
            4096
        };
        Ok((offset, bytes))
    }

    /// Writes the record's header.
    pub fn encode(self, header: &mut [u8])
        requires
            old(header)@.len() == HEADER,
        ensures
            final(header)@.len() == HEADER,
            heads(final(header)@, self),
    {
        bytes::clear(header);
        header[0] = 0x4d;
        header[1] = 0x4c;
        header[2] = 0x4f;
        header[3] = 0x47;
        header[4] = WRITE;
        bytes::put_le32(header, 8, self.bytes);
        bytes::put_le32(header, 12, self.object);
        bytes::put_le64(header, 20, self.offset);
        proof {
            bytes::law_le32_round_trip(self.bytes);
            bytes::law_le32_round_trip(self.object);
            bytes::law_le64_round_trip(self.offset);
            let s = header@;
            bytes::lemma_le_window(s, 8, le32_bytes(self.bytes), 0, 4);
            bytes::lemma_le_window(s, 12, le32_bytes(self.object), 0, 4);
            bytes::lemma_le_window(s, 20, le64_bytes(self.offset), 0, 8);
            assert(s.take(4) =~= magic());
        }
    }

    /// Reads a record's header.
    pub fn parse(header: &[u8]) -> (record: Result<Self, FsError>)
        ensures
            record == match parsed(header@) {
                Some(record) => Ok::<Record, FsError>(record),
                None => Err::<Record, FsError>(FsError::Corrupt),
            },
    {
        if header.len() < HEADER {
            return Err(FsError::Corrupt);
        }
        let ghost s = header@;
        if header[0] != 0x4d || header[1] != 0x4c || header[2] != 0x4f || header[3] != 0x47 {
            assert(s.take(4)[0] == s[0] && s.take(4)[1] == s[1] && s.take(4)[2] == s[2] && s.take(
                4,
            )[3] == s[3]);
            return Err(FsError::Corrupt);
        }
        assert(s.take(4) =~= magic());
        let payload: u32 = bytes::get_le32(header, 8);
        if header[4] != WRITE || header[5] != 0 || header[6] != 0 || header[7] != 0 || header[16]
            != 0 || header[17] != 0 || header[18] != 0 || header[19] != 0 || header[28] != 0
            || header[29] != 0 || header[30] != 0 || header[31] != 0 || payload == 0 {
            return Err(FsError::Corrupt);
        }
        let record = Record {
            object: bytes::get_le32(header, 12),
            offset: bytes::get_le64(header, 20),
            bytes: payload,
        };
        assert(heads(s, record));
        Ok(record)
    }
}

/// A header reads back as the record it was written for.
pub proof fn law_record_survives(s: Seq<u8>, record: Record)
    requires
        heads(s, record),
        record.bytes != 0,
    ensures
        parsed(s) == Some(record),
{
}

/// A record's chunks are as many 4096-byte runs as its payload needs and no
/// more, and its span is the fewest whole sectors that hold its header, four
/// bytes of checksum a chunk, and its payload.
pub proof fn law_record_is_no_longer_than_it_must_be(record: Record)
    requires
        record.bytes > 0,
    ensures
        4096 * (record.spec_chunks() - 1) < record.bytes <= 4096 * record.spec_chunks(),
        record.spec_span() % 512 == 0,
        record.spec_span() - 512 < 32 + 4 * record.spec_chunks() + record.bytes
            <= record.spec_span(),
{
}

/// What the headers of a payload log hash to: each record's header in turn, the
/// payloads stepped over, or nothing when the records do not fill the log.
pub open spec fn hashed(s: Seq<u8>, cursor: int, state: u32) -> Option<u32>
    decreases s.len() - cursor,
{
    if cursor < 0 || cursor > s.len() {
        None
    } else if cursor == s.len() {
        Some(state ^ 0xffff_ffff)
    } else if cursor + HEADER > s.len() {
        None
    } else {
        let header = s.subrange(cursor, cursor + HEADER);
        match parsed(header) {
            None => None,
            Some(record) => if record.spec_span() <= 0 || cursor + record.spec_span() > s.len() {
                None
            } else {
                hashed(s, cursor + record.spec_span(), fed(state, header))
            },
        }
    }
}

/// Checks and hashes the record-header stream without walking file payloads.
pub fn headers_crc(bytes: &[u8]) -> (crc: Result<u32, FsError>)
    ensures
        crc == match hashed(bytes@, 0, 0xffff_ffff) {
            Some(crc) => Ok::<u32, FsError>(crc),
            None => Err::<u32, FsError>(FsError::Corrupt),
        },
{
    let mut crc = Crc::new();
    let mut cursor: usize = 0;
    assert(bytes.len() == bytes@.len());
    while cursor < bytes.len()
        invariant
            cursor <= bytes@.len(),
            bytes@.len() == bytes.len(),
            hashed(bytes@, 0, 0xffff_ffff) == hashed(bytes@, cursor as int, crc.state),
        decreases bytes.len() - cursor,
    {
        if bytes.len() - cursor < HEADER {
            return Err(FsError::Corrupt);
        }
        let header = vstd::slice::slice_subrange(bytes, cursor, cursor + HEADER);
        let record = Record::parse(header)?;
        crc.update(header);
        let span: u64 = match record.span() {
            Ok(span) => span,
            Err(_) => return Err(FsError::Corrupt),
        };
        if span > (bytes.len() - cursor) as u64 {
            return Err(FsError::Corrupt);
        }
        cursor = cursor + span as usize;
    }
    Ok(crc.finish())
}

/// A record as it stands in a log: its header's fields, and everything from the
/// header to the next record.
pub struct Piece {
    pub record: Record,
    pub rest: Seq<u8>,
}

/// A record's header, byte for byte.
#[verifier::opaque]
pub open spec fn header_of(record: Record) -> Seq<u8> {
    seq![0x4du8, 0x4c, 0x4f, 0x47, 2, 0, 0, 0] + le32_bytes(record.bytes) + le32_bytes(
        record.object,
    ) + seq![0u8, 0, 0, 0] + le64_bytes(record.offset) + seq![0u8, 0, 0, 0]
}

/// Whether a record holds something and ends on the first sector boundary
/// behind its 32 header bytes, its four bytes of checksum for every 4096 of
/// payload begun, and its payload.
pub open spec fn fits(piece: Piece) -> bool {
    let held = 32 + 4 * ((piece.record.bytes + 4095) / 4096) + piece.record.bytes;
    let len = 32 + piece.rest.len();
    piece.record.bytes > 0 && len % 512 == 0 && held <= len < held + 512
}

/// A log: its records, one after another.
pub open spec fn log_of(pieces: Seq<Piece>) -> Seq<u8>
    decreases pieces.len(),
{
    if pieces.len() == 0 {
        seq![]
    } else {
        header_of(pieces[0].record) + pieces[0].rest + log_of(pieces.skip(1))
    }
}

/// The headers of a log's records, one after another, and nothing between.
pub open spec fn headers_of(pieces: Seq<Piece>) -> Seq<u8>
    decreases pieces.len(),
{
    if pieces.len() == 0 {
        seq![]
    } else {
        header_of(pieces[0].record) + headers_of(pieces.skip(1))
    }
}

/// A header says what record it belongs to.
proof fn lemma_header(record: Record)
    requires
        record.bytes != 0,
    ensures
        header_of(record).len() == 32,
        parsed(header_of(record)) == Some(record),
{
    reveal(header_of);
    bytes::law_le32_round_trip(record.bytes);
    bytes::law_le32_round_trip(record.object);
    bytes::law_le64_round_trip(record.offset);
    let h = header_of(record);
    let count = le32_bytes(record.bytes);
    let object = le32_bytes(record.object);
    let offset = le64_bytes(record.offset);
    assert forall|i: int| 0 <= i < 4 implies h[8 + i] == #[trigger] count[0 + i] by {}
    assert forall|i: int| 0 <= i < 4 implies h[12 + i] == #[trigger] object[0 + i] by {}
    assert forall|i: int| 0 <= i < 8 implies h[20 + i] == #[trigger] offset[0 + i] by {}
    bytes::lemma_le_window(h, 8, count, 0, 4);
    bytes::lemma_le_window(h, 12, object, 0, 4);
    bytes::lemma_le_window(h, 20, offset, 0, 8);
    assert(h.take(4) =~= magic());
    assert(heads(h, record));
}

/// Numbers that are equal have equal bytes.
proof fn lemma_digits(s: Seq<u8>, t: Seq<u8>, at: int)
    requires
        le32(s, at) == le32(t, at),
    ensures
        s[at] == t[at],
        s[at + 1] == t[at + 1],
        s[at + 2] == t[at + 2],
        s[at + 3] == t[at + 3],
{
}

/// No two headers hold the same record.
proof fn lemma_one_header(s: Seq<u8>, h: Seq<u8>, record: Record)
    requires
        s.len() == 32,
        h.len() == 32,
        heads(s, record),
        heads(h, record),
    ensures
        s == h,
{
    assert forall|i: int| 0 <= i < 4 implies s[i] == #[trigger] h[i] by {
        assert(s.take(4)[i] == h.take(4)[i]);
    }
    lemma_digits(s, h, 8);
    lemma_digits(s, h, 12);
    lemma_halves(s, h, 20);
    lemma_digits(s, h, 20);
    lemma_digits(s, h, 24);
    assert(s =~= h);
}

proof fn lemma_halves(s: Seq<u8>, t: Seq<u8>, at: int)
    requires
        le64(s, at) == le64(t, at),
    ensures
        le32(s, at) == le32(t, at),
        le32(s, at + 4) == le32(t, at + 4),
{
}

/// The sectors a record takes are those its own fields call for.
proof fn lemma_span(record: Record, len: int)
    requires
        record.bytes > 0,
        len % 512 == 0,
    ensures
        ({
            let held = 32 + 4 * ((record.bytes + 4095) / 4096) + record.bytes;
            held <= len < held + 512 <==> record.spec_span() == len
        }),
        record.spec_span() % 512 == 0,
        record.spec_span() >= 32,
{
    let held = 32 + 4 * ((record.bytes + 4095) / 4096) + record.bytes;
    assert(record.spec_span() == 512 * ((held + 511) / 512));
}

proof fn lemma_hashed(s: Seq<u8>, cursor: int, state: u32, pieces: Seq<Piece>)
    requires
        0 <= cursor <= s.len(),
        s.skip(cursor) == log_of(pieces),
        forall|i: int| 0 <= i < pieces.len() ==> fits(#[trigger] pieces[i]),
    ensures
        hashed(s, cursor, state) == Some(fed(state, headers_of(pieces)) ^ 0xffff_ffff),
    decreases pieces.len(),
{
    if pieces.len() == 0 {
        assert(cursor == s.len());
        assert(headers_of(pieces) =~= seq![]);
    } else {
        let rest = pieces.skip(1);
        let record = pieces[0].record;
        let header = header_of(record);
        assert(fits(pieces[0]));
        lemma_header(record);
        let len = 32 + pieces[0].rest.len();
        assert(log_of(pieces).len() == len + log_of(rest).len());
        assert(s.skip(cursor).len() == s.len() - cursor);
        assert(s.subrange(cursor, cursor + 32) =~= header) by {
            assert forall|i: int| 0 <= i < 32 implies s[cursor + i] == #[trigger] header[i] by {
                assert(s.skip(cursor)[i] == log_of(pieces)[i]);
            }
        }
        lemma_span(record, len as int);
        assert(s.skip(cursor + len) =~= log_of(rest)) by {
            assert(s.skip(cursor + len) =~= s.skip(cursor).skip(len as int));
            assert(log_of(pieces).skip(len as int) =~= log_of(rest));
        }
        assert forall|i: int| 0 <= i < rest.len() implies fits(#[trigger] rest[i]) by {
            assert(fits(pieces[i + 1]));
        }
        lemma_hashed(s, cursor + len, fed(state, header), rest);
        law_cuts_do_not_matter(state, header, headers_of(rest));
    }
}

/// The sum of a log that records fill is the checksum of all their headers, put
/// one behind another in the log's order.
pub proof fn law_headers_sum_as_one(pieces: Seq<Piece>)
    requires
        forall|i: int| 0 <= i < pieces.len() ==> fits(#[trigger] pieces[i]),
    ensures
        hashed(log_of(pieces), 0, 0xffff_ffff) == Some(checksum(headers_of(pieces))),
{
    assert(log_of(pieces).skip(0) =~= log_of(pieces));
    lemma_hashed(log_of(pieces), 0, 0xffff_ffff, pieces);
}

/// Two logs whose headers differ in one byte have different sums, whichever
/// record the byte belongs to and whatever the records hold besides.
pub proof fn law_every_header_counts(a: Seq<Piece>, b: Seq<Piece>, at: int)
    requires
        forall|i: int| 0 <= i < a.len() ==> fits(#[trigger] a[i]),
        forall|i: int| 0 <= i < b.len() ==> fits(#[trigger] b[i]),
        headers_of(a).len() == headers_of(b).len(),
        0 <= at < headers_of(a).len(),
        headers_of(a)[at] != headers_of(b)[at],
        forall|i: int|
            0 <= i < headers_of(a).len() && i != at ==> #[trigger] headers_of(a)[i] == headers_of(
                b,
            )[i],
    ensures
        hashed(log_of(a), 0, 0xffff_ffff) is Some,
        hashed(log_of(b), 0, 0xffff_ffff) is Some,
        hashed(log_of(a), 0, 0xffff_ffff) != hashed(log_of(b), 0, 0xffff_ffff),
{
    law_headers_sum_as_one(a);
    law_headers_sum_as_one(b);
    law_one_byte_is_told(headers_of(a), headers_of(b), at);
}

/// A log has a sum only where records fill it.
pub proof fn law_only_records_are_summed(s: Seq<u8>)
    requires
        hashed(s, 0, 0xffff_ffff) is Some,
    ensures
        exists|pieces: Seq<Piece>|
            #[trigger] log_of(pieces) == s && forall|i: int|
                0 <= i < pieces.len() ==> fits(#[trigger] pieces[i]),
{
    let pieces = lemma_pieces(s, 0, 0xffff_ffff);
    assert(s.skip(0) =~= s);
    assert(log_of(pieces) == s);
}

proof fn lemma_pieces(s: Seq<u8>, cursor: int, state: u32) -> (pieces: Seq<Piece>)
    requires
        0 <= cursor,
        hashed(s, cursor, state) is Some,
    ensures
        cursor <= s.len(),
        log_of(pieces) == s.skip(cursor),
        forall|i: int| 0 <= i < pieces.len() ==> fits(#[trigger] pieces[i]),
    decreases s.len() - cursor,
{
    if cursor == s.len() {
        let none: Seq<Piece> = seq![];
        assert(log_of(none) =~= s.skip(cursor));
        none
    } else {
        let header = s.subrange(cursor, cursor + HEADER);
        let record = parsed(header)->Some_0;
        let span = record.spec_span();
        lemma_span(record, span);
        let later = lemma_pieces(s, cursor + span, fed(state, header));
        lemma_header(record);
        lemma_one_header(header, header_of(record), record);
        lemma_joined(s, cursor, record, span, later)
    }
}

/// A record in front of others makes a longer log.
proof fn lemma_joined(
    s: Seq<u8>,
    cursor: int,
    record: Record,
    span: int,
    later: Seq<Piece>,
) -> (pieces: Seq<Piece>)
    requires
        0 <= cursor,
        record.bytes > 0,
        span == record.spec_span(),
        cursor + span <= s.len(),
        s.subrange(cursor, cursor + 32) == header_of(record),
        log_of(later) == s.skip(cursor + span),
        forall|i: int| 0 <= i < later.len() ==> fits(#[trigger] later[i]),
    ensures
        log_of(pieces) == s.skip(cursor),
        forall|i: int| 0 <= i < pieces.len() ==> fits(#[trigger] pieces[i]),
{
    lemma_span(record, span);
    let first = Piece { record, rest: s.subrange(cursor + 32, cursor + span) };
    let pieces = seq![first] + later;
    assert(pieces.skip(1) =~= later);
    assert(s.skip(cursor) =~= s.subrange(cursor, cursor + 32) + first.rest + s.skip(cursor + span));
    assert(log_of(pieces) =~= s.skip(cursor));
    assert forall|i: int| 0 <= i < pieces.len() implies fits(#[trigger] pieces[i]) by {
        if i > 0 {
            assert(fits(later[i - 1]));
        }
    }
    pieces
}

} // verus!
