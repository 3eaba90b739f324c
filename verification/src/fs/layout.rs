//! On-disk shape of a volume checkpoint.
use vstd::prelude::*;

use crate::bytes::{self, le32, le32_bytes, le64, le64_bytes, zeros};
use crate::crc::{checksum, crc32c};
use crate::fs::error::FsError;
use crate::fs::log::{blank, units};

verus! {

/// The unit everything on a volume is addressed in.
pub const BLOCK: usize = 4096;

/// The signature a volume opens with, "MOLTFS05".
pub const MAGIC: [u8; 8] = [0x4d, 0x4f, 0x4c, 0x54, 0x46, 0x53, 0x30, 0x35];

/// The signature's bytes.
pub open spec fn magic() -> Seq<u8> {
    MAGIC@
}

/// The format this crate reads.
pub const VERSION: u32 = 5;

/// Superblock copies at the start of the volume.
///
/// A checkpoint writes the older copy, flushes, and only then makes it the
/// newer one, so a volume always has one superblock that predates the crash.
pub const SUPERS: u64 = 2;

/// How much of block zero the superblock occupies.
pub const SUPER_BYTES: usize = 220;

/// Log banks kept so newest and previous checkpoints remain intact while a
/// third bank receives the next generation.
pub const LOG_BANKS: u64 = 3;

/// Log capacity an image builder reserves unless its caller chooses another.
pub const DEFAULT_LOG_BLOCKS: u32 = 128;

/// Copy-on-write metadata nodes an image builder reserves by default.
pub const DEFAULT_TREE_BLOCKS: u32 = 256;

/// Largest tree arena a superblock may claim.
///
/// Mount sizes its arena bitmaps from this field, so the bound is what keeps a
/// corrupt superblock from asking the heap for megabytes of bits. At 64 Ki
/// nodes that is a 256 MiB arena tracked by 8 KiB.
pub const MAX_TREE_BLOCKS: u32 = 65536;

/// The longest name a directory entry may carry.
pub const MAX_NAME: usize = 255;

/// The metadata regions a superblock describes.
#[derive(Clone, Copy, Debug, PartialEq, Eq, Structural)]
pub enum Area {
    /// File payload records committed by the active checkpoint.
    Log,
}

/// Where a region lives and what its contents hash to.
#[derive(Clone, Copy, Debug, PartialEq, Eq, Structural)]
pub struct Region {
    pub at: u64,
    pub bytes: u64,
    pub crc: u32,
}

impl Region {
    /// How many blocks the region occupies, its tail padded out.
    pub fn blocks(self) -> (blocks: u64)
        ensures
            blocks == units(self.bytes as int, BLOCK as int),
    {
        let whole: u64 = self.bytes / 4096;
        if self.bytes % 4096 == 0 {
            whole
        } else {
            whole + 1
        }
    }
}

impl Default for Region {
    fn default() -> (region: Self)
        ensures
            region == (Region { at: 0, bytes: 0, crc: 0 }),
    {
        Region { at: 0, bytes: 0, crc: 0 }
    }
}

/// What a volume is: a generation, a root, and where everything sits.
#[derive(Clone, Copy, Debug, PartialEq, Eq, Structural)]
pub struct Super {
    pub generation: u64,
    pub blocks: u64,
    pub root: u32,
    pub log_blocks: u32,
    pub tree_at: u64,
    pub tree_blocks: u32,
    pub tree_root: u64,
    pub log: Region,
}

/// A superblock that says nothing but how far the device goes.
pub open spec fn bare(blocks: u64) -> Super {
    Super {
        generation: 0,
        blocks,
        root: 0,
        log_blocks: 0,
        tree_at: 0,
        tree_blocks: 0,
        tree_root: 0,
        log: Region { at: 0, bytes: 0, crc: 0 },
    }
}

impl Default for Super {
    fn default() -> (value: Self)
        ensures
            value == bare(0),
    {
        Super {
            generation: 0,
            blocks: 0,
            root: 0,
            log_blocks: 0,
            tree_at: 0,
            tree_blocks: 0,
            tree_root: 0,
            log: Region::default(),
        }
    }
}

/// Whether `s` opens with `value` as a superblock, all but its checksum.
pub open spec fn states(s: Seq<u8>, value: Super) -> bool {
    &&& s.len() >= SUPER_BYTES
    &&& s.take(8) =~= magic()
    &&& le32(s, 8) == VERSION
    &&& le32(s, 12) == BLOCK
    &&& le64(s, 16) == value.generation
    &&& le64(s, 24) == value.blocks
    &&& le32(s, 32) == value.root
    &&& le64(s, 64) == value.log.at
    &&& le64(s, 72) == value.log.bytes
    &&& le32(s, 80) == value.log.crc
    &&& le32(s, 184) == value.log_blocks
    &&& le64(s, 192) == value.tree_at
    &&& le32(s, 200) == value.tree_blocks
    &&& le64(s, 208) == value.tree_root
}

/// Whether the bytes between the fields are all zero.
pub open spec fn gaps(s: Seq<u8>) -> bool {
    &&& blank(s, 36, 64)
    &&& blank(s, 84, 184)
    &&& blank(s, 188, 192)
    &&& blank(s, 204, 208)
}

/// Whether the stamped checksum is that of everything before it.
pub open spec fn sealed(s: Seq<u8>) -> bool {
    le32(s, 216) == checksum(s.take(216))
}

/// Whether the regions fit the volume they describe.
pub open spec fn fits(value: Super) -> bool {
    let log_start = value.blocks - LOG_BANKS * value.log_blocks;
    let tree_end = value.tree_at + value.tree_blocks;
    &&& log_start >= 0
    &&& value.log_blocks > 0
    &&& 0 < value.tree_blocks <= MAX_TREE_BLOCKS
    &&& SUPERS <= value.tree_at
    &&& tree_end <= log_start
    &&& value.tree_root == 0 || value.tree_at <= value.tree_root < tree_end
    &&& SUPERS <= value.log.at
    &&& value.log.at + units(value.log.bytes as int, BLOCK as int) <= value.blocks
    &&& value.log.bytes <= value.log_blocks * BLOCK
    &&& exists|bank: int|
        0 <= bank < LOG_BANKS && value.log.at == log_start + #[trigger] (bank * value.log_blocks)
}

/// What a block read as a superblock is.
pub open spec fn parsed(s: Seq<u8>) -> Result<Super, FsError> {
    let value = Super {
        generation: le64(s, 16) as u64,
        blocks: le64(s, 24) as u64,
        root: le32(s, 32) as u32,
        log_blocks: le32(s, 184) as u32,
        tree_at: le64(s, 192) as u64,
        tree_blocks: le32(s, 200) as u32,
        tree_root: le64(s, 208) as u64,
        log: Region {
            at: le64(s, 64) as u64,
            bytes: le64(s, 72) as u64,
            crc: le32(s, 80) as u32,
        },
    };
    if s.len() < SUPER_BYTES {
        Err(FsError::Corrupt)
    } else if !(s.take(8) =~= magic()) {
        Err(FsError::Magic)
    } else if !sealed(s) {
        Err(FsError::Checksum)
    } else if le32(s, 8) != VERSION {
        Err(FsError::Version(le32(s, 8) as u32))
    } else if le32(s, 12) != BLOCK || !fits(value) {
        Err(FsError::Corrupt)
    } else {
        Ok(value)
    }
}

impl Super {
    pub fn region(&self, area: Area) -> (region: Region)
        ensures
            region == self.log,
    {
        match area {
            Area::Log => self.log,
        }
    }

    pub fn set_region(&mut self, area: Area, region: Region)
        ensures
            *final(self) == (Super { log: region, ..*old(self) }),
    {
        match area {
            Area::Log => {
                self.log = region;
            },
        }
    }

    /// Reads a superblock out of block zero of a copy.
    ///
    /// The checksum is checked before any field is trusted, so a torn write is
    /// rejected here rather than by whatever the region offsets would have
    /// pointed at.
    pub fn parse(block: &[u8]) -> (value: Result<Self, FsError>)
        ensures
            value == parsed(block@),
    {
        if block.len() < SUPER_BYTES {
            return Err(FsError::Corrupt);
        }
        let ghost s = block@;
        let signature: [u8; 8] = MAGIC;
        let opening = vstd::slice::slice_subrange(block, 0, 8);
        assert(opening@ =~= s.take(8));
        if !bytes::same(opening, &signature) {
            return Err(FsError::Magic);
        }
        let body = vstd::slice::slice_subrange(block, 0, 216);
        assert(body@ =~= s.take(216));
        if crc32c(body) != bytes::get_le32(block, 216) {
            return Err(FsError::Checksum);
        }
        let version: u32 = bytes::get_le32(block, 8);
        if version != VERSION {
            return Err(FsError::Version(version));
        }
        if bytes::get_le32(block, 12) != 4096 {
            return Err(FsError::Corrupt);
        }
        let log = Region {
            at: bytes::get_le64(block, 64),
            bytes: bytes::get_le64(block, 72),
            crc: bytes::get_le32(block, 80),
        };
        let value = Super {
            generation: bytes::get_le64(block, 16),
            blocks: bytes::get_le64(block, 24),
            root: bytes::get_le32(block, 32),
            log_blocks: bytes::get_le32(block, 184),
            tree_at: bytes::get_le64(block, 192),
            tree_blocks: bytes::get_le32(block, 200),
            tree_root: bytes::get_le64(block, 208),
            log,
        };
        value.check()?;
        Ok(value)
    }

    /// Writes the superblock into `block`, stamping its checksum last.
    ///
    /// The image builder writes both initial copies; sync writes one new copy.
    pub fn encode(&self, block: &mut [u8])
        requires
            old(block)@.len() >= SUPER_BYTES,
        ensures
            final(block)@.len() == old(block)@.len(),
            states(final(block)@, *self),
            gaps(final(block)@),
            sealed(final(block)@),
            final(block)@.skip(SUPER_BYTES as int) == old(block)@.skip(SUPER_BYTES as int),
    {
        let mut fields: Vec<u8> = vec![0;220];
        assert(fields@ =~= zeros(220));
        self.fill(fields.as_mut_slice());
        let ghost before = block@;
        bytes::copy_at(block, 0, fields.as_slice());
        proof {
            let s = block@;
            assert forall|i: int| 0 <= i < 220 implies s[i] == fields@[i] by {}
            assert(s.take(216) =~= fields@.take(216));
            assert(s.take(8) =~= fields@.take(8));
            assert(s.skip(220) =~= before.skip(220));
        }
    }

    /// Writes the superblock into as many bytes as it takes.
    fn fill(&self, block: &mut [u8])
        requires
            old(block)@ == zeros(220),
        ensures
            final(block)@.len() == 220,
            states(final(block)@, *self),
            gaps(final(block)@),
            sealed(final(block)@),
    {
        let signature: [u8; 8] = MAGIC;
        bytes::copy_at(block, 0, &signature);
        bytes::put_le32(block, 8, VERSION);
        bytes::put_le32(block, 12, 4096);
        bytes::put_le64(block, 16, self.generation);
        bytes::put_le64(block, 24, self.blocks);
        bytes::put_le32(block, 32, self.root);
        bytes::put_le64(block, 64, self.log.at);
        bytes::put_le64(block, 72, self.log.bytes);
        bytes::put_le32(block, 80, self.log.crc);
        bytes::put_le32(block, 184, self.log_blocks);
        bytes::put_le64(block, 192, self.tree_at);
        bytes::put_le32(block, 200, self.tree_blocks);
        bytes::put_le64(block, 208, self.tree_root);
        let ghost body = block@;
        let sum: u32 = crc32c(vstd::slice::slice_subrange(&*block, 0, 216));
        bytes::put_le32(block, 216, sum);
        proof {
            let s = block@;
            self.lemma_placed(s);
            bytes::law_le32_round_trip(sum);
            bytes::lemma_le_window(s, 216, le32_bytes(sum), 0, 4);
            assert(s.take(216) =~= body.take(216));
            assert(body.subrange(0, 216) =~= body.take(216));
            assert(s.take(8) =~= magic());
        }
    }

    /// Bytes that stand where they were written read back as the fields.
    proof fn lemma_placed(&self, s: Seq<u8>)
        requires
            s.len() == 220,
            s.take(8) =~= magic(),
            s.subrange(8, 12) =~= le32_bytes(VERSION),
            s.subrange(12, 16) =~= le32_bytes(4096),
            s.subrange(16, 24) =~= le64_bytes(self.generation),
            s.subrange(24, 32) =~= le64_bytes(self.blocks),
            s.subrange(32, 36) =~= le32_bytes(self.root),
            s.subrange(64, 72) =~= le64_bytes(self.log.at),
            s.subrange(72, 80) =~= le64_bytes(self.log.bytes),
            s.subrange(80, 84) =~= le32_bytes(self.log.crc),
            s.subrange(184, 188) =~= le32_bytes(self.log_blocks),
            s.subrange(192, 200) =~= le64_bytes(self.tree_at),
            s.subrange(200, 204) =~= le32_bytes(self.tree_blocks),
            s.subrange(208, 216) =~= le64_bytes(self.tree_root),
        ensures
            states(s, *self),
    {
        lemma_word(s, 8, VERSION);
        lemma_word(s, 12, 4096);
        lemma_long(s, 16, self.generation);
        lemma_long(s, 24, self.blocks);
        lemma_word(s, 32, self.root);
        lemma_long(s, 64, self.log.at);
        lemma_long(s, 72, self.log.bytes);
        lemma_word(s, 80, self.log.crc);
        lemma_word(s, 184, self.log_blocks);
        lemma_long(s, 192, self.tree_at);
        lemma_word(s, 200, self.tree_blocks);
        lemma_long(s, 208, self.tree_root);
    }

    /// Rejects a superblock whose regions do not fit the volume it describes.
    fn check(&self) -> (done: Result<(), FsError>)
        ensures
            done == if fits(*self) {
                Ok::<(), FsError>(())
            } else {
                Err::<(), FsError>(FsError::Corrupt)
            },
    {
        let log_span: u64 = 3 * (self.log_blocks as u64);
        if self.blocks < log_span {
            return Err(FsError::Corrupt);
        }
        let log_start: u64 = self.blocks - log_span;
        if self.tree_at > u64::MAX - self.tree_blocks as u64 {
            return Err(FsError::Corrupt);
        }
        let tree_end: u64 = self.tree_at + self.tree_blocks as u64;
        if self.log_blocks == 0 || self.tree_blocks == 0 || self.tree_blocks > MAX_TREE_BLOCKS
            || self.tree_at < SUPERS || tree_end > log_start || (self.tree_root != 0 && (
        self.tree_root < self.tree_at || self.tree_root >= tree_end)) {
            return Err(FsError::Corrupt);
        }
        let region = self.log;
        let length: u64 = region.blocks();
        if region.at < SUPERS || region.at > self.blocks || length > self.blocks - region.at {
            return Err(FsError::Corrupt);
        }
        let bank: u64 = self.log_blocks as u64;
        let in_bank = region.at == log_start || region.at == log_start + bank || region.at
            == log_start + 2 * bank;
        if !in_bank || region.bytes > bank * 4096 {
            assert(fits(*self) ==> in_bank) by {
                if fits(*self) {
                    let at = choose|at: int|
                        0 <= at < LOG_BANKS && self.log.at == log_start + #[trigger] (at
                            * self.log_blocks);
                    assert(at == 0 || at == 1 || at == 2);
                }
            }
            return Err(FsError::Corrupt);
        }
        assert(fits(*self)) by {
            let at: int = if region.at == log_start {
                0
            } else if region.at == log_start + bank {
                1
            } else {
                2
            };
            assert(self.log.at == log_start + (at * self.log_blocks));
        }
        Ok(())
    }

    /// First block of log bank `bank`.
    pub fn log_bank(&self, bank: u64) -> (at: Result<u64, FsError>)
        ensures
            at == if bank < LOG_BANKS && LOG_BANKS * self.log_blocks <= self.blocks {
                Ok((self.blocks - LOG_BANKS * self.log_blocks + bank * self.log_blocks) as u64)
            } else {
                Err(FsError::Corrupt)
            },
    {
        if bank >= LOG_BANKS {
            return Err(FsError::Corrupt);
        }
        let span: u64 = 3 * (self.log_blocks as u64);
        if self.blocks < span {
            return Err(FsError::Corrupt);
        }
        let before: u64 = if bank == 0 {
            0
        } else if bank == 1 {
            self.log_blocks as u64
        } else {
            2 * (self.log_blocks as u64)
        };
        Ok(self.blocks - span + before)
    }
}

proof fn lemma_word(s: Seq<u8>, at: int, value: u32)
    requires
        0 <= at,
        at + 4 <= s.len(),
        s.subrange(at, at + 4) =~= le32_bytes(value),
    ensures
        le32(s, at) == value,
{
    bytes::law_le32_round_trip(value);
    let t = s.subrange(at, at + 4);
    assert forall|i: int| 0 <= i < 4 implies s[at + i] == #[trigger] t[0 + i] by {}
    bytes::lemma_le_window(s, at, t, 0, 4);
}

proof fn lemma_long(s: Seq<u8>, at: int, value: u64)
    requires
        0 <= at,
        at + 8 <= s.len(),
        s.subrange(at, at + 8) =~= le64_bytes(value),
    ensures
        le64(s, at) == value,
{
    bytes::law_le64_round_trip(value);
    let t = s.subrange(at, at + 8);
    assert forall|i: int| 0 <= i < 8 implies s[at + i] == #[trigger] t[0 + i] by {}
    bytes::lemma_le_window(s, at, t, 0, 8);
}

/// A superblock whose regions fit reads back as what was written.
pub proof fn law_superblock_survives(s: Seq<u8>, value: Super)
    requires
        states(s, value),
        sealed(s),
        fits(value),
    ensures
        parsed(s) == Ok::<Super, FsError>(value),
{
}

/// A superblock whose regions do not fit is never read back.
pub proof fn law_misfits_are_refused(s: Seq<u8>, value: Super)
    requires
        states(s, value),
        sealed(s),
        !fits(value),
    ensures
        parsed(s) == Err::<Super, FsError>(FsError::Corrupt),
{
}

/// Damage to one byte of a superblock, a flipped bit or more, is caught: by the
/// signature where it opens, and by the checksum everywhere else.
pub proof fn law_damage_is_caught(s: Seq<u8>, value: Super, damaged: Seq<u8>, at: int)
    requires
        states(s, value),
        sealed(s),
        damaged.len() == s.len(),
        0 <= at < SUPER_BYTES,
        damaged[at] != s[at],
        forall|i: int| 0 <= i < s.len() && i != at ==> #[trigger] damaged[i] == s[i],
    ensures
        parsed(damaged) == Err::<Super, FsError>(
            if at < 8 {
                FsError::Magic
            } else {
                FsError::Checksum
            },
        ),
{
    if at < 8 {
        assert(damaged.take(8)[at] != s.take(8)[at]);
    } else {
        assert(damaged.take(8) =~= s.take(8));
        if at < 216 {
            let a = s.take(216);
            let b = damaged.take(216);
            assert forall|i: int| 0 <= i < a.len() && i != at implies #[trigger] a[i] == b[i] by {
                assert(damaged[i] == s[i]);
            }
            crate::crc::law_one_byte_is_told(a, b, at);
            assert forall|i: int| 0 <= i < 4 implies s[216 + i] == #[trigger] damaged[216 + i] by {}
            bytes::lemma_le_window(s, 216, damaged, 216, 4);
        } else {
            assert(damaged.take(216) =~= s.take(216));
            lemma_word_apart(s, damaged, 216, at);
        }
    }
}

/// Words of which one byte differs are different.
proof fn lemma_word_apart(s: Seq<u8>, t: Seq<u8>, at: int, damaged: int)
    requires
        0 <= at <= damaged < at + 4,
        at + 4 <= s.len(),
        s.len() == t.len(),
        s[damaged] != t[damaged],
        forall|i: int| 0 <= i < s.len() && i != damaged ==> #[trigger] t[i] == s[i],
    ensures
        le32(s, at) != le32(t, at),
{
    assert(t[at] == s[at] || damaged == at);
    assert(t[at + 1] == s[at + 1] || damaged == at + 1);
    assert(t[at + 2] == s[at + 2] || damaged == at + 2);
    assert(t[at + 3] == s[at + 3] || damaged == at + 3);
}

/// What a block holds past its superblock does not matter.
pub proof fn law_rest_does_not_matter(s: Seq<u8>, t: Seq<u8>)
    requires
        s.len() >= SUPER_BYTES,
        t.len() >= SUPER_BYTES,
        s.take(SUPER_BYTES as int) == t.take(SUPER_BYTES as int),
    ensures
        parsed(s) == parsed(t),
{
    assert forall|i: int| 0 <= i < 220 implies #[trigger] s[i] == t[i] by {
        assert(s.take(220)[i] == t.take(220)[i]);
    }
    assert(s.take(8) =~= t.take(8));
    assert(s.take(216) =~= t.take(216));
    lemma_same_words(s, t);
}

/// Every field of a superblock reads the same out of the same bytes.
proof fn lemma_same_words(s: Seq<u8>, t: Seq<u8>)
    requires
        s.len() >= 220,
        t.len() >= 220,
        forall|i: int| 0 <= i < 220 ==> #[trigger] s[i] == t[i],
    ensures
        forall|at: int| 0 <= at <= 216 ==> #[trigger] le32(s, at) == le32(t, at),
        forall|at: int| 0 <= at <= 212 ==> #[trigger] le64(s, at) == le64(t, at),
{
    assert forall|at: int| 0 <= at <= 216 implies #[trigger] le32(s, at) == le32(t, at) by {
        bytes::lemma_le_window(s, at, t, at, 4);
    }
    assert forall|at: int| 0 <= at <= 212 implies #[trigger] le64(s, at) == le64(t, at) by {
        bytes::lemma_le_window(s, at, t, at, 8);
    }
}

/// What an object is.
#[derive(Clone, Copy, Debug, PartialEq, Eq, Structural)]
pub enum Kind {
    Dir,
    File,
}

impl Kind {
    pub fn byte(self) -> (byte: u8)
        ensures
            byte == match self {
                Kind::Dir => 0u8,
                Kind::File => 1u8,
            },
    {
        match self {
            Kind::Dir => 0,
            Kind::File => 1,
        }
    }
}

/// One object indexed by the metadata tree.
#[derive(Clone, Copy, Debug, PartialEq, Eq, Structural)]
pub struct Object {
    pub kind: Kind,
    /// Directory entries; zero for a file.
    pub count: u32,
    /// File length in bytes; zero for a directory.
    pub size: u64,
}

/// A superblock, byte for byte, all but its checksum.
#[verifier::opaque]
pub open spec fn image_of(value: Super) -> Seq<u8> {
    seq![0x4du8, 0x4f, 0x4c, 0x54, 0x46, 0x53, 0x30, 0x35, 5, 0, 0, 0, 0, 16, 0, 0] + le64_bytes(
        value.generation,
    ) + le64_bytes(value.blocks) + le32_bytes(value.root) + zeros(28) + le64_bytes(value.log.at)
        + le64_bytes(value.log.bytes) + le32_bytes(value.log.crc) + zeros(100) + le32_bytes(
        value.log_blocks,
    ) + zeros(4) + le64_bytes(value.tree_at) + le32_bytes(value.tree_blocks) + zeros(4)
        + le64_bytes(value.tree_root)
}

proof fn lemma_stands(s: Seq<u8>, image: Seq<u8>, at: int, wide: bool, value: u64)
    requires
        image.len() == 216,
        s.len() >= 220,
        forall|i: int| 0 <= i < 216 ==> s[i] == #[trigger] image[i],
        0 <= at,
        wide ==> at + 8 <= 216 && image.subrange(at, at + 8) == le64_bytes(value),
        !wide ==> at + 4 <= 216 && value <= 0xffff_ffff && image.subrange(at, at + 4) == le32_bytes(
            value as u32,
        ),
    ensures
        wide ==> le64(s, at) == value,
        !wide ==> le32(s, at) == value,
{
    if wide {
        bytes::law_le64_round_trip(value);
        let own = le64_bytes(value);
        assert forall|i: int| 0 <= i < 8 implies s[at + i] == #[trigger] own[0 + i] by {
            assert(image.subrange(at, at + 8)[i] == own[i]);
            assert(s[at + i] == image[at + i]);
        }
        bytes::lemma_le_window(s, at, own, 0, 8);
    } else {
        bytes::law_le32_round_trip(value as u32);
        let own = le32_bytes(value as u32);
        assert forall|i: int| 0 <= i < 4 implies s[at + i] == #[trigger] own[0 + i] by {
            assert(image.subrange(at, at + 4)[i] == own[i]);
            assert(s[at + i] == image[at + i]);
        }
        bytes::lemma_le_window(s, at, own, 0, 4);
    }
}

/// A block that opens with a superblock's bytes and then their checksum holds
/// that superblock: every field is where the format puts it.
pub proof fn law_superblock_is_laid_out(s: Seq<u8>, value: Super)
    requires
        s.len() >= 220,
        s.subrange(0, 216) == image_of(value),
        s.subrange(216, 220) == le32_bytes(checksum(image_of(value))),
    ensures
        states(s, value),
        gaps(s),
        sealed(s),
        fits(value) ==> parsed(s) == Ok::<Super, FsError>(value),
{
    lemma_image_states(s, value);
    let sum = checksum(image_of(value));
    bytes::law_le32_round_trip(sum);
    let own = le32_bytes(sum);
    assert forall|i: int| 0 <= i < 4 implies s[216 + i] == #[trigger] own[0 + i] by {
        assert(s.subrange(216, 220)[i] == own[i]);
    }
    bytes::lemma_le_window(s, 216, own, 0, 4);
    assert(s.take(216) =~= s.subrange(0, 216));
    if fits(value) {
        law_superblock_survives(s, value);
    }
}

#[verifier::rlimit(40)]
proof fn lemma_image_states(s: Seq<u8>, value: Super)
    requires
        s.len() >= 220,
        s.subrange(0, 216) == image_of(value),
    ensures
        states(s, value),
        gaps(s),
{
    let image = image_of(value);
    lemma_image(value);
    assert forall|i: int| 0 <= i < 216 implies s[i] == #[trigger] image[i] by {
        assert(s.subrange(0, 216)[i] == image[i]);
    }
    lemma_stands(s, image, 16, true, value.generation);
    lemma_stands(s, image, 24, true, value.blocks);
    lemma_stands(s, image, 32, false, value.root as u64);
    lemma_stands(s, image, 64, true, value.log.at);
    lemma_stands(s, image, 72, true, value.log.bytes);
    lemma_stands(s, image, 80, false, value.log.crc as u64);
    lemma_stands(s, image, 184, false, value.log_blocks as u64);
    lemma_stands(s, image, 192, true, value.tree_at);
    lemma_stands(s, image, 200, false, value.tree_blocks as u64);
    lemma_stands(s, image, 208, true, value.tree_root);
    assert(s.take(8) =~= magic()) by {
        assert forall|i: int| 0 <= i < 8 implies s[i] == #[trigger] magic()[i] by {
            assert(s[i] == image[i]);
        }
    }
    assert(s[8] == image[8] && s[9] == image[9] && s[10] == image[10] && s[11] == image[11]);
    assert(s[12] == image[12] && s[13] == image[13] && s[14] == image[14] && s[15] == image[15]);
    assert forall|i: int| 36 <= i < 64 implies s[i] == 0 by {
        assert(s[i] == image[i]);
    }
    assert forall|i: int| 84 <= i < 184 implies s[i] == 0 by {
        assert(s[i] == image[i]);
    }
    assert forall|i: int| 188 <= i < 192 implies s[i] == 0 by {
        assert(s[i] == image[i]);
    }
    assert forall|i: int| 204 <= i < 208 implies s[i] == 0 by {
        assert(s[i] == image[i]);
    }
}

/// Where the fields of a superblock stand.
proof fn lemma_image(value: Super)
    ensures
        ({
            let image = image_of(value);
            &&& image.len() == 216
            &&& image.subrange(0, 16) == seq![
                0x4du8,
                0x4f,
                0x4c,
                0x54,
                0x46,
                0x53,
                0x30,
                0x35,
                5,
                0,
                0,
                0,
                0,
                16,
                0,
                0,
            ]
            &&& forall|i: int| 0 <= i < 8 ==> #[trigger] image[i] == magic()[i]
            &&& image[8] == 5 && image[9] == 0 && image[10] == 0 && image[11] == 0
            &&& image[12] == 0 && image[13] == 16 && image[14] == 0 && image[15] == 0
            &&& image.subrange(16, 24) == le64_bytes(value.generation)
            &&& image.subrange(24, 32) == le64_bytes(value.blocks)
            &&& image.subrange(32, 36) == le32_bytes(value.root)
            &&& blank(image, 36, 64)
            &&& image.subrange(64, 72) == le64_bytes(value.log.at)
            &&& image.subrange(72, 80) == le64_bytes(value.log.bytes)
            &&& image.subrange(80, 84) == le32_bytes(value.log.crc)
            &&& blank(image, 84, 184)
            &&& image.subrange(184, 188) == le32_bytes(value.log_blocks)
            &&& blank(image, 188, 192)
            &&& image.subrange(192, 200) == le64_bytes(value.tree_at)
            &&& image.subrange(200, 204) == le32_bytes(value.tree_blocks)
            &&& blank(image, 204, 208)
            &&& image.subrange(208, 216) == le64_bytes(value.tree_root)
        }),
{
    reveal(image_of);
    let image = image_of(value);
    assert(image.subrange(16, 24) =~= le64_bytes(value.generation));
    assert(image.subrange(24, 32) =~= le64_bytes(value.blocks));
    assert(image.subrange(32, 36) =~= le32_bytes(value.root));
    assert(image.subrange(64, 72) =~= le64_bytes(value.log.at));
    assert(image.subrange(72, 80) =~= le64_bytes(value.log.bytes));
    assert(image.subrange(80, 84) =~= le32_bytes(value.log.crc));
    assert(image.subrange(184, 188) =~= le32_bytes(value.log_blocks));
    assert(image.subrange(192, 200) =~= le64_bytes(value.tree_at));
    assert(image.subrange(200, 204) =~= le32_bytes(value.tree_blocks));
    assert(image.subrange(208, 216) =~= le64_bytes(value.tree_root));
    assert(magic() =~= seq![0x4du8, 0x4f, 0x4c, 0x54, 0x46, 0x53, 0x30, 0x35]);
}

/// The regions of a volume that fits stand one behind the other, with nothing
/// shared: two superblocks, the tree, and three log banks of equal length that
/// end the volume. The log is one of the banks, from its first block on.
pub proof fn law_regions_are_apart(value: Super)
    ensures
        fits(value) <==> {
            &&& 1 <= value.log_blocks
            &&& 1 <= value.tree_blocks <= 65536
            &&& 2 <= value.tree_at
            &&& value.tree_at + value.tree_blocks + 3 * value.log_blocks <= value.blocks
            &&& value.tree_root != 0 ==> value.tree_at <= value.tree_root < value.tree_at
                + value.tree_blocks
            &&& value.log.bytes <= 4096 * value.log_blocks
            &&& {
                ||| value.log.at + 3 * value.log_blocks == value.blocks
                ||| value.log.at + 2 * value.log_blocks == value.blocks
                ||| value.log.at + value.log_blocks == value.blocks
            }
        },
{
    let start = value.blocks - 3 * value.log_blocks;
    if fits(value) {
        let bank = choose|bank: int|
            0 <= bank < LOG_BANKS && value.log.at == start + #[trigger] (bank * value.log_blocks);
        assert(bank == 0 || bank == 1 || bank == 2);
        assert(value.log.at == start || value.log.at == start + value.log_blocks || value.log.at
            == start + 2 * value.log_blocks) by (nonlinear_arith)
            requires
                value.log.at == start + bank * value.log_blocks,
                bank == 0 || bank == 1 || bank == 2,
        ;
    }
    assert(0int * value.log_blocks == 0);
    assert(1int * value.log_blocks == value.log_blocks);
    assert(2int * value.log_blocks == value.log_blocks + value.log_blocks);
    if value.log.at == start {
        assert(value.log.at == start + 0int * value.log_blocks);
    }
    if value.log.at == start + value.log_blocks {
        assert(value.log.at == start + 1int * value.log_blocks);
    }
    if value.log.at == start + 2 * value.log_blocks {
        assert(value.log.at == start + 2int * value.log_blocks);
    }
}

} // verus!
