//! The superblock: the fixed record at the start of an archive.

use crate::repr::compression;
use crate::repr::inode;
use crate::packed::PackedStruct;
use vstd::prelude::*;
use crate::packed::lemma_concat_subranges;
use vstd::slice::slice_subrange;

verus! {

/// The magic number that marks a SquashFS archive.
pub const MAGIC: u32 = 0x7371_7368;

/// The supported major version of the format.
pub const VERSION_MAJOR: u16 = 4;

/// The supported minor version of the format.
pub const VERSION_MINOR: u16 = 0;

/// The start of a section that the archive does not have.
pub const NO_SECTION: u64 = 0xFFFF_FFFF_FFFF_FFFF;

/// Inodes are stored uncompressed, and so are the UID/GIDs.
pub const UNCOMPRESSED_INODES: u16 = 0x0001;

/// Data blocks are stored uncompressed.
pub const UNCOMPRESSED_DATA: u16 = 0x0002;

/// Unused in version 4.
pub const CHECK: u16 = 0x0004;

/// Fragments are stored uncompressed.
pub const UNCOMPRESSED_FRAGMENTS: u16 = 0x0008;

/// Fragments are not used: a short file is stored in a block of its own.
pub const NO_FRAGMENTS: u16 = 0x0010;

/// The tail of every file that is no multiple of the block size is stored as
/// a fragment.
pub const ALWAYS_FRAGMENTS: u16 = 0x0020;

/// Identical files are stored only once.
pub const DUPLICATES: u16 = 0x0040;

/// The export table is present.
pub const EXPORTABLE: u16 = 0x0080;

/// Xattrs are stored uncompressed.
pub const UNCOMPRESSED_XATTRS: u16 = 0x0100;

/// Xattrs are not stored.
pub const NO_XATTRS: u16 = 0x0200;

/// The compression options section is present.
pub const COMPRESSOR_OPTIONS: u16 = 0x0400;

/// UID/GIDs are stored uncompressed.
pub const UNCOMPRESSED_IDS: u16 = 0x0800;

/// Every flag that has a meaning.
pub const ALL_FLAGS: u16 = 0x0FFF;

/// The feature flags of an archive.
#[derive(Debug, Copy, Clone, PartialEq, Eq, Structural)]
pub struct Flags {
    pub bits: u16,
}

impl Flags {
    pub open spec fn spec_contains(self, flag: u16) -> bool {
        self.bits & flag == flag
    }

    pub open spec fn spec_unknown_bits(self) -> u16 {
        self.bits & !ALL_FLAGS
    }

    /// All the flags that have a meaning.
    pub fn all() -> (r: Flags)
        ensures
            r.bits == ALL_FLAGS,
    {
        Flags { bits: ALL_FLAGS }
    }

    pub fn bits(self) -> (r: u16)
        ensures
            r == self.bits,
    {
        self.bits
    }

    pub fn is_empty(self) -> (r: bool)
        ensures
            r == (self.bits == 0),
    {
        self.bits == 0
    }

    /// Whether every bit of `flag` is set.
    #[verifier::when_used_as_spec(spec_contains)]
    pub fn contains(self, flag: u16) -> (r: bool)
        ensures
            r == self.spec_contains(flag),
    {
        self.bits & flag == flag
    }

    /// The bits that are set and have no meaning.
    #[verifier::when_used_as_spec(spec_unknown_bits)]
    pub fn unknown_bits(self) -> (r: u16)
        ensures
            r == self.spec_unknown_bits(),
    {
        self.bits & !ALL_FLAGS
    }
}

impl Default for Flags {
    fn default() -> (r: Flags)
        ensures
            r.bits == 0,
    {
        Flags { bits: 0 }
    }
}

/// The superblock.
#[derive(Debug, Copy, Clone, PartialEq, Eq, Structural)]
pub struct Superblock {
    /// `MAGIC` in every archive.
    pub magic: u32,
    /// The number of inodes in the inode table.
    pub inode_count: u32,
    /// Seconds since 00:00, Jan 1 1970 UTC, when the archive was made.
    pub modification_time: i32,
    /// The size of a data block in bytes: a power of two between 4096 and
    /// 1 MiB.
    pub block_size: u32,
    /// The number of entries in the fragment table.
    pub fragment_entry_count: u32,
    pub compression_id: compression::Id,
    /// The base-2 logarithm of `block_size`.
    pub block_log: u16,
    pub flags: Flags,
    /// The number of entries in the UID/GID table.
    pub id_count: u16,
    pub version_major: u16,
    pub version_minor: u16,
    /// The inode of the root directory.
    pub root_inode_ref: inode::Ref,
    /// The number of bytes that the archive uses.
    pub bytes_used: u64,
    pub id_table_start: u64,
    pub xattr_id_table_start: u64,
    pub inode_table_start: u64,
    pub directory_table_start: u64,
    pub fragment_table_start: u64,
    pub export_table_start: u64,
}

impl PackedStruct for Flags {
    open spec fn spec_size() -> nat {
        2
    }

    open spec fn spec_to_packed(&self) -> Seq<u8> {
        self.bits.spec_to_packed()
    }

    open spec fn spec_from_packed(bytes: Seq<u8>) -> Self {
        Flags { bits: u16::spec_from_packed(bytes) }
    }

    proof fn lemma_round_trip(&self) {
        self.bits.lemma_round_trip();
    }

    fn size() -> (n: usize) {
        2
    }

    fn pack_into(&self, out: &mut Vec<u8>) {
        self.bits.pack_into(out);
    }

    fn from_packed(bytes: &[u8]) -> (r: Self) {
        Flags { bits: u16::from_packed(bytes) }
    }
}

impl PackedStruct for Superblock {
    open spec fn spec_size() -> nat {
        96
    }

    open spec fn spec_to_packed(&self) -> Seq<u8> {
        self.magic.spec_to_packed()
            + self.inode_count.spec_to_packed()
            + self.modification_time.spec_to_packed()
            + self.block_size.spec_to_packed()
            + self.fragment_entry_count.spec_to_packed()
            + self.compression_id.spec_to_packed()
            + self.block_log.spec_to_packed()
            + self.flags.spec_to_packed()
            + self.id_count.spec_to_packed()
            + self.version_major.spec_to_packed()
            + self.version_minor.spec_to_packed()
            + self.root_inode_ref.spec_to_packed()
            + self.bytes_used.spec_to_packed()
            + self.id_table_start.spec_to_packed()
            + self.xattr_id_table_start.spec_to_packed()
            + self.inode_table_start.spec_to_packed()
            + self.directory_table_start.spec_to_packed()
            + self.fragment_table_start.spec_to_packed()
            + self.export_table_start.spec_to_packed()
    }

    open spec fn spec_from_packed(bytes: Seq<u8>) -> Self {
        Superblock {
            magic: u32::spec_from_packed(bytes.subrange(0, 4)),
            inode_count: u32::spec_from_packed(bytes.subrange(4, 8)),
            modification_time: i32::spec_from_packed(bytes.subrange(8, 12)),
            block_size: u32::spec_from_packed(bytes.subrange(12, 16)),
            fragment_entry_count: u32::spec_from_packed(bytes.subrange(16, 20)),
            compression_id: compression::Id::spec_from_packed(bytes.subrange(20, 22)),
            block_log: u16::spec_from_packed(bytes.subrange(22, 24)),
            flags: Flags::spec_from_packed(bytes.subrange(24, 26)),
            id_count: u16::spec_from_packed(bytes.subrange(26, 28)),
            version_major: u16::spec_from_packed(bytes.subrange(28, 30)),
            version_minor: u16::spec_from_packed(bytes.subrange(30, 32)),
            root_inode_ref: inode::Ref::spec_from_packed(bytes.subrange(32, 40)),
            bytes_used: u64::spec_from_packed(bytes.subrange(40, 48)),
            id_table_start: u64::spec_from_packed(bytes.subrange(48, 56)),
            xattr_id_table_start: u64::spec_from_packed(bytes.subrange(56, 64)),
            inode_table_start: u64::spec_from_packed(bytes.subrange(64, 72)),
            directory_table_start: u64::spec_from_packed(bytes.subrange(72, 80)),
            fragment_table_start: u64::spec_from_packed(bytes.subrange(80, 88)),
            export_table_start: u64::spec_from_packed(bytes.subrange(88, 96)),
        }
    }

    proof fn lemma_round_trip(&self) {
        let bytes = self.spec_to_packed();
        self.magic.lemma_round_trip();
        self.inode_count.lemma_round_trip();
        self.modification_time.lemma_round_trip();
        self.block_size.lemma_round_trip();
        self.fragment_entry_count.lemma_round_trip();
        self.compression_id.lemma_round_trip();
        self.block_log.lemma_round_trip();
        self.flags.lemma_round_trip();
        self.id_count.lemma_round_trip();
        self.version_major.lemma_round_trip();
        self.version_minor.lemma_round_trip();
        self.root_inode_ref.lemma_round_trip();
        self.bytes_used.lemma_round_trip();
        self.id_table_start.lemma_round_trip();
        self.xattr_id_table_start.lemma_round_trip();
        self.inode_table_start.lemma_round_trip();
        self.directory_table_start.lemma_round_trip();
        self.fragment_table_start.lemma_round_trip();
        self.export_table_start.lemma_round_trip();
        lemma_concat_subranges();
        assert(bytes.subrange(0, 4) == self.magic.spec_to_packed());
        assert(bytes.subrange(4, 8) == self.inode_count.spec_to_packed());
        assert(bytes.subrange(8, 12) == self.modification_time.spec_to_packed());
        assert(bytes.subrange(12, 16) == self.block_size.spec_to_packed());
        assert(bytes.subrange(16, 20) == self.fragment_entry_count.spec_to_packed());
        assert(bytes.subrange(20, 22) == self.compression_id.spec_to_packed());
        assert(bytes.subrange(22, 24) == self.block_log.spec_to_packed());
        assert(bytes.subrange(24, 26) == self.flags.spec_to_packed());
        assert(bytes.subrange(26, 28) == self.id_count.spec_to_packed());
        assert(bytes.subrange(28, 30) == self.version_major.spec_to_packed());
        assert(bytes.subrange(30, 32) == self.version_minor.spec_to_packed());
        assert(bytes.subrange(32, 40) == self.root_inode_ref.spec_to_packed());
        assert(bytes.subrange(40, 48) == self.bytes_used.spec_to_packed());
        assert(bytes.subrange(48, 56) == self.id_table_start.spec_to_packed());
        assert(bytes.subrange(56, 64) == self.xattr_id_table_start.spec_to_packed());
        assert(bytes.subrange(64, 72) == self.inode_table_start.spec_to_packed());
        assert(bytes.subrange(72, 80) == self.directory_table_start.spec_to_packed());
        assert(bytes.subrange(80, 88) == self.fragment_table_start.spec_to_packed());
        assert(bytes.subrange(88, 96) == self.export_table_start.spec_to_packed());
    }

    fn size() -> (n: usize) {
        96
    }

    fn pack_into(&self, out: &mut Vec<u8>) {
        self.magic.pack_into(out);
        self.inode_count.pack_into(out);
        self.modification_time.pack_into(out);
        self.block_size.pack_into(out);
        self.fragment_entry_count.pack_into(out);
        self.compression_id.pack_into(out);
        self.block_log.pack_into(out);
        self.flags.pack_into(out);
        self.id_count.pack_into(out);
        self.version_major.pack_into(out);
        self.version_minor.pack_into(out);
        self.root_inode_ref.pack_into(out);
        self.bytes_used.pack_into(out);
        self.id_table_start.pack_into(out);
        self.xattr_id_table_start.pack_into(out);
        self.inode_table_start.pack_into(out);
        self.directory_table_start.pack_into(out);
        self.fragment_table_start.pack_into(out);
        self.export_table_start.pack_into(out);
        assert(out@ =~= old(out)@ + self.spec_to_packed());
    }

    fn from_packed(bytes: &[u8]) -> (r: Self) {
        Superblock {
            magic: u32::from_packed(slice_subrange(bytes, 0, 4)),
            inode_count: u32::from_packed(slice_subrange(bytes, 4, 8)),
            modification_time: i32::from_packed(slice_subrange(bytes, 8, 12)),
            block_size: u32::from_packed(slice_subrange(bytes, 12, 16)),
            fragment_entry_count: u32::from_packed(slice_subrange(bytes, 16, 20)),
            compression_id: compression::Id::from_packed(slice_subrange(bytes, 20, 22)),
            block_log: u16::from_packed(slice_subrange(bytes, 22, 24)),
            flags: Flags::from_packed(slice_subrange(bytes, 24, 26)),
            id_count: u16::from_packed(slice_subrange(bytes, 26, 28)),
            version_major: u16::from_packed(slice_subrange(bytes, 28, 30)),
            version_minor: u16::from_packed(slice_subrange(bytes, 30, 32)),
            root_inode_ref: inode::Ref::from_packed(slice_subrange(bytes, 32, 40)),
            bytes_used: u64::from_packed(slice_subrange(bytes, 40, 48)),
            id_table_start: u64::from_packed(slice_subrange(bytes, 48, 56)),
            xattr_id_table_start: u64::from_packed(slice_subrange(bytes, 56, 64)),
            inode_table_start: u64::from_packed(slice_subrange(bytes, 64, 72)),
            directory_table_start: u64::from_packed(slice_subrange(bytes, 72, 80)),
            fragment_table_start: u64::from_packed(slice_subrange(bytes, 80, 88)),
            export_table_start: u64::from_packed(slice_subrange(bytes, 88, 96)),
        }
    }
}

} // verus!
