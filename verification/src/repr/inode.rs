//! The inode table: ownership, permissions and kind-specific data of the
//! items of an archive.

use crate::repr::metablock;
use crate::repr::mode::Mode;
use crate::repr::uid_gid;
use crate::repr::xattr;
use crate::packed::PackedStruct;
use vstd::prelude::*;
use crate::packed::lemma_concat_subranges;
use vstd::slice::slice_subrange;

verus! {

/// The header is followed by a `BasicDir`.
pub const BASIC_DIR: u16 = 1;

/// The header is followed by a `BasicFile`.
pub const BASIC_FILE: u16 = 2;

/// The header is followed by a `Symlink`.
pub const BASIC_SYMLINK: u16 = 3;

/// The header is followed by a `BasicDevice`.
pub const BASIC_BLOCK_DEV: u16 = 4;

/// The header is followed by a `BasicDevice`.
pub const BASIC_CHAR_DEV: u16 = 5;

/// The header is followed by a `BasicIpc`.
pub const BASIC_FIFO: u16 = 6;

/// The header is followed by a `BasicIpc`.
pub const BASIC_SOCKET: u16 = 7;

/// The header is followed by an `ExtendedDir`.
pub const EXT_DIR: u16 = 8;

/// The header is followed by an `ExtendedFile`.
pub const EXT_FILE: u16 = 9;

/// The header is followed by a `Symlink`, its target and an xattr index.
pub const EXT_SYMLINK: u16 = 10;

/// The header is followed by an `ExtendedDevice`.
pub const EXT_BLOCK_DEV: u16 = 11;

/// The header is followed by an `ExtendedDevice`.
pub const EXT_CHAR_DEV: u16 = 12;

/// The header is followed by an `ExtendedIpc`.
pub const EXT_FIFO: u16 = 13;

/// The header is followed by an `ExtendedIpc`.
pub const EXT_SOCKET: u16 = 14;

pub const MAX: u16 = EXT_SOCKET;

/// The largest major number of a device.
pub const MAJOR_MAX: u32 = 0xFFF;

/// The largest minor number of a device.
pub const MINOR_MAX: u32 = 0xF_FFFF;

/// A reference to an inode: the offset of its metadata block from the start
/// of the inode table on disk, and the offset into the uncompressed block.
#[derive(Debug, Copy, Clone, PartialEq, Eq, Structural)]
pub struct Ref(pub u64);

impl Ref {
    pub open spec fn spec_new(block_start: u32, offset: u16) -> Ref {
        Ref(((block_start as u64) << 16) | (offset as u64))
    }

    pub open spec fn spec_block_idx(self) -> u32 {
        ((self.0 >> 16) & 0xFFFF_FFFF) as u32
    }

    pub open spec fn spec_start_offset(self) -> u16 {
        (self.0 & 0xFFFF) as u16
    }

    #[verifier::when_used_as_spec(spec_new)]
    pub fn new(block_start: u32, offset: u16) -> (r: Ref)
        ensures
            r == Ref::spec_new(block_start, offset),
            r.spec_block_idx() == block_start,
            r.spec_start_offset() == offset,
    {
        proof {
            metablock::lemma_ref_parts(block_start, offset);
        }
        let block_start: u64 = block_start as u64;
        let offset: u64 = offset as u64;
        Ref((block_start << 16) | offset)
    }

    #[verifier::when_used_as_spec(spec_block_idx)]
    pub fn block_idx(self) -> (r: u32)
        ensures
            r == self.spec_block_idx(),
    {
        proof {
            metablock::lemma_ref_ranges(self.0);
        }
        ((self.0 >> 16) & 0xFFFF_FFFF) as u32
    }

    /// The same as `block_idx`.
    pub fn block_start(self) -> (r: u32)
        ensures
            r == self.spec_block_idx(),
    {
        self.block_idx()
    }

    #[verifier::when_used_as_spec(spec_start_offset)]
    pub fn start_offset(self) -> (r: u16)
        ensures
            r == self.spec_start_offset(),
    {
        proof {
            metablock::lemma_ref_ranges(self.0);
        }
        (self.0 & 0xFFFF) as u16
    }
}

/// The same packing as a metadata block reference.
pub proof fn lemma_ref_of_metablock_ref(r: metablock::Ref)
    ensures
        Ref(r.0).spec_block_idx() == r.spec_block_start(),
        Ref(r.0).spec_start_offset() == r.spec_start_offset(),
{
}

/// The number of an inode.
#[derive(Debug, Copy, Clone, PartialEq, Eq, Structural)]
pub struct Idx(pub u32);

/// The kind of an inode, which decides what follows its header.
#[derive(Debug, Copy, Clone, PartialEq, Eq, Structural)]
pub struct Kind(pub u16);

impl Kind {
    pub open spec fn spec_is_extended(self) -> bool {
        EXT_DIR <= self.0 <= EXT_SOCKET
    }

    pub open spec fn spec_to_basic(self) -> Kind {
        if self.spec_is_extended() {
            Kind((self.0 - 7) as u16)
        } else {
            self
        }
    }

    #[verifier::when_used_as_spec(spec_is_extended)]
    pub fn is_extended(self) -> (r: bool)
        ensures
            r == self.spec_is_extended(),
    {
        EXT_DIR <= self.0 && self.0 <= EXT_SOCKET
    }

    /// The basic kind of the same item: directory entries store this one also
    /// for extended inodes.
    #[verifier::when_used_as_spec(spec_to_basic)]
    pub fn to_basic(self) -> (r: Kind)
        ensures
            r == self.spec_to_basic(),
            !r.spec_is_extended(),
    {
        if self.is_extended() {
            Kind(self.0 - 7)
        } else {
            self
        }
    }
}

/// The header that every inode starts with.
#[derive(Debug, Copy, Clone, PartialEq, Eq, Structural)]
pub struct Header {
    pub inode_type: Kind,
    /// The permission bits, without the file type.
    pub permissions: Mode,
    pub uid_idx: uid_gid::Idx,
    pub gid_idx: uid_gid::Idx,
    /// Seconds since 00:00, Jan 1 1970 UTC, at the last modification.
    pub modified_time: u32,
    /// The position of the inode in the list of all inodes.
    pub inode_number: Idx,
}

/// A basic directory inode.
#[derive(Debug, Copy, Clone, PartialEq, Eq, Structural)]
pub struct BasicDir {
    /// Where the block with the listing starts in the directory table.
    pub block_idx: u32,
    pub hard_link_count: u32,
    /// The uncompressed size in bytes of the listing, headers included.
    pub file_size: u16,
    /// The offset of the listing in its uncompressed block.
    pub block_offset: u16,
    pub parent_inode_number: Idx,
}

/// An extended directory inode, followed by `index_count` index entries.
#[derive(Debug, Copy, Clone, PartialEq, Eq, Structural)]
pub struct ExtendedDir {
    pub hard_link_count: u32,
    /// The uncompressed size in bytes of the listing, headers included.
    pub file_size: u32,
    /// Where the block with the listing starts in the directory table.
    pub block_idx: u32,
    pub parent_inode_number: Idx,
    pub index_count: u16,
    /// The offset of the listing in its uncompressed block.
    pub block_offset: u16,
    pub xattr_idx: xattr::Idx,
}

/// A basic file inode, followed by the list of block sizes.
#[derive(Debug, Copy, Clone, PartialEq, Eq, Structural)]
pub struct BasicFile {
    /// The offset from the start of the archive of the first data block.
    pub blocks_start: u32,
    /// The index in the fragment table of the block that holds the tail of
    /// the file.
    pub fragment_block_index: u32,
    /// The offset of the tail in the uncompressed fragment block.
    pub block_offset: u32,
    /// The uncompressed size of the file.
    pub file_size: u32,
}

/// An extended file inode, followed by the list of block sizes.
#[derive(Debug, Copy, Clone, PartialEq, Eq, Structural)]
pub struct ExtendedFile {
    pub blocks_start: u64,
    pub file_size: u64,
    /// The number of bytes saved by leaving out blocks of zero bytes.
    pub sparse: u64,
    pub hard_link_count: u32,
    pub fragment_block_index: u32,
    pub block_offset: u32,
    pub xattr_idx: xattr::Idx,
}

/// A symlink inode, followed by `target_size` bytes of target path and, in the
/// extended form, by an xattr index.
#[derive(Debug, Copy, Clone, PartialEq, Eq, Structural)]
pub struct Symlink {
    pub hard_link_count: u32,
    pub target_size: u32,
}

/// Facts on the packing of a major and a minor device number.
pub proof fn lemma_device_parts(major: u32, minor: u32)
    by (bit_vector)
    requires
        major <= 0xFFF,
        minor <= 0xF_FFFF,
    ensures
        (((major << 8) | (minor & 0xFF) | ((minor & !0xFFu32) << 12)) & 0xfff00) >> 8 == major,
        (((major << 8) | (minor & 0xFF) | ((minor & !0xFFu32) << 12)) & 0xff) | ((((major << 8) | (
        minor & 0xFF) | ((minor & !0xFFu32) << 12)) >> 12) & 0xfff00) == minor,
{
}

/// A device number: 12 bits of major and 20 bits of minor number.
#[derive(Debug, Copy, Clone, PartialEq, Eq, Structural)]
pub struct DeviceNumber(pub u32);

impl DeviceNumber {
    pub open spec fn spec_new(major: u32, minor: u32) -> DeviceNumber {
        DeviceNumber((major << 8) | (minor & 0xFF) | ((minor & !0xFFu32) << 12))
    }

    pub open spec fn spec_major(self) -> u32 {
        (self.0 & 0xfff00) >> 8
    }

    pub open spec fn spec_minor(self) -> u32 {
        (self.0 & 0xff) | ((self.0 >> 12) & 0xfff00)
    }

    #[verifier::when_used_as_spec(spec_new)]
    pub fn new(major: u32, minor: u32) -> (r: DeviceNumber)
        requires
            major <= MAJOR_MAX,
            minor <= MINOR_MAX,
        ensures
            r == DeviceNumber::spec_new(major, minor),
            r.spec_major() == major,
            r.spec_minor() == minor,
    {
        proof {
            lemma_device_parts(major, minor);
        }
        DeviceNumber((major << 8) | (minor & 0xFF) | ((minor & !0xFFu32) << 12))
    }

    #[verifier::when_used_as_spec(spec_major)]
    pub fn major(self) -> (r: u32)
        ensures
            r == self.spec_major(),
    {
        (self.0 & 0xfff00) >> 8
    }

    #[verifier::when_used_as_spec(spec_minor)]
    pub fn minor(self) -> (r: u32)
        ensures
            r == self.spec_minor(),
    {
        (self.0 & 0xff) | ((self.0 >> 12) & 0xfff00)
    }
}

/// A basic block or character device inode.
#[derive(Debug, Copy, Clone, PartialEq, Eq, Structural)]
pub struct BasicDevice {
    pub hard_link_count: u32,
    pub device: DeviceNumber,
}

/// An extended block or character device inode.
#[derive(Debug, Copy, Clone, PartialEq, Eq, Structural)]
pub struct ExtendedDevice {
    pub hard_link_count: u32,
    pub device: DeviceNumber,
    pub xattr_idx: xattr::Idx,
}

/// A basic fifo or socket inode.
#[derive(Debug, Copy, Clone, PartialEq, Eq, Structural)]
pub struct BasicIpc {
    pub hard_link_count: u32,
}

/// An extended fifo or socket inode.
#[derive(Debug, Copy, Clone, PartialEq, Eq, Structural)]
pub struct ExtendedIpc {
    pub hard_link_count: u32,
    pub xattr_idx: xattr::Idx,
}

/// The link count that a directory inode stores: for historical reasons it
/// counts the entries of the directory and starts at 2.
pub open spec fn spec_dir_hardlink_count(hardlink_count: u32, child_count: u32) -> int {
    hardlink_count + 2 + child_count
}

/// The link count that a directory inode stores, or `None` where it does not
/// fit in 32 bits.
pub fn dir_hardlink_count(hardlink_count: u32, child_count: u32) -> (r: Option<u32>)
    ensures
        spec_dir_hardlink_count(hardlink_count, child_count) <= u32::MAX ==> r == Some(
            spec_dir_hardlink_count(hardlink_count, child_count) as u32,
        ),
        spec_dir_hardlink_count(hardlink_count, child_count) > u32::MAX ==> r.is_none(),
{
    let total: u64 = hardlink_count as u64 + 2 + child_count as u64;
    if total <= u32::MAX as u64 {
        Some(total as u32)
    } else {
        None
    }
}

impl PackedStruct for Ref {
    open spec fn spec_size() -> nat {
        8
    }

    open spec fn spec_to_packed(&self) -> Seq<u8> {
        self.0.spec_to_packed()
    }

    open spec fn spec_from_packed(bytes: Seq<u8>) -> Self {
        Ref(u64::spec_from_packed(bytes))
    }

    proof fn lemma_round_trip(&self) {
        self.0.lemma_round_trip();
    }

    fn size() -> (n: usize) {
        8
    }

    fn pack_into(&self, out: &mut Vec<u8>) {
        self.0.pack_into(out);
    }

    fn from_packed(bytes: &[u8]) -> (r: Self) {
        Ref(u64::from_packed(bytes))
    }
}

impl PackedStruct for Idx {
    open spec fn spec_size() -> nat {
        4
    }

    open spec fn spec_to_packed(&self) -> Seq<u8> {
        self.0.spec_to_packed()
    }

    open spec fn spec_from_packed(bytes: Seq<u8>) -> Self {
        Idx(u32::spec_from_packed(bytes))
    }

    proof fn lemma_round_trip(&self) {
        self.0.lemma_round_trip();
    }

    fn size() -> (n: usize) {
        4
    }

    fn pack_into(&self, out: &mut Vec<u8>) {
        self.0.pack_into(out);
    }

    fn from_packed(bytes: &[u8]) -> (r: Self) {
        Idx(u32::from_packed(bytes))
    }
}

impl PackedStruct for Kind {
    open spec fn spec_size() -> nat {
        2
    }

    open spec fn spec_to_packed(&self) -> Seq<u8> {
        self.0.spec_to_packed()
    }

    open spec fn spec_from_packed(bytes: Seq<u8>) -> Self {
        Kind(u16::spec_from_packed(bytes))
    }

    proof fn lemma_round_trip(&self) {
        self.0.lemma_round_trip();
    }

    fn size() -> (n: usize) {
        2
    }

    fn pack_into(&self, out: &mut Vec<u8>) {
        self.0.pack_into(out);
    }

    fn from_packed(bytes: &[u8]) -> (r: Self) {
        Kind(u16::from_packed(bytes))
    }
}

impl PackedStruct for Header {
    open spec fn spec_size() -> nat {
        16
    }

    open spec fn spec_to_packed(&self) -> Seq<u8> {
        self.inode_type.spec_to_packed()
            + self.permissions.spec_to_packed()
            + self.uid_idx.spec_to_packed()
            + self.gid_idx.spec_to_packed()
            + self.modified_time.spec_to_packed()
            + self.inode_number.spec_to_packed()
    }

    open spec fn spec_from_packed(bytes: Seq<u8>) -> Self {
        Header {
            inode_type: Kind::spec_from_packed(bytes.subrange(0, 2)),
            permissions: Mode::spec_from_packed(bytes.subrange(2, 4)),
            uid_idx: uid_gid::Idx::spec_from_packed(bytes.subrange(4, 6)),
            gid_idx: uid_gid::Idx::spec_from_packed(bytes.subrange(6, 8)),
            modified_time: u32::spec_from_packed(bytes.subrange(8, 12)),
            inode_number: Idx::spec_from_packed(bytes.subrange(12, 16)),
        }
    }

    proof fn lemma_round_trip(&self) {
        let bytes = self.spec_to_packed();
        self.inode_type.lemma_round_trip();
        self.permissions.lemma_round_trip();
        self.uid_idx.lemma_round_trip();
        self.gid_idx.lemma_round_trip();
        self.modified_time.lemma_round_trip();
        self.inode_number.lemma_round_trip();
        lemma_concat_subranges();
        assert(bytes.subrange(0, 2) == self.inode_type.spec_to_packed());
        assert(bytes.subrange(2, 4) == self.permissions.spec_to_packed());
        assert(bytes.subrange(4, 6) == self.uid_idx.spec_to_packed());
        assert(bytes.subrange(6, 8) == self.gid_idx.spec_to_packed());
        assert(bytes.subrange(8, 12) == self.modified_time.spec_to_packed());
        assert(bytes.subrange(12, 16) == self.inode_number.spec_to_packed());
    }

    fn size() -> (n: usize) {
        16
    }

    fn pack_into(&self, out: &mut Vec<u8>) {
        self.inode_type.pack_into(out);
        self.permissions.pack_into(out);
        self.uid_idx.pack_into(out);
        self.gid_idx.pack_into(out);
        self.modified_time.pack_into(out);
        self.inode_number.pack_into(out);
        assert(out@ =~= old(out)@ + self.spec_to_packed());
    }

    fn from_packed(bytes: &[u8]) -> (r: Self) {
        Header {
            inode_type: Kind::from_packed(slice_subrange(bytes, 0, 2)),
            permissions: Mode::from_packed(slice_subrange(bytes, 2, 4)),
            uid_idx: uid_gid::Idx::from_packed(slice_subrange(bytes, 4, 6)),
            gid_idx: uid_gid::Idx::from_packed(slice_subrange(bytes, 6, 8)),
            modified_time: u32::from_packed(slice_subrange(bytes, 8, 12)),
            inode_number: Idx::from_packed(slice_subrange(bytes, 12, 16)),
        }
    }
}

impl PackedStruct for BasicDir {
    open spec fn spec_size() -> nat {
        16
    }

    open spec fn spec_to_packed(&self) -> Seq<u8> {
        self.block_idx.spec_to_packed()
            + self.hard_link_count.spec_to_packed()
            + self.file_size.spec_to_packed()
            + self.block_offset.spec_to_packed()
            + self.parent_inode_number.spec_to_packed()
    }

    open spec fn spec_from_packed(bytes: Seq<u8>) -> Self {
        BasicDir {
            block_idx: u32::spec_from_packed(bytes.subrange(0, 4)),
            hard_link_count: u32::spec_from_packed(bytes.subrange(4, 8)),
            file_size: u16::spec_from_packed(bytes.subrange(8, 10)),
            block_offset: u16::spec_from_packed(bytes.subrange(10, 12)),
            parent_inode_number: Idx::spec_from_packed(bytes.subrange(12, 16)),
        }
    }

    proof fn lemma_round_trip(&self) {
        let bytes = self.spec_to_packed();
        self.block_idx.lemma_round_trip();
        self.hard_link_count.lemma_round_trip();
        self.file_size.lemma_round_trip();
        self.block_offset.lemma_round_trip();
        self.parent_inode_number.lemma_round_trip();
        lemma_concat_subranges();
        assert(bytes.subrange(0, 4) == self.block_idx.spec_to_packed());
        assert(bytes.subrange(4, 8) == self.hard_link_count.spec_to_packed());
        assert(bytes.subrange(8, 10) == self.file_size.spec_to_packed());
        assert(bytes.subrange(10, 12) == self.block_offset.spec_to_packed());
        assert(bytes.subrange(12, 16) == self.parent_inode_number.spec_to_packed());
    }

    fn size() -> (n: usize) {
        16
    }

    fn pack_into(&self, out: &mut Vec<u8>) {
        self.block_idx.pack_into(out);
        self.hard_link_count.pack_into(out);
        self.file_size.pack_into(out);
        self.block_offset.pack_into(out);
        self.parent_inode_number.pack_into(out);
        assert(out@ =~= old(out)@ + self.spec_to_packed());
    }

    fn from_packed(bytes: &[u8]) -> (r: Self) {
        BasicDir {
            block_idx: u32::from_packed(slice_subrange(bytes, 0, 4)),
            hard_link_count: u32::from_packed(slice_subrange(bytes, 4, 8)),
            file_size: u16::from_packed(slice_subrange(bytes, 8, 10)),
            block_offset: u16::from_packed(slice_subrange(bytes, 10, 12)),
            parent_inode_number: Idx::from_packed(slice_subrange(bytes, 12, 16)),
        }
    }
}

impl PackedStruct for ExtendedDir {
    open spec fn spec_size() -> nat {
        24
    }

    open spec fn spec_to_packed(&self) -> Seq<u8> {
        self.hard_link_count.spec_to_packed()
            + self.file_size.spec_to_packed()
            + self.block_idx.spec_to_packed()
            + self.parent_inode_number.spec_to_packed()
            + self.index_count.spec_to_packed()
            + self.block_offset.spec_to_packed()
            + self.xattr_idx.spec_to_packed()
    }

    open spec fn spec_from_packed(bytes: Seq<u8>) -> Self {
        ExtendedDir {
            hard_link_count: u32::spec_from_packed(bytes.subrange(0, 4)),
            file_size: u32::spec_from_packed(bytes.subrange(4, 8)),
            block_idx: u32::spec_from_packed(bytes.subrange(8, 12)),
            parent_inode_number: Idx::spec_from_packed(bytes.subrange(12, 16)),
            index_count: u16::spec_from_packed(bytes.subrange(16, 18)),
            block_offset: u16::spec_from_packed(bytes.subrange(18, 20)),
            xattr_idx: xattr::Idx::spec_from_packed(bytes.subrange(20, 24)),
        }
    }

    proof fn lemma_round_trip(&self) {
        let bytes = self.spec_to_packed();
        self.hard_link_count.lemma_round_trip();
        self.file_size.lemma_round_trip();
        self.block_idx.lemma_round_trip();
        self.parent_inode_number.lemma_round_trip();
        self.index_count.lemma_round_trip();
        self.block_offset.lemma_round_trip();
        self.xattr_idx.lemma_round_trip();
        lemma_concat_subranges();
        assert(bytes.subrange(0, 4) == self.hard_link_count.spec_to_packed());
        assert(bytes.subrange(4, 8) == self.file_size.spec_to_packed());
        assert(bytes.subrange(8, 12) == self.block_idx.spec_to_packed());
        assert(bytes.subrange(12, 16) == self.parent_inode_number.spec_to_packed());
        assert(bytes.subrange(16, 18) == self.index_count.spec_to_packed());
        assert(bytes.subrange(18, 20) == self.block_offset.spec_to_packed());
        assert(bytes.subrange(20, 24) == self.xattr_idx.spec_to_packed());
    }

    fn size() -> (n: usize) {
        24
    }

    fn pack_into(&self, out: &mut Vec<u8>) {
        self.hard_link_count.pack_into(out);
        self.file_size.pack_into(out);
        self.block_idx.pack_into(out);
        self.parent_inode_number.pack_into(out);
        self.index_count.pack_into(out);
        self.block_offset.pack_into(out);
        self.xattr_idx.pack_into(out);
        assert(out@ =~= old(out)@ + self.spec_to_packed());
    }

    fn from_packed(bytes: &[u8]) -> (r: Self) {
        ExtendedDir {
            hard_link_count: u32::from_packed(slice_subrange(bytes, 0, 4)),
            file_size: u32::from_packed(slice_subrange(bytes, 4, 8)),
            block_idx: u32::from_packed(slice_subrange(bytes, 8, 12)),
            parent_inode_number: Idx::from_packed(slice_subrange(bytes, 12, 16)),
            index_count: u16::from_packed(slice_subrange(bytes, 16, 18)),
            block_offset: u16::from_packed(slice_subrange(bytes, 18, 20)),
            xattr_idx: xattr::Idx::from_packed(slice_subrange(bytes, 20, 24)),
        }
    }
}

impl PackedStruct for BasicFile {
    open spec fn spec_size() -> nat {
        16
    }

    open spec fn spec_to_packed(&self) -> Seq<u8> {
        self.blocks_start.spec_to_packed()
            + self.fragment_block_index.spec_to_packed()
            + self.block_offset.spec_to_packed()
            + self.file_size.spec_to_packed()
    }

    open spec fn spec_from_packed(bytes: Seq<u8>) -> Self {
        BasicFile {
            blocks_start: u32::spec_from_packed(bytes.subrange(0, 4)),
            fragment_block_index: u32::spec_from_packed(bytes.subrange(4, 8)),
            block_offset: u32::spec_from_packed(bytes.subrange(8, 12)),
            file_size: u32::spec_from_packed(bytes.subrange(12, 16)),
        }
    }

    proof fn lemma_round_trip(&self) {
        let bytes = self.spec_to_packed();
        self.blocks_start.lemma_round_trip();
        self.fragment_block_index.lemma_round_trip();
        self.block_offset.lemma_round_trip();
        self.file_size.lemma_round_trip();
        lemma_concat_subranges();
        assert(bytes.subrange(0, 4) == self.blocks_start.spec_to_packed());
        assert(bytes.subrange(4, 8) == self.fragment_block_index.spec_to_packed());
        assert(bytes.subrange(8, 12) == self.block_offset.spec_to_packed());
        assert(bytes.subrange(12, 16) == self.file_size.spec_to_packed());
    }

    fn size() -> (n: usize) {
        16
    }

    fn pack_into(&self, out: &mut Vec<u8>) {
        self.blocks_start.pack_into(out);
        self.fragment_block_index.pack_into(out);
        self.block_offset.pack_into(out);
        self.file_size.pack_into(out);
        assert(out@ =~= old(out)@ + self.spec_to_packed());
    }

    fn from_packed(bytes: &[u8]) -> (r: Self) {
        BasicFile {
            blocks_start: u32::from_packed(slice_subrange(bytes, 0, 4)),
            fragment_block_index: u32::from_packed(slice_subrange(bytes, 4, 8)),
            block_offset: u32::from_packed(slice_subrange(bytes, 8, 12)),
            file_size: u32::from_packed(slice_subrange(bytes, 12, 16)),
        }
    }
}

impl PackedStruct for ExtendedFile {
    open spec fn spec_size() -> nat {
        40
    }

    open spec fn spec_to_packed(&self) -> Seq<u8> {
        self.blocks_start.spec_to_packed()
            + self.file_size.spec_to_packed()
            + self.sparse.spec_to_packed()
            + self.hard_link_count.spec_to_packed()
            + self.fragment_block_index.spec_to_packed()
            + self.block_offset.spec_to_packed()
            + self.xattr_idx.spec_to_packed()
    }

    open spec fn spec_from_packed(bytes: Seq<u8>) -> Self {
        ExtendedFile {
            blocks_start: u64::spec_from_packed(bytes.subrange(0, 8)),
            file_size: u64::spec_from_packed(bytes.subrange(8, 16)),
            sparse: u64::spec_from_packed(bytes.subrange(16, 24)),
            hard_link_count: u32::spec_from_packed(bytes.subrange(24, 28)),
            fragment_block_index: u32::spec_from_packed(bytes.subrange(28, 32)),
            block_offset: u32::spec_from_packed(bytes.subrange(32, 36)),
            xattr_idx: xattr::Idx::spec_from_packed(bytes.subrange(36, 40)),
        }
    }

    proof fn lemma_round_trip(&self) {
        let bytes = self.spec_to_packed();
        self.blocks_start.lemma_round_trip();
        self.file_size.lemma_round_trip();
        self.sparse.lemma_round_trip();
        self.hard_link_count.lemma_round_trip();
        self.fragment_block_index.lemma_round_trip();
        self.block_offset.lemma_round_trip();
        self.xattr_idx.lemma_round_trip();
        lemma_concat_subranges();
        assert(bytes.subrange(0, 8) == self.blocks_start.spec_to_packed());
        assert(bytes.subrange(8, 16) == self.file_size.spec_to_packed());
        assert(bytes.subrange(16, 24) == self.sparse.spec_to_packed());
        assert(bytes.subrange(24, 28) == self.hard_link_count.spec_to_packed());
        assert(bytes.subrange(28, 32) == self.fragment_block_index.spec_to_packed());
        assert(bytes.subrange(32, 36) == self.block_offset.spec_to_packed());
        assert(bytes.subrange(36, 40) == self.xattr_idx.spec_to_packed());
    }

    fn size() -> (n: usize) {
        40
    }

    fn pack_into(&self, out: &mut Vec<u8>) {
        self.blocks_start.pack_into(out);
        self.file_size.pack_into(out);
        self.sparse.pack_into(out);
        self.hard_link_count.pack_into(out);
        self.fragment_block_index.pack_into(out);
        self.block_offset.pack_into(out);
        self.xattr_idx.pack_into(out);
        assert(out@ =~= old(out)@ + self.spec_to_packed());
    }

    fn from_packed(bytes: &[u8]) -> (r: Self) {
        ExtendedFile {
            blocks_start: u64::from_packed(slice_subrange(bytes, 0, 8)),
            file_size: u64::from_packed(slice_subrange(bytes, 8, 16)),
            sparse: u64::from_packed(slice_subrange(bytes, 16, 24)),
            hard_link_count: u32::from_packed(slice_subrange(bytes, 24, 28)),
            fragment_block_index: u32::from_packed(slice_subrange(bytes, 28, 32)),
            block_offset: u32::from_packed(slice_subrange(bytes, 32, 36)),
            xattr_idx: xattr::Idx::from_packed(slice_subrange(bytes, 36, 40)),
        }
    }
}

impl PackedStruct for Symlink {
    open spec fn spec_size() -> nat {
        8
    }

    open spec fn spec_to_packed(&self) -> Seq<u8> {
        self.hard_link_count.spec_to_packed() + self.target_size.spec_to_packed()
    }

    open spec fn spec_from_packed(bytes: Seq<u8>) -> Self {
        Symlink {
            hard_link_count: u32::spec_from_packed(bytes.subrange(0, 4)),
            target_size: u32::spec_from_packed(bytes.subrange(4, 8)),
        }
    }

    proof fn lemma_round_trip(&self) {
        let bytes = self.spec_to_packed();
        self.hard_link_count.lemma_round_trip();
        self.target_size.lemma_round_trip();
        lemma_concat_subranges();
        assert(bytes.subrange(0, 4) == self.hard_link_count.spec_to_packed());
        assert(bytes.subrange(4, 8) == self.target_size.spec_to_packed());
    }

    fn size() -> (n: usize) {
        8
    }

    fn pack_into(&self, out: &mut Vec<u8>) {
        self.hard_link_count.pack_into(out);
        self.target_size.pack_into(out);
        assert(out@ =~= old(out)@ + self.spec_to_packed());
    }

    fn from_packed(bytes: &[u8]) -> (r: Self) {
        Symlink {
            hard_link_count: u32::from_packed(slice_subrange(bytes, 0, 4)),
            target_size: u32::from_packed(slice_subrange(bytes, 4, 8)),
        }
    }
}

impl PackedStruct for DeviceNumber {
    open spec fn spec_size() -> nat {
        4
    }

    open spec fn spec_to_packed(&self) -> Seq<u8> {
        self.0.spec_to_packed()
    }

    open spec fn spec_from_packed(bytes: Seq<u8>) -> Self {
        DeviceNumber(u32::spec_from_packed(bytes))
    }

    proof fn lemma_round_trip(&self) {
        self.0.lemma_round_trip();
    }

    fn size() -> (n: usize) {
        4
    }

    fn pack_into(&self, out: &mut Vec<u8>) {
        self.0.pack_into(out);
    }

    fn from_packed(bytes: &[u8]) -> (r: Self) {
        DeviceNumber(u32::from_packed(bytes))
    }
}

impl PackedStruct for BasicDevice {
    open spec fn spec_size() -> nat {
        8
    }

    open spec fn spec_to_packed(&self) -> Seq<u8> {
        self.hard_link_count.spec_to_packed() + self.device.spec_to_packed()
    }

    open spec fn spec_from_packed(bytes: Seq<u8>) -> Self {
        BasicDevice {
            hard_link_count: u32::spec_from_packed(bytes.subrange(0, 4)),
            device: DeviceNumber::spec_from_packed(bytes.subrange(4, 8)),
        }
    }

    proof fn lemma_round_trip(&self) {
        let bytes = self.spec_to_packed();
        self.hard_link_count.lemma_round_trip();
        self.device.lemma_round_trip();
        lemma_concat_subranges();
        assert(bytes.subrange(0, 4) == self.hard_link_count.spec_to_packed());
        assert(bytes.subrange(4, 8) == self.device.spec_to_packed());
    }

    fn size() -> (n: usize) {
        8
    }

    fn pack_into(&self, out: &mut Vec<u8>) {
        self.hard_link_count.pack_into(out);
        self.device.pack_into(out);
        assert(out@ =~= old(out)@ + self.spec_to_packed());
    }

    fn from_packed(bytes: &[u8]) -> (r: Self) {
        BasicDevice {
            hard_link_count: u32::from_packed(slice_subrange(bytes, 0, 4)),
            device: DeviceNumber::from_packed(slice_subrange(bytes, 4, 8)),
        }
    }
}

impl PackedStruct for ExtendedDevice {
    open spec fn spec_size() -> nat {
        12
    }

    open spec fn spec_to_packed(&self) -> Seq<u8> {
        self.hard_link_count.spec_to_packed()
            + self.device.spec_to_packed()
            + self.xattr_idx.spec_to_packed()
    }

    open spec fn spec_from_packed(bytes: Seq<u8>) -> Self {
        ExtendedDevice {
            hard_link_count: u32::spec_from_packed(bytes.subrange(0, 4)),
            device: DeviceNumber::spec_from_packed(bytes.subrange(4, 8)),
            xattr_idx: xattr::Idx::spec_from_packed(bytes.subrange(8, 12)),
        }
    }

    proof fn lemma_round_trip(&self) {
        let bytes = self.spec_to_packed();
        self.hard_link_count.lemma_round_trip();
        self.device.lemma_round_trip();
        self.xattr_idx.lemma_round_trip();
        lemma_concat_subranges();
        assert(bytes.subrange(0, 4) == self.hard_link_count.spec_to_packed());
        assert(bytes.subrange(4, 8) == self.device.spec_to_packed());
        assert(bytes.subrange(8, 12) == self.xattr_idx.spec_to_packed());
    }

    fn size() -> (n: usize) {
        12
    }

    fn pack_into(&self, out: &mut Vec<u8>) {
        self.hard_link_count.pack_into(out);
        self.device.pack_into(out);
        self.xattr_idx.pack_into(out);
        assert(out@ =~= old(out)@ + self.spec_to_packed());
    }

    fn from_packed(bytes: &[u8]) -> (r: Self) {
        ExtendedDevice {
            hard_link_count: u32::from_packed(slice_subrange(bytes, 0, 4)),
            device: DeviceNumber::from_packed(slice_subrange(bytes, 4, 8)),
            xattr_idx: xattr::Idx::from_packed(slice_subrange(bytes, 8, 12)),
        }
    }
}

impl PackedStruct for BasicIpc {
    open spec fn spec_size() -> nat {
        4
    }

    open spec fn spec_to_packed(&self) -> Seq<u8> {
        self.hard_link_count.spec_to_packed()
    }

    open spec fn spec_from_packed(bytes: Seq<u8>) -> Self {
        BasicIpc {
            hard_link_count: u32::spec_from_packed(bytes.subrange(0, 4)),
        }
    }

    proof fn lemma_round_trip(&self) {
        self.hard_link_count.lemma_round_trip();
        assert(self.spec_to_packed().subrange(0, 4) =~= self.spec_to_packed());
    }

    fn size() -> (n: usize) {
        4
    }

    fn pack_into(&self, out: &mut Vec<u8>) {
        self.hard_link_count.pack_into(out);
    }

    fn from_packed(bytes: &[u8]) -> (r: Self) {
        BasicIpc {
            hard_link_count: u32::from_packed(slice_subrange(bytes, 0, 4)),
        }
    }
}

impl PackedStruct for ExtendedIpc {
    open spec fn spec_size() -> nat {
        8
    }

    open spec fn spec_to_packed(&self) -> Seq<u8> {
        self.hard_link_count.spec_to_packed() + self.xattr_idx.spec_to_packed()
    }

    open spec fn spec_from_packed(bytes: Seq<u8>) -> Self {
        ExtendedIpc {
            hard_link_count: u32::spec_from_packed(bytes.subrange(0, 4)),
            xattr_idx: xattr::Idx::spec_from_packed(bytes.subrange(4, 8)),
        }
    }

    proof fn lemma_round_trip(&self) {
        let bytes = self.spec_to_packed();
        self.hard_link_count.lemma_round_trip();
        self.xattr_idx.lemma_round_trip();
        lemma_concat_subranges();
        assert(bytes.subrange(0, 4) == self.hard_link_count.spec_to_packed());
        assert(bytes.subrange(4, 8) == self.xattr_idx.spec_to_packed());
    }

    fn size() -> (n: usize) {
        8
    }

    fn pack_into(&self, out: &mut Vec<u8>) {
        self.hard_link_count.pack_into(out);
        self.xattr_idx.pack_into(out);
        assert(out@ =~= old(out)@ + self.spec_to_packed());
    }

    fn from_packed(bytes: &[u8]) -> (r: Self) {
        ExtendedIpc {
            hard_link_count: u32::from_packed(slice_subrange(bytes, 0, 4)),
            xattr_idx: xattr::Idx::from_packed(slice_subrange(bytes, 4, 8)),
        }
    }
}

} // verus!
