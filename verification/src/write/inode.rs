//! The writer of the inode table.
//!
//! Every item of an archive gets one inode: a header, then a body that
//! depends on the kind of the item. An inode is written in its extended form
//! where the basic form cannot hold it.

use crate::bytes::append_bytes;
use crate::bytes::lemma_concat_assoc;
use crate::compression::AnyCodec;
use crate::errors::Error;
use crate::errors::ErrorInner;
use crate::errors::ItemError;
use crate::packed::PackedStruct;
use crate::repr::datablock;
use crate::repr::directory;
use crate::repr::fragment;
use crate::repr::inode;
use crate::repr::inode::dir_hardlink_count;
use crate::repr::inode::spec_dir_hardlink_count;
use crate::repr::metablock;
use crate::repr::metablock::SIZE;
use crate::repr::mode::Mode;
use crate::repr::mode::PERM_MASK;
use crate::repr::uid_gid;
use crate::repr::xattr;
use crate::write::metablock_writer::MetablockWriter;
use vstd::prelude::*;

verus! {

/// What all kinds of inodes have in common.
#[derive(Debug, Copy, Clone, PartialEq, Eq)]
pub struct Common {
    pub permissions: Mode,
    pub uid_idx: uid_gid::Idx,
    pub gid_idx: uid_gid::Idx,
    pub modified_time: u32,
    pub hardlink_count: u32,
    pub xattr_idx: xattr::Idx,
    /// Asks for the extended form also where the basic one would do.
    pub force_ext: bool,
}

/// An entry of the index of a directory: where a header of its listing
/// lies, and the name of the first entry behind that header.
#[derive(Debug, Clone, PartialEq, Eq)]
pub struct DirIndex {
    /// The offset in bytes from the first header of the listing.
    pub index: u32,
    /// Where the metadata block with the header starts.
    pub start: u32,
    pub name: Vec<u8>,
}

#[derive(Debug, Clone, PartialEq, Eq)]
pub struct DirData {
    /// Where the listing starts in the directory table.
    pub dir_ref: directory::Ref,
    /// The uncompressed size of the listing.
    pub dir_size: u32,
    pub parent_inode_num: inode::Idx,
    pub child_count: u32,
    /// The index of the listing, which only the extended form stores.
    pub header_locations: Option<Vec<DirIndex>>,
}

#[derive(Debug, Clone, PartialEq, Eq)]
pub struct FileData {
    pub blocks_start: datablock::Ref,
    pub file_size: u64,
    pub sparse_bytes: u64,
    pub fragment_block_idx: fragment::Idx,
    pub fragment_offset: u32,
    pub block_sizes: Vec<u32>,
}

#[derive(Debug, Clone, PartialEq, Eq)]
pub struct SymlinkData {
    pub target_path: Vec<u8>,
}

#[derive(Debug, Copy, Clone, PartialEq, Eq)]
pub struct DeviceData {
    pub device: inode::DeviceNumber,
}

/// The kind of an item, with what belongs to that kind.
#[derive(Debug, Clone, PartialEq, Eq)]
pub enum Data {
    Directory(DirData),
    File(FileData),
    Symlink(SymlinkData),
    BlockDev(DeviceData),
    CharDev(DeviceData),
    Fifo,
    Socket,
}

/// An item to write an inode for.
#[derive(Debug, Clone, PartialEq, Eq)]
pub struct Entry {
    pub common: Common,
    pub data: Data,
}

/// The block sizes on disk: 32 bits each.
pub open spec fn spec_block_sizes_bytes(sizes: Seq<u32>) -> Seq<u8>
    decreases sizes.len(),
{
    if sizes.len() == 0 {
        Seq::empty()
    } else {
        spec_block_sizes_bytes(sizes.drop_last()) + sizes.last().spec_to_packed()
    }
}

/// One entry of a directory index on disk: the packed entry, then the name.
pub open spec fn spec_dir_index_bytes(entry: DirIndex) -> Seq<u8> {
    directory::Index {
        index: entry.index,
        start: entry.start,
        name_size: (entry.name@.len() - 1) as u32,
    }.spec_to_packed() + entry.name@
}

/// The entries of a directory index on disk, one after the other.
pub open spec fn spec_dir_indexes_bytes(entries: Seq<DirIndex>) -> Seq<u8>
    decreases entries.len(),
{
    if entries.len() == 0 {
        Seq::empty()
    } else {
        spec_dir_indexes_bytes(entries.drop_last()) + spec_dir_index_bytes(entries.last())
    }
}

/// The number of bytes of the entries of a directory index on disk.
pub open spec fn spec_dir_indexes_size(entries: Seq<DirIndex>) -> nat
    decreases entries.len(),
{
    if entries.len() == 0 {
        0
    } else {
        spec_dir_indexes_size(entries.drop_last()) + 12 + entries.last().name@.len()
    }
}

/// Every name of the index has at least one byte and at most as many as 32
/// bits can say, less one.
pub open spec fn spec_dir_indexes_ok(entries: Seq<DirIndex>) -> bool {
    forall|i: int| 0 <= i < entries.len() ==> 1 <= (#[trigger] entries[i]).name@.len() <= u32::MAX
}

/// The body of a basic directory inode.
pub open spec fn spec_basic_dir(common: Common, data: DirData) -> inode::BasicDir {
    inode::BasicDir {
        block_idx: data.dir_ref.spec_block_start(),
        hard_link_count: spec_dir_hardlink_count(common.hardlink_count, data.child_count) as u32,
        file_size: data.dir_size as u16,
        block_offset: data.dir_ref.spec_start_offset(),
        parent_inode_number: data.parent_inode_num,
    }
}

/// The index of a directory, empty where it has none.
pub open spec fn spec_locations(data: DirData) -> Seq<DirIndex> {
    match data.header_locations {
        Some(locations) => locations@,
        None => Seq::empty(),
    }
}

/// The body of an extended directory inode, without its index.
pub open spec fn spec_ext_dir(common: Common, data: DirData) -> inode::ExtendedDir {
    inode::ExtendedDir {
        hard_link_count: spec_dir_hardlink_count(common.hardlink_count, data.child_count) as u32,
        file_size: data.dir_size,
        block_idx: data.dir_ref.spec_block_start(),
        parent_inode_number: data.parent_inode_num,
        index_count: spec_locations(data).len() as u16,
        block_offset: data.dir_ref.spec_start_offset(),
        xattr_idx: common.xattr_idx,
    }
}

/// Why a directory cannot be stored, if it cannot: its link count does not
/// fit, its index has too many entries, or a name of its index is empty or
/// too long.
pub open spec fn spec_dir_rejected(common: Common, data: DirData) -> Option<ItemError> {
    if spec_dir_hardlink_count(common.hardlink_count, data.child_count) > u32::MAX {
        Some(ItemError::TooManyLinks)
    } else if spec_locations(data).len() > u16::MAX {
        Some(ItemError::TooManyIndexEntries)
    } else if exists|i: int|
        0 <= i < spec_locations(data).len() && (#[trigger] spec_locations(data)[i]).name@.len() == 0 {
        Some(ItemError::EmptyName)
    } else if !spec_dir_indexes_ok(spec_locations(data)) {
        Some(ItemError::NameTooLong)
    } else {
        None
    }
}

/// The body of a basic file inode, without its block sizes.
pub open spec fn spec_basic_file(data: FileData) -> inode::BasicFile {
    inode::BasicFile {
        blocks_start: data.blocks_start.0 as u32,
        fragment_block_index: data.fragment_block_idx.0,
        block_offset: data.fragment_offset,
        file_size: data.file_size as u32,
    }
}

/// The body of an extended file inode, without its block sizes.
pub open spec fn spec_ext_file(common: Common, data: FileData) -> inode::ExtendedFile {
    inode::ExtendedFile {
        blocks_start: data.blocks_start.0,
        file_size: data.file_size,
        sparse: data.sparse_bytes,
        hard_link_count: common.hardlink_count,
        fragment_block_index: data.fragment_block_idx.0,
        block_offset: data.fragment_offset,
        xattr_idx: common.xattr_idx,
    }
}

/// Why a symlink cannot be stored, if it cannot: its target is empty or too
/// long.
pub open spec fn spec_symlink_rejected(data: SymlinkData) -> Option<ItemError> {
    if data.target_path@.len() == 0 {
        Some(ItemError::EmptySymlinkTarget)
    } else if data.target_path@.len() > u32::MAX {
        Some(ItemError::SymlinkTargetTooLong)
    } else {
        None
    }
}

/// The body of a symlink inode: the packed record, the target, and the xattr
/// index in the extended form.
pub open spec fn spec_symlink_body(common: Common, data: SymlinkData, extended: bool) -> Seq<u8> {
    let body = inode::Symlink {
        hard_link_count: common.hardlink_count,
        target_size: data.target_path@.len() as u32,
    }.spec_to_packed() + data.target_path@;
    if extended {
        body + common.xattr_idx.spec_to_packed()
    } else {
        body
    }
}

pub open spec fn spec_basic_device(common: Common, data: DeviceData) -> inode::BasicDevice {
    inode::BasicDevice { hard_link_count: common.hardlink_count, device: data.device }
}

pub open spec fn spec_ext_device(common: Common, data: DeviceData) -> inode::ExtendedDevice {
    inode::ExtendedDevice {
        hard_link_count: common.hardlink_count,
        device: data.device,
        xattr_idx: common.xattr_idx,
    }
}

pub open spec fn spec_basic_ipc(common: Common) -> inode::BasicIpc {
    inode::BasicIpc { hard_link_count: common.hardlink_count }
}

pub open spec fn spec_ext_ipc(common: Common) -> inode::ExtendedIpc {
    inode::ExtendedIpc { hard_link_count: common.hardlink_count, xattr_idx: common.xattr_idx }
}

impl Data {
    pub open spec fn spec_inode_kind(self, extended: bool) -> inode::Kind {
        inode::Kind(
            match self {
                Data::Directory(_) => if extended {
                    inode::EXT_DIR
                } else {
                    inode::BASIC_DIR
                },
                Data::File(_) => if extended {
                    inode::EXT_FILE
                } else {
                    inode::BASIC_FILE
                },
                Data::Symlink(_) => if extended {
                    inode::EXT_SYMLINK
                } else {
                    inode::BASIC_SYMLINK
                },
                Data::BlockDev(_) => if extended {
                    inode::EXT_BLOCK_DEV
                } else {
                    inode::BASIC_BLOCK_DEV
                },
                Data::CharDev(_) => if extended {
                    inode::EXT_CHAR_DEV
                } else {
                    inode::BASIC_CHAR_DEV
                },
                Data::Fifo => if extended {
                    inode::EXT_FIFO
                } else {
                    inode::BASIC_FIFO
                },
                Data::Socket => if extended {
                    inode::EXT_SOCKET
                } else {
                    inode::BASIC_SOCKET
                },
            },
        )
    }

    /// The kind of the inode of the item, in the basic or the extended form.
    pub fn inode_kind(&self, extended: bool) -> (r: inode::Kind)
        ensures
            r == self.spec_inode_kind(extended),
            r.spec_is_extended() == extended,
            r.spec_to_basic() == self.spec_inode_kind(false),
    {
        match (self, extended) {
            (Data::Directory(_), false) => inode::Kind(inode::BASIC_DIR),
            (Data::Directory(_), true) => inode::Kind(inode::EXT_DIR),
            (Data::File(_), false) => inode::Kind(inode::BASIC_FILE),
            (Data::File(_), true) => inode::Kind(inode::EXT_FILE),
            (Data::Symlink(_), false) => inode::Kind(inode::BASIC_SYMLINK),
            (Data::Symlink(_), true) => inode::Kind(inode::EXT_SYMLINK),
            (Data::BlockDev(_), false) => inode::Kind(inode::BASIC_BLOCK_DEV),
            (Data::BlockDev(_), true) => inode::Kind(inode::EXT_BLOCK_DEV),
            (Data::CharDev(_), false) => inode::Kind(inode::BASIC_CHAR_DEV),
            (Data::CharDev(_), true) => inode::Kind(inode::EXT_CHAR_DEV),
            (Data::Fifo, false) => inode::Kind(inode::BASIC_FIFO),
            (Data::Fifo, true) => inode::Kind(inode::EXT_FIFO),
            (Data::Socket, false) => inode::Kind(inode::BASIC_SOCKET),
            (Data::Socket, true) => inode::Kind(inode::EXT_SOCKET),
        }
    }
}

impl Entry {
    /// Whether the inode takes the extended form: it is asked for, the item
    /// has extended attributes, or a field of the basic form is too narrow.
    ///
    /// For a directory that is a listing of more than 65535 bytes, or an
    /// index. For a file that is more than one link, a start of the blocks or
    /// a size beyond 32 bits, or sparse bytes.
    pub open spec fn spec_needs_ext(self) -> bool {
        ||| self.common.force_ext
        ||| self.common.xattr_idx.spec_is_some()
        ||| match self.data {
            Data::Directory(data) => data.header_locations is Some || data.dir_size > u16::MAX,
            Data::File(data) => {
                ||| self.common.hardlink_count > 1
                ||| data.blocks_start.0 > u32::MAX
                ||| data.file_size > u32::MAX
                ||| data.sparse_bytes > 0
            },
            _ => false,
        }
    }

    /// Why the item cannot be stored, if it cannot.
    pub open spec fn spec_rejected(self) -> Option<ItemError> {
        match self.data {
            Data::Directory(data) => if !self.spec_needs_ext() {
                if spec_dir_hardlink_count(self.common.hardlink_count, data.child_count)
                    > u32::MAX {
                    Some(ItemError::TooManyLinks)
                } else {
                    None
                }
            } else {
                spec_dir_rejected(self.common, data)
            },
            Data::Symlink(data) => spec_symlink_rejected(data),
            _ => None,
        }
    }

    /// What follows the header of the inode.
    pub open spec fn spec_body_bytes(self) -> Seq<u8> {
        let common = self.common;
        let extended = self.spec_needs_ext();
        match self.data {
            Data::Directory(data) => if !extended {
                spec_basic_dir(common, data).spec_to_packed()
            } else {
                spec_ext_dir(common, data).spec_to_packed() + spec_dir_indexes_bytes(
                    spec_locations(data),
                )
            },
            Data::File(data) => if !extended {
                spec_basic_file(data).spec_to_packed() + spec_block_sizes_bytes(data.block_sizes@)
            } else {
                spec_ext_file(common, data).spec_to_packed() + spec_block_sizes_bytes(
                    data.block_sizes@,
                )
            },
            Data::Symlink(data) => spec_symlink_body(common, data, extended),
            Data::BlockDev(data) | Data::CharDev(data) => if !extended {
                spec_basic_device(common, data).spec_to_packed()
            } else {
                spec_ext_device(common, data).spec_to_packed()
            },
            Data::Fifo | Data::Socket => if !extended {
                spec_basic_ipc(common).spec_to_packed()
            } else {
                spec_ext_ipc(common).spec_to_packed()
            },
        }
    }

    /// The header of the inode, for the given inode number.
    pub open spec fn spec_header(self, inode_number: u32) -> inode::Header {
        inode::Header {
            inode_type: self.data.spec_inode_kind(self.spec_needs_ext()),
            permissions: Mode { bits: self.common.permissions.bits & PERM_MASK },
            uid_idx: self.common.uid_idx,
            gid_idx: self.common.gid_idx,
            modified_time: self.common.modified_time,
            inode_number: inode::Idx(inode_number),
        }
    }

    /// The inode on disk, for the given inode number: the header, then the
    /// body.
    pub open spec fn spec_inode_bytes(self, inode_number: u32) -> Seq<u8> {
        self.spec_header(inode_number).spec_to_packed() + self.spec_body_bytes()
    }

    /// Whether the inode takes the extended form.
    pub fn needs_ext(&self) -> (r: bool)
        ensures
            r == self.spec_needs_ext(),
    {
        if self.common.force_ext || self.common.xattr_idx.is_some() {
            return true;
        }
        match &self.data {
            Data::Directory(data) => data.header_locations.is_some() || data.dir_size
                > u16::MAX as u32,
            Data::File(data) => {
                self.common.hardlink_count > 1 || data.blocks_start.0 > u32::MAX as u64
                    || data.file_size > u32::MAX as u64 || data.sparse_bytes > 0
            },
            _ => false,
        }
    }
}

/// The block sizes take four bytes each.
pub proof fn lemma_block_sizes_len(sizes: Seq<u32>)
    ensures
        spec_block_sizes_bytes(sizes).len() == 4 * sizes.len(),
    decreases sizes.len(),
{
    if sizes.len() > 0 {
        lemma_block_sizes_len(sizes.drop_last());
        sizes.last().lemma_round_trip();
    }
}

/// The entries of a directory index take twelve bytes each and their
/// names.
pub proof fn lemma_dir_indexes_len(entries: Seq<DirIndex>)
    ensures
        spec_dir_indexes_bytes(entries).len() == spec_dir_indexes_size(entries),
    decreases entries.len(),
{
    if entries.len() > 0 {
        lemma_dir_indexes_len(entries.drop_last());
        let entry = entries.last();
        (directory::Index {
            index: entry.index,
            start: entry.start,
            name_size: (entry.name@.len() - 1) as u32,
        }).lemma_round_trip();
    }
}

/// The entries of a directory index whose names have at most `longest`
/// bytes take at most twelve bytes and `longest` each.
pub proof fn lemma_dir_indexes_bound(entries: Seq<DirIndex>, longest: nat)
    requires
        forall|i: int| 0 <= i < entries.len() ==> (#[trigger] entries[i]).name@.len() <= longest,
    ensures
        spec_dir_indexes_size(entries) <= entries.len() * (12 + longest),
    decreases entries.len(),
{
    if entries.len() > 0 {
        let front = entries.drop_last();
        assert forall|i: int| 0 <= i < front.len() implies (#[trigger] front[i]).name@.len()
            <= longest by {
            assert(front[i] == entries[i]);
        }
        lemma_dir_indexes_bound(front, longest);
        assert((entries.len() - 1) * (12 + longest) + (12 + longest) == entries.len() * (12
            + longest)) by (nonlinear_arith);
    } else {
        assert(0 * (12 + longest) == 0) by (nonlinear_arith);
    }
}

/// The number of bytes that an inode takes beyond its records of fixed
/// size: the index of a directory, the block sizes of a file, and the
/// target of a link.
pub open spec fn spec_inode_extent(data: Data) -> nat {
    match data {
        Data::Directory(dir) => spec_dir_indexes_size(spec_locations(dir)),
        Data::File(file) => 4 * file.block_sizes@.len(),
        Data::Symlink(link) => link.target_path@.len(),
        _ => 0,
    }
}

/// An inode takes at most 64 bytes for its records of fixed size.
pub proof fn lemma_inode_len(entry: Entry, number: u32)
    ensures
        entry.spec_inode_bytes(number).len() <= 64 + spec_inode_extent(entry.data),
{
    let common = entry.common;
    entry.spec_header(number).lemma_round_trip();
    common.xattr_idx.lemma_round_trip();
    match entry.data {
        Data::Directory(data) => {
            spec_basic_dir(common, data).lemma_round_trip();
            spec_ext_dir(common, data).lemma_round_trip();
            lemma_dir_indexes_len(spec_locations(data));
        },
        Data::File(data) => {
            spec_basic_file(data).lemma_round_trip();
            spec_ext_file(common, data).lemma_round_trip();
            lemma_block_sizes_len(data.block_sizes@);
        },
        Data::Symlink(data) => {
            (inode::Symlink {
                hard_link_count: common.hardlink_count,
                target_size: data.target_path@.len() as u32,
            }).lemma_round_trip();
        },
        Data::BlockDev(data) => {
            spec_basic_device(common, data).lemma_round_trip();
            spec_ext_device(common, data).lemma_round_trip();
        },
        Data::CharDev(data) => {
            spec_basic_device(common, data).lemma_round_trip();
            spec_ext_device(common, data).lemma_round_trip();
        },
        Data::Fifo => {
            spec_basic_ipc(common).lemma_round_trip();
            spec_ext_ipc(common).lemma_round_trip();
        },
        Data::Socket => {
            spec_basic_ipc(common).lemma_round_trip();
            spec_ext_ipc(common).lemma_round_trip();
        },
    }
}

/// Appends the block sizes, 32 bits each.
fn write_block_sizes(out: &mut Vec<u8>, sizes: &Vec<u32>)
    ensures
        final(out)@ == old(out)@ + spec_block_sizes_bytes(sizes@),
{
    let mut i: usize = 0;
    assert(sizes@.subrange(0, 0) =~= Seq::<u32>::empty());
    assert(out@ =~= old(out)@ + spec_block_sizes_bytes(sizes@.subrange(0, 0)));
    while i < sizes.len()
        invariant
            i <= sizes@.len(),
            out@ == old(out)@ + spec_block_sizes_bytes(sizes@.subrange(0, i as int)),
        decreases sizes@.len() - i,
    {
        sizes[i].pack_into(out);
        proof {
            let next = sizes@.subrange(0, i + 1);
            assert(next.drop_last() =~= sizes@.subrange(0, i as int));
            lemma_concat_assoc(
                old(out)@,
                spec_block_sizes_bytes(sizes@.subrange(0, i as int)),
                sizes@[i as int].spec_to_packed(),
            );
        }
        i += 1;
    }
    assert(sizes@.subrange(0, i as int) =~= sizes@);
}

/// Checks the names of a directory index: the first error, if there is one.
fn check_dir_indexes(entries: &Vec<DirIndex>) -> (r: Option<ItemError>)
    ensures
        r == if exists|i: int| 0 <= i < entries@.len() && (#[trigger] entries@[i]).name@.len() == 0 {
            Some(ItemError::EmptyName)
        } else if !spec_dir_indexes_ok(entries@) {
            Some(ItemError::NameTooLong)
        } else {
            None::<ItemError>
        },
{
    let mut i: usize = 0;
    let mut too_long = false;
    while i < entries.len()
        invariant
            i <= entries@.len(),
            forall|j: int| 0 <= j < i ==> (#[trigger] entries@[j]).name@.len() > 0,
            too_long <==> exists|j: int| 0 <= j < i && (#[trigger] entries@[j]).name@.len() > u32::MAX,
        decreases entries@.len() - i,
    {
        let len = entries[i].name.len();
        if len == 0 {
            return Some(ItemError::EmptyName);
        }
        if len > u32::MAX as usize {
            too_long = true;
        }
        i += 1;
    }
    if too_long {
        Some(ItemError::NameTooLong)
    } else {
        None
    }
}

/// Appends the entries of a directory index.
fn write_dir_indexes(out: &mut Vec<u8>, entries: &Vec<DirIndex>)
    requires
        spec_dir_indexes_ok(entries@),
    ensures
        final(out)@ == old(out)@ + spec_dir_indexes_bytes(entries@),
{
    let mut i: usize = 0;
    assert(entries@.subrange(0, 0) =~= Seq::<DirIndex>::empty());
    assert(out@ =~= old(out)@ + spec_dir_indexes_bytes(entries@.subrange(0, 0)));
    while i < entries.len()
        invariant
            i <= entries@.len(),
            spec_dir_indexes_ok(entries@),
            out@ == old(out)@ + spec_dir_indexes_bytes(entries@.subrange(0, i as int)),
        decreases entries@.len() - i,
    {
        let entry = &entries[i];
        let ghost before = out@;
        let raw = directory::Index {
            index: entry.index,
            start: entry.start,
            name_size: (entry.name.len() - 1) as u32,
        };
        raw.pack_into(out);
        append_bytes(out, entry.name.as_slice());
        proof {
            let next = entries@.subrange(0, i + 1);
            assert(next.drop_last() =~= entries@.subrange(0, i as int));
            lemma_concat_assoc(before, raw.spec_to_packed(), entry.name@);
            lemma_concat_assoc(
                old(out)@,
                spec_dir_indexes_bytes(entries@.subrange(0, i as int)),
                spec_dir_index_bytes(*entry),
            );
        }
        i += 1;
    }
    assert(entries@.subrange(0, i as int) =~= entries@);
}

/// The inode table of an archive.
pub struct Table {
    writer: MetablockWriter<AnyCodec>,
    count: u32,
}

impl Table {
    /// The stream that holds the inodes.
    pub closed spec fn writer(&self) -> MetablockWriter<AnyCodec> {
        self.writer
    }

    /// The number that the next inode gets: one more than the number of
    /// inodes written so far.
    pub closed spec fn spec_count(&self) -> u32 {
        self.count
    }

    pub open spec fn wf(&self) -> bool {
        self.writer().wf()
    }

    /// A table without inodes. Inodes are numbered from 1 on, in the order
    /// in which they are added.
    pub fn new(compressor: Option<AnyCodec>) -> (r: Table)
        ensures
            r.wf(),
            r.spec_count() == 1,
            r.writer().has_compressor() == compressor is Some,
            r.writer().appended() == Seq::<u8>::empty(),
            r.writer().output() == Seq::<u8>::empty(),
    {
        let table = Table { writer: MetablockWriter::new(compressor), count: 1 };
        assert(table.writer().appended() =~= Seq::<u8>::empty());
        table
    }

    /// The number that the next inode gets: one more than the number of
    /// inodes written so far.
    pub fn count(&self) -> (r: u32)
        ensures
            r == self.spec_count(),
    {
        self.count
    }

    /// Ends the table and hands out the bytes of its stream.
    pub fn finish(self) -> (r: Vec<u8>)
        requires
            self.wf(),
        ensures
            exists|last: crate::write::metablock_writer::Metablock|
                {
                    &&& last.wf()
                    &&& last.body == self.writer().current()
                    &&& !self.writer().has_compressor() ==> !last.compressed
                    &&& r@ == crate::write::metablock_writer::spec_frames(
                        #[trigger] self.writer().blocks().push(last),
                    )
                    &&& crate::write::metablock_writer::spec_stream_of(
                        self.writer().blocks().push(last),
                        r@,
                        self.writer().appended(),
                        !self.writer().has_compressor(),
                    )
                },
            r@.len() <= (self.writer().appended().len() / (SIZE as nat) + 1) * (SIZE + 2),
            crate::write::metablock_writer::spec_stream(
                r@,
                self.writer().appended(),
                !self.writer().has_compressor(),
            ),
    {
        self.writer.finish()
    }

    /// Whether the table can take an inode of `len` bytes: the output stays
    /// below 4 GiB, and the inode numbers do not run out.
    pub open spec fn spec_has_room(&self, len: nat) -> bool {
        &&& self.writer().spec_output_bound(len) <= u32::MAX
        &&& self.spec_count() < u32::MAX
    }

    /// Writes the inode of an item and returns the reference to it: where the
    /// inode starts in the table.
    ///
    /// An item that cannot be stored is rejected, and so is one that the
    /// table has no room for; the table then stays as it is.
    pub fn add(&mut self, entry: &Entry) -> (r: Result<inode::Ref, Error>)
        requires
            old(self).wf(),
        ensures
            final(self).wf(),
            final(self).writer().has_compressor() == old(self).writer().has_compressor(),
            match entry.spec_rejected() {
                Some(e) => {
                    &&& r == Err::<inode::Ref, Error>(Error(ErrorInner::Item(e)))
                    &&& *final(self) == *old(self)
                },
                None => if old(self).spec_has_room(
                    entry.spec_inode_bytes(old(self).spec_count()).len(),
                ) {
                    &&& r matches Ok(inode_ref)
                    &&& inode_ref.spec_block_idx() == old(self).writer().output().len()
                    &&& inode_ref.spec_start_offset() == old(self).writer().current().len()
                    &&& final(self).spec_count() == old(self).spec_count() + 1
                    &&& final(self).writer().appended() == old(self).writer().appended()
                        + entry.spec_inode_bytes(old(self).spec_count())
                    &&& old(self).writer().blocks().len() <= final(self).writer().blocks().len()
                    &&& old(self).writer().blocks() == final(self).writer().blocks().subrange(
                        0,
                        old(self).writer().blocks().len() as int,
                    )
                } else {
                    &&& r == Err::<inode::Ref, Error>(
                        Error(ErrorInner::Item(ItemError::TableTooLarge)),
                    )
                    &&& *final(self) == *old(self)
                },
            },
    {
        let extended = entry.needs_ext();
        let inode_number = inode::Idx(self.count);
        let header = inode::Header {
            inode_type: entry.data.inode_kind(extended),
            permissions: entry.common.permissions.permissions(),
            uid_idx: entry.common.uid_idx,
            gid_idx: entry.common.gid_idx,
            modified_time: entry.common.modified_time,
            inode_number,
        };
        let mut bytes: Vec<u8> = Vec::new();
        header.pack_into(&mut bytes);
        let common = &entry.common;
        let body = match &entry.data {
            Data::Directory(dir_data) => {
                if !extended {
                    write_basic_dir(&mut bytes, common, dir_data)
                } else {
                    write_ext_dir(&mut bytes, common, dir_data)
                }
            },
            Data::File(file_data) => {
                if !extended {
                    write_basic_file(&mut bytes, file_data);
                } else {
                    write_ext_file(&mut bytes, common, file_data);
                }
                None
            },
            Data::Symlink(symlink_data) => write_symlink(&mut bytes, common, symlink_data, extended),
            Data::BlockDev(dev_data) | Data::CharDev(dev_data) => {
                if !extended {
                    write_basic_device(&mut bytes, common, dev_data);
                } else {
                    write_ext_device(&mut bytes, common, dev_data);
                }
                None
            },
            Data::Fifo | Data::Socket => {
                if !extended {
                    write_basic_ipc(&mut bytes, common);
                } else {
                    write_ext_ipc(&mut bytes, common);
                }
                None
            },
        };
        if let Some(e) = body {
            return Err(Error(ErrorInner::Item(e)));
        }
        let filled: u128 = self.writer.buffered_len() as u128 + bytes.len() as u128;
        let bound: u128 = self.writer.output_len() as u128 + (filled / SIZE as u128) * (SIZE as u128
            + 2);
        if bound > u32::MAX as u128 || self.count == u32::MAX {
            return Err(Error(ErrorInner::Item(ItemError::TableTooLarge)));
        }
        proof {
            crate::write::dir::lemma_bound_monotone(self.writer, 0, bytes@.len());
        }
        let position = self.writer.position();
        self.writer.write_raw(bytes.as_slice());
        self.count += 1;
        Ok(inode::Ref(position.0))
    }
}

fn write_basic_dir(out: &mut Vec<u8>, common: &Common, data: &DirData) -> (r: Option<ItemError>)
    requires
        data.header_locations is None,
        data.dir_size <= u16::MAX,
    ensures
        spec_dir_hardlink_count(common.hardlink_count, data.child_count) > u32::MAX ==> r == Some(
            ItemError::TooManyLinks,
        ),
        spec_dir_hardlink_count(common.hardlink_count, data.child_count) <= u32::MAX ==> r.is_none()
            && final(out)@ == old(out)@ + spec_basic_dir(*common, *data).spec_to_packed(),
{
    let hard_link_count = match dir_hardlink_count(common.hardlink_count, data.child_count) {
        Some(count) => count,
        None => {
            return Some(ItemError::TooManyLinks);
        },
    };
    let body = inode::BasicDir {
        block_idx: data.dir_ref.block_start(),
        hard_link_count,
        file_size: data.dir_size as u16,
        block_offset: data.dir_ref.start_offset(),
        parent_inode_number: data.parent_inode_num,
    };
    body.pack_into(out);
    None
}

fn write_ext_dir(out: &mut Vec<u8>, common: &Common, data: &DirData) -> (r: Option<ItemError>)
    ensures
        r == spec_dir_rejected(*common, *data),
        r.is_none() ==> final(out)@ == old(out)@ + (spec_ext_dir(*common, *data).spec_to_packed()
            + spec_dir_indexes_bytes(spec_locations(*data))),
{
    let hard_link_count = match dir_hardlink_count(common.hardlink_count, data.child_count) {
        Some(count) => count,
        None => {
            return Some(ItemError::TooManyLinks);
        },
    };
    let index_count: u16 = match &data.header_locations {
        Some(locations) => {
            if locations.len() > u16::MAX as usize {
                return Some(ItemError::TooManyIndexEntries);
            }
            match check_dir_indexes(locations) {
                Some(e) => {
                    return Some(e);
                },
                None => {},
            }
            locations.len() as u16
        },
        None => 0,
    };
    let body = inode::ExtendedDir {
        hard_link_count,
        file_size: data.dir_size,
        block_idx: data.dir_ref.block_start(),
        parent_inode_number: data.parent_inode_num,
        index_count,
        block_offset: data.dir_ref.start_offset(),
        xattr_idx: common.xattr_idx,
    };
    let ghost before = out@;
    body.pack_into(out);
    match &data.header_locations {
        Some(locations) => {
            write_dir_indexes(out, locations);
            proof {
                lemma_concat_assoc(
                    before,
                    body.spec_to_packed(),
                    spec_dir_indexes_bytes(locations@),
                );
            }
        },
        None => {
            proof {
                assert(out@ =~= before + (body.spec_to_packed() + spec_dir_indexes_bytes(
                    Seq::<DirIndex>::empty(),
                )));
            }
        },
    }
    None
}

fn write_basic_file(out: &mut Vec<u8>, data: &FileData)
    requires
        data.blocks_start.0 <= u32::MAX,
        data.file_size <= u32::MAX,
    ensures
        final(out)@ == old(out)@ + (spec_basic_file(*data).spec_to_packed() + spec_block_sizes_bytes(
            data.block_sizes@,
        )),
{
    let body = inode::BasicFile {
        blocks_start: data.blocks_start.0 as u32,
        fragment_block_index: data.fragment_block_idx.0,
        block_offset: data.fragment_offset,
        file_size: data.file_size as u32,
    };
    body.pack_into(out);
    write_block_sizes(out, &data.block_sizes);
    proof {
        lemma_concat_assoc(
            old(out)@,
            body.spec_to_packed(),
            spec_block_sizes_bytes(data.block_sizes@),
        );
    }
}

fn write_ext_file(out: &mut Vec<u8>, common: &Common, data: &FileData)
    ensures
        final(out)@ == old(out)@ + (spec_ext_file(*common, *data).spec_to_packed()
            + spec_block_sizes_bytes(data.block_sizes@)),
{
    let body = inode::ExtendedFile {
        blocks_start: data.blocks_start.0,
        file_size: data.file_size,
        sparse: data.sparse_bytes,
        hard_link_count: common.hardlink_count,
        fragment_block_index: data.fragment_block_idx.0,
        block_offset: data.fragment_offset,
        xattr_idx: common.xattr_idx,
    };
    body.pack_into(out);
    write_block_sizes(out, &data.block_sizes);
    proof {
        lemma_concat_assoc(
            old(out)@,
            body.spec_to_packed(),
            spec_block_sizes_bytes(data.block_sizes@),
        );
    }
}

fn write_symlink(out: &mut Vec<u8>, common: &Common, data: &SymlinkData, extended: bool) -> (r:
    Option<ItemError>)
    ensures
        r == spec_symlink_rejected(*data),
        r.is_none() ==> final(out)@ == old(out)@ + spec_symlink_body(*common, *data, extended),
{
    if data.target_path.len() == 0 {
        return Some(ItemError::EmptySymlinkTarget);
    }
    if data.target_path.len() > u32::MAX as usize {
        return Some(ItemError::SymlinkTargetTooLong);
    }
    let body = inode::Symlink {
        hard_link_count: common.hardlink_count,
        target_size: data.target_path.len() as u32,
    };
    body.pack_into(out);
    append_bytes(out, data.target_path.as_slice());
    proof {
        lemma_concat_assoc(old(out)@, body.spec_to_packed(), data.target_path@);
    }
    if extended {
        common.xattr_idx.pack_into(out);
        proof {
            lemma_concat_assoc(
                old(out)@,
                body.spec_to_packed() + data.target_path@,
                common.xattr_idx.spec_to_packed(),
            );
        }
    }
    None
}

fn write_basic_device(out: &mut Vec<u8>, common: &Common, data: &DeviceData)
    ensures
        final(out)@ == old(out)@ + spec_basic_device(*common, *data).spec_to_packed(),
{
    let body = inode::BasicDevice { hard_link_count: common.hardlink_count, device: data.device };
    body.pack_into(out);
}

fn write_ext_device(out: &mut Vec<u8>, common: &Common, data: &DeviceData)
    ensures
        final(out)@ == old(out)@ + spec_ext_device(*common, *data).spec_to_packed(),
{
    let body = inode::ExtendedDevice {
        hard_link_count: common.hardlink_count,
        device: data.device,
        xattr_idx: common.xattr_idx,
    };
    body.pack_into(out);
}

fn write_basic_ipc(out: &mut Vec<u8>, common: &Common)
    ensures
        final(out)@ == old(out)@ + spec_basic_ipc(*common).spec_to_packed(),
{
    let body = inode::BasicIpc { hard_link_count: common.hardlink_count };
    body.pack_into(out);
}

fn write_ext_ipc(out: &mut Vec<u8>, common: &Common)
    ensures
        final(out)@ == old(out)@ + spec_ext_ipc(*common).spec_to_packed(),
{
    let body = inode::ExtendedIpc {
        hard_link_count: common.hardlink_count,
        xattr_idx: common.xattr_idx,
    };
    body.pack_into(out);
}

} // verus!
