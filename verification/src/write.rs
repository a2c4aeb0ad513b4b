//! Writing archives.
//!
//! An archive is collected item by item and written in one go. Items are
//! made with builders and referred to by the references that the archive
//! hands out; a directory lists items that were made before it. The flush
//! lays the archive out: the superblock, the data blocks and fragment
//! blocks, the inode table, the directory table, and the tables of IDs,
//! fragments and exported inodes.

pub mod datablocks;
pub mod dir;
pub mod flush;
pub mod fragments;
pub mod inode;
pub mod listing;
pub mod metablock_writer;
pub mod two_level;
pub mod uid_gid;
use crate::compression::Kind;
use crate::config::FragmentMode;
use crate::errors::Error;
use crate::errors::ErrorInner;
use crate::errors::ItemError;
use crate::packed::PackedStruct;
use crate::read::spec_block_sizes_ok;
use crate::repr;
use crate::repr::inode::DeviceNumber;
use crate::repr::mode;
use crate::repr::mode::Mode;
use crate::repr::superblock;
use crate::repr::superblock::Flags;
use crate::repr::superblock::Superblock;
use crate::repr::uid_gid::Id;
use vstd::prelude::*;

verus! {

pub const MODE_DEFAULT_DIRECTORY: u16 = mode::O755;

pub const MODE_DEFAULT_FILE: u16 = mode::O644;

/// The root that is not set yet.
pub const NO_ROOT: u32 = 0xFFFF_FFFF;

/// The time as the format stores it: the seconds since the epoch, kept
/// within 32 bits.
pub open spec fn spec_mtime(timestamp: i64) -> u32 {
    if timestamp < 0 {
        0
    } else if timestamp > u32::MAX {
        u32::MAX
    } else {
        timestamp as u32
    }
}

/// The time as the format stores it, for a time given in seconds since the
/// epoch. A time before the epoch becomes the epoch, and a time that 32
/// bits cannot hold becomes the latest one that they can.
pub fn date_time_to_mtime(timestamp: i64) -> (r: u32)
    ensures
        r == spec_mtime(timestamp),
{
    if timestamp > u32::MAX as i64 {
        u32::MAX
    } else if timestamp < 0 {
        0
    } else {
        timestamp as u32
    }
}

/// Whether `a` comes before `b` in the order of directory listings: byte by
/// byte, and a prefix before every longer name.
pub open spec fn spec_name_before(a: Seq<u8>, b: Seq<u8>) -> bool
    decreases a.len(),
{
    if b.len() == 0 {
        false
    } else if a.len() == 0 {
        true
    } else if a[0] != b[0] {
        a[0] < b[0]
    } else {
        spec_name_before(a.drop_first(), b.drop_first())
    }
}

/// Of two different names, one comes before the other.
pub proof fn lemma_name_order_total(a: Seq<u8>, b: Seq<u8>)
    ensures
        a == b || spec_name_before(a, b) || spec_name_before(b, a),
        !(spec_name_before(a, b) && spec_name_before(b, a)),
        !spec_name_before(a, a),
    decreases a.len(),
{
    if a.len() == 0 || b.len() == 0 {
        if a.len() == 0 && b.len() == 0 {
            assert(a =~= b);
        }
    } else if a[0] == b[0] {
        lemma_name_order_total(a.drop_first(), b.drop_first());
        if a.drop_first() == b.drop_first() {
            assert(a =~= seq![a[0]] + a.drop_first());
            assert(b =~= seq![b[0]] + b.drop_first());
        }
    }
    if a.len() > 0 {
        lemma_name_order_irreflexive(a);
    }
}

/// No name comes before itself.
pub proof fn lemma_name_order_irreflexive(a: Seq<u8>)
    ensures
        !spec_name_before(a, a),
    decreases a.len(),
{
    if a.len() > 0 {
        lemma_name_order_irreflexive(a.drop_first());
    }
}

/// The order of names is transitive.
pub proof fn lemma_name_order_transitive(a: Seq<u8>, b: Seq<u8>, c: Seq<u8>)
    requires
        spec_name_before(a, b),
        spec_name_before(b, c),
    ensures
        spec_name_before(a, c),
    decreases a.len(),
{
    if a.len() > 0 && b.len() > 0 && c.len() > 0 {
        if a[0] == b[0] && b[0] == c[0] {
            lemma_name_order_transitive(a.drop_first(), b.drop_first(), c.drop_first());
        }
    }
}

/// How two names stand to each other.
#[derive(Debug, Copy, Clone, PartialEq, Eq, Structural)]
pub enum NameOrder {
    Before,
    Same,
    After,
}

/// Tells how the name `a` stands to the name `b`.
pub fn name_order(a: &[u8], b: &[u8]) -> (r: NameOrder)
    ensures
        r == NameOrder::Before <==> spec_name_before(a@, b@),
        r == NameOrder::Same <==> a@ == b@,
        r == NameOrder::After <==> spec_name_before(b@, a@),
{
    let mut i: usize = 0;
    proof {
        lemma_name_order_total(a@, b@);
        assert(a@.subrange(0, a@.len() as int) =~= a@);
        assert(b@.subrange(0, b@.len() as int) =~= b@);
    }
    while i < a.len() && i < b.len()
        invariant
            i <= a@.len(),
            i <= b@.len(),
            a@.subrange(0, i as int) == b@.subrange(0, i as int),
            spec_name_before(a@, b@) == spec_name_before(
                a@.subrange(i as int, a@.len() as int),
                b@.subrange(i as int, b@.len() as int),
            ),
            spec_name_before(b@, a@) == spec_name_before(
                b@.subrange(i as int, b@.len() as int),
                a@.subrange(i as int, a@.len() as int),
            ),
        decreases a@.len() - i,
    {
        let ghost ra = a@.subrange(i as int, a@.len() as int);
        let ghost rb = b@.subrange(i as int, b@.len() as int);
        proof {
            assert(ra[0] == a@[i as int]);
            assert(rb[0] == b@[i as int]);
            assert(ra.drop_first() =~= a@.subrange(i + 1, a@.len() as int));
            assert(rb.drop_first() =~= b@.subrange(i + 1, b@.len() as int));
        }
        if a[i] < b[i] {
            proof {
                lemma_name_order_total(a@, b@);
                assert(a@ != b@);
            }
            return NameOrder::Before;
        }
        if a[i] > b[i] {
            proof {
                lemma_name_order_total(a@, b@);
                assert(a@ != b@);
            }
            return NameOrder::After;
        }
        proof {
            assert(a@.subrange(0, i + 1) =~= a@.subrange(0, i as int).push(a@[i as int]));
            assert(b@.subrange(0, i + 1) =~= b@.subrange(0, i as int).push(b@[i as int]));
        }
        i += 1;
    }
    proof {
        lemma_name_order_total(a@, b@);
        if a@.len() == b@.len() {
            assert(a@ =~= a@.subrange(0, i as int));
            assert(b@ =~= b@.subrange(0, i as int));
        } else {
            assert(a@ != b@);
        }
    }
    if a.len() < b.len() {
        NameOrder::Before
    } else if a.len() > b.len() {
        NameOrder::After
    } else {
        NameOrder::Same
    }
}

/// A reference to an item of an archive.
#[derive(Debug, Copy, Clone, PartialEq, Eq, Structural)]
pub struct ItemRef(pub u32);

/// An entry of a directory that is being collected: a name and the item of
/// that name.
#[derive(Debug, Clone, PartialEq, Eq)]
pub struct NamedItem {
    pub name: Vec<u8>,
    pub item: ItemRef,
}

/// Whether the entries are in the order of their names, each name once.
pub open spec fn spec_names_sorted(entries: Seq<NamedItem>) -> bool {
    forall|i: int, j: int|
        0 <= i < j < entries.len() ==> spec_name_before(
            (#[trigger] entries[i]).name@,
            (#[trigger] entries[j]).name@,
        )
}

/// The item of the given name, if the entries have one.
pub open spec fn spec_lookup(entries: Seq<NamedItem>, name: Seq<u8>) -> Option<ItemRef>
    decreases entries.len(),
{
    if entries.len() == 0 {
        None
    } else if entries.last().name@ == name {
        Some(entries.last().item)
    } else {
        spec_lookup(entries.drop_last(), name)
    }
}

/// A name that stands behind the first `i` names and in front of the
/// others is none of the names.
proof fn lemma_name_absent(entries: Seq<NamedItem>, name: Seq<u8>, i: int)
    requires
        0 <= i <= entries.len(),
        spec_names_sorted(entries),
        forall|k: int| 0 <= k < i ==> spec_name_before((#[trigger] entries[k]).name@, name),
        i < entries.len() ==> spec_name_before(name, entries[i].name@),
    ensures
        !spec_has_name(entries, name),
{
    assert forall|k: int| 0 <= k < entries.len() implies (#[trigger] entries[k]).name@ != name by {
        lemma_name_order_irreflexive(name);
        if k >= i {
            if k > i {
                assert(spec_name_before(entries[i].name@, entries[k].name@));
                lemma_name_order_transitive(name, entries[i].name@, entries[k].name@);
            }
        }
    }
}

/// Whether an entry has the name.
pub open spec fn spec_has_name(entries: Seq<NamedItem>, name: Seq<u8>) -> bool {
    exists|i: int| 0 <= i < entries.len() && (#[trigger] entries[i]).name@ == name
}

/// Puts the item under the name into the entries, in the place of the
/// entry of that name where there is one. The entries are as many as before
/// where the name was there, and one more elsewhere.
pub fn insert_entry(entries: &mut Vec<NamedItem>, name: Vec<u8>, item: ItemRef)
    requires
        spec_names_sorted(old(entries)@),
    ensures
        spec_names_sorted(final(entries)@),
        exists|i: int|
            0 <= i < final(entries)@.len() && (#[trigger] final(entries)@[i]).name@ == name@
                && final(entries)@[i].item == item,
        final(entries)@.len() == if spec_has_name(old(entries)@, name@) {
            old(entries)@.len()
        } else {
            old(entries)@.len() + 1
        },
        forall|i: int|
            0 <= i < old(entries)@.len() && (#[trigger] old(entries)@[i]).name@ != name@
                ==> exists|j: int|
                0 <= j < final(entries)@.len() && #[trigger] final(entries)@[j] == old(entries)@[i],
{
    let mut i: usize = 0;
    while i < entries.len()
        invariant
            i <= entries@.len(),
            entries@ == old(entries)@,
            spec_names_sorted(entries@),
            forall|k: int| 0 <= k < i ==> spec_name_before((#[trigger] entries@[k]).name@, name@),
        decreases entries@.len() - i,
    {
        match name_order(entries[i].name.as_slice(), name.as_slice()) {
            NameOrder::Before => {},
            NameOrder::Same => {
                let ghost before = entries@;
                proof {
                    assert(before[i as int].name@ == name@);
                    assert(spec_has_name(before, name@));
                }
                let entry = NamedItem { name, item };
                entries.set(i, entry);
                proof {
                    assert forall|a: int, b: int| 0 <= a < b < entries@.len() implies spec_name_before(
                        (#[trigger] entries@[a]).name@,
                        (#[trigger] entries@[b]).name@,
                    ) by {
                        assert(spec_name_before(before[a].name@, before[b].name@));
                    }
                    assert(entries@[i as int].name@ == name@);
                    assert forall|k: int|
                        0 <= k < old(entries)@.len() && (#[trigger] old(entries)@[k]).name@
                            != name@ implies exists|j: int|
                        0 <= j < entries@.len() && #[trigger] entries@[j] == old(entries)@[k] by {
                        assert(entries@[k] == old(entries)@[k]);
                    }
                }
                return ;
            },
            NameOrder::After => {
                let ghost before = entries@;
                proof {
                    lemma_name_absent(before, name@, i as int);
                }
                let entry = NamedItem { name, item };
                entries.insert(i, entry);
                proof {
                    assert forall|a: int, b: int| 0 <= a < b < entries@.len() implies spec_name_before(
                        (#[trigger] entries@[a]).name@,
                        (#[trigger] entries@[b]).name@,
                    ) by {
                        if b < i {
                            assert(spec_name_before(before[a].name@, before[b].name@));
                        } else if b == i {
                        } else if a < i {
                            assert(spec_name_before(before[a].name@, before[b - 1].name@));
                        } else if a == i {
                            if b - 1 > i {
                                assert(spec_name_before(before[i as int].name@, before[b - 1].name@));
                                lemma_name_order_transitive(
                                    name@,
                                    before[i as int].name@,
                                    before[b - 1].name@,
                                );
                            }
                        } else {
                            assert(spec_name_before(before[a - 1].name@, before[b - 1].name@));
                        }
                    }
                    assert(entries@[i as int].name@ == name@);
                    assert forall|k: int|
                        0 <= k < old(entries)@.len() && (#[trigger] old(entries)@[k]).name@
                            != name@ implies exists|j: int|
                        0 <= j < entries@.len() && #[trigger] entries@[j] == old(entries)@[k] by {
                        if k < i {
                            assert(entries@[k] == old(entries)@[k]);
                        } else {
                            assert(entries@[k + 1] == old(entries)@[k]);
                        }
                    }
                }
                return ;
            },
        }
        i += 1;
    }
    let ghost before = entries@;
    proof {
        lemma_name_absent(before, name@, before.len() as int);
    }
    let entry = NamedItem { name, item };
    entries.push(entry);
    proof {
        assert forall|a: int, b: int| 0 <= a < b < entries@.len() implies spec_name_before(
            (#[trigger] entries@[a]).name@,
            (#[trigger] entries@[b]).name@,
        ) by {
            if b < before.len() {
                assert(spec_name_before(before[a].name@, before[b].name@));
            }
        }
        assert(entries@[before.len() as int].name@ == name@);
        assert forall|k: int|
            0 <= k < old(entries)@.len() && (#[trigger] old(entries)@[k]).name@
                != name@ implies exists|j: int|
            0 <= j < entries@.len() && #[trigger] entries@[j] == old(entries)@[k] by {
            assert(entries@[k] == old(entries)@[k]);
        }
    }
}

/// What an item is, with what belongs to its kind.
#[derive(Debug, Clone, PartialEq, Eq)]
pub enum Data {
    Symlink { target: Vec<u8> },
    Directory { entries: Vec<NamedItem> },
    BlockDev(DeviceNumber),
    CharDev(DeviceNumber),
    Fifo,
    Socket,
    File { contents: Vec<u8> },
}

/// An item of an archive.
#[derive(Debug, Clone, PartialEq, Eq)]
pub struct Item {
    pub uid: Id,
    pub gid: Id,
    pub mode: Mode,
    /// The time of the last modification, in seconds since the epoch.
    pub mtime: i64,
    pub data: Data,
}

impl Item {
    /// Whether the item is a directory.
    pub open spec fn spec_is_dir(self) -> bool {
        self.data is Directory
    }

    /// The directory is listed in the order of the names.
    pub open spec fn wf(self) -> bool {
        self.data matches Data::Directory { entries } ==> spec_names_sorted(entries@)
    }

    pub fn is_dir(&self) -> (r: bool)
        ensures
            r == self.spec_is_dir(),
    {
        match &self.data {
            Data::Directory { .. } => true,
            _ => false,
        }
    }

    /// The kind of the item's inode in its basic form, the one that a
    /// directory entry records.
    pub open spec fn spec_kind(self) -> repr::inode::Kind {
        repr::inode::Kind(
            match self.data {
                Data::Directory { .. } => repr::inode::BASIC_DIR,
                Data::File { .. } => repr::inode::BASIC_FILE,
                Data::Symlink { .. } => repr::inode::BASIC_SYMLINK,
                Data::BlockDev(_) => repr::inode::BASIC_BLOCK_DEV,
                Data::CharDev(_) => repr::inode::BASIC_CHAR_DEV,
                Data::Fifo => repr::inode::BASIC_FIFO,
                Data::Socket => repr::inode::BASIC_SOCKET,
            },
        )
    }

    pub fn kind(&self) -> (r: repr::inode::Kind)
        ensures
            r == self.spec_kind(),
            !r.spec_is_extended(),
    {
        match &self.data {
            Data::Directory { .. } => repr::inode::Kind(repr::inode::BASIC_DIR),
            Data::File { .. } => repr::inode::Kind(repr::inode::BASIC_FILE),
            Data::Symlink { .. } => repr::inode::Kind(repr::inode::BASIC_SYMLINK),
            Data::BlockDev(_) => repr::inode::Kind(repr::inode::BASIC_BLOCK_DEV),
            Data::CharDev(_) => repr::inode::Kind(repr::inode::BASIC_CHAR_DEV),
            Data::Fifo => repr::inode::Kind(repr::inode::BASIC_FIFO),
            Data::Socket => repr::inode::Kind(repr::inode::BASIC_SOCKET),
        }
    }

    /// The items that a directory lists, in the order of their names; an
    /// item that is no directory lists none.
    pub open spec fn spec_children_refs(self) -> Option<Seq<ItemRef>> {
        match self.data {
            Data::Directory { entries } => Some(
                Seq::new(entries@.len(), |i: int| entries@[i].item),
            ),
            _ => None,
        }
    }

    pub fn children_refs(&self) -> (r: Option<Vec<ItemRef>>)
        ensures
            r is Some == self.spec_children_refs() is Some,
            r matches Some(refs) ==> Some(refs@) == self.spec_children_refs(),
    {
        match &self.data {
            Data::Directory { entries } => {
                let mut refs: Vec<ItemRef> = Vec::new();
                let mut i: usize = 0;
                while i < entries.len()
                    invariant
                        i <= entries@.len(),
                        refs@ == Seq::new(i as nat, |k: int| entries@[k].item),
                    decreases entries@.len() - i,
                {
                    refs.push(entries[i].item);
                    i += 1;
                    assert(refs@ =~= Seq::new(i as nat, |k: int| entries@[k].item));
                }
                Some(refs)
            },
            _ => None,
        }
    }
}

/// The choices for an archive that is to be written.
#[derive(Debug, Copy, Clone, PartialEq, Eq)]
pub struct ArchiveBuilder {
    pub block_size: u32,
    pub xattrs: bool,
    pub compressed_inodes: bool,
    pub compressed_data: bool,
    pub compressed_fragments: bool,
    pub compressed_xattrs: bool,
    pub compressed_ids: bool,
    pub find_duplicates: bool,
    pub exportable: bool,
    pub fragment_mode: FragmentMode,
    pub compressor_kind: Kind,
    /// The time of the archive, in seconds since the epoch.
    pub modified_time: i64,
}

/// Two sets of flags that have a meaning, and do not announce stored
/// options, make such a set together.
proof fn lemma_flag_bits(bits: u16, flag: u16)
    by (bit_vector)
    requires
        bits & !0x0BFFu16 == 0,
        flag & !0x0BFFu16 == 0,
    ensures
        (bits | flag) & !0x0BFFu16 == 0,
        (bits | flag) & !0x0FFFu16 == 0,
        (bits | flag) & 0x0400u16 != 0x0400u16,
{
}

impl ArchiveBuilder {
    /// Whether the block size is a power of two from 4 KiB to 1 MiB.
    pub open spec fn spec_valid(self) -> bool {
        exists|log: u16| #[trigger] spec_block_sizes_ok(self.block_size, log)
    }

    /// The flags of the archive: every choice against compression sets its
    /// flag, and so do the fragment mode, the search for duplicates, the
    /// export table and the lack of xattrs.
    pub open spec fn spec_flags(self) -> Flags {
        Flags {
            bits: (if self.compressed_inodes {
                0
            } else {
                superblock::UNCOMPRESSED_INODES
            }) | (if self.compressed_data {
                0
            } else {
                superblock::UNCOMPRESSED_DATA
            }) | (if self.compressed_fragments {
                0
            } else {
                superblock::UNCOMPRESSED_FRAGMENTS
            }) | (if self.compressed_xattrs {
                0
            } else {
                superblock::UNCOMPRESSED_XATTRS
            }) | (if self.compressed_ids {
                0
            } else {
                superblock::UNCOMPRESSED_IDS
            }) | (match self.fragment_mode {
                FragmentMode::Never => superblock::NO_FRAGMENTS,
                FragmentMode::SmallFiles => 0,
                FragmentMode::Always => superblock::ALWAYS_FRAGMENTS,
            }) | (if self.find_duplicates {
                superblock::DUPLICATES
            } else {
                0
            }) | (if self.exportable {
                superblock::EXPORTABLE
            } else {
                0
            }) | (if self.xattrs {
                0
            } else {
                superblock::NO_XATTRS
            }),
        }
    }

    /// The choices that are made where nothing else is said, for an archive
    /// of the given time.
    pub fn new(modified_time: i64) -> (r: ArchiveBuilder)
        ensures
            r.spec_valid(),
            r.block_size == repr::BLOCK_SIZE_DEFAULT,
            r.compressor_kind == Kind::ZLib,
            r.fragment_mode == FragmentMode::Always,
            r.modified_time == modified_time,
            r.xattrs && r.compressed_inodes && r.compressed_data && r.compressed_fragments
                && r.compressed_xattrs && r.compressed_ids && r.find_duplicates && r.exportable,
    {
        let builder = ArchiveBuilder {
            block_size: repr::BLOCK_SIZE_DEFAULT,
            xattrs: true,
            compressed_inodes: true,
            compressed_data: true,
            compressed_fragments: true,
            compressed_xattrs: true,
            compressed_ids: true,
            find_duplicates: true,
            exportable: true,
            fragment_mode: FragmentMode::Always,
            compressor_kind: Kind::ZLib,
            modified_time,
        };
        proof {
            assert(0x2_0000u32 == (1u32 << 17u16)) by (bit_vector);
            assert(spec_block_sizes_ok(builder.block_size, 17u16));
        }
        builder
    }

    pub fn set_modification_time(&mut self, time: i64)
        ensures
            *final(self) == (ArchiveBuilder { modified_time: time, ..*old(self) }),
    {
        self.modified_time = time;
    }

    /// The logarithm of the block size, where the block size is a power of
    /// two from 4 KiB to 1 MiB.
    pub fn block_log(&self) -> (r: Option<u16>)
        ensures
            r matches Some(log) ==> spec_block_sizes_ok(self.block_size, log),
            r is None ==> !self.spec_valid(),
    {
        let mut log: u16 = repr::BLOCK_LOG_MIN;
        while log <= repr::BLOCK_LOG_MAX
            invariant
                repr::BLOCK_LOG_MIN <= log <= repr::BLOCK_LOG_MAX + 1,
                forall|l: u16| repr::BLOCK_LOG_MIN <= l < log ==> self.block_size != (1u32 << l),
            decreases repr::BLOCK_LOG_MAX + 1 - log,
        {
            if self.block_size == (1u32 << log) {
                return Some(log);
            }
            log += 1;
        }
        None
    }

    /// Whether the choices can be built into an archive: the block size is
    /// valid and the compression algorithm has a codec.
    pub fn validate(&self) -> (r: bool)
        ensures
            r == (self.spec_valid() && self.compressor_kind.spec_supported()),
    {
        self.block_log().is_some() && self.compressor_kind.supported()
    }

    /// The flags of the archive have a meaning, each of them, and do not
    /// announce stored options of the compressor.
    pub proof fn lemma_flags(self)
        ensures
            self.spec_flags().spec_unknown_bits() == 0,
            !self.spec_flags().spec_contains(superblock::COMPRESSOR_OPTIONS),
    {
        let inodes: u16 = if self.compressed_inodes {
            0
        } else {
            superblock::UNCOMPRESSED_INODES
        };
        let data: u16 = if self.compressed_data {
            0
        } else {
            superblock::UNCOMPRESSED_DATA
        };
        let fragments: u16 = if self.compressed_fragments {
            0
        } else {
            superblock::UNCOMPRESSED_FRAGMENTS
        };
        let xattrs: u16 = if self.compressed_xattrs {
            0
        } else {
            superblock::UNCOMPRESSED_XATTRS
        };
        let ids: u16 = if self.compressed_ids {
            0
        } else {
            superblock::UNCOMPRESSED_IDS
        };
        let mode: u16 = match self.fragment_mode {
            FragmentMode::Never => superblock::NO_FRAGMENTS,
            FragmentMode::SmallFiles => 0,
            FragmentMode::Always => superblock::ALWAYS_FRAGMENTS,
        };
        let duplicates: u16 = if self.find_duplicates {
            superblock::DUPLICATES
        } else {
            0
        };
        let export: u16 = if self.exportable {
            superblock::EXPORTABLE
        } else {
            0
        };
        let no_xattrs: u16 = if self.xattrs {
            0
        } else {
            superblock::NO_XATTRS
        };
        assert(inodes & !0x0BFFu16 == 0 && data & !0x0BFFu16 == 0 && fragments & !0x0BFFu16 == 0
            && xattrs & !0x0BFFu16 == 0 && ids & !0x0BFFu16 == 0 && mode & !0x0BFFu16 == 0
            && duplicates & !0x0BFFu16 == 0 && export & !0x0BFFu16 == 0 && no_xattrs & !0x0BFFu16
            == 0) by (bit_vector)
            requires
                inodes == 0 || inodes == 1,
                data == 0 || data == 2,
                fragments == 0 || fragments == 8,
                xattrs == 0 || xattrs == 0x100,
                ids == 0 || ids == 0x800,
                mode == 0 || mode == 0x10 || mode == 0x20,
                duplicates == 0 || duplicates == 0x40,
                export == 0 || export == 0x80,
                no_xattrs == 0 || no_xattrs == 0x200,
        ;
        lemma_flag_bits(inodes, data);
        lemma_flag_bits(inodes | data, fragments);
        lemma_flag_bits(inodes | data | fragments, xattrs);
        lemma_flag_bits(inodes | data | fragments | xattrs, ids);
        lemma_flag_bits(inodes | data | fragments | xattrs | ids, mode);
        lemma_flag_bits(inodes | data | fragments | xattrs | ids | mode, duplicates);
        lemma_flag_bits(inodes | data | fragments | xattrs | ids | mode | duplicates, export);
        lemma_flag_bits(
            inodes | data | fragments | xattrs | ids | mode | duplicates | export,
            no_xattrs,
        );
    }

    /// The flags of the archive.
    pub fn flags(&self) -> (r: Flags)
        ensures
            r == self.spec_flags(),
            r.spec_unknown_bits() == 0,
            !r.spec_contains(superblock::COMPRESSOR_OPTIONS),
    {
        let inodes: u16 = if self.compressed_inodes {
            0
        } else {
            superblock::UNCOMPRESSED_INODES
        };
        let data: u16 = if self.compressed_data {
            0
        } else {
            superblock::UNCOMPRESSED_DATA
        };
        let fragments: u16 = if self.compressed_fragments {
            0
        } else {
            superblock::UNCOMPRESSED_FRAGMENTS
        };
        let xattrs: u16 = if self.compressed_xattrs {
            0
        } else {
            superblock::UNCOMPRESSED_XATTRS
        };
        let ids: u16 = if self.compressed_ids {
            0
        } else {
            superblock::UNCOMPRESSED_IDS
        };
        let mode: u16 = match self.fragment_mode {
            FragmentMode::Never => superblock::NO_FRAGMENTS,
            FragmentMode::SmallFiles => 0,
            FragmentMode::Always => superblock::ALWAYS_FRAGMENTS,
        };
        let duplicates: u16 = if self.find_duplicates {
            superblock::DUPLICATES
        } else {
            0
        };
        let export: u16 = if self.exportable {
            superblock::EXPORTABLE
        } else {
            0
        };
        let no_xattrs: u16 = if self.xattrs {
            0
        } else {
            superblock::NO_XATTRS
        };
        proof {
            self.lemma_flags();
        }
        Flags {
            bits: inodes | data | fragments | xattrs | ids | mode | duplicates | export | no_xattrs,
        }
    }

    /// An archive with these choices and no items.
    pub fn build(self) -> (r: Archive)
        requires
            self.spec_valid(),
            self.compressor_kind.spec_supported(),
        ensures
            r.wf(),
            r.spec_state() == State::Collecting,
            r.spec_config() == self,
            r.items() == Seq::<Item>::empty(),
            r.ids() == Seq::<u32>::empty(),
            r.spec_root() == ItemRef(NO_ROOT),
    {
        let block_log = match self.block_log() {
            Some(log) => log,
            None => repr::BLOCK_LOG_DEFAULT,
        };
        Archive {
            config: self,
            block_log,
            items: Vec::new(),
            root: ItemRef(NO_ROOT),
            uid_gids: uid_gid::Table::new(),
            state: State::Collecting,
        }
    }
}

/// Where an archive stands between its making and its flush.
#[derive(Debug, Copy, Clone, PartialEq, Eq, Structural)]
pub enum State {
    /// Items can be added.
    Collecting,
    /// The archive is being written.
    Sealing,
    /// The archive is written.
    Flushed,
    /// Writing the archive has failed.
    Poisoned,
}

/// An archive that is being collected.
pub struct Archive {
    config: ArchiveBuilder,
    block_log: u16,
    items: Vec<Item>,
    root: ItemRef,
    uid_gids: uid_gid::Table,
    state: State,
}

/// A directory that is being made.
#[derive(Debug, Clone, PartialEq, Eq)]
pub struct DirBuilder {
    uid: Id,
    gid: Id,
    mode: Mode,
    mtime: i64,
    entries: Vec<NamedItem>,
}

impl DirBuilder {
    pub closed spec fn spec_uid(&self) -> u32 {
        self.uid.0
    }

    pub closed spec fn spec_gid(&self) -> u32 {
        self.gid.0
    }

    pub closed spec fn spec_mode(&self) -> Mode {
        self.mode
    }

    pub closed spec fn spec_mtime(&self) -> i64 {
        self.mtime
    }

    /// The entries of the directory, in the order of their names.
    pub closed spec fn entries(&self) -> Seq<NamedItem> {
        self.entries@
    }

    /// The item that the builder makes is a directory with the owner, the
    /// mode, the time and the entries of the builder.
    pub proof fn lemma_item(&self)
        ensures
            self.spec_item().uid == Id(self.spec_uid()),
            self.spec_item().gid == Id(self.spec_gid()),
            self.spec_item().mode == self.spec_mode(),
            self.spec_item().mtime == self.spec_mtime(),
            self.spec_item().data matches Data::Directory { entries } && entries@
                == self.entries(),
    {
    }

    /// The item that the builder makes.
    pub closed spec fn spec_item(&self) -> Item {
        Item {
            uid: self.uid,
            gid: self.gid,
            mode: self.mode,
            mtime: self.mtime,
            data: Data::Directory { entries: self.entries },
        }
    }

    pub open spec fn wf(&self) -> bool {
        spec_names_sorted(self.entries())
    }

    pub fn set_uid(&mut self, id: u32)
        ensures
            final(self).spec_uid() == id,
            final(self).spec_gid() == old(self).spec_gid(),
            final(self).spec_mode() == old(self).spec_mode(),
            final(self).spec_mtime() == old(self).spec_mtime(),
            final(self).entries() == old(self).entries(),
    {
        self.uid = Id(id);
    }

    pub fn set_gid(&mut self, id: u32)
        ensures
            final(self).spec_gid() == id,
            final(self).spec_uid() == old(self).spec_uid(),
            final(self).spec_mode() == old(self).spec_mode(),
            final(self).spec_mtime() == old(self).spec_mtime(),
            final(self).entries() == old(self).entries(),
    {
        self.gid = Id(id);
    }

    pub fn set_mode(&mut self, mode: Mode)
        ensures
            final(self).spec_mode() == mode,
            final(self).spec_uid() == old(self).spec_uid(),
            final(self).spec_gid() == old(self).spec_gid(),
            final(self).spec_mtime() == old(self).spec_mtime(),
            final(self).entries() == old(self).entries(),
    {
        self.mode = mode;
    }

    pub fn set_modified_time(&mut self, timestamp: i64)
        ensures
            final(self).spec_mtime() == timestamp,
            final(self).spec_uid() == old(self).spec_uid(),
            final(self).spec_gid() == old(self).spec_gid(),
            final(self).spec_mode() == old(self).spec_mode(),
            final(self).entries() == old(self).entries(),
    {
        self.mtime = timestamp;
    }

    /// Lists the item under the name. An earlier entry of the same name
    /// makes way for it.
    pub fn add_item(&mut self, name: Vec<u8>, item: ItemRef)
        requires
            old(self).wf(),
        ensures
            final(self).wf(),
            final(self).spec_uid() == old(self).spec_uid(),
            final(self).spec_gid() == old(self).spec_gid(),
            final(self).spec_mode() == old(self).spec_mode(),
            final(self).spec_mtime() == old(self).spec_mtime(),
            exists|i: int|
                0 <= i < final(self).entries().len() && (#[trigger] final(self).entries()[i]).name@
                    == name@ && final(self).entries()[i].item == item,
            final(self).entries().len() == if spec_has_name(old(self).entries(), name@) {
                old(self).entries().len()
            } else {
                old(self).entries().len() + 1
            },
            forall|i: int|
                0 <= i < old(self).entries().len() && (#[trigger] old(self).entries()[i]).name@
                    != name@ ==> exists|j: int|
                    0 <= j < final(self).entries().len() && #[trigger] final(self).entries()[j]
                        == old(self).entries()[i],
    {
        let ghost wanted = name@;
        insert_entry(&mut self.entries, name, item);
        proof {
            let i = choose|i: int|
                0 <= i < self.entries@.len() && (#[trigger] self.entries@[i]).name@ == wanted
                    && self.entries@[i].item == item;
            assert(self.entries()[i].name@ == wanted);
            assert forall|i: int|
                0 <= i < old(self).entries().len() && (#[trigger] old(self).entries()[i]).name@
                    != wanted implies exists|j: int|
                0 <= j < self.entries().len() && #[trigger] self.entries()[j] == old(
                    self,
                ).entries()[i] by {
                let j = choose|j: int|
                    0 <= j < self.entries@.len() && #[trigger] self.entries@[j] == old(
                        self,
                    ).entries@[i];
                assert(self.entries()[j] == old(self).entries()[i]);
            }
        }
    }

    /// Adds the directory to the archive.
    pub fn finish(self, archive: &mut Archive) -> (r: Result<ItemRef, Error>)
        requires
            old(archive).wf(),
            self.wf(),
        ensures
            final(archive).wf(),
            final(archive).spec_added(old(archive), self.spec_item(), r),
            self.spec_item().uid == Id(self.spec_uid()),
            self.spec_item().gid == Id(self.spec_gid()),
            self.spec_item().mode == self.spec_mode(),
            self.spec_item().mtime == self.spec_mtime(),
            self.spec_item().data matches Data::Directory { entries } && entries@
                == self.entries(),
    {
        let item = Item {
            uid: self.uid,
            gid: self.gid,
            mode: self.mode,
            mtime: self.mtime,
            data: Data::Directory { entries: self.entries },
        };
        archive.add_item(item)
    }
}

/// An item that is no directory and that is being made: a file, a symlink,
/// a device, a fifo or a socket.
#[derive(Debug, Clone, PartialEq, Eq)]
pub struct FileBuilder {
    uid: Id,
    gid: Id,
    mode: Mode,
    mtime: i64,
    data: Data,
}

impl FileBuilder {
    pub closed spec fn spec_item(&self) -> Item {
        Item { uid: self.uid, gid: self.gid, mode: self.mode, mtime: self.mtime, data: self.data }
    }

    pub fn set_uid(&mut self, id: u32)
        ensures
            final(self).spec_item() == (Item { uid: Id(id), ..old(self).spec_item() }),
    {
        self.uid = Id(id);
    }

    pub fn set_gid(&mut self, id: u32)
        ensures
            final(self).spec_item() == (Item { gid: Id(id), ..old(self).spec_item() }),
    {
        self.gid = Id(id);
    }

    pub fn set_mode(&mut self, mode: Mode)
        ensures
            final(self).spec_item() == (Item { mode, ..old(self).spec_item() }),
    {
        self.mode = mode;
    }

    pub fn set_modified_time(&mut self, timestamp: i64)
        ensures
            final(self).spec_item() == (Item { mtime: timestamp, ..old(self).spec_item() }),
    {
        self.mtime = timestamp;
    }

    /// Makes the item a file with the given contents.
    pub fn set_contents(&mut self, contents: Vec<u8>)
        ensures
            final(self).spec_item() == (Item {
                data: Data::File { contents },
                ..old(self).spec_item()
            }),
    {
        self.data = Data::File { contents };
    }

    /// Adds the item to the archive.
    pub fn finish(self, archive: &mut Archive) -> (r: Result<ItemRef, Error>)
        requires
            old(archive).wf(),
            !self.spec_item().spec_is_dir(),
        ensures
            final(archive).wf(),
            final(archive).spec_added(old(archive), self.spec_item(), r),
    {
        let item = Item {
            uid: self.uid,
            gid: self.gid,
            mode: self.mode,
            mtime: self.mtime,
            data: self.data,
        };
        archive.add_item(item)
    }
}

impl Archive {
    /// The items of the archive, in the order in which they were added.
    pub closed spec fn items(&self) -> Seq<Item> {
        self.items@
    }

    pub closed spec fn spec_root(&self) -> ItemRef {
        self.root
    }

    pub closed spec fn spec_state(&self) -> State {
        self.state
    }

    pub closed spec fn spec_config(&self) -> ArchiveBuilder {
        self.config
    }

    /// The user and group IDs of the items, each once.
    pub closed spec fn ids(&self) -> Seq<u32> {
        self.uid_gids.ids()
    }

    /// The choices are valid, every directory is listed in the order of its
    /// names, the items can be counted in 32 bits, and the table of IDs
    /// holds the IDs of every item.
    pub closed spec fn wf(&self) -> bool {
        &&& spec_block_sizes_ok(self.config.block_size, self.block_log)
        &&& self.config.compressor_kind.spec_supported()
        &&& self.uid_gids.wf()
        &&& self.items@.len() < u32::MAX
        &&& forall|i: int|
            0 <= i < self.items@.len() ==> {
                &&& (#[trigger] self.items@[i]).wf()
                &&& self.uid_gids.ids().contains(self.items@[i].uid.0)
                &&& self.uid_gids.ids().contains(self.items@[i].gid.0)
            }
    }

    /// What adding `item` to the archive `before` came to.
    ///
    /// An archive that is not collecting takes no item, nor does one that
    /// has as many items as 32 bits can count, nor one whose table of IDs
    /// cannot take the IDs of the item. Elsewhere the item stands at the end
    /// of the items, the result refers to it, and the table of IDs holds its
    /// IDs.
    pub open spec fn spec_added(&self, before: &Archive, item: Item, r: Result<ItemRef, Error>) -> bool {
        let ids = before.ids();
        let with_uid = if ids.contains(item.uid.0) {
            ids
        } else {
            ids.push(item.uid.0)
        };
        let with_both = if with_uid.contains(item.gid.0) {
            with_uid
        } else {
            with_uid.push(item.gid.0)
        };
        &&& self.spec_config() == before.spec_config()
        &&& self.spec_root() == before.spec_root()
        &&& self.spec_state() == before.spec_state()
        &&& if before.spec_state() != State::Collecting {
            &&& r == Err::<ItemRef, Error>(Error(ErrorInner::Item(ItemError::ArchiveClosed)))
            &&& self.items() == before.items()
            &&& self.ids() == ids
        } else if before.items().len() >= u32::MAX - 1 {
            &&& r == Err::<ItemRef, Error>(Error(ErrorInner::Item(ItemError::TooManyInodes)))
            &&& self.items() == before.items()
            &&& self.ids() == ids
        } else if !ids.contains(item.uid.0) && ids.len() >= uid_gid::MAX_IDS {
            &&& r == Err::<ItemRef, Error>(Error(ErrorInner::Item(ItemError::TooManyIds)))
            &&& self.items() == before.items()
            &&& self.ids() == ids
        } else if !with_uid.contains(item.gid.0) && with_uid.len() >= uid_gid::MAX_IDS {
            &&& r == Err::<ItemRef, Error>(Error(ErrorInner::Item(ItemError::TooManyIds)))
            &&& self.items() == before.items()
            &&& self.ids() == with_uid
        } else {
            &&& r == Ok::<ItemRef, Error>(ItemRef(before.items().len() as u32))
            &&& self.items() == before.items().push(item)
            &&& self.ids() == with_both
        }
    }

    /// An archive with the default choices and no items.
    pub fn from_writer(modified_time: i64) -> (r: Archive)
        ensures
            r.wf(),
            r.spec_state() == State::Collecting,
            r.items() == Seq::<Item>::empty(),
            r.ids() == Seq::<u32>::empty(),
            r.spec_root() == ItemRef(NO_ROOT),
            r.spec_config().modified_time == modified_time,
            r.spec_config().block_size == repr::BLOCK_SIZE_DEFAULT,
            r.spec_config().compressor_kind == Kind::ZLib,
            r.spec_config().fragment_mode == FragmentMode::Always,
    {
        ArchiveBuilder::new(modified_time).build()
    }

    /// A builder for a directory, with the defaults of a directory: owned by
    /// root, mode 755, and the time of the archive.
    pub fn create_dir(&self) -> (r: DirBuilder)
        ensures
            r.wf(),
            r.spec_uid() == 0,
            r.spec_gid() == 0,
            r.spec_mode() == (Mode { bits: MODE_DEFAULT_DIRECTORY }),
            r.spec_mtime() == self.spec_config().modified_time,
            r.entries() == Seq::<NamedItem>::empty(),
    {
        DirBuilder {
            uid: Id(0),
            gid: Id(0),
            mode: Mode { bits: MODE_DEFAULT_DIRECTORY },
            mtime: self.config.modified_time,
            entries: Vec::new(),
        }
    }

    /// A builder for a file without contents, with the defaults of a file:
    /// owned by root, mode 644, and the time of the archive.
    pub fn create_file(&self) -> (r: FileBuilder)
        ensures
            r.spec_item().uid == Id(0),
            r.spec_item().gid == Id(0),
            r.spec_item().mode == (Mode { bits: MODE_DEFAULT_FILE }),
            r.spec_item().mtime == self.spec_config().modified_time,
            r.spec_item().data matches Data::File { contents } && contents@.len() == 0,
    {
        FileBuilder {
            uid: Id(0),
            gid: Id(0),
            mode: Mode { bits: MODE_DEFAULT_FILE },
            mtime: self.config.modified_time,
            data: Data::File { contents: Vec::new() },
        }
    }

    /// A builder for a symlink to the given target.
    pub fn create_symlink(&self, target: Vec<u8>) -> (r: FileBuilder)
        ensures
            r.spec_item() == (Item {
                uid: Id(0),
                gid: Id(0),
                mode: Mode { bits: mode::O777 },
                mtime: self.spec_config().modified_time,
                data: Data::Symlink { target },
            }),
    {
        FileBuilder {
            uid: Id(0),
            gid: Id(0),
            mode: Mode { bits: mode::O777 },
            mtime: self.config.modified_time,
            data: Data::Symlink { target },
        }
    }

    /// A builder for a device: a block device, or a character device.
    pub fn create_device(&self, block: bool, device: DeviceNumber) -> (r: FileBuilder)
        ensures
            r.spec_item() == (Item {
                uid: Id(0),
                gid: Id(0),
                mode: Mode { bits: MODE_DEFAULT_FILE },
                mtime: self.spec_config().modified_time,
                data: if block {
                    Data::BlockDev(device)
                } else {
                    Data::CharDev(device)
                },
            }),
    {
        FileBuilder {
            uid: Id(0),
            gid: Id(0),
            mode: Mode { bits: MODE_DEFAULT_FILE },
            mtime: self.config.modified_time,
            data: if block {
                Data::BlockDev(device)
            } else {
                Data::CharDev(device)
            },
        }
    }

    /// A builder for a fifo, or for a socket.
    pub fn create_ipc(&self, socket: bool) -> (r: FileBuilder)
        ensures
            r.spec_item() == (Item {
                uid: Id(0),
                gid: Id(0),
                mode: Mode { bits: MODE_DEFAULT_FILE },
                mtime: self.spec_config().modified_time,
                data: if socket {
                    Data::Socket
                } else {
                    Data::Fifo
                },
            }),
    {
        FileBuilder {
            uid: Id(0),
            gid: Id(0),
            mode: Mode { bits: MODE_DEFAULT_FILE },
            mtime: self.config.modified_time,
            data: if socket {
                Data::Socket
            } else {
                Data::Fifo
            },
        }
    }

    /// The number of items.
    pub fn len(&self) -> (r: usize)
        ensures
            r == self.items().len(),
    {
        self.items.len()
    }

    pub fn state(&self) -> (r: State)
        ensures
            r == self.spec_state(),
    {
        self.state
    }

    /// The item that the reference stands for.
    pub fn get(&self, item_ref: ItemRef) -> (r: &Item)
        requires
            item_ref.0 < self.items().len(),
        ensures
            *r == self.items()[item_ref.0 as int],
    {
        &self.items[item_ref.0 as usize]
    }

    /// Whether the reference stands for a directory of this archive.
    pub fn is_dir(&self, item_ref: ItemRef) -> (r: bool)
        ensures
            r == (item_ref.0 < self.items().len() && self.items()[item_ref.0 as int].spec_is_dir()),
    {
        (item_ref.0 as usize) < self.items.len() && self.items[item_ref.0 as usize].is_dir()
    }

    /// Adds an item and hands out the reference to it.
    pub fn add_item(&mut self, item: Item) -> (r: Result<ItemRef, Error>)
        requires
            old(self).wf(),
            item.wf(),
        ensures
            final(self).wf(),
            final(self).spec_added(old(self), item, r),
    {
        if self.state != State::Collecting {
            return Err(Error(ErrorInner::Item(ItemError::ArchiveClosed)));
        }
        if self.items.len() >= (u32::MAX - 1) as usize {
            return Err(Error(ErrorInner::Item(ItemError::TooManyInodes)));
        }
        let ghost ids_before = self.uid_gids.ids();
        if !self.uid_gids.contains(item.uid) && self.uid_gids.is_full() {
            return Err(Error(ErrorInner::Item(ItemError::TooManyIds)));
        }
        self.uid_gids.add(item.uid);
        let ghost ids_between = self.uid_gids.ids();
        if !self.uid_gids.contains(item.gid) && self.uid_gids.is_full() {
            proof {
                assert forall|i: int| 0 <= i < self.items@.len() implies {
                    &&& (#[trigger] self.items@[i]).wf()
                    &&& self.uid_gids.ids().contains(self.items@[i].uid.0)
                    &&& self.uid_gids.ids().contains(self.items@[i].gid.0)
                } by {
                    lemma_ids_kept(ids_before, ids_between, item.uid.0, self.items@[i].uid.0);
                    lemma_ids_kept(ids_before, ids_between, item.uid.0, self.items@[i].gid.0);
                }
            }
            return Err(Error(ErrorInner::Item(ItemError::TooManyIds)));
        }
        self.uid_gids.add(item.gid);
        let item_ref = ItemRef(self.items.len() as u32);
        let ghost before = self.items@;
        self.items.push(item);
        proof {
            let ids_after = self.uid_gids.ids();
            assert forall|i: int| 0 <= i < self.items@.len() implies {
                &&& (#[trigger] self.items@[i]).wf()
                &&& self.uid_gids.ids().contains(self.items@[i].uid.0)
                &&& self.uid_gids.ids().contains(self.items@[i].gid.0)
            } by {
                if i < before.len() {
                    assert(self.items@[i] == before[i]);
                    lemma_ids_kept(ids_before, ids_between, item.uid.0, before[i].uid.0);
                    lemma_ids_kept(ids_before, ids_between, item.uid.0, before[i].gid.0);
                    lemma_ids_kept(ids_between, ids_after, item.gid.0, before[i].uid.0);
                    lemma_ids_kept(ids_between, ids_after, item.gid.0, before[i].gid.0);
                } else {
                    lemma_ids_kept(ids_between, ids_after, item.gid.0, item.uid.0);
                }
            }
        }
        Ok(item_ref)
    }

    /// The table of IDs holds the IDs of every item.
    pub proof fn lemma_item_ids(&self, i: int)
        requires
            self.wf(),
            0 <= i < self.items().len(),
        ensures
            self.ids().contains(self.items()[i].uid.0),
            self.ids().contains(self.items()[i].gid.0),
            self.spec_uid_gids().wf(),
            self.spec_uid_gids().ids() == self.ids(),
    {
    }

    /// The table of the user and group IDs.
    pub closed spec fn spec_uid_gids(&self) -> uid_gid::Table {
        self.uid_gids
    }

    /// Writes the archive and hands out its image.
    ///
    /// The image starts with the superblock, which records the choices for
    /// the archive and where the tables start. The table of inodes holds
    /// the inodes of the items that the root reaches, each once, numbered
    /// from 1 on, every item behind the items that it lists and the root
    /// last; the table of directories holds the listings in the same order,
    /// and the table of IDs follows it. The inode of every file says where
    /// the image holds the blocks of the file. An archive whose root lists nothing
    /// can always be flushed, and so can one whose items are sure to fit: at
    /// most 2048 items, each small enough and added behind the items that it
    /// lists.
    ///
    /// A flush succeeds once: after it the archive takes no more items, and
    /// a flush that has failed leaves the archive poisoned. An archive
    /// without a root directory cannot be flushed.
    pub fn flush(&mut self) -> (r: Result<Vec<u8>, Error>)
        requires
            old(self).wf(),
        ensures
            final(self).items() == old(self).items(),
            final(self).spec_config() == old(self).spec_config(),
            final(self).spec_root() == old(self).spec_root(),
            final(self).ids() == old(self).ids(),
            old(self).spec_state() != State::Collecting ==> {
                &&& r == Err::<Vec<u8>, Error>(Error(ErrorInner::Item(ItemError::ArchiveClosed)))
                &&& final(self).spec_state() == old(self).spec_state()
            },
            old(self).spec_state() == State::Collecting ==> {
                &&& r is Ok ==> final(self).spec_state() == State::Flushed
                &&& r is Err ==> final(self).spec_state() == State::Poisoned
                &&& r matches Err(e) ==> flush::spec_layout_error(e)
                &&& !(old(self).spec_root().0 < old(self).items().len() && old(
                    self,
                ).items()[old(self).spec_root().0 as int].spec_is_dir()) ==> r == Err::<
                    Vec<u8>,
                    Error,
                >(Error(ErrorInner::Item(ItemError::InvalidItem)))
            },
            old(self).spec_state() == State::Collecting && old(self).spec_root().0 < old(
                self,
            ).items().len() && old(self).items()[old(self).spec_root().0 as int].spec_is_dir()
                && flush::spec_fits(old(self).items()) ==> r is Ok,
            old(self).spec_state() == State::Collecting && old(self).spec_root().0 < old(
                self,
            ).items().len() && flush::spec_no_entries(
                old(self).items()[old(self).spec_root().0 as int],
            ) ==> (r matches Ok(image) && flush::spec_lone_root_image(
                old(self).items()[old(self).spec_root().0 as int],
                old(self).ids(),
                old(self).spec_config().compressed_inodes,
                image@,
            )),
            r matches Ok(image) ==> ({
                let sb = Superblock::spec_from_packed(
                    image@.subrange(0, flush::SUPERBLOCK_SIZE as int),
                );
                flush::spec_tables_ok(
                    old(self).items(),
                    old(self).spec_root().0,
                    old(self).ids(),
                    old(self).spec_config().compressed_inodes,
                    old(self).spec_config().compressed_ids,
                    image@,
                    sb.inode_table_start as int,
                    sb.directory_table_start as int,
                    sb.id_table_start as int,
                    sb.inode_count as nat,
                    sb.root_inode_ref,
                    old(self).spec_config().block_size as nat,
                    crate::write::datablocks::FragmentConfig::spec_from_mode(
                        old(self).spec_config().fragment_mode,
                    ),
                    old(self).spec_config().exportable,
                    sb.export_table_start as int,
                    sb.fragment_entry_count as nat,
                    sb.fragment_table_start,
                )
            }),
            r matches Ok(image) ==> {
                &&& image@.len() >= flush::SUPERBLOCK_SIZE
                &&& flush::spec_superblock_ok(
                    old(self),
                    Superblock::spec_from_packed(image@.subrange(0, flush::SUPERBLOCK_SIZE as int)),
                    image@.len(),
                )
            },
    {
        if self.state != State::Collecting {
            return Err(Error(ErrorInner::Item(ItemError::ArchiveClosed)));
        }
        if !self.is_dir(self.root) {
            self.state = State::Poisoned;
            return Err(Error(ErrorInner::Item(ItemError::InvalidItem)));
        }
        self.state = State::Sealing;
        let result = flush::write_image(self);
        match result {
            Ok(image) => {
                self.state = State::Flushed;
                Ok(image)
            },
            Err(e) => {
                self.state = State::Poisoned;
                Err(e)
            },
        }
    }

    /// Makes the directory that `item_ref` stands for the root.
    pub fn set_root(&mut self, item_ref: ItemRef)
        requires
            item_ref.0 < old(self).items().len(),
            old(self).items()[item_ref.0 as int].spec_is_dir(),
        ensures
            final(self).spec_root() == item_ref,
            final(self).items() == old(self).items(),
            final(self).spec_state() == old(self).spec_state(),
            final(self).spec_config() == old(self).spec_config(),
            final(self).ids() == old(self).ids(),
            old(self).wf() ==> final(self).wf(),
    {
        self.root = item_ref;
    }
}

/// A table of IDs that grew by at most one ID still holds what it held.
proof fn lemma_ids_kept(before: Seq<u32>, after: Seq<u32>, added: u32, id: u32)
    requires
        before.contains(id),
        after == before || after == before.push(added),
    ensures
        after.contains(id),
{
    let i = choose|i: int| 0 <= i < before.len() && before[i] == id;
    assert(after[i] == id);
}

} // verus!
