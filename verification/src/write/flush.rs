//! The flush of an archive: the layout of its image.

use crate::bytes::append_bytes;
use crate::bytes::copy_prefix;
use crate::bytes::fill_zeroed;
use crate::compression::AnyCodec;
use crate::compression::Kind;
use crate::errors::Error;
use crate::errors::ErrorInner;
use crate::errors::ItemError;
use crate::packed::exec_i32_of_bits;
use crate::packed::i32_of_bits;
use crate::packed::PackedStruct;
use crate::read::spec_metablock_header;
use crate::read::spec_validate_superblock;
use crate::repr::compression::Id as CompressionId;
use crate::repr::fragment;
use crate::repr::inode as raw;
use crate::repr::metablock::SIZE;
use crate::repr::mode::Mode;
use crate::repr::mode::PERM_MASK;
use crate::repr::superblock;
use crate::repr::superblock::Superblock;
use crate::repr::uid_gid as id;
use crate::repr::xattr;
use crate::write::datablocks::Datablocks;
use crate::write::datablocks::FileBlocks;
use crate::write::datablocks::spec_block_bodies;
use crate::write::datablocks::spec_fragment_held;
use crate::write::datablocks::spec_tail_in;
use crate::write::datablocks::FragmentRef;
use crate::write::datablocks::spec_block_stored;
use crate::write::datablocks::spec_blocks_ok;
use crate::write::datablocks::spec_size_words;
use crate::write::datablocks::spec_sparse_bytes;
use crate::write::datablocks::FragmentConfig;
use crate::write::datablocks::StoredBlock;
use crate::write::date_time_to_mtime;
use crate::write::dir;
use crate::write::inode;
use crate::write::inode::spec_locations;
use crate::write::metablock_writer::lemma_empty_block;
use crate::write::metablock_writer::lemma_output_bound;
use crate::write::metablock_writer::MetablockWriter;
use crate::write::metablock_writer::lemma_push_block;
use crate::write::metablock_writer::lemma_stream_decomposes;
use crate::write::metablock_writer::spec_frames;
use crate::write::metablock_writer::spec_single_block;
use crate::write::metablock_writer::spec_stream;
use crate::write::metablock_writer::spec_stream_of;
use crate::write::metablock_writer::Metablock;
use crate::write::spec_mtime;
use crate::write::two_level;
use crate::write::Archive;
use crate::write::Data;
use crate::write::Item;
use crate::write::NamedItem;
use crate::write::NO_ROOT;
use vstd::prelude::*;
use vstd::slice::slice_to_vec;

verus! {

/// The size of the superblock.
pub const SUPERBLOCK_SIZE: usize = 96;

/// The size up to which an image may still take another table.
pub const IMAGE_LIMIT: u64 = 0x7FFF_FFFF_0000_0000;

/// The most items of an archive that is sure to fit.
pub const FIT_ITEMS: usize = 0x800;

/// The most entries of a directory of an archive that is sure to fit.
pub const FIT_ENTRIES: usize = 0x800;

/// The longest name of an entry of an archive that is sure to fit.
pub const FIT_NAME: usize = 255;

/// The most bytes of a file of an archive that is sure to fit.
pub const FIT_FILE: usize = 0x1000_0000;

/// The longest target of a link of an archive that is sure to fit.
pub const FIT_TARGET: usize = 0x1_0000;

/// The deepest nesting of directories that is written.
pub const MAX_DEPTH: usize = 0x1000;

/// The most bytes that one item adds to the table of inodes or to the
/// table of directories of an archive that is sure to fit.
pub const NODE_BOUND: usize = 0x10_0000;

/// The most bytes that one file adds to the data section of an archive
/// that is sure to fit: the file and a fragment block.
pub const FILE_BOUND: usize = 0x1020_0000;

/// The error of a table or a section that has grown too large.
fn too_large() -> (e: Error)
    ensures
        e == Error(ErrorInner::Item(ItemError::TableTooLarge)),
{
    Error(ErrorInner::Item(ItemError::TableTooLarge))
}

/// The error of a reference to an item that is not there.
fn invalid_item() -> (e: Error)
    ensures
        e == Error(ErrorInner::Item(ItemError::InvalidItem)),
{
    Error(ErrorInner::Item(ItemError::InvalidItem))
}

/// The order in which the items that the root reaches are written, and the
/// numbers of their inodes.
pub(crate) struct Walk {
    /// The items in the order in which they are written: every item behind
    /// the items that it lists, and the root last.
    pub order: Vec<u32>,
    /// The number of the inode of each item, and 0 for an item that the root
    /// does not reach.
    pub numbers: Vec<u32>,
    /// The directory that led to each item, for the items that the root
    /// reaches.
    pub parents: Vec<u32>,
    /// How many entries of directories refer to each item.
    pub links: Vec<u32>,
}

impl Walk {
    /// Every list has a place for each of `n` items, every item of the
    /// order is one of them and is numbered by its place in the order, and
    /// the order is not empty.
    pub(crate) closed spec fn wf(&self, n: nat) -> bool {
        &&& self.numbers@.len() == n
        &&& self.parents@.len() == n
        &&& self.links@.len() == n
        &&& 0 < self.order@.len() <= n
        &&& forall|k: int| 0 <= k < self.order@.len() ==> (#[trigger] self.order@[k]) < n
        &&& forall|k: int|
            0 <= k < self.order@.len() ==> self.numbers@[(#[trigger] self.order@[k]) as int] == k + 1
    }
}

/// Whether the item is a directory without entries.
pub open spec fn spec_no_entries(item: Item) -> bool {
    item.data matches Data::Directory { entries } && entries@.len() == 0
}

/// The header of the inode of a root directory that lists nothing: the
/// first and only inode of its archive.
pub open spec fn spec_lone_root_header(root: Item, ids: Seq<u32>) -> raw::Header {
    raw::Header {
        inode_type: raw::Kind(raw::BASIC_DIR),
        permissions: Mode { bits: root.mode.bits & PERM_MASK },
        uid_idx: id::Idx(ids.index_of(root.uid.0) as u16),
        gid_idx: id::Idx(ids.index_of(root.gid.0) as u16),
        modified_time: spec_mtime(root.mtime),
        inode_number: raw::Idx(1),
    }
}

/// The body of the inode of a root directory that lists nothing: a basic
/// directory with the two links of every directory and a listing of no
/// bytes at the start of the directory table.
pub open spec fn spec_lone_root_dir() -> raw::BasicDir {
    raw::BasicDir {
        block_idx: 0,
        hard_link_count: 2,
        file_size: 0,
        block_offset: 0,
        parent_inode_number: raw::Idx(1),
    }
}

/// The inode of a root directory that lists nothing.
pub open spec fn spec_lone_root_inode(root: Item, ids: Seq<u32>) -> Seq<u8> {
    spec_lone_root_header(root, ids).spec_to_packed() + spec_lone_root_dir().spec_to_packed()
}

/// The number of entries of an item: those of its listing where it is a
/// directory, and none elsewhere.
pub open spec fn spec_entry_count(item: Item) -> nat {
    match item.data {
        Data::Directory { entries } => entries@.len(),
        _ => 0,
    }
}

/// The item that entry `e` of a directory refers to.
pub open spec fn spec_entry_item(item: Item, e: int) -> u32 {
    match item.data {
        Data::Directory { entries } => entries@[e].item.0,
        _ => 0,
    }
}

/// The name of entry `e` of a directory.
pub open spec fn spec_entry_name(item: Item, e: int) -> Seq<u8> {
    match item.data {
        Data::Directory { entries } => entries@[e].name@,
        _ => Seq::empty(),
    }
}

/// Whether `child` stands in the order in front of place `k`.
pub open spec fn spec_earlier(order: Seq<u32>, k: int, child: u32) -> bool {
    exists|i: int| 0 <= i < k && #[trigger] order[i] == child
}

/// Whether the items can be written in this order: no item twice, the root
/// last, and every item behind all the items that it lists.
pub open spec fn spec_write_order(items: Seq<Item>, root: u32, order: Seq<u32>) -> bool {
    &&& order.len() > 0
    &&& order.last() == root
    &&& order.no_duplicates()
    &&& forall|k: int| 0 <= k < order.len() ==> (#[trigger] order[k]) < items.len()
    &&& forall|k: int, e: int|
        0 <= k < order.len() && 0 <= e < spec_entry_count(items[order[k] as int]) ==> spec_earlier(
            order,
            k,
            #[trigger] spec_entry_item(items[order[k] as int], e),
        )
}

/// Whether `index` is the index of the listing, or no index. An index has
/// one entry for each header of the listing: the offset of the header from
/// the start of the listing, and the name of the first entry behind the
/// header.
pub open spec fn spec_index_of(runs: Seq<dir::Run>, index: Seq<inode::DirIndex>) -> bool {
    index.len() == 0 || {
        &&& index.len() == runs.len()
        &&& forall|k: int|
            0 <= k < index.len() ==> {
                &&& (#[trigger] index[k]).index == dir::spec_listing_size(runs.subrange(0, k))
                &&& runs[k].entries.len() > 0
                &&& index[k].name@ == runs[k].entries[0].name
            }
    }
}

/// Whether `data` is what the inode of `item` holds: the number of the
/// entries of a directory and whether it has an index, which it has where
/// its listing is larger than 65535 bytes; the size of a file, the target
/// of a link, the number of a device.
pub open spec fn spec_data_of(item: Item, data: inode::Data) -> bool {
    match item.data {
        Data::Directory { entries } => {
            &&& data matches inode::Data::Directory(dir)
            &&& dir.child_count == entries@.len()
            &&& dir.header_locations is Some == (dir.dir_size > u16::MAX)
        },
        Data::File { contents } => {
            &&& data matches inode::Data::File(file)
            &&& file.file_size == contents@.len()
        },
        Data::Symlink { target } => {
            &&& data matches inode::Data::Symlink(link)
            &&& link.target_path@ == target@
        },
        Data::BlockDev(device) => {
            &&& data matches inode::Data::BlockDev(dev)
            &&& dev.device == device
        },
        Data::CharDev(device) => {
            &&& data matches inode::Data::CharDev(dev)
            &&& dev.device == device
        },
        Data::Fifo => data is Fifo,
        Data::Socket => data is Socket,
    }
}

/// Whether `entry` is the inode of `item`: it has the mode and the time of
/// the item and the places of its IDs in the table of IDs, no extended
/// attributes, and what the item holds.
pub open spec fn spec_inode_of(item: Item, ids: Seq<u32>, entry: inode::Entry) -> bool {
    &&& entry.common.permissions == item.mode
    &&& entry.common.uid_idx.0 == ids.index_of(item.uid.0)
    &&& entry.common.gid_idx.0 == ids.index_of(item.gid.0)
    &&& entry.common.modified_time == spec_mtime(item.mtime)
    &&& entry.common.xattr_idx.0 == xattr::NO_XATTRS
    &&& !entry.common.force_ext
    &&& spec_data_of(item, entry.data)
}

/// Whether `entries` are the inodes of the items of `order`, one for each
/// place.
pub open spec fn spec_inodes_of(
    items: Seq<Item>,
    ids: Seq<u32>,
    order: Seq<u32>,
    entries: Seq<inode::Entry>,
) -> bool {
    &&& entries.len() == order.len()
    &&& forall|k: int|
        0 <= k < order.len() ==> spec_inode_of(items[order[k] as int], ids, #[trigger] entries[k])
}

/// Whether `runs` is the listing of `item`: it has the entries of the
/// item in their order, each with its name, with the kind of the item that
/// it refers to, and with the number of that item, which is its place in
/// the order, counted from 1.
pub open spec fn spec_listing_of(
    items: Seq<Item>,
    order: Seq<u32>,
    item: Item,
    runs: Seq<dir::Run>,
) -> bool {
    let listed = dir::spec_listing_entries(runs);
    &&& listed.len() == spec_entry_count(item)
    &&& forall|e: int|
        0 <= e < listed.len() ==> {
            &&& (#[trigger] listed[e]).name == spec_entry_name(item, e)
            &&& 1 <= listed[e].inode_num <= order.len()
            &&& order[listed[e].inode_num - 1] == spec_entry_item(item, e)
            &&& listed[e].kind == items[spec_entry_item(item, e) as int].spec_kind()
        }
}

/// The listings on disk, one after the other.
pub open spec fn spec_listings_bytes(listings: Seq<Seq<dir::Run>>) -> Seq<u8>
    decreases listings.len(),
{
    if listings.len() == 0 {
        Seq::empty()
    } else {
        spec_listings_bytes(listings.drop_last()) + dir::spec_listing_bytes(listings.last())
    }
}

/// Whether `listings` are the listings of the items of `order`, one for
/// each place and none for an item that is no directory, and the inode of
/// every directory says where its listing starts in its block of the
/// directory table and how many bytes it has.
pub open spec fn spec_listings_of(
    items: Seq<Item>,
    order: Seq<u32>,
    entries: Seq<inode::Entry>,
    listings: Seq<Seq<dir::Run>>,
) -> bool {
    &&& listings.len() == order.len()
    &&& entries.len() == order.len()
    &&& forall|k: int|
        0 <= k < order.len() ==> {
            &&& spec_listing_of(items, order, items[order[k] as int], #[trigger] listings[k])
            &&& entries[k].data matches inode::Data::Directory(data) ==> {
                &&& data.dir_size == dir::spec_listing_size(listings[k])
                &&& spec_index_of(listings[k], spec_locations(data))
                &&& data.dir_ref.spec_start_offset() == spec_listings_bytes(
                    listings.subrange(0, k),
                ).len() % (SIZE as nat)
            }
        }
}

/// The inodes on disk, one after the other, with the numbers from `first`
/// on.
pub open spec fn spec_inodes_bytes(entries: Seq<inode::Entry>, first: nat) -> Seq<u8>
    decreases entries.len(),
{
    if entries.len() == 0 {
        Seq::empty()
    } else {
        spec_inodes_bytes(entries.drop_last(), first) + entries.last().spec_inode_bytes(
            (first + entries.len() - 1) as u32,
        )
    }
}

/// Whether `place` is where an inode lies that starts `before` bytes into
/// the stream of the blocks: it names the start of the block of the inode
/// in the stream on disk, and the offset of the inode in that block.
pub open spec fn spec_ref_at(blocks: Seq<Metablock>, before: nat, place: raw::Ref) -> bool {
    let full = before / (SIZE as nat);
    &&& full <= blocks.len()
    &&& place.spec_block_idx() == spec_frames(blocks.subrange(0, full as int)).len()
    &&& place.spec_start_offset() == before % (SIZE as nat)
}

/// Whether the entries of the listing refer to inodes in front of place
/// `k`, each at the place of its number.
pub open spec fn spec_listing_refs(runs: Seq<dir::Run>, places: Seq<raw::Ref>, k: int) -> bool {
    forall|e: int|
        0 <= e < dir::spec_listing_entries(runs).len() ==> {
            let entry = #[trigger] dir::spec_listing_entries(runs)[e];
            &&& 1 <= entry.inode_num <= k
            &&& k <= places.len()
            &&& entry.inode == places[entry.inode_num - 1]
        }
}

/// Whether the inode of every directory names the block of the table of
/// directories in which the listing of the directory starts.
pub open spec fn spec_dirs_ok(
    entries: Seq<inode::Entry>,
    listings: Seq<Seq<dir::Run>>,
    blocks: Seq<Metablock>,
) -> bool {
    &&& listings.len() == entries.len()
    &&& forall|k: int|
        0 <= k < entries.len() ==> ((#[trigger] entries[k]).data matches inode::Data::Directory(
            data,
        ) ==> {
            let full = spec_listings_bytes(listings.subrange(0, k)).len() / (SIZE as nat);
            &&& full <= blocks.len()
            &&& data.dir_ref.spec_block_start() == spec_frames(blocks.subrange(0, full as int)).len()
        })
}

/// All the blocks are the blocks up to their number.
proof fn lemma_frames_whole(blocks: Seq<Metablock>)
    ensures
        blocks.subrange(0, blocks.len() as int) == blocks,
{
    assert(blocks.subrange(0, blocks.len() as int) =~= blocks);
}

/// One more inode, whose listing starts where the table of directories
/// stood.
proof fn lemma_dir_added(
    entries: Seq<inode::Entry>,
    listings: Seq<Seq<dir::Run>>,
    blocks: Seq<Metablock>,
    later: Seq<Metablock>,
    entry: inode::Entry,
    runs: Seq<dir::Run>,
    current: nat,
)
    requires
        spec_dirs_ok(entries, listings, blocks),
        blocks.len() <= later.len(),
        blocks == later.subrange(0, blocks.len() as int),
        spec_listings_bytes(listings).len() == blocks.len() * SIZE + current,
        current < SIZE,
        entry.data matches inode::Data::Directory(data) ==> data.dir_ref.spec_block_start()
            == spec_frames(blocks).len(),
    ensures
        spec_dirs_ok(entries.push(entry), listings.push(runs), later),
{
    let more = entries.push(entry);
    let longer = listings.push(runs);
    let k = entries.len() as int;
    assert forall|j: int| 0 <= j < more.len() implies ((#[trigger] more[j]).data matches inode::Data::Directory(
        data,
    ) ==> {
        let full = spec_listings_bytes(longer.subrange(0, j)).len() / (SIZE as nat);
        &&& full <= later.len()
        &&& data.dir_ref.spec_block_start() == spec_frames(later.subrange(0, full as int)).len()
    }) by {
        if j < k {
            assert(more[j] == entries[j]);
            assert(longer.subrange(0, j) =~= listings.subrange(0, j));
            let full = (spec_listings_bytes(listings.subrange(0, j)).len() / (SIZE as nat)) as int;
            if entries[j].data is Directory {
                assert(later.subrange(0, full) =~= blocks.subrange(0, full));
            }
        } else {
            assert(longer.subrange(0, j) =~= listings);
            vstd::arithmetic::div_mod::lemma_fundamental_div_mod_converse(
                spec_listings_bytes(listings).len() as int,
                SIZE as int,
                blocks.len() as int,
                current as int,
            );
        }
    }
}

/// Whether an entry of the index of a listing names the block in which
/// the header of its run lies, for a listing with `before` bytes of the
/// stream of the blocks in front of it.
pub open spec fn spec_index_start(
    entry: inode::DirIndex,
    before: nat,
    blocks: Seq<Metablock>,
) -> bool {
    let full = dir::spec_blocks_before(before, entry.index);
    &&& 0 <= full <= blocks.len()
    &&& entry.start == spec_frames(blocks.subrange(0, full)).len()
}

/// Whether every entry of the index of a listing names the block in which
/// the header of its run lies.
pub open spec fn spec_index_starts(
    index: Seq<inode::DirIndex>,
    before: nat,
    blocks: Seq<Metablock>,
) -> bool {
    forall|j: int| 0 <= j < index.len() ==> spec_index_start(#[trigger] index[j], before, blocks)
}

/// Whether the index of every directory names the blocks of the directory
/// table in which the headers of its listing lie.
pub open spec fn spec_indexes_ok(
    entries: Seq<inode::Entry>,
    listings: Seq<Seq<dir::Run>>,
    blocks: Seq<Metablock>,
) -> bool {
    &&& listings.len() == entries.len()
    &&& forall|k: int|
        0 <= k < entries.len() ==> ((#[trigger] entries[k]).data matches inode::Data::Directory(
            data,
        ) ==> spec_index_starts(
            spec_locations(data),
            spec_listings_bytes(listings.subrange(0, k)).len(),
            blocks,
        ))
}

/// The index of a listing names the same blocks when more blocks are
/// written.
proof fn lemma_index_kept(
    index: Seq<inode::DirIndex>,
    before: nat,
    blocks: Seq<Metablock>,
    later: Seq<Metablock>,
)
    requires
        spec_index_starts(index, before, blocks),
        blocks.len() <= later.len(),
        blocks == later.subrange(0, blocks.len() as int),
    ensures
        spec_index_starts(index, before, later),
{
    assert forall|j: int| 0 <= j < index.len() implies spec_index_start(
        #[trigger] index[j],
        before,
        later,
    ) by {
        let full = dir::spec_blocks_before(before, index[j].index);
        assert(spec_index_start(index[j], before, blocks));
        assert(later.subrange(0, full) =~= blocks.subrange(0, full));
    }
}

/// The indexes of the directories name the same blocks when more blocks
/// are written.
proof fn lemma_indexes_kept(
    entries: Seq<inode::Entry>,
    listings: Seq<Seq<dir::Run>>,
    blocks: Seq<Metablock>,
    later: Seq<Metablock>,
)
    requires
        spec_indexes_ok(entries, listings, blocks),
        blocks.len() <= later.len(),
        blocks == later.subrange(0, blocks.len() as int),
    ensures
        spec_indexes_ok(entries, listings, later),
{
    assert forall|k: int| 0 <= k < entries.len() implies ((#[trigger] entries[k]).data matches inode::Data::Directory(
        data,
    ) ==> spec_index_starts(
        spec_locations(data),
        spec_listings_bytes(listings.subrange(0, k)).len(),
        later,
    )) by {
        match entries[k].data {
            inode::Data::Directory(data) => {
                lemma_index_kept(
                    spec_locations(data),
                    spec_listings_bytes(listings.subrange(0, k)).len(),
                    blocks,
                    later,
                );
            },
            _ => {},
        }
    }
}

/// The index of a directory that is written behind the others names the
/// blocks of its headers as theirs do.
proof fn lemma_index_added(
    entries: Seq<inode::Entry>,
    listings: Seq<Seq<dir::Run>>,
    blocks: Seq<Metablock>,
    later: Seq<Metablock>,
    entry: inode::Entry,
    runs: Seq<dir::Run>,
)
    requires
        spec_indexes_ok(entries, listings, blocks),
        blocks.len() <= later.len(),
        blocks == later.subrange(0, blocks.len() as int),
        entry.data matches inode::Data::Directory(data) ==> spec_index_starts(
            spec_locations(data),
            spec_listings_bytes(listings).len(),
            later,
        ),
    ensures
        spec_indexes_ok(entries.push(entry), listings.push(runs), later),
{
    lemma_indexes_kept(entries, listings, blocks, later);
    let more = entries.push(entry);
    let longer = listings.push(runs);
    assert forall|k: int| 0 <= k < more.len() implies ((#[trigger] more[k]).data matches inode::Data::Directory(
        data,
    ) ==> spec_index_starts(
        spec_locations(data),
        spec_listings_bytes(longer.subrange(0, k)).len(),
        later,
    )) by {
        if k < entries.len() {
            assert(more[k] == entries[k]);
            assert(longer.subrange(0, k) =~= listings.subrange(0, k));
        } else {
            assert(more[k] == entry);
            assert(longer.subrange(0, k) =~= listings);
        }
    }
}

/// The blocks in which the listings start stay when the last block is
/// written behind the blocks of the table.
proof fn lemma_dirs_kept(
    entries: Seq<inode::Entry>,
    listings: Seq<Seq<dir::Run>>,
    blocks: Seq<Metablock>,
    last: Metablock,
)
    requires
        spec_dirs_ok(entries, listings, blocks),
    ensures
        spec_dirs_ok(entries, listings, blocks.push(last)),
{
    let all = blocks.push(last);
    assert forall|k: int| 0 <= k < entries.len() implies ((#[trigger] entries[k]).data matches inode::Data::Directory(
        data,
    ) ==> {
        let full = spec_listings_bytes(listings.subrange(0, k)).len() / (SIZE as nat);
        &&& full <= all.len()
        &&& data.dir_ref.spec_block_start() == spec_frames(all.subrange(0, full as int)).len()
    }) by {
        let full = (spec_listings_bytes(listings.subrange(0, k)).len() / (SIZE as nat)) as int;
        if entries[k].data is Directory {
            assert(all.subrange(0, full) =~= blocks.subrange(0, full));
        }
    }
}

/// Whether `places` are where the inodes lie in the stream of the blocks,
/// one for each inode, and the entries of every listing refer to the
/// inodes of their items there.
pub open spec fn spec_refs_ok(
    entries: Seq<inode::Entry>,
    listings: Seq<Seq<dir::Run>>,
    places: Seq<raw::Ref>,
    blocks: Seq<Metablock>,
) -> bool {
    &&& places.len() == entries.len()
    &&& listings.len() == entries.len()
    &&& forall|k: int|
        0 <= k < places.len() ==> spec_ref_at(
            blocks,
            spec_inodes_bytes(entries.subrange(0, k), 1).len(),
            #[trigger] places[k],
        )
    &&& forall|k: int|
        0 <= k < listings.len() ==> spec_listing_refs(#[trigger] listings[k], places, k)
}

/// Whether the inode of a file and the image hold the file.
///
/// The blocks are well formed and cover the content of the file, without
/// its tail where the tail goes into a fragment block. The inode records
/// the size of every block and the bytes that sparse blocks cover, and no
/// fragment where the file has no tail in one. The image holds what is
/// stored for the blocks where the inode says that they start.
pub open spec fn spec_file_of(
    item: Item,
    data: inode::Data,
    blocks: Seq<StoredBlock>,
    image: Seq<u8>,
    block_size: nat,
    config: FragmentConfig,
) -> bool {
    item.data matches Data::File { contents } ==> (data matches inode::Data::File(node) && {
        let in_fragment = config.spec_tail_in_fragment(contents@.len(), block_size);
        let tail = contents@.subrange(
            contents@.len() - contents@.len() % block_size,
            contents@.len() as int,
        );
        let kept = spec_block_stored(blocks);
        &&& spec_blocks_ok(blocks, block_size)
        &&& node.block_sizes@.len() == blocks.len()
        &&& forall|i: int|
            0 <= i < blocks.len() ==> node.block_sizes@[i] == (#[trigger] blocks[i]).size_word().0
        &&& node.sparse_bytes == spec_sparse_bytes(blocks)
        &&& in_fragment ==> spec_block_bodies(blocks) + tail == contents@
        &&& !in_fragment ==> spec_block_bodies(blocks) == contents@ && node.fragment_block_idx.0
            == fragment::NO_FRAGMENT
        &&& SUPERBLOCK_SIZE <= node.blocks_start.0
        &&& node.blocks_start.0 + kept.len() <= image.len()
        &&& image.subrange(node.blocks_start.0 as int, node.blocks_start.0 + kept.len()) == kept
    })
}

/// Whether the image holds the fragment blocks of the entries, `tails`
/// being the tails that each block holds: every block lies where its entry
/// says, is not larger than its tails, and is the tails themselves where it
/// is not compressed.
pub open spec fn spec_fragment_blocks_ok(
    entries: Seq<fragment::Entry>,
    tails: Seq<Seq<u8>>,
    image: Seq<u8>,
) -> bool {
    &&& entries.len() == tails.len()
    &&& forall|i: int|
        0 <= i < tails.len() ==> spec_fragment_held(entries[i], #[trigger] tails[i], image, 0)
}

/// Whether the inode of every file whose tail goes into a fragment block
/// says in which block and where in it the tail lies.
pub open spec fn spec_tails_ok(
    items: Seq<Item>,
    order: Seq<u32>,
    entries: Seq<inode::Entry>,
    tails: Seq<Seq<u8>>,
    block_size: nat,
    config: FragmentConfig,
) -> bool {
    &&& entries.len() == order.len()
    &&& forall|k: int|
        0 <= k < order.len() ==> ((#[trigger] entries[k]).data matches inode::Data::File(node)
            ==> (items[order[k] as int].data matches Data::File { contents }
            && config.spec_tail_in_fragment(contents@.len(), block_size) ==> spec_tail_in(
            tails,
            FragmentRef { block_idx: node.fragment_block_idx, offset: node.fragment_offset },
            spec_tail_of(items[order[k] as int], block_size),
        )))
}

/// The fragment blocks that the data section holds are held by the image,
/// and the inodes of the files say where the tails lie in them.
proof fn lemma_fragments_ok(
    items: Seq<Item>,
    order: Seq<u32>,
    entries: Seq<inode::Entry>,
    files: Seq<Option<FileBlocks>>,
    fragment_entries: Seq<fragment::Entry>,
    tails: Seq<Seq<u8>>,
    with_data: Seq<u8>,
    laid: Seq<u8>,
    image: Seq<u8>,
    block_size: nat,
    config: FragmentConfig,
)
    requires
        entries.len() == order.len(),
        forall|k: int| 0 <= k < order.len() ==> (#[trigger] order[k]) < files.len(),
        files.len() == items.len(),
        forall|k: int|
            0 <= k < order.len() ==> spec_file_cut(
                items[(#[trigger] order[k]) as int],
                files[order[k] as int],
                block_size,
                config,
            ),
        forall|j: int|
            0 <= j < entries.len() ==> spec_file_node(
                (#[trigger] entries[j]).data,
                files[order[j] as int],
            ),
        forall|j: int|
            0 <= j < files.len() ==> spec_file_tail_in(
                items[j],
                #[trigger] files[j],
                tails,
                block_size,
            ),
        fragment_entries.len() == tails.len(),
        forall|i: int|
            0 <= i < tails.len() ==> spec_fragment_held(
                fragment_entries[i],
                #[trigger] tails[i],
                with_data.subrange(SUPERBLOCK_SIZE as int, with_data.len() as int),
                SUPERBLOCK_SIZE as int,
            ),
        SUPERBLOCK_SIZE <= with_data.len() <= image.len(),
        laid.len() == image.len(),
        with_data == laid.subrange(0, with_data.len() as int),
        image.subrange(SUPERBLOCK_SIZE as int, image.len() as int) == laid.subrange(
            SUPERBLOCK_SIZE as int,
            laid.len() as int,
        ),
    ensures
        spec_fragment_blocks_ok(fragment_entries, tails, image),
        spec_tails_ok(items, order, entries, tails, block_size, config),
{
    let region = with_data.subrange(SUPERBLOCK_SIZE as int, with_data.len() as int);
    assert forall|i: int| 0 <= i < tails.len() implies spec_fragment_held(
        fragment_entries[i],
        #[trigger] tails[i],
        image,
        0,
    ) by {
        let entry = fragment_entries[i];
        assert(spec_fragment_held(entry, tails[i], region, SUPERBLOCK_SIZE as int));
        let at = entry.start - SUPERBLOCK_SIZE;
        let size = entry.size.spec_size() as int;
        let from = entry.start as int;
        let mine = image.subrange(from, from + size);
        let theirs = region.subrange(at, at + size);
        assert(mine =~= theirs) by {
            assert forall|j: int| 0 <= j < size implies #[trigger] mine[j] == theirs[j] by {
                assert(with_data[from + j] == laid.subrange(0, with_data.len() as int)[from + j]);
                assert(image[from + j] == image.subrange(
                    SUPERBLOCK_SIZE as int,
                    image.len() as int,
                )[from + j - SUPERBLOCK_SIZE]);
                assert(laid[from + j] == laid.subrange(SUPERBLOCK_SIZE as int, laid.len() as int)[
                    from + j - SUPERBLOCK_SIZE
                ]);
            }
        }
    }
    assert forall|k: int| 0 <= k < order.len() implies ((#[trigger] entries[k]).data matches inode::Data::File(
        node,
    ) ==> (items[order[k] as int].data matches Data::File { contents }
        && config.spec_tail_in_fragment(contents@.len(), block_size) ==> spec_tail_in(
        tails,
        FragmentRef { block_idx: node.fragment_block_idx, offset: node.fragment_offset },
        spec_tail_of(items[order[k] as int], block_size),
    ))) by {
        let idx = order[k] as int;
        assert(spec_file_cut(items[idx], files[idx], block_size, config));
        assert(spec_file_node(entries[k].data, files[idx]));
        assert(spec_file_tail_in(items[idx], files[idx], tails, block_size));
    }
}

/// Whether the inodes of the files and the image hold the files of the
/// order, with `stored` as the blocks of the file at each place.
pub open spec fn spec_files_ok(
    items: Seq<Item>,
    order: Seq<u32>,
    entries: Seq<inode::Entry>,
    stored: Seq<Seq<StoredBlock>>,
    image: Seq<u8>,
    block_size: nat,
    config: FragmentConfig,
) -> bool {
    &&& stored.len() == order.len()
    &&& entries.len() == order.len()
    &&& forall|k: int|
        0 <= k < order.len() ==> spec_file_of(
            items[order[k] as int],
            entries[k].data,
            #[trigger] stored[k],
            image,
            block_size,
            config,
        )
}

/// The blocks of a file that is stored, and none where none is.
pub(crate) open spec fn spec_blocks_of(stored: Option<FileBlocks>) -> Seq<StoredBlock> {
    match stored {
        Some(file) => file.blocks(),
        None => Seq::empty(),
    }
}

/// The files that were cut, placed and noted in their inodes are held by
/// the image, also once the tables and the superblock are written.
proof fn lemma_files_ok(
    items: Seq<Item>,
    root: u32,
    ids: Seq<u32>,
    order: Seq<u32>,
    entries: Seq<inode::Entry>,
    listings: Seq<Seq<dir::Run>>,
    files: Seq<Option<FileBlocks>>,
    with_data: Seq<u8>,
    laid: Seq<u8>,
    image: Seq<u8>,
    block_size: nat,
    config: FragmentConfig,
)
    requires
        spec_nodes_ok(items, root, ids, order, entries, listings),
        forall|k: int| 0 <= k < order.len() ==> (#[trigger] order[k]) < files.len(),
        forall|k: int|
            0 <= k < order.len() ==> spec_file_cut(
                items[(#[trigger] order[k]) as int],
                files[order[k] as int],
                block_size,
                config,
            ),
        forall|j: int|
            0 <= j < files.len() ==> spec_file_placed(
                #[trigger] files[j],
                with_data.subrange(SUPERBLOCK_SIZE as int, with_data.len() as int),
                SUPERBLOCK_SIZE as int,
            ),
        forall|j: int|
            0 <= j < entries.len() ==> spec_file_node(
                (#[trigger] entries[j]).data,
                files[order[j] as int],
            ),
        SUPERBLOCK_SIZE <= with_data.len() <= image.len(),
        laid.len() == image.len(),
        with_data == laid.subrange(0, with_data.len() as int),
        image.subrange(SUPERBLOCK_SIZE as int, image.len() as int) == laid.subrange(
            SUPERBLOCK_SIZE as int,
            laid.len() as int,
        ),
    ensures
        spec_files_ok(
            items,
            order,
            entries,
            Seq::new(order.len(), |k: int| spec_blocks_of(files[order[k] as int])),
            image,
            block_size,
            config,
        ),
{
    reveal(spec_nodes_ok);
    let stored = Seq::new(order.len(), |k: int| spec_blocks_of(files[order[k] as int]));
    let region = with_data.subrange(SUPERBLOCK_SIZE as int, with_data.len() as int);
    assert(region =~= image.subrange(SUPERBLOCK_SIZE as int, with_data.len() as int)) by {
        assert forall|i: int| 0 <= i < region.len() implies region[i] == image[SUPERBLOCK_SIZE
            + i] by {
            assert(with_data[SUPERBLOCK_SIZE + i] == laid.subrange(0, with_data.len() as int)[
                SUPERBLOCK_SIZE + i
            ]);
            assert(image[SUPERBLOCK_SIZE + i] == image.subrange(
                SUPERBLOCK_SIZE as int,
                image.len() as int,
            )[i]);
            assert(laid[SUPERBLOCK_SIZE + i] == laid.subrange(
                SUPERBLOCK_SIZE as int,
                laid.len() as int,
            )[i]);
        }
    }
    assert forall|k: int| 0 <= k < order.len() implies spec_file_of(
        items[order[k] as int],
        entries[k].data,
        #[trigger] stored[k],
        image,
        block_size,
        config,
    ) by {
        let item = items[order[k] as int];
        assert(spec_file_cut(item, files[order[k] as int], block_size, config));
        assert(spec_file_placed(files[order[k] as int], region, SUPERBLOCK_SIZE as int));
        assert(spec_file_node(entries[k].data, files[order[k] as int]));
        assert(spec_inode_of(item, ids, entries[k]));
        match (item.data, files[order[k] as int]) {
            (Data::File { contents }, Some(file)) => {
                let kept = spec_block_stored(file.blocks());
                let at = file.blocks_start.0 - SUPERBLOCK_SIZE;
                let from = file.blocks_start.0 as int;
                let mine = image.subrange(from, from + kept.len());
                let theirs = region.subrange(at, at + kept.len());
                assert(mine =~= theirs) by {
                    assert forall|i: int| 0 <= i < kept.len() implies #[trigger] mine[i]
                        == theirs[i] by {
                        assert(region[at + i] == image.subrange(
                            SUPERBLOCK_SIZE as int,
                            with_data.len() as int,
                        )[at + i]);
                    }
                }
            },
            _ => {},
        }
    }
}

/// The link count of an item that is no directory: the number of the
/// entries of the items of the order that refer to it, as 32 bits hold it,
/// and 1 where there is none.
pub open spec fn spec_link_count(items: Seq<Item>, order: Seq<u32>, idx: u32) -> u32 {
    let links = spec_saturated(spec_links_to(items, order, idx, order.len() as int));
    if links == 0 {
        1
    } else {
        links
    }
}

/// Whether an item of the order lists the item.
pub open spec fn spec_listed(items: Seq<Item>, order: Seq<u32>, idx: u32) -> bool {
    exists|p: int| 0 <= p < order.len() && spec_lists(items[(#[trigger] order[p]) as int], idx)
}

/// Whether the inode at place `k` says how its item is linked.
///
/// Every item but the root is listed by an item of the order, so that
/// nothing is written that the root does not reach.
/// The inode of an item that is no directory counts the entries that refer
/// to the item. The inode of a directory counts no links of its own (the
/// two links of every directory and one for each entry are added on disk),
/// and it has the number of a directory of the order that lists it; the
/// root has the number 1 there.
pub open spec fn spec_links_of(
    items: Seq<Item>,
    root: u32,
    order: Seq<u32>,
    k: int,
    entry: inode::Entry,
) -> bool {
    let idx = order[k];
    &&& idx != root ==> spec_listed(items, order, idx)
    &&& items[idx as int].data is Directory ==> entry.common.hardlink_count == 0
    &&& !(items[idx as int].data is Directory) ==> entry.common.hardlink_count == spec_link_count(
        items,
        order,
        idx,
    )
    &&& entry.data matches inode::Data::Directory(dir) ==> if idx == root {
        dir.parent_inode_num == raw::Idx(1)
    } else {
        &&& 1 <= dir.parent_inode_num.0 <= order.len()
        &&& spec_lists(items[order[dir.parent_inode_num.0 - 1] as int], idx)
    }
}

/// Whether the inodes and the listings are those of the items, written in
/// this order.
#[verifier::opaque]
pub open spec fn spec_nodes_ok(
    items: Seq<Item>,
    root: u32,
    ids: Seq<u32>,
    order: Seq<u32>,
    entries: Seq<inode::Entry>,
    listings: Seq<Seq<dir::Run>>,
) -> bool {
    &&& spec_write_order(items, root, order)
    &&& spec_inodes_of(items, ids, order, entries)
    &&& spec_listings_of(items, order, entries, listings)
    &&& forall|k: int|
        0 <= k < order.len() ==> spec_links_of(items, root, order, k, #[trigger] entries[k])
}

/// Whether the image holds the tables of the items.
///
/// From `inode_start` to `dir_start` stands the table of inodes: a stream
/// of metadata blocks that holds the inodes of the items that the root
/// reaches, each once, numbered from 1 on in an order in which every item
/// stands behind the items that it lists, and the root last. `count` is the
/// number of these inodes, and `root_ref` is where the inode of the root
/// lies. Every entry of a listing refers to the place of the inode of its
/// item, and the inode of every file says where the image holds the blocks
/// of the file, and the inode of every directory says where the listing of
/// the directory starts; where it has an index, every entry of the index
/// names the block in which the header of its run lies. The fragment table
/// has an entry for each fragment block of the image, and the inode of
/// every file whose tail goes into a fragment block says where the tail
/// lies. Where the archive is exportable, the table of the exported inodes
/// holds the places of the inodes in the order of their numbers. Behind the
/// table of inodes stands the table of directories: a stream that holds the
/// listings of the directories in the same order.
/// Behind that stands the stream of the IDs, which ends at `index_start`,
/// and then the offsets of the blocks of that stream.
pub open spec fn spec_tables_ok(
    items: Seq<Item>,
    root: u32,
    ids: Seq<u32>,
    compressed_inodes: bool,
    compressed_ids: bool,
    image: Seq<u8>,
    inode_start: int,
    dir_start: int,
    index_start: int,
    count: nat,
    root_ref: raw::Ref,
    block_size: nat,
    fragments: FragmentConfig,
    exportable: bool,
    export_start: int,
    fragment_count: nat,
    fragment_start: u64,
) -> bool {
    exists|
        order: Seq<u32>,
        entries: Seq<inode::Entry>,
        listings: Seq<Seq<dir::Run>>,
        places: Seq<raw::Ref>,
        blocks: Seq<Metablock>,
        dir_blocks: Seq<Metablock>,
        stored: Seq<Seq<StoredBlock>>,
        tails: Seq<Seq<u8>>,
        fragment_entries: Seq<fragment::Entry>,
        id_data: Seq<u8>,
        id_index: Seq<u32>,
    |
        {
            let dir_end = index_start - id_data.len();
            &&& #[trigger] spec_nodes_ok(items, root, ids, order, entries, listings)
            &&& #[trigger] spec_refs_ok(entries, listings, places, blocks)
            &&& #[trigger] spec_dirs_ok(entries, listings, dir_blocks)
            &&& spec_indexes_ok(entries, listings, dir_blocks)
            &&& #[trigger] spec_files_ok(
                items,
                order,
                entries,
                stored,
                image,
                block_size,
                fragments,
            )
            &&& #[trigger] spec_id_table(ids, compressed_ids, id_data, id_index)
            &&& #[trigger] spec_fragment_blocks_ok(fragment_entries, tails, image)
            &&& spec_tails_ok(items, order, entries, tails, block_size, fragments)
            &&& fragment_entries.len() == fragment_count
            &&& fragment_count == 0 ==> fragment_start == superblock::NO_SECTION
            &&& fragment_count > 0 ==> spec_table_at(
                fragment_entries,
                !compressed_inodes,
                image,
                fragment_start as int,
            )
            &&& order.len() == count
            &&& exportable ==> spec_table_at(places, !compressed_inodes, image, export_start)
            &&& places.len() > 0
            &&& places.last() == root_ref
            &&& 0 <= inode_start <= dir_start <= dir_end
            &&& index_start + 8 * id_index.len() <= image.len()
            &&& spec_stream_of(
                blocks,
                image.subrange(inode_start, dir_start),
                spec_inodes_bytes(entries, 1),
                !compressed_inodes,
            )
            &&& spec_stream_of(
                dir_blocks,
                image.subrange(dir_start, dir_end),
                spec_listings_bytes(listings),
                !compressed_inodes,
            )
            &&& image.subrange(dir_end, index_start + 8 * id_index.len()) == id_data
                + two_level::spec_index_bytes(dir_end as u64, id_index)
        }
}

/// The number of entries of an item.
fn child_count(item: &Item) -> (r: usize)
    ensures
        r == spec_entry_count(*item),
{
    match &item.data {
        Data::Directory { entries } => entries.len(),
        _ => 0,
    }
}

/// The item that entry `k` of a directory refers to, where the item is a
/// directory with such an entry.
fn child_at(item: &Item, k: usize) -> (r: Option<u32>)
    ensures
        k < spec_entry_count(*item) ==> r == Some(spec_entry_item(*item, k as int)),
{
    match &item.data {
        Data::Directory { entries } => {
            if k < entries.len() {
                Some(entries[k].item.0)
            } else {
                None
            }
        },
        _ => None,
    }
}

/// Whether every entry of every item refers to an item that stands before
/// the item itself, as the entries of an item do that was added behind the
/// items that it lists.
pub open spec fn spec_layered(items: Seq<Item>) -> bool {
    forall|j: int, e: int|
        0 <= j < items.len() && 0 <= e < spec_entry_count(items[j]) ==> (#[trigger] spec_entry_item(
            items[j],
            e,
        )) < j
}

/// Whether the item is small enough for an archive that is sure to fit: a
/// directory has at most 2048 entries with names of 1 to 255 bytes, a file
/// has at most 256 MiB, and a link has a target of 1 to 65536 bytes.
pub open spec fn spec_item_fits(item: Item) -> bool {
    match item.data {
        Data::Directory { entries } => {
            &&& entries@.len() <= FIT_ENTRIES
            &&& forall|e: int|
                0 <= e < entries@.len() ==> 1 <= (#[trigger] entries@[e]).name@.len() <= FIT_NAME
        },
        Data::File { contents } => contents@.len() <= FIT_FILE,
        Data::Symlink { target } => 1 <= target@.len() <= FIT_TARGET,
        _ => true,
    }
}

/// Whether the items are sure to fit into an archive: there are at most
/// 2048 of them, every one is small enough, and every entry refers to an
/// item that was added before the directory that lists it.
pub open spec fn spec_fits(items: Seq<Item>) -> bool {
    &&& items.len() <= FIT_ITEMS
    &&& spec_layered(items)
    &&& forall|j: int| 0 <= j < items.len() ==> spec_item_fits(#[trigger] items[j])
}

/// Whether every item of the order stands behind the items that it lists.
pub open spec fn spec_children_first(items: Seq<Item>, order: Seq<u32>) -> bool {
    forall|k: int, e: int|
        0 <= k < order.len() && 0 <= e < spec_entry_count(items[order[k] as int]) ==> spec_earlier(
            order,
            k,
            #[trigger] spec_entry_item(items[order[k] as int], e),
        )
}

/// The number of items that the walk has not come to.
pub(crate) open spec fn spec_unvisited(visited: Seq<bool>) -> nat
    decreases visited.len(),
{
    if visited.len() == 0 {
        0
    } else {
        spec_unvisited(visited.drop_last()) + if visited.last() {
            0nat
        } else {
            1nat
        }
    }
}

/// To come to an item leaves one item less to come to.
proof fn lemma_visited(visited: Seq<bool>, i: int)
    requires
        0 <= i < visited.len(),
        !visited[i],
    ensures
        spec_unvisited(visited.update(i, true)) + 1 == spec_unvisited(visited),
        spec_unvisited(visited) <= visited.len(),
    decreases visited.len(),
{
    let after = visited.update(i, true);
    if i == visited.len() - 1 {
        assert(after.drop_last() =~= visited.drop_last());
        lemma_unvisited_bound(visited.drop_last());
    } else {
        assert(after.drop_last() =~= visited.drop_last().update(i, true));
        lemma_visited(visited.drop_last(), i);
    }
}

/// There are no more items to come to than there are items.
proof fn lemma_unvisited_bound(visited: Seq<bool>)
    ensures
        spec_unvisited(visited) <= visited.len(),
    decreases visited.len(),
{
    if visited.len() > 0 {
        lemma_unvisited_bound(visited.drop_last());
    }
}

/// Whether the numbers are those of the places in the order, counted from
/// 1, and only items that the walk has come to have one.
pub(crate) open spec fn spec_numbered(
    n: nat,
    order: Seq<u32>,
    numbers: Seq<u32>,
    visited: Seq<bool>,
) -> bool {
    &&& numbers.len() == n
    &&& visited.len() == n
    &&& order.len() <= n
    &&& forall|k: int|
        0 <= k < order.len() ==> (#[trigger] order[k]) < n && numbers[order[k] as int] == k + 1
    &&& forall|j: int|
        0 <= j < n && (#[trigger] numbers[j]) != 0 ==> visited[j] && 1 <= numbers[j] <= order.len()
            && order[numbers[j] - 1] == j
}

/// Whether the items that the walk has come to are also left behind, all
/// but `idx` and those that were not left behind `before`.
pub(crate) open spec fn spec_pending_kept(
    n: nat,
    idx: int,
    numbers: Seq<u32>,
    visited: Seq<bool>,
    old_numbers: Seq<u32>,
    old_visited: Seq<bool>,
) -> bool {
    forall|j: int|
        0 <= j < n && (#[trigger] visited[j]) && numbers[j] == 0 ==> j == idx || (old_visited[j]
            && old_numbers[j] == 0)
}

/// Whether the item lists `child`.
pub open spec fn spec_lists(item: Item, child: u32) -> bool {
    exists|e: int| 0 <= e < spec_entry_count(item) && #[trigger] spec_entry_item(item, e) == child
}

/// Whether every item that the walk has come to, but the one that it
/// started from, is noted with a directory that lists it and that the walk
/// has come to as well.
pub(crate) open spec fn spec_parents_ok(
    items: Seq<Item>,
    parents: Seq<u32>,
    visited: Seq<bool>,
    top: u32,
) -> bool {
    forall|j: int|
        0 <= j < items.len() && (#[trigger] visited[j]) && j != top ==> spec_parent_ok(
            items,
            parents,
            visited,
            j,
        )
}

/// Whether the item is noted with a directory that lists it and that the
/// walk has come to.
pub(crate) open spec fn spec_parent_ok(
    items: Seq<Item>,
    parents: Seq<u32>,
    visited: Seq<bool>,
    j: int,
) -> bool {
    &&& parents[j] < items.len()
    &&& visited[parents[j] as int]
    &&& spec_lists(items[parents[j] as int], j as u32)
}

/// Walks the items that `idx` reaches and that the walk has not come to,
/// depth first, and notes each of them behind the items that it lists.
///
/// `depth` is the number of directories that the walk is inside of. The
/// walk fails where an entry refers to an item that is not there, and where
/// directories are nested more than 4096 deep.
#[verifier::spinoff_prover]
#[verifier::rlimit(100)]
fn visit(
    items: &Vec<Item>,
    idx: u32,
    order: &mut Vec<u32>,
    numbers: &mut Vec<u32>,
    parents: &mut Vec<u32>,
    visited: &mut Vec<bool>,
    depth: usize,
    Ghost(top): Ghost<u32>,
) -> (r: Result<(), Error>)
    requires
        spec_parents_ok(items@, old(parents)@, old(visited)@, top),
        idx == top || spec_parent_ok(
            items@,
            old(parents)@,
            old(visited)@.update(idx as int, true),
            idx as int,
        ),
        items@.len() < u32::MAX,
        idx < items@.len(),
        old(parents)@.len() == items@.len(),
        spec_numbered(items@.len(), old(order)@, old(numbers)@, old(visited)@),
        !old(visited)@[idx as int],
        old(order)@.len() + spec_unvisited(old(visited)@) + depth <= items@.len(),
        spec_layered(items@) ==> spec_children_first(items@, old(order)@) && forall|j: int|
            0 <= j < items@.len() && (#[trigger] old(visited)@[j]) && old(numbers)@[j] == 0 ==> j
                > idx,
    ensures
        final(parents)@.len() == items@.len(),
        r matches Err(e) ==> e == Error(ErrorInner::Item(ItemError::InvalidItem)) || e == Error(
            ErrorInner::Item(ItemError::TableTooLarge),
        ),
        r is Ok ==> {
            &&& spec_numbered(items@.len(), final(order)@, final(numbers)@, final(visited)@)
            &&& final(order)@.len() + spec_unvisited(final(visited)@) + depth <= items@.len()
            &&& spec_unvisited(final(visited)@) < spec_unvisited(old(visited)@)
            &&& forall|j: int|
                0 <= j < items@.len() && (#[trigger] old(visited)@[j]) ==> final(visited)@[j]
                    && final(numbers)@[j] == old(numbers)@[j]
            &&& old(order)@.len() < final(order)@.len()
            &&& old(order)@ == final(order)@.subrange(0, old(order)@.len() as int)
            &&& final(order)@.last() == idx
            &&& final(numbers)@[idx as int] != 0
            &&& spec_parents_ok(items@, final(parents)@, final(visited)@, top)
            &&& spec_pending_kept(
                items@.len(),
                -1,
                final(numbers)@,
                final(visited)@,
                old(numbers)@,
                old(visited)@,
            )
        },
        spec_layered(items@) && items@.len() <= MAX_DEPTH ==> r is Ok,
        spec_layered(items@) && r is Ok ==> spec_children_first(items@, final(order)@),
        spec_entry_count(items@[idx as int]) == 0 && depth < MAX_DEPTH ==> r is Ok && final(order)@
            == old(order)@.push(idx),
    decreases spec_unvisited(old(visited)@),
{
    let n = items.len();
    let ghost start = spec_unvisited(visited@);
    proof {
        lemma_visited(visited@, idx as int);
    }
    if depth >= MAX_DEPTH {
        return Err(too_large());
    }
    visited.set(idx as usize, true);
    proof {
        assert forall|j: int|
            0 <= j < n && (#[trigger] visited@[j]) && j != top implies spec_parent_ok(
            items@,
            parents@,
            visited@,
            j,
        ) by {
            if j != idx {
                assert(spec_parent_ok(items@, parents@, old(visited)@, j));
            }
        }
    }
    let item = &items[idx as usize];
    let count = child_count(item);
    let mut e: usize = 0;
    proof {
        assert(order@.subrange(0, order@.len() as int) =~= order@);
    }
    while e < count
        invariant
            e <= count,
            count == spec_entry_count(items@[idx as int]),
            n == items@.len(),
            n < u32::MAX,
            idx < n,
            *item == items@[idx as int],
            parents@.len() == n,
            spec_numbered(n as nat, order@, numbers@, visited@),
            visited@[idx as int],
            numbers@[idx as int] == 0,
            order@.len() + spec_unvisited(visited@) + depth + 1 <= n,
            spec_unvisited(visited@) < start,
            start == spec_unvisited(old(visited)@),
            forall|j: int|
                0 <= j < n && (#[trigger] old(visited)@[j]) ==> visited@[j] && numbers@[j] == old(
                    numbers,
                )@[j],
            old(order)@.len() <= order@.len(),
            old(order)@ == order@.subrange(0, old(order)@.len() as int),
            count == 0 ==> order@ == old(order)@,
            spec_parents_ok(items@, parents@, visited@, top),
            spec_pending_kept(
                n as nat,
                idx as int,
                numbers@,
                visited@,
                old(numbers)@,
                old(visited)@,
            ),
            spec_layered(items@) ==> {
                &&& spec_children_first(items@, order@)
                &&& forall|j: int|
                    0 <= j < n && (#[trigger] old(visited)@[j]) && old(numbers)@[j] == 0 ==> j > idx
                &&& forall|f: int|
                    0 <= f < e ==> numbers@[(#[trigger] spec_entry_item(items@[idx as int], f)) as int]
                        != 0
            },
        decreases count - e,
    {
        let child = match child_at(item, e) {
            Some(child) => child,
            None => {
                return Err(invalid_item());
            },
        };
        if child as usize >= n {
            return Err(invalid_item());
        }
        if !visited[child as usize] {
            let ghost parents_before = parents@;
            parents.set(child as usize, idx);
            proof {
                assert(spec_entry_item(items@[idx as int], e as int) == child);
                assert forall|j: int|
                    0 <= j < n && (#[trigger] visited@[j]) && j != top implies spec_parent_ok(
                    items@,
                    parents@,
                    visited@,
                    j,
                ) by {
                    assert(spec_parent_ok(items@, parents_before, visited@, j));
                }
            }
            let ghost before_order = order@;
            let ghost before_numbers = numbers@;
            let ghost before_visited = visited@;
            match visit(
                items,
                child,
                order,
                numbers,
                parents,
                visited,
                depth + 1,
                Ghost(top),
            ) {
                Ok(()) => {},
                Err(e) => {
                    return Err(e);
                },
            }
            proof {
                assert(old(order)@ =~= order@.subrange(0, old(order)@.len() as int)) by {
                    assert forall|k: int| 0 <= k < old(order)@.len() implies old(order)@[k]
                        == order@[k] by {
                        assert(old(order)@[k] == before_order.subrange(
                            0,
                            old(order)@.len() as int,
                        )[k]);
                        assert(before_order[k] == order@.subrange(0, before_order.len() as int)[k]);
                    }
                }
                if spec_layered(items@) {
                    assert forall|f: int| 0 <= f < e + 1 implies numbers@[(
                    #[trigger] spec_entry_item(items@[idx as int], f)) as int] != 0 by {
                        let c = spec_entry_item(items@[idx as int], f);
                        if f < e {
                            assert(before_numbers[c as int] != 0);
                            assert(before_visited[c as int]);
                        }
                    }
                }
            }
        } else {
            proof {
                if spec_layered(items@) {
                    assert(spec_entry_item(items@[idx as int], e as int) < idx);
                }
            }
        }
        e += 1;
    }
    let number = order.len() as u32 + 1;
    let ghost before_order = order@;
    let ghost before_numbers = numbers@;
    numbers.set(idx as usize, number);
    order.push(idx);
    proof {
        assert(old(order)@ =~= order@.subrange(0, old(order)@.len() as int));
        assert forall|k: int| 0 <= k < order@.len() implies (#[trigger] order@[k]) < n
            && numbers@[order@[k] as int] == k + 1 by {
            if k < before_order.len() {
                assert(before_numbers[before_order[k] as int] == k + 1);
            }
        }
        assert forall|j: int| 0 <= j < n && (#[trigger] numbers@[j]) != 0 implies visited@[j] && 1
            <= numbers@[j] <= order@.len() && order@[numbers@[j] - 1] == j by {
            if j != idx {
                assert(before_numbers[j] != 0);
                assert(before_order[before_numbers[j] - 1] == j);
            }
        }
        if spec_layered(items@) {
            assert forall|k: int, f: int|
                0 <= k < order@.len() && 0 <= f < spec_entry_count(
                    items@[order@[k] as int],
                ) implies spec_earlier(
                order@,
                k,
                #[trigger] spec_entry_item(items@[order@[k] as int], f),
            ) by {
                let c = spec_entry_item(items@[order@[k] as int], f);
                if k < before_order.len() {
                    assert(spec_earlier(before_order, k, c));
                    let i = choose|i: int| 0 <= i < k && #[trigger] before_order[i] == c;
                    assert(order@[i] == c);
                } else {
                    assert(c < idx);
                    assert(before_numbers[c as int] != 0);
                    let i = before_numbers[c as int] - 1;
                    assert(before_order[i] == c);
                    assert(order@[i] == c);
                }
            }
        }
        if count == 0 {
            assert(order@ =~= old(order)@.push(idx));
        }
    }
    Ok(())
}

/// How many of the first `upto` entries of the item refer to `target`.
pub open spec fn spec_refs_to(item: Item, target: u32, upto: int) -> nat
    decreases upto,
{
    if upto <= 0 {
        0
    } else {
        spec_refs_to(item, target, upto - 1) + if spec_entry_item(item, upto - 1) == target {
            1nat
        } else {
            0nat
        }
    }
}

/// How many entries of the items at the first `upto` places of the order
/// refer to `target`.
pub open spec fn spec_links_to(items: Seq<Item>, order: Seq<u32>, target: u32, upto: int) -> nat
    decreases upto,
{
    if upto <= 0 {
        0
    } else {
        spec_links_to(items, order, target, upto - 1) + spec_refs_to(
            items[order[upto - 1] as int],
            target,
            spec_entry_count(items[order[upto - 1] as int]) as int,
        )
    }
}

/// The count as 32 bits hold it: the largest number that they hold stands
/// for every larger one.
pub open spec fn spec_saturated(count: nat) -> u32 {
    if count >= u32::MAX {
        u32::MAX
    } else {
        count as u32
    }
}

/// Counts for every item the entries of the items of the order that refer
/// to it.
fn count_links(items: &Vec<Item>, order: &Vec<u32>) -> (r: Vec<u32>)
    requires
        items@.len() < u32::MAX,
        forall|k: int| 0 <= k < order@.len() ==> (#[trigger] order@[k]) < items@.len(),
    ensures
        r@.len() == items@.len(),
        forall|c: int|
            0 <= c < items@.len() ==> (#[trigger] r@[c]) == spec_saturated(
                spec_links_to(items@, order@, c as u32, order@.len() as int),
            ),
{
    let n = items.len();
    let mut links: Vec<u32> = Vec::new();
    let mut i: usize = 0;
    while i < n
        invariant
            i <= n,
            n == items@.len(),
            links@.len() == i,
            forall|c: int| 0 <= c < i ==> (#[trigger] links@[c]) == 0,
        decreases n - i,
    {
        links.push(0);
        i += 1;
    }
    let mut k: usize = 0;
    while k < order.len()
        invariant
            k <= order@.len(),
            n == items@.len(),
            n < u32::MAX,
            links@.len() == n,
            forall|j: int| 0 <= j < order@.len() ==> (#[trigger] order@[j]) < n,
            forall|c: int|
                0 <= c < n ==> (#[trigger] links@[c]) == spec_saturated(
                    spec_links_to(items@, order@, c as u32, k as int),
                ),
        decreases order@.len() - k,
    {
        let item = &items[order[k] as usize];
        let count = child_count(item);
        let mut e: usize = 0;
        while e < count
            invariant
                e <= count,
                k < order@.len(),
                count == spec_entry_count(*item),
                *item == items@[order@[k as int] as int],
                n == items@.len(),
                n < u32::MAX,
                links@.len() == n,
                forall|c: int|
                    0 <= c < n ==> (#[trigger] links@[c]) == spec_saturated(
                        spec_links_to(items@, order@, c as u32, k as int) + spec_refs_to(
                            *item,
                            c as u32,
                            e as int,
                        ),
                    ),
            decreases count - e,
        {
            let ghost before = links@;
            match child_at(item, e) {
                Some(child) => {
                    if (child as usize) < n {
                        let linked = links[child as usize];
                        if linked < u32::MAX {
                            links.set(child as usize, linked + 1);
                        }
                    }
                },
                None => {},
            }
            proof {
                let child = spec_entry_item(*item, e as int);
                assert forall|c: int| 0 <= c < n implies (#[trigger] links@[c]) == spec_saturated(
                    spec_links_to(items@, order@, c as u32, k as int) + spec_refs_to(
                        *item,
                        c as u32,
                        e + 1,
                    ),
                ) by {
                    assert(before[c] == spec_saturated(
                        spec_links_to(items@, order@, c as u32, k as int) + spec_refs_to(
                            *item,
                            c as u32,
                            e as int,
                        ),
                    ));
                    assert(spec_refs_to(*item, c as u32, e + 1) == spec_refs_to(
                        *item,
                        c as u32,
                        e as int,
                    ) + if child == c as u32 {
                        1nat
                    } else {
                        0nat
                    });
                }
            }
            e += 1;
        }
        proof {
            assert forall|c: int| 0 <= c < n implies (#[trigger] links@[c]) == spec_saturated(
                spec_links_to(items@, order@, c as u32, k + 1),
            ) by {
                assert(spec_links_to(items@, order@, c as u32, k + 1) == spec_links_to(
                    items@,
                    order@,
                    c as u32,
                    k as int,
                ) + spec_refs_to(*item, c as u32, count as int));
            }
        }
        k += 1;
    }
    links
}

/// Whether the walk has noted, for every item of the order but the root, a
/// directory of the order that lists it, and for every item the number of
/// the entries of the items of the order that refer to it.
#[verifier::opaque]
pub(crate) open spec fn spec_walk_noted(
    items: Seq<Item>,
    root: u32,
    order: Seq<u32>,
    numbers: Seq<u32>,
    parents: Seq<u32>,
    links: Seq<u32>,
) -> bool {
    &&& forall|k: int|
        0 <= k < order.len() && (#[trigger] order[k]) != root ==> {
            let parent = parents[order[k] as int];
            &&& parent < items.len()
            &&& 1 <= numbers[parent as int] <= order.len()
            &&& order[numbers[parent as int] - 1] == parent
            &&& spec_lists(items[parent as int], order[k])
        }
    &&& forall|c: int|
        0 <= c < items.len() ==> (#[trigger] links[c]) == spec_saturated(
            spec_links_to(items, order, c as u32, order.len() as int),
        )
}

/// Walks the items that the root reaches, depth first, and notes each item
/// once all the items that it lists are noted.
///
/// The walk fails where an entry refers to an item that is not there, and
/// where directories are nested more than 4096 deep.
pub(crate) fn post_order(items: &Vec<Item>, root: u32) -> (r: Result<Walk, Error>)
    requires
        root < items@.len(),
        items@.len() < u32::MAX,
    ensures
        r matches Ok(walk) ==> walk.wf(items@.len()) && walk.order@.last() == root,
        r matches Err(e) ==> e == Error(ErrorInner::Item(ItemError::InvalidItem)) || e == Error(
            ErrorInner::Item(ItemError::TableTooLarge),
        ),
        spec_no_entries(items@[root as int]) ==> (r matches Ok(walk) && walk.order@ == seq![root]),
        spec_layered(items@) && items@.len() <= MAX_DEPTH ==> r is Ok,
        spec_layered(items@) ==> (r matches Ok(walk) ==> spec_children_first(items@, walk.order@)),
        r matches Ok(walk) ==> spec_walk_noted(
            items@,
            root,
            walk.order@,
            walk.numbers@,
            walk.parents@,
            walk.links@,
        ),
{
    let n = items.len();
    let mut numbers: Vec<u32> = Vec::new();
    let mut parents: Vec<u32> = Vec::new();
    let mut visited: Vec<bool> = Vec::new();
    let mut i: usize = 0;
    while i < n
        invariant
            i <= n,
            n == items@.len(),
            numbers@.len() == i,
            parents@.len() == i,
            visited@.len() == i,
            forall|j: int| 0 <= j < i ==> numbers@[j] == 0,
            forall|j: int| 0 <= j < i ==> !visited@[j],
        decreases n - i,
    {
        numbers.push(0);
        parents.push(NO_ROOT);
        visited.push(false);
        i += 1;
    }
    let mut order: Vec<u32> = Vec::new();
    proof {
        lemma_unvisited_bound(visited@);
    }
    match visit(
        items,
        root,
        &mut order,
        &mut numbers,
        &mut parents,
        &mut visited,
        0,
        Ghost(root),
    ) {
        Ok(()) => {},
        Err(e) => {
            return Err(e);
        },
    }
    proof {
        if spec_no_entries(items@[root as int]) {
            assert(order@ =~= seq![root]);
        }
        assert forall|k: int| 0 <= k < order@.len() && (#[trigger] order@[k]) != root implies {
            let parent = parents@[order@[k] as int];
            &&& parent < items@.len()
            &&& 1 <= numbers@[parent as int] <= order@.len()
            &&& order@[numbers@[parent as int] - 1] == parent
            &&& spec_lists(items@[parent as int], order@[k])
        } by {
            let x = order@[k] as int;
            assert(numbers@[x] == k + 1);
            assert(visited@[x]);
            assert(spec_parent_ok(items@, parents@, visited@, x));
            let parent = parents@[x] as int;
            assert(visited@[parent]);
            assert(numbers@[parent] != 0);
        }
    }
    let links = count_links(items, &order);
    proof {
        reveal(spec_walk_noted);
    }
    Ok(Walk { order, numbers, parents, links })
}

/// Whether the content of an item that is a file is stored: the blocks of
/// the file hold as many bytes as the file has.
pub(crate) open spec fn spec_file_stored(item: Item, stored: Option<FileBlocks>) -> bool {
    item.data matches Data::File { contents } ==> (stored matches Some(blocks) && blocks.file_size
        == contents@.len() && blocks.sizes@.len() * 0x1000 <= contents@.len() + 0x10_0000)
}

/// Whether the content of an item that is a file is cut into blocks as the
/// format asks: the blocks are well formed and cover the content, without
/// its tail where the tail goes into a fragment block.
pub(crate) open spec fn spec_file_cut(
    item: Item,
    stored: Option<FileBlocks>,
    block_size: nat,
    config: FragmentConfig,
) -> bool {
    item.data matches Data::File { contents } ==> (stored matches Some(file) && {
        let in_fragment = config.spec_tail_in_fragment(contents@.len(), block_size);
        let tail = contents@.subrange(
            contents@.len() - contents@.len() % block_size,
            contents@.len() as int,
        );
        &&& spec_blocks_ok(file.blocks(), block_size)
        &&& file.sizes@ == spec_size_words(file.blocks())
        &&& file.sparse_bytes == spec_sparse_bytes(file.blocks())
        &&& file.fragment is Some == in_fragment
        &&& in_fragment ==> spec_block_bodies(file.blocks()) + tail == contents@
        &&& !in_fragment ==> spec_block_bodies(file.blocks()) == contents@
    })
}

/// Whether the bytes hold what is stored for the blocks of the file, at
/// the place where the file says that its blocks start, for bytes that
/// start at `start` in the archive.
pub(crate) open spec fn spec_file_placed(
    stored: Option<FileBlocks>,
    bytes: Seq<u8>,
    start: int,
) -> bool {
    stored matches Some(file) ==> {
        let at = file.blocks_start.0 - start;
        let kept = spec_block_stored(file.blocks());
        &&& 0 <= at
        &&& at + kept.len() <= bytes.len()
        &&& bytes.subrange(at, at + kept.len()) == kept
    }
}

/// A part of some bytes is the same part of any bytes that start with
/// them.
proof fn lemma_part_kept(bytes: Seq<u8>, more: Seq<u8>, at: int, len: int)
    requires
        bytes.len() <= more.len(),
        bytes == more.subrange(0, bytes.len() as int),
        0 <= at,
        0 <= len,
        at + len <= bytes.len(),
    ensures
        more.subrange(at, at + len) == bytes.subrange(at, at + len),
{
    assert(more.subrange(at, at + len) =~= bytes.subrange(at, at + len)) by {
        assert forall|i: int| at <= i < at + len implies more[i] == bytes[i] by {
            assert(bytes[i] == more.subrange(0, bytes.len() as int)[i]);
        }
    }
}

/// The tail of the content of a file, for blocks of the given size.
pub open spec fn spec_tail_of(item: Item, block_size: nat) -> Seq<u8> {
    match item.data {
        Data::File { contents } => contents@.subrange(
            contents@.len() - contents@.len() % block_size,
            contents@.len() as int,
        ),
        _ => Seq::empty(),
    }
}

/// Whether the tail of the file lies in the fragment blocks of the section
/// where the file that is stored says.
pub(crate) open spec fn spec_file_tail(
    item: Item,
    stored: Option<FileBlocks>,
    section: &Datablocks,
) -> bool {
    stored matches Some(file) ==> (file.fragment matches Some(place) ==> section.spec_tail_at(
        place,
        spec_tail_of(item, section.spec_block_size() as nat),
    ))
}

/// Whether the tail of the file lies in the fragment blocks where the file
/// that is stored says.
pub(crate) open spec fn spec_file_tail_in(
    item: Item,
    stored: Option<FileBlocks>,
    tails: Seq<Seq<u8>>,
    block_size: nat,
) -> bool {
    stored matches Some(file) ==> (file.fragment matches Some(place) ==> spec_tail_in(
        tails,
        place,
        spec_tail_of(item, block_size),
    ))
}

/// Whether the inode of a file says of its blocks what the file that is
/// stored says: where they start, their sizes, the bytes that sparse blocks
/// cover, and where the tail lies.
pub(crate) open spec fn spec_file_node(data: inode::Data, stored: Option<FileBlocks>) -> bool {
    data matches inode::Data::File(node) ==> (stored matches Some(file) && {
        &&& node.blocks_start == file.blocks_start
        &&& node.sparse_bytes == file.sparse_bytes
        &&& node.block_sizes@.len() == file.sizes@.len()
        &&& forall|i: int|
            0 <= i < node.block_sizes@.len() ==> node.block_sizes@[i] == file.sizes@[i].0
        &&& file.fragment is None ==> node.fragment_block_idx.0 == fragment::NO_FRAGMENT
        &&& file.fragment matches Some(place) ==> node.fragment_block_idx == place.block_idx
            && node.fragment_offset == place.offset
    })
}

/// Whether the files are sure to fit into a data section that is new: the
/// items are at most 2048 and small enough, and the section holds nothing
/// and starts near the start of the archive.
pub(crate) open spec fn spec_files_fit(items: Seq<Item>, section: &Datablocks) -> bool {
    &&& items.len() <= FIT_ITEMS
    &&& forall|j: int| 0 <= j < items.len() ==> spec_item_fits(#[trigger] items[j])
    &&& section.output().len() == 0
    &&& section.fragment_entries().len() == 0
    &&& section.spec_start_offset() <= 0x1_0000
}

/// Stores the contents of the files that the walk reaches in the data
/// section, in the order of the walk.
fn write_files(items: &Vec<Item>, walk: &Walk, section: &mut Datablocks) -> (r: Result<
    Vec<Option<FileBlocks>>,
    Error,
>)
    requires
        walk.wf(items@.len()),
        old(section).wf(),
    ensures
        final(section).wf(),
        final(section).same_setup(old(section)),
        r matches Ok(files) ==> files@.len() == items@.len(),
        r matches Ok(files) ==> forall|k: int|
            0 <= k < walk.order@.len() ==> spec_file_stored(
                items@[(#[trigger] walk.order@[k]) as int],
                files@[walk.order@[k] as int],
            ),
        r matches Ok(files) ==> forall|k: int|
            0 <= k < walk.order@.len() ==> spec_file_cut(
                items@[(#[trigger] walk.order@[k]) as int],
                files@[walk.order@[k] as int],
                old(section).spec_block_size() as nat,
                old(section).spec_fragment_config(),
            ),
        r matches Ok(files) ==> forall|j: int|
            0 <= j < files@.len() ==> spec_file_placed(
                #[trigger] files@[j],
                final(section).output(),
                old(section).spec_start_offset() as int,
            ),
        old(section).output() == final(section).output().subrange(
            0,
            old(section).output().len() as int,
        ),
        r matches Ok(files) ==> forall|j: int|
            0 <= j < files@.len() ==> spec_file_tail(items@[j], #[trigger] files@[j], final(section)),
        r matches Err(e) ==> e == Error(ErrorInner::Item(ItemError::TableTooLarge)),
        (forall|k: int|
            0 <= k < walk.order@.len() ==> !(items@[(#[trigger] walk.order@[k]) as int].data
                is File)) ==> r is Ok && *final(section) == *old(section),
        spec_files_fit(items@, old(section)) ==> {
            &&& r is Ok
            &&& final(section).output().len() <= walk.order@.len() * FILE_BOUND
            &&& final(section).fragment_entries().len() <= walk.order@.len()
        },
{
    let n = items.len();
    let mut files: Vec<Option<FileBlocks>> = Vec::new();
    let mut i: usize = 0;
    while i < n
        invariant
            i <= n,
            n == items@.len(),
            files@.len() == i,
            forall|j: int| 0 <= j < i ==> (#[trigger] files@[j]) is None,
        decreases n - i,
    {
        files.push(None);
        i += 1;
    }
    proof {
        assert(section.output().subrange(0, section.output().len() as int) =~= section.output());
    }
    let mut k: usize = 0;
    proof {
        section.lemma_same_setup(section, section);
    }
    while k < walk.order.len()
        invariant
            k <= walk.order@.len(),
            n == items@.len(),
            walk.wf(n as nat),
            files@.len() == n,
            section.wf(),
            section.same_setup(old(section)),
            (forall|j: int|
                0 <= j < walk.order@.len() ==> !(items@[(#[trigger] walk.order@[j]) as int].data
                    is File)) ==> *section == *old(section),
            forall|j: int|
                0 <= j < k ==> spec_file_stored(
                    items@[(#[trigger] walk.order@[j]) as int],
                    files@[walk.order@[j] as int],
                ),
            spec_files_fit(items@, old(section)) ==> {
                &&& section.output().len() <= k * FILE_BOUND
                &&& section.fragment_entries().len() <= k
            },
            forall|j: int|
                0 <= j < k ==> spec_file_cut(
                    items@[(#[trigger] walk.order@[j]) as int],
                    files@[walk.order@[j] as int],
                    old(section).spec_block_size() as nat,
                    old(section).spec_fragment_config(),
                ),
            forall|j: int|
                0 <= j < n ==> spec_file_placed(
                    #[trigger] files@[j],
                    section.output(),
                    old(section).spec_start_offset() as int,
                ),
            old(section).output().len() <= section.output().len(),
            old(section).output() == section.output().subrange(
                0,
                old(section).output().len() as int,
            ),
            forall|j: int|
                0 <= j < n ==> spec_file_tail(items@[j], #[trigger] files@[j], section),
        decreases walk.order@.len() - k,
    {
        let ghost before = *section;
        let idx = walk.order[k] as usize;
        match &items[idx].data {
            Data::File { contents } => {
                let needed: u128 = contents.len() as u128 + 2 * section.block_size() as u128;
                proof {
                    if spec_files_fit(items@, old(section)) {
                        assert(spec_item_fits(items@[idx as int]));
                        section.lemma_fragments();
                        section.spec_fragments().lemma_has_room();
                    }
                }
                if needed > u64::MAX as u128 || !section.has_room(needed as u64) {
                    return Err(too_large());
                }
                proof {
                    section.lemma_room(needed as nat, 0);
                    section.lemma_room(
                        needed as nat,
                        contents@.len() + section.fragment_buffer().len()
                            + section.spec_block_size() as nat,
                    );
                }
                let ghost files_before = files@;
                let blocks = crate::write::datablocks::handle_file(section, contents.as_slice());
                proof {
                    let kept = spec_block_stored(blocks.blocks());
                    let placed = before.output() + kept;
                    assert(before.output() =~= section.output().subrange(
                        0,
                        before.output().len() as int,
                    )) by {
                        assert forall|i: int| 0 <= i < before.output().len() implies before.output()[i]
                            == section.output()[i] by {
                            assert(placed[i] == section.output().subrange(0, placed.len() as int)[i]);
                        }
                    }
                    lemma_prefix_kept(old(section).output(), before.output(), section.output());
                    assert forall|j: int| 0 <= j < n implies spec_file_tail(
                        items@[j],
                        #[trigger] files_before[j],
                        section,
                    ) by {
                        match files_before[j] {
                            Some(file) => {
                                match file.fragment {
                                    Some(place) => {
                                        section.lemma_tail_kept(
                                            &before,
                                            place,
                                            spec_tail_of(
                                                items@[j],
                                                before.spec_block_size() as nat,
                                            ),
                                        );
                                    },
                                    None => {},
                                }
                            },
                            None => {},
                        }
                    }
                    assert forall|j: int| 0 <= j < n implies spec_file_placed(
                        #[trigger] files_before[j],
                        section.output(),
                        old(section).spec_start_offset() as int,
                    ) by {
                        match files_before[j] {
                            Some(file) => {
                                let at = file.blocks_start.0 - old(section).spec_start_offset();
                                lemma_part_kept(
                                    before.output(),
                                    section.output(),
                                    at,
                                    spec_block_stored(file.blocks()).len() as int,
                                );
                            },
                            None => {},
                        }
                    }
                    assert(section.output().subrange(
                        before.output().len() as int,
                        (before.output().len() + kept.len()) as int,
                    ) =~= kept) by {
                        assert forall|i: int| 0 <= i < kept.len() implies section.output()[
                            before.output().len() + i
                        ] == kept[i] by {
                            assert(placed[before.output().len() + i] == section.output().subrange(
                                0,
                                placed.len() as int,
                            )[before.output().len() + i]);
                        }
                    }
                    let size = before.spec_block_size() as nat;
                    let count = blocks.blocks().len();
                    assert(blocks.sizes@.len() == count);
                    assert(count * 0x1000 <= contents@.len() + 0x10_0000) by (nonlinear_arith)
                        requires
                            count * size <= contents@.len() + size,
                            0x1000 <= size <= 0x10_0000,
                    ;
                }
                files.set(idx, Some(blocks));
                proof {
                    section.lemma_same_setup(&before, old(section));
                }
            },
            _ => {},
        }
        k += 1;
    }
    Ok(files)
}

/// Whether the listing of the entries is sure to be made: they are at most
/// 2048, each has a name of 1 to 255 bytes, and each refers to an item whose
/// inode is written.
pub(crate) open spec fn spec_listing_fits(
    entries: Seq<NamedItem>,
    n: nat,
    refs: Seq<Option<raw::Ref>>,
) -> bool {
    &&& entries.len() <= FIT_ENTRIES
    &&& forall|e: int|
        0 <= e < entries.len() ==> {
            &&& (#[trigger] entries[e]).item.0 < n
            &&& refs[entries[e].item.0 as int] is Some
            &&& 1 <= entries[e].name@.len() <= FIT_NAME
        }
}

/// Whether an error is one that laying out an image can end in: one of an
/// item that cannot be stored or of a table that has outgrown the format,
/// never one of a codec or of a byte source.
pub open spec fn spec_layout_error(e: Error) -> bool {
    e.0 matches ErrorInner::Item(reason) && reason != ItemError::ArchiveClosed
}

/// The entries of the listing of a directory, with the inodes of the items
/// that its entries refer to.
fn listing(
    entries: &Vec<NamedItem>,
    items: &Vec<Item>,
    walk: &Walk,
    refs: &Vec<Option<raw::Ref>>,
) -> (r: Result<(Vec<dir::Entry>, usize), Error>)
    requires
        walk.wf(items@.len()),
        refs@.len() == items@.len(),
    ensures
        r matches Err(e) ==> spec_layout_error(e),
        r matches Ok((listing, cost)) ==> {
            &&& listing@.len() == entries@.len()
            &&& forall|i: int| 0 <= i < listing@.len() ==> (#[trigger] listing@[i])@.wf()
            &&& cost == dir::spec_cost(dir::spec_views(listing@))
            &&& forall|e: int|
                0 <= e < entries@.len() ==> (#[trigger] entries@[e]).item.0 < items@.len()
                    && refs@[entries@[e].item.0 as int] is Some
            &&& forall|e: int|
                0 <= e < entries@.len() ==> {
                    &&& (#[trigger] listing@[e]).name@ == entries@[e].name@
                    &&& listing@[e].inode_num.0 == walk.numbers@[entries@[e].item.0 as int]
                    &&& listing@[e].inode_kind == items@[entries@[e].item.0 as int].spec_kind()
                    &&& refs@[entries@[e].item.0 as int] == Some(listing@[e].inode)
                }
        },
        entries@.len() == 0 ==> (r matches Ok((listing, cost)) && cost == 0),
        spec_listing_fits(entries@, items@.len(), refs@) ==> (r matches Ok((listing, cost)) && cost
            <= entries@.len() * 275),
{
    let mut listing: Vec<dir::Entry> = Vec::new();
    let mut cost: usize = 0;
    let mut i: usize = 0;
    proof {
        assert(dir::spec_views(listing@) =~= Seq::<dir::EntryView>::empty());
    }
    while i < entries.len()
        invariant
            i <= entries@.len(),
            walk.wf(items@.len()),
            refs@.len() == items@.len(),
            listing@.len() == i,
            forall|j: int| 0 <= j < listing@.len() ==> (#[trigger] listing@[j])@.wf(),
            cost == dir::spec_cost(dir::spec_views(listing@)),
            forall|e: int|
                0 <= e < i ==> (#[trigger] entries@[e]).item.0 < items@.len()
                    && refs@[entries@[e].item.0 as int] is Some,
            forall|e: int|
                0 <= e < i ==> {
                    &&& (#[trigger] listing@[e]).name@ == entries@[e].name@
                    &&& listing@[e].inode_num.0 == walk.numbers@[entries@[e].item.0 as int]
                    &&& listing@[e].inode_kind == items@[entries@[e].item.0 as int].spec_kind()
                    &&& refs@[entries@[e].item.0 as int] == Some(listing@[e].inode)
                },
            spec_listing_fits(entries@, items@.len(), refs@) ==> cost <= i * 275,
        decreases entries@.len() - i,
    {
        let entry = &entries[i];
        let child = entry.item.0 as usize;
        if child >= items.len() {
            return Err(invalid_item());
        }
        let inode = match refs[child] {
            Some(inode) => inode,
            None => {
                return Err(invalid_item());
            },
        };
        if entry.name.len() == 0 {
            return Err(Error(ErrorInner::Item(ItemError::EmptyName)));
        }
        if entry.name.len() > dir::MAX_NAME_LEN {
            return Err(Error(ErrorInner::Item(ItemError::NameTooLong)));
        }
        let added = dir::HEADER_SIZE + dir::ENTRY_SIZE + entry.name.len();
        if cost > usize::MAX - added {
            return Err(too_large());
        }
        let ghost before = dir::spec_views(listing@);
        let next = dir::Entry {
            inode,
            inode_num: raw::Idx(walk.numbers[child]),
            inode_kind: items[child].kind(),
            name: slice_to_vec(entry.name.as_slice()),
        };
        proof {
            dir::lemma_entries_push(0, before, next@);
        }
        listing.push(next);
        proof {
            assert(dir::spec_views(listing@) =~= before.push(next@));
        }
        cost = cost + added;
        i += 1;
    }
    Ok((listing, cost))
}

/// The sizes of the blocks of a file as the inode stores them.
fn size_words(blocks: &FileBlocks) -> (r: Vec<u32>)
    ensures
        r@.len() == blocks.sizes@.len(),
        forall|i: int| 0 <= i < r@.len() ==> r@[i] == blocks.sizes@[i].0,
{
    let mut words: Vec<u32> = Vec::new();
    let mut i: usize = 0;
    while i < blocks.sizes.len()
        invariant
            i <= blocks.sizes@.len(),
            words@.len() == i,
            forall|j: int| 0 <= j < i ==> words@[j] == blocks.sizes@[j].0,
        decreases blocks.sizes@.len() - i,
    {
        words.push(blocks.sizes[i].0);
        i += 1;
    }
    words
}

/// The tables of inodes and of directories of an archive, and the inodes
/// in the order of their numbers.
pub(crate) struct Nodes {
    pub inodes: Vec<u8>,
    pub directories: Vec<u8>,
    pub exported: Vec<raw::Ref>,
    pub root: raw::Ref,
    /// The inodes that the table of inodes holds, in their order.
    pub entries: Ghost<Seq<inode::Entry>>,
    /// The listings that the table of directories holds, one for each
    /// inode.
    pub listings: Ghost<Seq<Seq<dir::Run>>>,
    /// The blocks of the table of inodes.
    pub blocks: Ghost<Seq<Metablock>>,
    /// The blocks of the table of directories.
    pub dir_blocks: Ghost<Seq<Metablock>>,
}

/// The listing that was written for a directory is the listing of the
/// directory, where every item that it lists stands earlier in the order.
proof fn lemma_listing_of(
    items: Seq<Item>,
    order: Seq<u32>,
    item: Item,
    runs: Seq<dir::Run>,
    written: Seq<dir::Entry>,
    numbers: Seq<u32>,
    k: int,
)
    requires
        0 <= k <= order.len(),
        item.data is Directory,
        written.len() == spec_entry_count(item),
        dir::spec_listing_entries(runs) == dir::spec_views(written),
        forall|i: int| 0 <= i < order.len() ==> numbers[(#[trigger] order[i]) as int] == i + 1,
        forall|e: int|
            0 <= e < written.len() ==> {
                &&& (#[trigger] written[e]).name@ == spec_entry_name(item, e)
                &&& written[e].inode_num.0 == numbers[spec_entry_item(item, e) as int]
                &&& written[e].inode_kind == items[spec_entry_item(item, e) as int].spec_kind()
                &&& spec_earlier(order, k, spec_entry_item(item, e))
            },
    ensures
        spec_listing_of(items, order, item, runs),
{
    let listed = dir::spec_listing_entries(runs);
    assert forall|e: int| 0 <= e < listed.len() implies {
        &&& (#[trigger] listed[e]).name == spec_entry_name(item, e)
        &&& 1 <= listed[e].inode_num <= order.len()
        &&& order[listed[e].inode_num - 1] == spec_entry_item(item, e)
        &&& listed[e].kind == items[spec_entry_item(item, e) as int].spec_kind()
    } by {
        assert(listed[e] == written[e]@);
        let child = spec_entry_item(item, e);
        let i = choose|i: int| 0 <= i < k && #[trigger] order[i] == child;
        assert(numbers[order[i] as int] == i + 1);
    }
}

/// The entries of the listing that was written for a directory refer to
/// the inodes of the items that it lists, which lie in front of it.
proof fn lemma_listing_refs(
    order: Seq<u32>,
    numbers: Seq<u32>,
    refs: Seq<Option<raw::Ref>>,
    places: Seq<raw::Ref>,
    item: Item,
    runs: Seq<dir::Run>,
    written: Seq<dir::Entry>,
    k: int,
)
    requires
        0 <= k <= order.len(),
        places.len() == k,
        forall|i: int| 0 <= i < order.len() ==> numbers[(#[trigger] order[i]) as int] == i + 1,
        forall|i: int| 0 <= i < k ==> refs[order[i] as int] == Some(#[trigger] places[i]),
        written.len() == spec_entry_count(item),
        dir::spec_listing_entries(runs) == dir::spec_views(written),
        forall|e: int|
            0 <= e < written.len() ==> {
                &&& (#[trigger] written[e]).inode_num.0 == numbers[spec_entry_item(item, e) as int]
                &&& refs[spec_entry_item(item, e) as int] == Some(written[e].inode)
                &&& spec_earlier(order, k, spec_entry_item(item, e))
            },
    ensures
        spec_listing_refs(runs, places, k),
{
    let listed = dir::spec_listing_entries(runs);
    assert forall|e: int| 0 <= e < listed.len() implies {
        let entry = #[trigger] listed[e];
        &&& 1 <= entry.inode_num <= k
        &&& k <= places.len()
        &&& entry.inode == places[entry.inode_num - 1]
    } by {
        assert(listed[e] == written[e]@);
        let child = spec_entry_item(item, e);
        let i = choose|i: int| 0 <= i < k && #[trigger] order[i] == child;
        assert(numbers[order[i] as int] == i + 1);
        assert(refs[order[i] as int] == Some(places[i]));
    }
}

/// A stream that ends before its first block is full is one block.
proof fn lemma_lone_block(blocks: Seq<Metablock>, current: Seq<u8>, bytes: Seq<u8>)
    requires
        blocks.len() == 0,
    ensures
        forall|last: Metablock|
            last.wf() && last.body == current && bytes == spec_frames(
                #[trigger] blocks.push(last),
            ) ==> bytes == last.frame(),
{
    assert forall|last: Metablock|
        last.wf() && last.body == current && bytes == spec_frames(
            #[trigger] blocks.push(last),
        ) implies bytes == last.frame() by {
        lemma_push_block(blocks, last);
        assert(spec_frames(blocks) =~= Seq::<u8>::empty());
        assert(bytes =~= last.frame());
    }
}

/// The index of a listing: for each header its offset from the start of
/// the listing, the start of its block, and the name of the first entry
/// behind it.
fn dir_index(
    info: &dir::DirectoryInfo,
    listed: &Vec<dir::Entry>,
    Ghost(at): Ghost<nat>,
    Ghost(blocks): Ghost<Seq<Metablock>>,
) -> (r: Vec<inode::DirIndex>)
    requires
        info.spec_header_refs().len() == info.runs().len(),
        dir::spec_starts_ok(info.spec_header_refs(), info.spec_header_offsets(), blocks, at),
        dir::spec_marks_ok(
            dir::spec_views(listed@),
            info.runs(),
            Seq::<dir::EntryView>::empty(),
            info.spec_header_offsets(),
            info.spec_first_entries(),
        ),
        forall|k: int|
            0 <= k < info.runs().len() ==> (#[trigger] info.spec_header_offsets()[k])
                == dir::spec_listing_size(info.runs().subrange(0, k)),
    ensures
        r@.len() == info.runs().len(),
        spec_index_of(info.runs(), r@),
        spec_index_starts(r@, at, blocks),
        forall|k: int|
            0 <= k < r@.len() ==> (#[trigger] r@[k]).name@ == dir::spec_views(
                listed@,
            )[info.spec_first_entries()[k] as int].name,
{
    let refs = info.header_refs();
    let offsets = info.header_offsets();
    let firsts = info.first_entries();
    let mut index: Vec<inode::DirIndex> = Vec::new();
    let mut k: usize = 0;
    while k < refs.len()
        invariant
            k <= refs@.len(),
            refs@.len() == info.runs().len(),
            refs@ == info.spec_header_refs(),
            offsets@ == info.spec_header_offsets(),
            firsts@ == info.spec_first_entries(),
            dir::spec_marks_ok(
                dir::spec_views(listed@),
                info.runs(),
                Seq::<dir::EntryView>::empty(),
                offsets@,
                firsts@,
            ),
            forall|j: int|
                0 <= j < info.runs().len() ==> (#[trigger] offsets@[j]) == dir::spec_listing_size(
                    info.runs().subrange(0, j),
                ),
            index@.len() == k,
            dir::spec_starts_ok(refs@, offsets@, blocks, at),
            forall|j: int| 0 <= j < k ==> spec_index_start(#[trigger] index@[j], at, blocks),
            forall|j: int|
                0 <= j < k ==> spec_index_entry(
                    info.runs(),
                    dir::spec_views(listed@),
                    firsts@,
                    j,
                    #[trigger] index@[j],
                ),
        decreases refs@.len() - k,
    {
        proof {
            assert(offsets@[k as int] == dir::spec_listing_size(info.runs().subrange(0, k as int)));
            assert(firsts@[k as int] < dir::spec_views(listed@).len());
        }
        let first = firsts[k];
        let entry = inode::DirIndex {
            index: offsets[k],
            start: refs[k].block_start(),
            name: slice_to_vec(listed[first].name.as_slice()),
        };
        proof {
            assert(dir::spec_start_ok(
                refs@[k as int],
                dir::spec_blocks_before(at, offsets@[k as int]),
                blocks,
            ));
            assert(spec_index_start(entry, at, blocks));
            assert(dir::spec_views(listed@)[first as int] == listed@[first as int]@);
            assert(spec_index_entry(
                info.runs(),
                dir::spec_views(listed@),
                firsts@,
                k as int,
                entry,
            ));
        }
        let ghost before = index@;
        index.push(entry);
        proof {
            assert forall|j: int| 0 <= j < k + 1 implies spec_index_entry(
                info.runs(),
                dir::spec_views(listed@),
                firsts@,
                j,
                #[trigger] index@[j],
            ) by {
                if j < k {
                    assert(index@[j] == before[j]);
                }
            }
            assert forall|j: int| 0 <= j < k + 1 implies spec_index_start(
                #[trigger] index@[j],
                at,
                blocks,
            ) by {
                if j < k {
                    assert(index@[j] == before[j]);
                    assert(spec_index_start(before[j], at, blocks));
                }
            }
        }
        k += 1;
    }
    proof {
        assert forall|j: int| 0 <= j < index@.len() implies {
            &&& (#[trigger] index@[j]).index == dir::spec_listing_size(info.runs().subrange(0, j))
            &&& info.runs()[j].entries.len() > 0
            &&& index@[j].name@ == info.runs()[j].entries[0].name
        } by {
            assert(spec_index_entry(
                info.runs(),
                dir::spec_views(listed@),
                firsts@,
                j,
                index@[j],
            ));
        }
        assert forall|j: int| 0 <= j < index@.len() implies (#[trigger] index@[j]).name@
            == dir::spec_views(listed@)[info.spec_first_entries()[j] as int].name by {
            assert(spec_index_entry(
                info.runs(),
                dir::spec_views(listed@),
                firsts@,
                j,
                index@[j],
            ));
        }
    }
    index
}

/// Whether `entry` is entry `j` of the index of the runs: it has the offset
/// of the header of run `j` and the name of the first entry of that run.
pub(crate) open spec fn spec_index_entry(
    runs: Seq<dir::Run>,
    views: Seq<dir::EntryView>,
    firsts: Seq<usize>,
    j: int,
    entry: inode::DirIndex,
) -> bool {
    &&& entry.index == dir::spec_listing_size(runs.subrange(0, j))
    &&& runs[j].entries.len() > 0
    &&& entry.name@ == runs[j].entries[0].name
    &&& entry.name@ == views[firsts[j] as int].name
}

/// What the inode of the item at place `k` of the walk holds. The listing
/// of a directory is written to the table of directories on the way.
#[verifier::rlimit(60)]
fn node_data(
    archive: &Archive,
    walk: &Walk,
    files: &Vec<Option<FileBlocks>>,
    refs: &Vec<Option<raw::Ref>>,
    dir_table: &mut dir::Table<AnyCodec>,
    k: usize,
    Ghost(places): Ghost<Seq<raw::Ref>>,
) -> (r: Result<(inode::Data, Ghost<Seq<dir::Run>>), Error>)
    requires
        spec_walk_noted(
            archive.items(),
            archive.spec_root().0,
            walk.order@,
            walk.numbers@,
            walk.parents@,
            walk.links@,
        ),
        places.len() == k,
        forall|i: int|
            0 <= i < k ==> refs@[walk.order@[i] as int] == Some(#[trigger] places[i]),
        archive.wf(),
        walk.wf(archive.items().len()),
        k < walk.order@.len(),
        files@.len() == archive.items().len(),
        refs@.len() == archive.items().len(),
        old(dir_table).wf(),
        spec_file_stored(
            archive.items()[walk.order@[k as int] as int],
            files@[walk.order@[k as int] as int],
        ),
        forall|j: int|
            0 <= j < refs@.len() ==> ((#[trigger] refs@[j]) is Some ==> spec_earlier(
                walk.order@,
                k as int,
                j as u32,
            )),
    ensures
        r matches Err(e) ==> spec_layout_error(e),
        final(dir_table).wf(),
        final(dir_table).writer().has_compressor() == old(dir_table).writer().has_compressor(),
        old(dir_table).writer().blocks().len() <= final(dir_table).writer().blocks().len(),
        old(dir_table).writer().blocks() == final(dir_table).writer().blocks().subrange(
            0,
            old(dir_table).writer().blocks().len() as int,
        ),
        r matches Ok((data, runs)) ==> {
            let item = archive.items()[walk.order@[k as int] as int];
            &&& spec_data_of(item, data)
            &&& spec_file_node(data, files@[walk.order@[k as int] as int])
            &&& spec_listing_of(archive.items(), walk.order@, item, runs@)
            &&& spec_listing_refs(runs@, places, k as int)
            &&& final(dir_table).writer().appended() == old(dir_table).writer().appended()
                + dir::spec_listing_bytes(runs@)
            &&& data matches inode::Data::Directory(dir) ==> {
                &&& dir.dir_size == dir::spec_listing_size(runs@)
                &&& spec_index_of(runs@, spec_locations(dir))
                &&& spec_index_starts(
                    spec_locations(dir),
                    old(dir_table).writer().appended().len(),
                    final(dir_table).writer().blocks(),
                )
                &&& dir.dir_ref.spec_start_offset() == old(dir_table).writer().appended().len() % (
                SIZE as nat)
                &&& dir.dir_ref.spec_block_start() == old(dir_table).writer().output().len()
                &&& walk.order@[k as int] == archive.spec_root().0 ==> dir.parent_inode_num
                    == raw::Idx(1)
                &&& walk.order@[k as int] != archive.spec_root().0 ==> {
                    &&& 1 <= dir.parent_inode_num.0 <= walk.order@.len()
                    &&& spec_lists(
                        archive.items()[walk.order@[dir.parent_inode_num.0 - 1] as int],
                        walk.order@[k as int],
                    )
                }
            }
            &&& forall|e: int|
                0 <= e < spec_entry_count(item) ==> spec_earlier(
                    walk.order@,
                    k as int,
                    #[trigger] spec_entry_item(item, e),
                )
        },
        spec_no_entries(archive.items()[walk.order@[k as int] as int]) && old(
            dir_table,
        ).writer().output().len() == 0 && old(dir_table).writer().appended().len() == 0 ==> (
        r matches Ok((data, runs)) && runs@.len() == 0 && final(dir_table).writer().output().len()
            == 0),
        spec_node_fits(archive.items(), walk.order@, refs@, k as int) && old(
            dir_table,
        ).writer().appended().len() <= k * NODE_BOUND ==> {
            &&& r matches Ok((data, runs))
            &&& final(dir_table).writer().appended().len() <= (k + 1) * NODE_BOUND
            &&& crate::write::inode::spec_inode_extent(data) <= 0x9_0000
            &&& data matches inode::Data::Directory(dir) ==> {
                &&& spec_locations(dir).len() <= FIT_ENTRIES
                &&& forall|i: int|
                    0 <= i < spec_locations(dir).len() ==> 1 <= (#[trigger] spec_locations(
                        dir,
                    )[i]).name@.len() <= FIT_NAME
            }
        },
{
    let items = &archive.items;
    let n = items.len();
    let idx = walk.order[k] as usize;
    let item = &items[idx];
    let ghost before = dir_table.writer();
    proof {
        lemma_stream_decomposes(&before);
        assert(before.blocks().subrange(0, before.blocks().len() as int) =~= before.blocks());
    }
    proof {
        if spec_node_fits(archive.items(), walk.order@, refs@, k as int) {
            assert(spec_item_fits(archive.items()[idx as int]));
            assert forall|e: int| 0 <= e < spec_entry_count(*item) implies spec_entry_item(
                *item,
                e,
            ) < n && refs@[spec_entry_item(*item, e) as int] is Some by {
                let child = spec_entry_item(*item, e);
                assert(spec_entry_item(archive.items()[idx as int], e) < idx);
                assert(spec_earlier(walk.order@, k as int, child));
            }
            assert(k * NODE_BOUND + NODE_BOUND <= 0x8000_0000) by (nonlinear_arith)
                requires
                    k < FIT_ITEMS,
                    NODE_BOUND == 0x10_0000,
                    FIT_ITEMS == 0x800,
            ;
            if before.appended().len() <= k * NODE_BOUND {
                lemma_output_bound(&before, 0x9_0000, 0x8000_0000);
            }
        }
    }
    match &item.data {
        Data::Directory { entries } => {
            proof {
                if spec_node_fits(archive.items(), walk.order@, refs@, k as int) {
                    assert forall|e: int| 0 <= e < entries@.len() implies {
                        &&& (#[trigger] entries@[e]).item.0 < n
                        &&& refs@[entries@[e].item.0 as int] is Some
                        &&& 1 <= entries@[e].name@.len() <= FIT_NAME
                    } by {
                        assert(entries@[e].item.0 == spec_entry_item(*item, e));
                    }
                }
            }
            let (listed, cost) = match listing(entries, items, walk, refs) {
                Ok(listing) => listing,
                Err(e) => {
                    return Err(e);
                },
            };
            proof {
                if spec_node_fits(archive.items(), walk.order@, refs@, k as int) && before.appended().len()
                    <= k * NODE_BOUND {
                    lemma_bound_monotone_here(&before, cost as nat, 0x9_0000);
                }
            }
            if listed.len() > u32::MAX as usize || !dir_table.can_take(cost) {
                return Err(too_large());
            }
            proof {
                dir::lemma_bound_monotone(dir_table.writer(), 0, cost as nat);
            }
            let dir_ref = dir_table.position();
            let info = dir_table.dir(&listed);
            proof {
                lemma_listing_of(
                    archive.items(),
                    walk.order@,
                    *item,
                    info.runs(),
                    listed@,
                    walk.numbers@,
                    k as int,
                );
                lemma_listing_refs(
                    walk.order@,
                    walk.numbers@,
                    refs@,
                    places,
                    *item,
                    info.runs(),
                    listed@,
                    k as int,
                );
            }
            let parent = walk.parents[idx] as usize;
            proof {
                reveal(spec_walk_noted);
                assert(walk.order@[k as int] == idx);
            }
            let header_locations = if info.uncompressed_size() > 0xFFFF {
                Some(
                    dir_index(
                        &info,
                        &listed,
                        Ghost(before.appended().len()),
                        Ghost(dir_table.writer().blocks()),
                    ),
                )
            } else {
                None
            };
            proof {
                if spec_node_fits(archive.items(), walk.order@, refs@, k as int) {
                    match &header_locations {
                        Some(index) => {
                            assert forall|j: int| 0 <= j < index@.len() implies 1 <= (
                            #[trigger] index@[j]).name@.len() <= FIT_NAME by {
                                let first = info.spec_first_entries()[j] as int;
                                assert(info.spec_header_offsets()[j] == dir::spec_listing_size(
                                    info.runs().subrange(0, j),
                                ));
                                assert(first < listed@.len());
                                assert(dir::spec_views(listed@)[first] == listed@[first]@);
                                assert(listed@[first].name@ == entries@[first].name@);
                            }
                            crate::write::inode::lemma_dir_indexes_bound(index@, FIT_NAME as nat);
                            assert(index@.len() * (12 + FIT_NAME) <= FIT_ENTRIES * (12 + FIT_NAME))
                                by (nonlinear_arith)
                                requires
                                    index@.len() <= FIT_ENTRIES,
                            ;
                        },
                        None => {},
                    }
                }
            }
            let data = inode::Data::Directory(
                inode::DirData {
                    dir_ref,
                    dir_size: info.uncompressed_size(),
                    parent_inode_num: raw::Idx(
                        if idx == archive.root.0 as usize || parent >= n {
                            1
                        } else {
                            walk.numbers[parent]
                        },
                    ),
                    child_count: listed.len() as u32,
                    header_locations,
                },
            );
            Ok((data, Ghost(info.runs())))
        },
        Data::File { .. } => {
            let data = match &files[idx] {
                Some(blocks) => inode::Data::File(
                    inode::FileData {
                        blocks_start: blocks.blocks_start,
                        file_size: blocks.file_size,
                        sparse_bytes: blocks.sparse_bytes,
                        fragment_block_idx: match blocks.fragment {
                            Some(fragment) => fragment.block_idx,
                            None => fragment::Idx(fragment::NO_FRAGMENT),
                        },
                        fragment_offset: match blocks.fragment {
                            Some(fragment) => fragment.offset,
                            None => 0,
                        },
                        block_sizes: size_words(blocks),
                    },
                ),
                None => {
                    return Err(invalid_item());
                },
            };
            proof {
                lemma_no_listing(archive.items(), walk.order@, *item, before.appended());
            }
            Ok((data, Ghost(Seq::empty())))
        },
        Data::Symlink { target } => {
            proof {
                lemma_no_listing(archive.items(), walk.order@, *item, before.appended());
            }
            Ok(
                (
                    inode::Data::Symlink(
                        inode::SymlinkData { target_path: slice_to_vec(target.as_slice()) },
                    ),
                    Ghost(Seq::empty()),
                ),
            )
        },
        Data::BlockDev(device) => {
            proof {
                lemma_no_listing(archive.items(), walk.order@, *item, before.appended());
            }
            Ok(
                (
                    inode::Data::BlockDev(inode::DeviceData { device: *device }),
                    Ghost(Seq::empty()),
                ),
            )
        },
        Data::CharDev(device) => {
            proof {
                lemma_no_listing(archive.items(), walk.order@, *item, before.appended());
            }
            Ok(
                (
                    inode::Data::CharDev(inode::DeviceData { device: *device }),
                    Ghost(Seq::empty()),
                ),
            )
        },
        Data::Fifo => {
            proof {
                lemma_no_listing(archive.items(), walk.order@, *item, before.appended());
            }
            Ok((inode::Data::Fifo, Ghost(Seq::empty())))
        },
        Data::Socket => {
            proof {
                lemma_no_listing(archive.items(), walk.order@, *item, before.appended());
            }
            Ok((inode::Data::Socket, Ghost(Seq::empty())))
        },
    }
}

/// Whether the inode of the item at place `k` is sure to be made: the items
/// are sure to fit, every item stands behind the items that it lists, and
/// the inodes of the items in front of place `k` are written.
pub(crate) open spec fn spec_node_fits(
    items: Seq<Item>,
    order: Seq<u32>,
    refs: Seq<Option<raw::Ref>>,
    k: int,
) -> bool {
    &&& spec_fits(items)
    &&& order.len() <= FIT_ITEMS
    &&& spec_children_first(items, order)
    &&& forall|j: int|
        0 <= j < refs.len() && spec_earlier(order, k, j as u32) ==> (#[trigger] refs[j]) is Some
}

/// Fewer bytes to come need no more room.
proof fn lemma_bound_monotone_here(writer: &MetablockWriter<AnyCodec>, less: nat, more: nat)
    requires
        less <= more,
    ensures
        writer.spec_output_bound(less) <= writer.spec_output_bound(more),
{
    dir::lemma_bound_monotone(*writer, less, more);
}

/// A stream of at most 2 GiB takes less than 4 GiB with its headers.
proof fn lemma_stream_len(appended: nat, len: nat)
    requires
        appended <= 0x8000_0000,
        len <= (appended / (SIZE as nat) + 1) * (SIZE + 2),
    ensures
        len <= 0x1_0000_0000,
{
    vstd::arithmetic::div_mod::lemma_div_is_ordered(appended as int, 0x8000_0000, SIZE as int);
    let q = appended / (SIZE as nat);
    assert(q <= 0x4_0000);
    assert((q + 1) * (SIZE + 2) <= 0x4_0001 * (SIZE + 2)) by (nonlinear_arith)
        requires
            q <= 0x4_0000,
    ;
}

/// An item that is no directory has the listing without runs, which takes
/// no bytes.
proof fn lemma_no_listing(items: Seq<Item>, order: Seq<u32>, item: Item, appended: Seq<u8>)
    requires
        !(item.data is Directory),
    ensures
        spec_listing_of(items, order, item, Seq::<dir::Run>::empty()),
        appended == appended + dir::spec_listing_bytes(Seq::<dir::Run>::empty()),
        forall|places: Seq<raw::Ref>, k: int| #[trigger]
            spec_listing_refs(Seq::<dir::Run>::empty(), places, k),
{
    reveal_with_fuel(dir::spec_listing_entries, 1);
    reveal_with_fuel(dir::spec_listing_bytes, 1);
    assert(appended =~= appended + dir::spec_listing_bytes(Seq::<dir::Run>::empty()));
}

/// Whether the inodes of the first `k` places lie at `places`, and the
/// inode of every item at one of them is known there.
pub(crate) open spec fn spec_refs_sofar(
    order: Seq<u32>,
    refs: Seq<Option<raw::Ref>>,
    entries: Seq<inode::Entry>,
    listings: Seq<Seq<dir::Run>>,
    places: Seq<raw::Ref>,
    blocks: Seq<Metablock>,
    k: int,
) -> bool {
    &&& places.len() == k
    &&& entries.len() == k
    &&& listings.len() == k
    &&& forall|i: int| 0 <= i < k ==> refs[order[i] as int] == Some(#[trigger] places[i])
    &&& spec_refs_ok(entries, listings, places, blocks)
}

/// One more inode lies where the table of inodes says, and the listing of
/// its item refers to the inodes in front of it.
proof fn lemma_ref_added(
    order: Seq<u32>,
    refs: Seq<Option<raw::Ref>>,
    entries: Seq<inode::Entry>,
    listings: Seq<Seq<dir::Run>>,
    places: Seq<raw::Ref>,
    blocks: Seq<Metablock>,
    later: Seq<Metablock>,
    entry: inode::Entry,
    runs: Seq<dir::Run>,
    place: raw::Ref,
    k: int,
    current: nat,
)
    requires
        0 <= k < order.len(),
        spec_refs_sofar(order, refs, entries, listings, places, blocks, k),
        forall|i: int| 0 <= i < order.len() ==> (#[trigger] order[i]) < refs.len(),
        forall|i: int| 0 <= i < k ==> order[i] != order[k],
        blocks.len() <= later.len(),
        blocks == later.subrange(0, blocks.len() as int),
        spec_inodes_bytes(entries, 1).len() == blocks.len() * SIZE + current,
        current < SIZE,
        place.spec_block_idx() == spec_frames(blocks).len(),
        place.spec_start_offset() == current,
        spec_listing_refs(runs, places, k),
    ensures
        spec_refs_sofar(
            order,
            refs.update(order[k] as int, Some(place)),
            entries.push(entry),
            listings.push(runs),
            places.push(place),
            later,
            k + 1,
        ),
{
    let more = entries.push(entry);
    let longer = listings.push(runs);
    let found = places.push(place);
    assert forall|i: int| 0 <= i < found.len() implies spec_ref_at(
        later,
        spec_inodes_bytes(more.subrange(0, i), 1).len(),
        #[trigger] found[i],
    ) by {
        if i < k {
            assert(more.subrange(0, i) =~= entries.subrange(0, i));
            let before = spec_inodes_bytes(entries.subrange(0, i), 1).len();
            assert(spec_ref_at(blocks, before, places[i]));
            let full = (before / (SIZE as nat)) as int;
            assert(later.subrange(0, full) =~= blocks.subrange(0, full));
        } else {
            assert(more.subrange(0, i) =~= entries);
            let before = spec_inodes_bytes(entries, 1).len();
            vstd::arithmetic::div_mod::lemma_fundamental_div_mod_converse(
                before as int,
                SIZE as int,
                blocks.len() as int,
                current as int,
            );
        }
    }
    assert forall|j: int| 0 <= j < longer.len() implies spec_listing_refs(
        #[trigger] longer[j],
        found,
        j,
    ) by {
        if j < k {
            assert(spec_listing_refs(listings[j], places, j));
        }
    }
    let known = refs.update(order[k] as int, Some(place));
    assert forall|i: int| 0 <= i < k + 1 implies known[order[i] as int] == Some(
        #[trigger] found[i],
    ) by {
        if i < k {
            assert(refs[order[i] as int] == Some(places[i]));
        }
    }
}

/// The places of the inodes stay when the last block is written behind
/// the blocks of the table.
proof fn lemma_refs_kept(
    entries: Seq<inode::Entry>,
    listings: Seq<Seq<dir::Run>>,
    places: Seq<raw::Ref>,
    blocks: Seq<Metablock>,
    last: Metablock,
)
    requires
        spec_refs_ok(entries, listings, places, blocks),
    ensures
        spec_refs_ok(entries, listings, places, blocks.push(last)),
{
    let all = blocks.push(last);
    assert forall|k: int| 0 <= k < places.len() implies spec_ref_at(
        all,
        spec_inodes_bytes(entries.subrange(0, k), 1).len(),
        #[trigger] places[k],
    ) by {
        let before = spec_inodes_bytes(entries.subrange(0, k), 1).len();
        assert(spec_ref_at(blocks, before, places[k]));
        let full = (before / (SIZE as nat)) as int;
        assert(all.subrange(0, full) =~= blocks.subrange(0, full));
    }
}

/// One more inode and its listing, behind those of the places before it.
proof fn lemma_node_added(
    items: Seq<Item>,
    ids: Seq<u32>,
    order: Seq<u32>,
    entries: Seq<inode::Entry>,
    listings: Seq<Seq<dir::Run>>,
    entry: inode::Entry,
    runs: Seq<dir::Run>,
    k: int,
)
    requires
        0 <= k < order.len(),
        entries.len() == k,
        listings.len() == k,
        spec_places_ok(items, ids, order, entries, listings, k),
        spec_inode_of(items[order[k] as int], ids, entry),
        spec_listing_of(items, order, items[order[k] as int], runs),
        entry.data matches inode::Data::Directory(dir) ==> {
            &&& dir.dir_size == dir::spec_listing_size(runs)
            &&& spec_index_of(runs, spec_locations(dir))
            &&& dir.dir_ref.spec_start_offset() == spec_listings_bytes(listings).len() % (
            SIZE as nat)
        },
        forall|e: int|
            0 <= e < spec_entry_count(items[order[k] as int]) ==> spec_earlier(
                order,
                k,
                #[trigger] spec_entry_item(items[order[k] as int], e),
            ),
    ensures
        spec_places_ok(items, ids, order, entries.push(entry), listings.push(runs), k + 1),
        spec_inodes_bytes(entries.push(entry), 1) == spec_inodes_bytes(entries, 1)
            + entry.spec_inode_bytes((k + 1) as u32),
        spec_listings_bytes(listings.push(runs)) == spec_listings_bytes(listings)
            + dir::spec_listing_bytes(runs),
{
    let more = entries.push(entry);
    let longer = listings.push(runs);
    assert(more.drop_last() =~= entries);
    assert(longer.drop_last() =~= listings);
    assert(longer.subrange(0, k) =~= listings);
    assert forall|j: int| 0 <= j < k implies longer.subrange(0, j) == listings.subrange(0, j) by {
        assert(longer.subrange(0, j) =~= listings.subrange(0, j));
    }
    assert forall|j: int| 0 <= j < k + 1 implies spec_inode_of(
        items[order[j] as int],
        ids,
        #[trigger] more[j],
    ) by {
        if j < k {
            assert(more[j] == entries[j]);
            assert(spec_inode_of(items[order[j] as int], ids, entries[j]));
        }
    }
    assert forall|j: int| 0 <= j < k + 1 implies {
        &&& spec_listing_of(items, order, items[order[j] as int], #[trigger] longer[j])
        &&& more[j].data matches inode::Data::Directory(data) ==> {
            &&& data.dir_size == dir::spec_listing_size(longer[j])
            &&& spec_index_of(longer[j], spec_locations(data))
            &&& data.dir_ref.spec_start_offset() == spec_listings_bytes(
                longer.subrange(0, j),
            ).len() % (SIZE as nat)
        }
    } by {
        if j < k {
            assert(longer[j] == listings[j]);
            assert(more[j] == entries[j]);
            assert(longer.subrange(0, j) == listings.subrange(0, j));
            assert(spec_listing_of(items, order, items[order[j] as int], listings[j]));
        } else {
            assert(longer.subrange(0, j) == listings);
        }
    }
}

/// Whether the first `k` places of the order have their inodes and their
/// listings, and every item at one of them stands behind the items that it
/// lists.
pub(crate) open spec fn spec_places_ok(
    items: Seq<Item>,
    ids: Seq<u32>,
    order: Seq<u32>,
    entries: Seq<inode::Entry>,
    listings: Seq<Seq<dir::Run>>,
    k: int,
) -> bool {
    &&& forall|j: int|
        0 <= j < k ==> spec_inode_of(items[order[j] as int], ids, #[trigger] entries[j])
    &&& forall|j: int|
        0 <= j < k ==> {
            &&& spec_listing_of(items, order, items[order[j] as int], #[trigger] listings[j])
            &&& entries[j].data matches inode::Data::Directory(data) ==> {
                &&& data.dir_size == dir::spec_listing_size(listings[j])
                &&& spec_index_of(listings[j], spec_locations(data))
                &&& data.dir_ref.spec_start_offset() == spec_listings_bytes(
                    listings.subrange(0, j),
                ).len() % (SIZE as nat)
            }
        }
    &&& forall|j: int, e: int|
        0 <= j < k && 0 <= e < spec_entry_count(items[order[j] as int]) ==> spec_earlier(
            order,
            j,
            #[trigger] spec_entry_item(items[order[j] as int], e),
        )
}

/// Writes the inodes of the items of the walk, and the listings of its
/// directories: each listing behind the inodes of its entries, and before
/// the inode of its directory.
#[verifier::rlimit(60)]
fn write_nodes(archive: &Archive, walk: &Walk, files: &Vec<Option<FileBlocks>>) -> (r: Result<
    Nodes,
    Error,
>)
    requires
        archive.wf(),
        archive.spec_root().0 < archive.items().len(),
        walk.wf(archive.items().len()),
        walk.order@.last() == archive.spec_root().0,
        spec_walk_noted(
            archive.items(),
            archive.spec_root().0,
            walk.order@,
            walk.numbers@,
            walk.parents@,
            walk.links@,
        ),
        files@.len() == archive.items().len(),
        forall|k: int|
            0 <= k < walk.order@.len() ==> spec_file_stored(
                archive.items()[(#[trigger] walk.order@[k]) as int],
                files@[walk.order@[k] as int],
            ),
    ensures
        r matches Err(e) ==> spec_layout_error(e),
        r matches Ok(nodes) ==> nodes.exported@.len() == walk.order@.len(),
        r matches Ok(nodes) ==> {
            &&& spec_nodes_ok(
                archive.items(),
                archive.spec_root().0,
                archive.ids(),
                walk.order@,
                nodes.entries@,
                nodes.listings@,
            )
            &&& spec_stream(
                nodes.inodes@,
                spec_inodes_bytes(nodes.entries@, 1),
                !archive.spec_config().compressed_inodes,
            )
            &&& spec_stream_of(
                nodes.blocks@,
                nodes.inodes@,
                spec_inodes_bytes(nodes.entries@, 1),
                !archive.spec_config().compressed_inodes,
            )
            &&& spec_refs_ok(nodes.entries@, nodes.listings@, nodes.exported@, nodes.blocks@)
            &&& spec_dirs_ok(nodes.entries@, nodes.listings@, nodes.dir_blocks@)
            &&& spec_indexes_ok(nodes.entries@, nodes.listings@, nodes.dir_blocks@)
            &&& spec_stream_of(
                nodes.dir_blocks@,
                nodes.directories@,
                spec_listings_bytes(nodes.listings@),
                !archive.spec_config().compressed_inodes,
            )
            &&& nodes.root == nodes.exported@.last()
            &&& forall|j: int|
                0 <= j < nodes.entries@.len() ==> spec_file_node(
                    (#[trigger] nodes.entries@[j]).data,
                    files@[walk.order@[j] as int],
                )
            &&& spec_stream(
                nodes.directories@,
                spec_listings_bytes(nodes.listings@),
                !archive.spec_config().compressed_inodes,
            )
        },
        spec_fits(archive.items()) && spec_children_first(archive.items(), walk.order@) ==> (
        r matches Ok(nodes) && nodes.inodes@.len() <= 0x1_0000_0000 && nodes.directories@.len()
            <= 0x1_0000_0000 && nodes.exported@.len() <= 0x1000),
        walk.order@ == seq![archive.spec_root().0] && spec_no_entries(
            archive.items()[archive.spec_root().0 as int],
        ) ==> (r matches Ok(nodes) && nodes.inodes@.len() <= SIZE + 2 && nodes.directories@.len()
            == 2 && nodes.root.spec_block_idx() == 0 && nodes.root.spec_start_offset() == 0
            && spec_single_block(
            nodes.inodes@,
            spec_lone_root_inode(archive.items()[archive.spec_root().0 as int], archive.ids()),
            !archive.spec_config().compressed_inodes,
        ) && spec_single_block(
            nodes.directories@,
            Seq::<u8>::empty(),
            !archive.spec_config().compressed_inodes,
        )),
{
    let items = &archive.items;
    let n = items.len();
    let kind = archive.config.compressor_kind;
    let inode_codec = if archive.config.compressed_inodes {
        Some(AnyCodec::new(kind))
    } else {
        None
    };
    let dir_codec = if archive.config.compressed_inodes {
        Some(AnyCodec::new(kind))
    } else {
        None
    };
    let mut inode_table = inode::Table::new(inode_codec);
    let mut dir_table: dir::Table<AnyCodec> = dir::Table::new(dir_codec);
    let mut refs: Vec<Option<raw::Ref>> = Vec::new();
    let mut i: usize = 0;
    while i < n
        invariant
            i <= n,
            refs@.len() == i,
            forall|j: int| 0 <= j < i ==> (#[trigger] refs@[j]) is None,
        decreases n - i,
    {
        refs.push(None);
        i += 1;
    }
    let mut exported: Vec<raw::Ref> = Vec::new();
    let mut root_ref = raw::Ref(0);
    let ghost mut entries: Seq<inode::Entry> = Seq::empty();
    let ghost mut listings: Seq<Seq<dir::Run>> = Seq::empty();
    let mut k: usize = 0;
    while k < walk.order.len()
        invariant
            k <= walk.order@.len(),
            archive.wf(),
            n == archive.items().len(),
            items@ == archive.items(),
            walk.wf(n as nat),
            files@.len() == n,
            refs@.len() == n,
            exported@.len() == k,
            inode_table.wf(),
            dir_table.wf(),
            k == 0 ==> {
                &&& inode_table.writer().output() == Seq::<u8>::empty()
                &&& dir_table.writer().output() == Seq::<u8>::empty()
            },
            k > 0 && walk.order@ == seq![archive.spec_root().0] && spec_no_entries(
                archive.items()[archive.spec_root().0 as int],
            ) ==> {
                &&& inode_table.writer().appended() == spec_lone_root_inode(
                    archive.items()[archive.spec_root().0 as int],
                    archive.ids(),
                )
                &&& inode_table.writer().appended().len() == 32
                &&& dir_table.writer().appended() == Seq::<u8>::empty()
                &&& root_ref.spec_block_idx() == 0
                &&& root_ref.spec_start_offset() == 0
            },
            inode_table.writer().has_compressor() == archive.spec_config().compressed_inodes,
            dir_table.writer().has_compressor() == archive.spec_config().compressed_inodes,
            forall|j: int|
                0 <= j < walk.order@.len() ==> spec_file_stored(
                    archive.items()[(#[trigger] walk.order@[j]) as int],
                    files@[walk.order@[j] as int],
                ),
            entries.len() == k,
            listings.len() == k,
            inode_table.spec_count() == k + 1,
            inode_table.writer().appended() == spec_inodes_bytes(entries, 1),
            dir_table.writer().appended() == spec_listings_bytes(listings),
            spec_places_ok(archive.items(), archive.ids(), walk.order@, entries, listings, k as int),
            forall|j: int|
                0 <= j < n ==> ((#[trigger] refs@[j]) is Some ==> spec_earlier(
                    walk.order@,
                    k as int,
                    j as u32,
                )),
            walk.order@.len() <= n,
            spec_refs_sofar(
                walk.order@,
                refs@,
                entries,
                listings,
                exported@,
                inode_table.writer().blocks(),
                k as int,
            ),
            k > 0 && walk.order@[k - 1] == archive.spec_root().0 ==> root_ref == exported@[k - 1],
            spec_dirs_ok(entries, listings, dir_table.writer().blocks()),
            spec_indexes_ok(entries, listings, dir_table.writer().blocks()),
            spec_walk_noted(
                archive.items(),
                archive.spec_root().0,
                walk.order@,
                walk.numbers@,
                walk.parents@,
                walk.links@,
            ),
            forall|j: int|
                0 <= j < k ==> spec_links_of(
                    archive.items(),
                    archive.spec_root().0,
                    walk.order@,
                    j,
                    #[trigger] entries[j],
                ),
            forall|j: int|
                0 <= j < k ==> spec_file_node(
                    (#[trigger] entries[j]).data,
                    files@[walk.order@[j] as int],
                ),
            spec_fits(archive.items()) && spec_children_first(archive.items(), walk.order@) ==> {
                &&& spec_node_fits(archive.items(), walk.order@, refs@, k as int)
                &&& inode_table.writer().appended().len() <= k * NODE_BOUND
                &&& dir_table.writer().appended().len() <= k * NODE_BOUND
            },
        decreases walk.order@.len() - k,
    {
        let idx = walk.order[k] as usize;
        let item = &items[idx];
        proof {
            archive.lemma_item_ids(idx as int);
        }
        let links = walk.links[idx];
        let common = inode::Common {
            permissions: item.mode,
            uid_idx: archive.uid_gids.get(item.uid),
            gid_idx: archive.uid_gids.get(item.gid),
            modified_time: date_time_to_mtime(item.mtime),
            hardlink_count: if item.is_dir() {
                0
            } else if links == 0 {
                1
            } else {
                links
            },
            xattr_idx: xattr::Idx(xattr::NO_XATTRS),
            force_ext: false,
        };
        let ghost dirs_before = dir_table.writer();
        let (data, runs) = match node_data(
            archive,
            walk,
            files,
            &refs,
            &mut dir_table,
            k,
            Ghost(exported@),
        ) {
            Ok(made) => made,
            Err(e) => {
                return Err(e);
            },
        };
        let entry = inode::Entry { common, data };
        proof {
            assert(spec_links_of(
                archive.items(),
                archive.spec_root().0,
                walk.order@,
                k as int,
                entry,
            )) by {
                reveal(spec_walk_noted);
                assert(spec_data_of(*item, data));
                let here = walk.order@[k as int];
                if here != archive.spec_root().0 {
                    let parent = walk.parents@[here as int];
                    let p = walk.numbers@[parent as int] - 1;
                    assert(walk.order@[p] == parent);
                    assert(spec_lists(archive.items()[walk.order@[p] as int], here));
                    assert(spec_listed(archive.items(), walk.order@, here));
                }
            }
        }
        proof {
            if spec_fits(archive.items()) && spec_children_first(archive.items(), walk.order@) {
                assert(spec_item_fits(archive.items()[idx as int]));
                crate::write::inode::lemma_inode_len(entry, inode_table.spec_count());
                let len = entry.spec_inode_bytes(inode_table.spec_count()).len();
                assert(k * NODE_BOUND + NODE_BOUND <= 0x8000_0000) by (nonlinear_arith)
                    requires
                        k < FIT_ITEMS,
                        NODE_BOUND == 0x10_0000,
                        FIT_ITEMS == 0x800,
                ;
                assert((k + 1) * NODE_BOUND == k * NODE_BOUND + NODE_BOUND) by (nonlinear_arith);
                lemma_output_bound(&inode_table.writer(), len, 0x8000_0000);
                assert(entry.spec_rejected() is None);
            }
            if walk.order@ == seq![archive.spec_root().0] && spec_no_entries(
                archive.items()[archive.spec_root().0 as int],
            ) {
                assert(k == 0);
                assert(spec_inodes_bytes(entries, 1) =~= Seq::<u8>::empty());
                crate::write::inode::lemma_inode_len(entry, inode_table.spec_count());
                let len = entry.spec_inode_bytes(inode_table.spec_count()).len();
                lemma_output_bound(&inode_table.writer(), len, 0x1000);
                reveal_with_fuel(dir::spec_listing_size, 1);
                assert(entry.spec_rejected() is None);
            }
        }
        let ghost inodes_before = inode_table.writer();
        let inode_ref = match inode_table.add(&entry) {
            Ok(inode_ref) => inode_ref,
            Err(e) => {
                return Err(e);
            },
        };
        proof {
            lemma_stream_decomposes(&dirs_before);
            lemma_frames_whole(dirs_before.blocks());
            lemma_dir_added(
                entries,
                listings,
                dirs_before.blocks(),
                dir_table.writer().blocks(),
                entry,
                runs@,
                dirs_before.current().len(),
            );
            lemma_index_added(
                entries,
                listings,
                dirs_before.blocks(),
                dir_table.writer().blocks(),
                entry,
                runs@,
            );
            lemma_stream_decomposes(&inodes_before);
            assert forall|i: int| 0 <= i < k implies walk.order@[i] != walk.order@[k as int] by {
                assert(walk.numbers@[walk.order@[i] as int] == i + 1);
                assert(walk.numbers@[walk.order@[k as int] as int] == k + 1);
            }
            lemma_ref_added(
                walk.order@,
                refs@,
                entries,
                listings,
                exported@,
                inodes_before.blocks(),
                inode_table.writer().blocks(),
                entry,
                runs@,
                inode_ref,
                k as int,
                inodes_before.current().len(),
            );
            lemma_node_added(
                archive.items(),
                archive.ids(),
                walk.order@,
                entries,
                listings,
                entry,
                runs@,
                k as int,
            );
            let ghost earlier = entries;
            entries = entries.push(entry);
            listings = listings.push(runs@);
            assert forall|j: int| 0 <= j < k + 1 implies spec_links_of(
                archive.items(),
                archive.spec_root().0,
                walk.order@,
                j,
                #[trigger] entries[j],
            ) by {
                if j < k {
                    assert(entries[j] == earlier[j]);
                }
            }
        }
        let ghost refs_then = refs@;
        refs.set(idx, Some(inode_ref));
        exported.push(inode_ref);
        if idx == archive.root.0 as usize {
            root_ref = inode_ref;
        }
        let ghost refs_before = refs_then;
        k += 1;
        proof {
            if spec_fits(archive.items()) && spec_children_first(archive.items(), walk.order@) {
                assert forall|j: int|
                    0 <= j < refs@.len() && spec_earlier(walk.order@, k as int, j as u32) implies (
                #[trigger] refs@[j]) is Some by {
                    let i = choose|i: int| 0 <= i < k && #[trigger] walk.order@[i] == j as u32;
                    if i < k - 1 {
                        assert(spec_earlier(walk.order@, k - 1, j as u32));
                        assert(refs_before[j] is Some);
                    }
                }
            }
            assert forall|j: int| 0 <= j < n implies ((#[trigger] refs@[j]) is Some ==> spec_earlier(
                walk.order@,
                k as int,
                j as u32,
            )) by {
                if refs@[j] is Some {
                    if j == idx {
                        assert(walk.order@[k - 1] == j as u32);
                    } else {
                        let i = choose|i: int| 0 <= i < k - 1 && #[trigger] walk.order@[i] == j as u32;
                        assert(walk.order@[i] == j as u32);
                    }
                }
            }
        }
    }
    proof {
        reveal(spec_nodes_ok);
        assert(walk.order@.no_duplicates()) by {
            assert forall|i: int, j: int|
                0 <= i < walk.order@.len() && 0 <= j < walk.order@.len() && i != j implies walk.order@[i]
                != walk.order@[j] by {
                assert(walk.numbers@[walk.order@[i] as int] == i + 1);
                assert(walk.numbers@[walk.order@[j] as int] == j + 1);
            }
        }
    }
    let ghost inode_writer = inode_table.writer();
    let ghost dir_writer = dir_table.writer();
    let inodes = inode_table.finish();
    let (_, directories) = dir_table.finish();
    let ghost last = choose|last: Metablock|
        {
            &&& last.wf()
            &&& last.body == inode_writer.current()
            &&& !inode_writer.has_compressor() ==> !last.compressed
            &&& inodes@ == spec_frames(#[trigger] inode_writer.blocks().push(last))
            &&& spec_stream_of(
                inode_writer.blocks().push(last),
                inodes@,
                inode_writer.appended(),
                !inode_writer.has_compressor(),
            )
        };
    let ghost dir_last = choose|last: Metablock|
        {
            &&& last.wf()
            &&& last.body == dir_writer.current()
            &&& !dir_writer.has_compressor() ==> !last.compressed
            &&& directories@ == spec_frames(#[trigger] dir_writer.blocks().push(last))
            &&& spec_stream_of(
                dir_writer.blocks().push(last),
                directories@,
                dir_writer.appended(),
                !dir_writer.has_compressor(),
            )
        };
    proof {
        lemma_refs_kept(entries, listings, exported@, inode_writer.blocks(), last);
        lemma_dirs_kept(entries, listings, dir_writer.blocks(), dir_last);
        assert(dir_writer.blocks().push(dir_last).subrange(0, dir_writer.blocks().len() as int)
            =~= dir_writer.blocks());
        lemma_indexes_kept(
            entries,
            listings,
            dir_writer.blocks(),
            dir_writer.blocks().push(dir_last),
        );
    }
    proof {
        if spec_fits(archive.items()) && spec_children_first(archive.items(), walk.order@) {
            assert(k * NODE_BOUND <= 0x8000_0000) by (nonlinear_arith)
                requires
                    k <= FIT_ITEMS,
                    NODE_BOUND == 0x10_0000,
                    FIT_ITEMS == 0x800,
            ;
            lemma_stream_len(inode_writer.appended().len(), inodes@.len());
            lemma_stream_len(dir_writer.appended().len(), directories@.len());
        }
    }
    proof {
        if walk.order@ == seq![archive.spec_root().0] && spec_no_entries(
            archive.items()[archive.spec_root().0 as int],
        ) {
            lemma_stream_decomposes(&inode_writer);
            lemma_lone_block(inode_writer.blocks(), inode_writer.current(), inodes@);
            lemma_stream_decomposes(&dir_writer);
            lemma_lone_block(dir_writer.blocks(), dir_writer.current(), directories@);
            lemma_empty_block(directories@, !archive.spec_config().compressed_inodes);
        }
    }
    Ok(
        Nodes {
            inodes,
            directories,
            exported,
            root: root_ref,
            entries: Ghost(entries),
            listings: Ghost(listings),
            blocks: Ghost(inode_writer.blocks().push(last)),
            dir_blocks: Ghost(dir_writer.blocks().push(dir_last)),
        },
    )
}

/// What the superblock of the image of an archive says, as far as the
/// choices for the archive fix it.
pub open spec fn spec_superblock_ok(archive: &Archive, sb: Superblock, image_len: nat) -> bool {
    let config = archive.spec_config();
    &&& sb.magic == superblock::MAGIC
    &&& sb.version_major == superblock::VERSION_MAJOR
    &&& sb.version_minor == superblock::VERSION_MINOR
    &&& sb.block_size == config.block_size
    &&& sb.compression_id.0 == config.compressor_kind.spec_id()
    &&& sb.flags == config.spec_flags()
    &&& sb.modification_time == i32_of_bits(spec_mtime(config.modified_time))
    &&& sb.id_count == archive.ids().len()
    &&& sb.bytes_used == image_len
    &&& 1 <= sb.inode_count <= archive.items().len()
    &&& sb.xattr_id_table_start == superblock::NO_SECTION
    &&& SUPERBLOCK_SIZE <= sb.inode_table_start <= sb.directory_table_start <= sb.id_table_start
        <= image_len
    &&& !config.exportable ==> sb.export_table_start == superblock::NO_SECTION
    &&& sb.fragment_entry_count == 0 ==> sb.fragment_table_start == superblock::NO_SECTION
    &&& spec_validate_superblock(sb) == Ok::<Kind, crate::errors::SuperblockError>(
        config.compressor_kind,
    )
    &&& sb.flags.spec_unknown_bits() == 0
}

/// What the image of an archive holds whose root lists nothing: one inode,
/// that of the root, alone in the one block of the inode table, which
/// starts behind the superblock; a directory table of one block without
/// bytes; and no fragments.
pub open spec fn spec_lone_root_image(
    root: Item,
    ids: Seq<u32>,
    compressed: bool,
    image: Seq<u8>,
) -> bool {
    let sb = Superblock::spec_from_packed(image.subrange(0, SUPERBLOCK_SIZE as int));
    let plain = !compressed;
    &&& sb.inode_count == 1
    &&& sb.root_inode_ref.spec_block_idx() == 0
    &&& sb.root_inode_ref.spec_start_offset() == 0
    &&& sb.fragment_entry_count == 0
    &&& sb.inode_table_start == SUPERBLOCK_SIZE
    &&& SUPERBLOCK_SIZE <= sb.directory_table_start
    &&& sb.directory_table_start + 2 <= image.len()
    &&& spec_single_block(
        image.subrange(SUPERBLOCK_SIZE as int, sb.directory_table_start as int),
        spec_lone_root_inode(root, ids),
        plain,
    )
    &&& spec_single_block(
        image.subrange(sb.directory_table_start as int, sb.directory_table_start + 2),
        Seq::<u8>::empty(),
        plain,
    )
}

/// The root of an archive that lists nothing reads back as a directory
/// without entries.
///
/// In the image of such an archive whose tables are not compressed, the
/// block at the start of the inode table is stored as it is and holds the
/// inode of the root: an inode with the number 1 whose body is a basic
/// directory with a listing of no bytes.
pub proof fn lemma_lone_root_reads_back(root: Item, ids: Seq<u32>, image: Seq<u8>)
    requires
        spec_lone_root_image(root, ids, false, image),
    ensures
        ({
            let sb = Superblock::spec_from_packed(image.subrange(0, SUPERBLOCK_SIZE as int));
            let src = image.subrange(sb.inode_table_start as int, image.len() as int);
            let inode = src.subrange(2, 34);
            &&& spec_metablock_header(src) == Ok::<crate::repr::metablock::Header, Error>(
                crate::repr::metablock::Header::spec_new(32, false),
            )
            &&& !crate::repr::metablock::Header::spec_new(32, false).spec_compressed()
            &&& crate::repr::metablock::Header::spec_new(32, false).spec_size() == 32
            &&& inode == spec_lone_root_inode(root, ids)
            &&& raw::Header::spec_from_packed(inode.subrange(0, 16)) == spec_lone_root_header(
                root,
                ids,
            )
            &&& raw::BasicDir::spec_from_packed(inode.subrange(16, 32)) == spec_lone_root_dir()
        }),
{
    let sb = Superblock::spec_from_packed(image.subrange(0, SUPERBLOCK_SIZE as int));
    let from = SUPERBLOCK_SIZE as int;
    let mid = sb.directory_table_start as int;
    let table = image.subrange(from, mid);
    let body = spec_lone_root_inode(root, ids);
    let block = choose|block: Metablock|
        {
            &&& block.wf()
            &&& block.body == body
            &&& !false ==> !block.compressed
            &&& table == #[trigger] block.frame()
        };
    let head = spec_lone_root_header(root, ids);
    let dir = spec_lone_root_dir();
    head.lemma_round_trip();
    dir.lemma_round_trip();
    assert(body.subrange(0, 16) =~= head.spec_to_packed());
    assert(body.subrange(16, 32) =~= dir.spec_to_packed());
    let frame_header = crate::repr::metablock::Header::spec_new(32, false);
    frame_header.lemma_round_trip();
    crate::repr::metablock::lemma_header_new_parts(32, false);
    assert(table.len() == 34);
    let src = image.subrange(from, image.len() as int);
    assert(src.subrange(0, 2) =~= frame_header.spec_to_packed()) by {
        assert forall|i: int| 0 <= i < 2 implies src[i] == frame_header.spec_to_packed()[i] by {
            assert(src[i] == table[i]);
        }
    }
    assert(src.subrange(2, 34) =~= body) by {
        assert forall|i: int| 2 <= i < 34 implies src[i] == body[i - 2] by {
            assert(src[i] == table[i]);
        }
    }
}

/// An image that a flush has written opens: its superblock is found valid,
/// its flags have a meaning, and its codec is the one of the archive with
/// the default options.
pub proof fn lemma_flushed_image_opens(archive: &Archive, image: Seq<u8>)
    requires
        image.len() >= SUPERBLOCK_SIZE,
        spec_superblock_ok(
            archive,
            Superblock::spec_from_packed(image.subrange(0, SUPERBLOCK_SIZE as int)),
            image.len(),
        ),
    ensures
        crate::read::spec_open(image) == Ok::<
            (Superblock, Kind, Option<crate::compression::CodecConfig>),
            Error,
        >(
            (
                Superblock::spec_from_packed(image.subrange(0, SUPERBLOCK_SIZE as int)),
                archive.spec_config().compressor_kind,
                None,
            ),
        ),
{
    archive.spec_config().lemma_flags();
}

/// Where the tables of an image start.
pub(crate) struct Offsets {
    pub inode_table_start: u64,
    pub directory_table_start: u64,
    pub id_table_start: u64,
    pub fragment_table_start: u64,
    pub export_table_start: u64,
    pub fragment_count: u32,
    /// The stream of the IDs.
    pub id_data: Ghost<Seq<u8>>,
    /// The index of the blocks of the stream of the IDs.
    pub id_index: Ghost<Seq<u32>>,
}

/// A codec of the algorithm of the archive, where `wanted` holds.
fn codec_if(wanted: bool, kind: Kind) -> (r: Option<AnyCodec>)
    requires
        kind.spec_supported(),
    ensures
        r is Some == wanted,
{
    if wanted {
        Some(AnyCodec::new(kind))
    } else {
        None
    }
}

/// Whether `data` is the stream of the IDs of the archive and `index` the
/// index of its blocks.
pub open spec fn spec_id_table(
    ids: Seq<u32>,
    compressed: bool,
    data: Seq<u8>,
    index: Seq<u32>,
) -> bool {
    two_level::spec_table_image(
        crate::write::uid_gid::spec_id_records(ids),
        !compressed,
        data,
        index,
    )
}

/// What starts a sequence stays at its start when more is put behind it
/// twice.
proof fn lemma_prefix_kept(a: Seq<u8>, b: Seq<u8>, c: Seq<u8>)
    requires
        a.len() <= b.len() <= c.len(),
        a == b.subrange(0, a.len() as int),
        b == c.subrange(0, b.len() as int),
    ensures
        a == c.subrange(0, a.len() as int),
{
    assert(a =~= c.subrange(0, a.len() as int)) by {
        assert forall|i: int| 0 <= i < a.len() implies a[i] == c[i] by {
            assert(a[i] == b.subrange(0, a.len() as int)[i]);
            assert(b[i] == c.subrange(0, b.len() as int)[i]);
        }
    }
}

/// Whether the image holds a table of the records in two levels: the
/// stream of the records, which ends at `index_start`, and behind it the
/// offsets of the blocks of the stream.
pub open spec fn spec_table_at<T: PackedStruct>(
    records: Seq<T>,
    plain: bool,
    image: Seq<u8>,
    index_start: int,
) -> bool {
    exists|data: Seq<u8>, index: Seq<u32>|
        {
            &&& #[trigger] two_level::spec_table_image(records, plain, data, index)
            &&& SUPERBLOCK_SIZE <= index_start - data.len()
            &&& index_start + 8 * index.len() <= image.len()
            &&& image.subrange(index_start - data.len(), index_start + 8 * index.len()) == data
                + two_level::spec_index_bytes((index_start - data.len()) as u64, index)
        }
}

/// A table that is put behind an image is held by the image.
proof fn lemma_table_appended<T: PackedStruct>(
    records: Seq<T>,
    plain: bool,
    before: Seq<u8>,
    image: Seq<u8>,
    data: Seq<u8>,
    index: Seq<u32>,
)
    requires
        SUPERBLOCK_SIZE <= before.len(),
        two_level::spec_table_image(records, plain, data, index),
        image == before + data + two_level::spec_index_bytes(before.len() as u64, index),
    ensures
        spec_table_at(records, plain, image, (before.len() + data.len()) as int),
{
    two_level::lemma_index_bytes_len(before.len() as u64, index);
    let from = before.len() as int;
    let to = from + data.len() + 8 * index.len();
    assert(image.subrange(from, to) =~= data + two_level::spec_index_bytes(
        before.len() as u64,
        index,
    ));
}

/// A table that an image holds is held by any image that starts with it.
proof fn lemma_table_kept<T: PackedStruct>(
    records: Seq<T>,
    plain: bool,
    a: Seq<u8>,
    c: Seq<u8>,
    start: int,
)
    requires
        a.len() <= c.len(),
        a == c.subrange(0, a.len() as int),
        spec_table_at(records, plain, a, start),
    ensures
        spec_table_at(records, plain, c, start),
{
    let (data, index) = choose|data: Seq<u8>, index: Seq<u32>|
        {
            &&& #[trigger] two_level::spec_table_image(records, plain, data, index)
            &&& SUPERBLOCK_SIZE <= start - data.len()
            &&& start + 8 * index.len() <= a.len()
            &&& a.subrange(start - data.len(), start + 8 * index.len()) == data
                + two_level::spec_index_bytes((start - data.len()) as u64, index)
        };
    lemma_part_kept(a, c, start - data.len(), (data.len() + 8 * index.len()) as int);
}

/// A table that an image holds is held by an image that differs from it in
/// the superblock alone.
proof fn lemma_table_behind<T: PackedStruct>(
    records: Seq<T>,
    plain: bool,
    x: Seq<u8>,
    y: Seq<u8>,
    start: int,
)
    requires
        x.len() == y.len(),
        x.subrange(SUPERBLOCK_SIZE as int, x.len() as int) == y.subrange(
            SUPERBLOCK_SIZE as int,
            y.len() as int,
        ),
        spec_table_at(records, plain, x, start),
    ensures
        spec_table_at(records, plain, y, start),
{
    let (data, index) = choose|data: Seq<u8>, index: Seq<u32>|
        {
            &&& #[trigger] two_level::spec_table_image(records, plain, data, index)
            &&& SUPERBLOCK_SIZE <= start - data.len()
            &&& start + 8 * index.len() <= x.len()
            &&& x.subrange(start - data.len(), start + 8 * index.len()) == data
                + two_level::spec_index_bytes((start - data.len()) as u64, index)
        };
    let from = start - data.len();
    let to = start + 8 * index.len();
    assert(y.subrange(from, to) =~= x.subrange(from, to)) by {
        assert forall|i: int| from <= i < to implies y[i] == x[i] by {
            assert(x[i] == x.subrange(SUPERBLOCK_SIZE as int, x.len() as int)[i
                - SUPERBLOCK_SIZE]);
            assert(y[i] == y.subrange(SUPERBLOCK_SIZE as int, y.len() as int)[i
                - SUPERBLOCK_SIZE]);
        }
    }
}

/// Appends the table of the IDs of the archive to the image, and gives the
/// place where the offsets of its blocks start, with the stream of the IDs
/// and the index of its blocks.
fn write_ids(archive: &Archive, image: &mut Vec<u8>) -> (r: Result<
    (u64, Ghost<Seq<u8>>, Ghost<Seq<u32>>),
    Error,
>)
    requires
        archive.wf(),
        old(image)@.len() <= IMAGE_LIMIT,
    ensures
        final(image)@.len() >= old(image)@.len(),
        r matches Ok((start, data, index)) ==> {
            &&& final(image)@.len() <= IMAGE_LIMIT
            &&& final(image)@.len() <= old(image)@.len() + 0x5_0000
            &&& start == old(image)@.len() + data@.len()
            &&& spec_id_table(archive.ids(), archive.spec_config().compressed_ids, data@, index@)
            &&& final(image)@ == old(image)@ + data@ + two_level::spec_index_bytes(
                old(image)@.len() as u64,
                index@,
            )
        },
        r matches Err(e) ==> e == Error(ErrorInner::Item(ItemError::TableTooLarge)),
        old(image)@.len() + 0x5_0000 <= IMAGE_LIMIT ==> r is Ok,
{
    let config = &archive.config;
    let base = image.len();
    let len = archive.uid_gids.write_at(
        image,
        base as u64,
        codec_if(config.compressed_ids, config.compressor_kind),
    );
    if image.len() as u64 > IMAGE_LIMIT {
        return Err(too_large());
    }
    let ghost plain = !config.compressed_ids;
    let ghost (data, index) = choose|data: Seq<u8>, index: Seq<u32>|
        {
            &&& #[trigger] two_level::spec_table_image(
                crate::write::uid_gid::spec_id_records(archive.ids()),
                plain,
                data,
                index,
            )
            &&& image@ == old(image)@ + data + two_level::spec_index_bytes(base as u64, index)
            &&& data.len() == len
        };
    Ok(((base + len) as u64, Ghost(data), Ghost(index)))
}

/// Appends the table of the fragments to the image, where there are any,
/// and gives the place where the offsets of its blocks start and the number
/// of the fragments.
fn write_fragments(image: &mut Vec<u8>, fragment_table: crate::write::fragments::Table) -> (r:
    Result<(u64, u32), Error>)
    requires
        fragment_table.wf(),
        SUPERBLOCK_SIZE <= old(image)@.len() <= IMAGE_LIMIT,
    ensures
        final(image)@.len() >= old(image)@.len(),
        old(image)@ == final(image)@.subrange(0, old(image)@.len() as int),
        r matches Ok((start, count)) ==> {
            &&& final(image)@.len() <= IMAGE_LIMIT
            &&& count == fragment_table.entries().len()
            &&& count == 0 ==> start == superblock::NO_SECTION && final(image)@ == old(image)@
            &&& count > 0 ==> old(image)@.len() <= start <= final(image)@.len()
            &&& count > 0 ==> spec_table_at(
                fragment_table.entries(),
                !fragment_table.has_compressor(),
                final(image)@,
                start as int,
            )
        },
        r matches Err(e) ==> e == Error(ErrorInner::Item(ItemError::TableTooLarge)),
        fragment_table.entries().len() == 0 ==> r is Ok,
        fragment_table.entries().len() <= 0x1000 && old(image)@.len() <= 0x4000_0000_0000 ==> r is Ok
            && final(image)@.len() <= old(image)@.len() + 0x1_0000_0000,
{
    let count = fragment_table.count();
    if count > u32::MAX as usize {
        return Err(too_large());
    }
    if count == 0 {
        assert(image@.subrange(0, image@.len() as int) =~= image@);
        return Ok((superblock::NO_SECTION, 0));
    }
    let (table, index) = fragment_table.finish();
    proof {
        two_level::lemma_table_image_len(
            fragment_table.entries(),
            !fragment_table.has_compressor(),
            table@,
            index@,
        );
        two_level::lemma_index_bytes_len(image@.len() as u64, index@);
        let blocks = fragment_table.entries().len() / ((SIZE as nat) / 16);
        assert(fragment::Entry::spec_size() == 16);
        assert(blocks <= fragment_table.entries().len());
    }
    let base = image.len();
    append_bytes(image, table.as_slice());
    if image.len() as u64 > IMAGE_LIMIT {
        return Err(too_large());
    }
    let start = image.len() as u64;
    two_level::write_index(image, base as u64, &index);
    assert(old(image)@ =~= image@.subrange(0, old(image)@.len() as int));
    proof {
        lemma_table_appended(
            fragment_table.entries(),
            !fragment_table.has_compressor(),
            old(image)@,
            image@,
            table@,
            index@,
        );
    }
    if image.len() as u64 > IMAGE_LIMIT {
        return Err(too_large());
    }
    Ok((start, count as u32))
}

/// Appends the table of the exported inodes to the image, and gives the
/// place where the offsets of its blocks start.
fn write_exports(archive: &Archive, image: &mut Vec<u8>, exported: &Vec<raw::Ref>) -> (r: Result<
    u64,
    Error,
>)
    requires
        archive.wf(),
        SUPERBLOCK_SIZE <= old(image)@.len() <= IMAGE_LIMIT,
    ensures
        final(image)@.len() >= old(image)@.len(),
        old(image)@ == final(image)@.subrange(0, old(image)@.len() as int),
        r matches Ok(start) ==> old(image)@.len() <= start <= final(image)@.len() <= IMAGE_LIMIT,
        r matches Ok(start) ==> spec_table_at(
            exported@,
            !archive.spec_config().compressed_inodes,
            final(image)@,
            start as int,
        ),
        r matches Err(e) ==> e == Error(ErrorInner::Item(ItemError::TableTooLarge)),
        exported@.len() <= 0x1000 && old(image)@.len() <= 0x4000_0000_0000 ==> r is Ok,
{
    let config = &archive.config;
    let base = image.len();
    match two_level::write_table(
        image,
        exported,
        base as u64,
        codec_if(config.compressed_inodes, config.compressor_kind),
    ) {
        Some(len) => {
            if image.len() as u64 > IMAGE_LIMIT {
                return Err(too_large());
            }
            proof {
                let plain = !config.compressed_inodes;
                let (data, index) = choose|data: Seq<u8>, index: Seq<u32>|
                    {
                        &&& #[trigger] two_level::spec_table_image(exported@, plain, data, index)
                        &&& image@ == old(image)@ + data + two_level::spec_index_bytes(
                            base as u64,
                            index,
                        )
                        &&& data.len() == len
                    };
                lemma_table_appended(exported@, plain, old(image)@, image@, data, index);
            }
            Ok((base + len) as u64)
        },
        None => Err(too_large()),
    }
}

/// Appends the tables of an archive to its image: the inodes, the
/// directories, the IDs, the fragments where there are any, and the
/// exported inodes where they are asked for.
fn write_tables(
    archive: &Archive,
    image: &mut Vec<u8>,
    nodes: &Nodes,
    fragment_table: crate::write::fragments::Table,
) -> (r: Result<Offsets, Error>)
    requires
        archive.wf(),
        fragment_table.wf(),
        old(image)@.len() >= SUPERBLOCK_SIZE,
    ensures
        r matches Err(e) ==> spec_layout_error(e),
        final(image)@.len() >= old(image)@.len(),
        r matches Ok(offsets) ==> old(image)@ == final(image)@.subrange(
            0,
            old(image)@.len() as int,
        ),
        r matches Ok(offsets) ==> {
            &&& SUPERBLOCK_SIZE <= offsets.inode_table_start <= offsets.directory_table_start
                <= offsets.id_table_start <= final(image)@.len() <= u64::MAX
            &&& !archive.spec_config().exportable ==> offsets.export_table_start
                == superblock::NO_SECTION
            &&& offsets.inode_table_start == old(image)@.len()
            &&& offsets.directory_table_start == old(image)@.len() + nodes.inodes@.len()
            &&& offsets.id_table_start == old(image)@.len() + nodes.inodes@.len()
                + nodes.directories@.len() + offsets.id_data@.len()
            &&& offsets.id_table_start + 8 * offsets.id_index@.len() <= final(image)@.len()
            &&& final(image)@.subrange(0, offsets.id_table_start + 8 * offsets.id_index@.len())
                == old(image)@ + nodes.inodes@ + nodes.directories@ + offsets.id_data@
                + two_level::spec_index_bytes(
                (offsets.id_table_start - offsets.id_data@.len()) as u64,
                offsets.id_index@,
            )
            &&& spec_id_table(
                archive.ids(),
                archive.spec_config().compressed_ids,
                offsets.id_data@,
                offsets.id_index@,
            )
            &&& offsets.fragment_count == fragment_table.entries().len()
            &&& offsets.fragment_count > 0 ==> spec_table_at(
                fragment_table.entries(),
                !fragment_table.has_compressor(),
                final(image)@,
                offsets.fragment_table_start as int,
            )
            &&& archive.spec_config().exportable ==> spec_table_at(
                nodes.exported@,
                !archive.spec_config().compressed_inodes,
                final(image)@,
                offsets.export_table_start as int,
            )
            &&& offsets.fragment_count == 0 ==> offsets.fragment_table_start
                == superblock::NO_SECTION
        },
        old(image)@.len() <= 0x1000_0000_0000 && nodes.inodes@.len() <= 0x1_0000_0000
            && nodes.directories@.len() <= 0x1_0000_0000 && fragment_table.entries().len() <= 0x1000
            && nodes.exported@.len() <= 0x1000 ==> r is Ok,
{
    let inode_table_start = image.len();
    append_bytes(image, nodes.inodes.as_slice());
    let directory_table_start = image.len();
    append_bytes(image, nodes.directories.as_slice());
    if image.len() as u64 > IMAGE_LIMIT {
        return Err(too_large());
    }
    let (id_table_start, id_data, id_index) = match write_ids(archive, image) {
        Ok(placed) => placed,
        Err(e) => {
            return Err(e);
        },
    };
    let ghost with_ids = image@;
    let (fragment_table_start, fragment_count) = match write_fragments(image, fragment_table) {
        Ok(placed) => placed,
        Err(e) => {
            return Err(e);
        },
    };
    let ghost with_fragments = image@;
    let export_table_start = if archive.config.exportable {
        match write_exports(archive, image, &nodes.exported) {
            Ok(start) => start,
            Err(e) => {
                return Err(e);
            },
        }
    } else {
        assert(image@.subrange(0, image@.len() as int) =~= image@);
        superblock::NO_SECTION
    };
    proof {
        if fragment_count > 0 {
            lemma_table_kept(
                fragment_table.entries(),
                !fragment_table.has_compressor(),
                with_fragments,
                image@,
                fragment_table_start as int,
            );
        }
        assert(old(image)@ =~= with_ids.subrange(0, old(image)@.len() as int));
        lemma_prefix_kept(with_ids, with_fragments, image@);
        lemma_prefix_kept(old(image)@, with_ids, image@);
        two_level::lemma_index_bytes_len(
            (id_table_start - id_data@.len()) as u64,
            id_index@,
        );
    }
    Ok(
        Offsets {
            inode_table_start: inode_table_start as u64,
            directory_table_start: directory_table_start as u64,
            id_table_start,
            fragment_table_start,
            export_table_start,
            fragment_count,
            id_data,
            id_index,
        },
    )
}

/// Writes the superblock over the first bytes of the image.
fn write_superblock(archive: &Archive, image: &mut Vec<u8>, nodes: &Nodes, offsets: &Offsets)
    requires
        archive.wf(),
        1 <= nodes.exported@.len() <= archive.items().len(),
        SUPERBLOCK_SIZE <= offsets.inode_table_start <= offsets.directory_table_start
            <= offsets.id_table_start <= old(image)@.len() <= u64::MAX,
        !archive.spec_config().exportable ==> offsets.export_table_start == superblock::NO_SECTION,
        offsets.fragment_count == 0 ==> offsets.fragment_table_start == superblock::NO_SECTION,
    ensures
        final(image)@.len() == old(image)@.len(),
        final(image)@.subrange(SUPERBLOCK_SIZE as int, old(image)@.len() as int) == old(
            image,
        )@.subrange(SUPERBLOCK_SIZE as int, old(image)@.len() as int),
        spec_superblock_ok(
            archive,
            Superblock::spec_from_packed(final(image)@.subrange(0, SUPERBLOCK_SIZE as int)),
            final(image)@.len(),
        ),
        ({
            let sb = Superblock::spec_from_packed(
                final(image)@.subrange(0, SUPERBLOCK_SIZE as int),
            );
            &&& sb.inode_count == nodes.exported@.len()
            &&& sb.root_inode_ref == nodes.root
            &&& sb.fragment_entry_count == offsets.fragment_count
            &&& sb.fragment_table_start == offsets.fragment_table_start
            &&& sb.export_table_start == offsets.export_table_start
            &&& sb.inode_table_start == offsets.inode_table_start
            &&& sb.directory_table_start == offsets.directory_table_start
            &&& sb.id_table_start == offsets.id_table_start
        }),
{
    let config = &archive.config;
    let kind = config.compressor_kind;
    let flags = config.flags();
    let sb = Superblock {
        magic: superblock::MAGIC,
        inode_count: nodes.exported.len() as u32,
        modification_time: exec_i32_of_bits(date_time_to_mtime(config.modified_time)),
        block_size: config.block_size,
        fragment_entry_count: offsets.fragment_count,
        compression_id: CompressionId(kind.id()),
        block_log: archive.block_log,
        flags,
        id_count: archive.uid_gids.len(),
        version_major: superblock::VERSION_MAJOR,
        version_minor: superblock::VERSION_MINOR,
        root_inode_ref: nodes.root,
        bytes_used: image.len() as u64,
        id_table_start: offsets.id_table_start,
        xattr_id_table_start: superblock::NO_SECTION,
        inode_table_start: offsets.inode_table_start,
        directory_table_start: offsets.directory_table_start,
        fragment_table_start: offsets.fragment_table_start,
        export_table_start: offsets.export_table_start,
    };
    let packed = sb.to_packed();
    proof {
        sb.lemma_round_trip();
        crate::compression::lemma_kind_id_round_trip(kind);
        assert(spec_validate_superblock(sb) == Ok::<Kind, crate::errors::SuperblockError>(kind));
    }
    copy_prefix(image.as_mut_slice(), packed.as_slice());
}

/// The tables that were laid out one after the other stand in the image
/// where they were put, also once the superblock is written over the start
/// of the image.
proof fn lemma_tables_laid(
    before: Seq<u8>,
    inodes: Seq<u8>,
    directories: Seq<u8>,
    id_data: Seq<u8>,
    id_offsets: Seq<u8>,
    laid: Seq<u8>,
    image: Seq<u8>,
)
    requires
        before.len() >= SUPERBLOCK_SIZE,
        laid.len() == image.len(),
        before.len() + inodes.len() + directories.len() + id_data.len() + id_offsets.len()
            <= laid.len(),
        laid.subrange(
            0,
            (before.len() + inodes.len() + directories.len() + id_data.len() + id_offsets.len()) as int,
        ) == before + inodes + directories + id_data + id_offsets,
        image.subrange(SUPERBLOCK_SIZE as int, image.len() as int) == laid.subrange(
            SUPERBLOCK_SIZE as int,
            laid.len() as int,
        ),
    ensures
        ({
            let a = before.len() as int;
            let b = a + inodes.len();
            let c = b + directories.len();
            let d = c + id_data.len() + id_offsets.len();
            &&& image.subrange(a, b) == inodes
            &&& image.subrange(b, c) == directories
            &&& image.subrange(c, d) == id_data + id_offsets
        }),
{
    let a = before.len() as int;
    let b = a + inodes.len();
    let c = b + directories.len();
    let d = c + id_data.len() + id_offsets.len();
    let all = before + inodes + directories + id_data + id_offsets;
    assert forall|i: int| a <= i < d implies image[i] == all[i] by {
        assert(image[i] == image.subrange(SUPERBLOCK_SIZE as int, image.len() as int)[i
            - SUPERBLOCK_SIZE]);
        assert(laid[i] == laid.subrange(SUPERBLOCK_SIZE as int, laid.len() as int)[i
            - SUPERBLOCK_SIZE]);
        assert(laid[i] == laid.subrange(0, d)[i]);
    }
    assert(image.subrange(a, b) =~= inodes);
    assert(image.subrange(b, c) =~= directories);
    assert(image.subrange(c, d) =~= id_data + id_offsets);
}

/// The tables that were laid out one after the other are the tables of the
/// image, also once the superblock is written over the start of the image.
proof fn lemma_tables_ok(
    items: Seq<Item>,
    root: u32,
    ids: Seq<u32>,
    compressed_inodes: bool,
    compressed_ids: bool,
    order: Seq<u32>,
    entries: Seq<inode::Entry>,
    listings: Seq<Seq<dir::Run>>,
    places: Seq<raw::Ref>,
    blocks: Seq<Metablock>,
    dir_blocks: Seq<Metablock>,
    stored: Seq<Seq<StoredBlock>>,
    block_size: nat,
    fragments: FragmentConfig,
    exportable: bool,
    export_start: int,
    tails: Seq<Seq<u8>>,
    fragment_entries: Seq<fragment::Entry>,
    fragment_start: u64,
    id_data: Seq<u8>,
    id_index: Seq<u32>,
    before: Seq<u8>,
    inodes: Seq<u8>,
    directories: Seq<u8>,
    laid: Seq<u8>,
    image: Seq<u8>,
)
    requires
        spec_nodes_ok(items, root, ids, order, entries, listings),
        spec_id_table(ids, compressed_ids, id_data, id_index),
        spec_refs_ok(entries, listings, places, blocks),
        exportable ==> spec_table_at(places, !compressed_inodes, image, export_start),
        spec_fragment_blocks_ok(fragment_entries, tails, image),
        spec_tails_ok(items, order, entries, tails, block_size, fragments),
        fragment_entries.len() == 0 ==> fragment_start == superblock::NO_SECTION,
        fragment_entries.len() > 0 ==> spec_table_at(
            fragment_entries,
            !compressed_inodes,
            image,
            fragment_start as int,
        ),
        spec_dirs_ok(entries, listings, dir_blocks),
        spec_indexes_ok(entries, listings, dir_blocks),
        spec_files_ok(items, order, entries, stored, image, block_size, fragments),
        places.len() > 0,
        spec_stream_of(blocks, inodes, spec_inodes_bytes(entries, 1), !compressed_inodes),
        spec_stream_of(
            dir_blocks,
            directories,
            spec_listings_bytes(listings),
            !compressed_inodes,
        ),
        before.len() >= SUPERBLOCK_SIZE,
        laid.len() == image.len(),
        before.len() + inodes.len() + directories.len() + id_data.len() + 8 * id_index.len()
            <= laid.len(),
        laid.subrange(
            0,
            (before.len() + inodes.len() + directories.len() + id_data.len() + 8
                * id_index.len()) as int,
        ) == before + inodes + directories + id_data + two_level::spec_index_bytes(
            (before.len() + inodes.len() + directories.len()) as u64,
            id_index,
        ),
        image.subrange(SUPERBLOCK_SIZE as int, image.len() as int) == laid.subrange(
            SUPERBLOCK_SIZE as int,
            laid.len() as int,
        ),
    ensures
        spec_tables_ok(
            items,
            root,
            ids,
            compressed_inodes,
            compressed_ids,
            image,
            before.len() as int,
            (before.len() + inodes.len()) as int,
            (before.len() + inodes.len() + directories.len() + id_data.len()) as int,
            order.len(),
            places.last(),
            block_size,
            fragments,
            exportable,
            export_start,
            fragment_entries.len(),
            fragment_start,
        ),
        image.subrange(before.len() as int, (before.len() + inodes.len()) as int) == inodes,
        image.subrange(
            (before.len() + inodes.len()) as int,
            (before.len() + inodes.len() + directories.len()) as int,
        ) == directories,
{
    let id_offsets = two_level::spec_index_bytes(
        (before.len() + inodes.len() + directories.len()) as u64,
        id_index,
    );
    two_level::lemma_index_bytes_len(
        (before.len() + inodes.len() + directories.len()) as u64,
        id_index,
    );
    lemma_tables_laid(before, inodes, directories, id_data, id_offsets, laid, image);
}

/// The tables of a root that lists nothing, laid out behind a superblock
/// that records them, make the image of such an archive.
proof fn lemma_lone_root_laid(
    root: Item,
    ids: Seq<u32>,
    compressed: bool,
    image: Seq<u8>,
    inodes: Seq<u8>,
    directories: Seq<u8>,
)
    requires
        image.len() >= SUPERBLOCK_SIZE + inodes.len() + directories.len(),
        image.subrange(SUPERBLOCK_SIZE as int, SUPERBLOCK_SIZE + inodes.len()) == inodes,
        image.subrange(
            SUPERBLOCK_SIZE + inodes.len(),
            SUPERBLOCK_SIZE + inodes.len() + directories.len(),
        ) == directories,
        spec_single_block(inodes, spec_lone_root_inode(root, ids), !compressed),
        spec_single_block(directories, Seq::<u8>::empty(), !compressed),
        directories.len() == 2,
        ({
            let sb = Superblock::spec_from_packed(image.subrange(0, SUPERBLOCK_SIZE as int));
            &&& sb.inode_count == 1
            &&& sb.root_inode_ref.spec_block_idx() == 0
            &&& sb.root_inode_ref.spec_start_offset() == 0
            &&& sb.fragment_entry_count == 0
            &&& sb.inode_table_start == SUPERBLOCK_SIZE
            &&& sb.directory_table_start == SUPERBLOCK_SIZE + inodes.len()
        }),
    ensures
        spec_lone_root_image(root, ids, compressed, image),
{
}

/// Starts the image of an archive: the place of the superblock, and behind
/// it the contents of the files that the walk reaches, with the blocks of
/// their fragments.
fn write_data(archive: &Archive, walk: &Walk) -> (r: Result<
    (Vec<u8>, Vec<Option<FileBlocks>>, crate::write::fragments::Table, Ghost<Seq<Seq<u8>>>),
    Error,
>)
    requires
        archive.wf(),
        walk.wf(archive.items().len()),
    ensures
        r matches Ok((image, files, fragment_table, tails)) ==> {
            &&& image@.len() >= SUPERBLOCK_SIZE
            &&& files@.len() == archive.items().len()
            &&& fragment_table.wf()
            &&& fragment_table.has_compressor() == archive.spec_config().compressed_inodes
            &&& fragment_table.entries().len() == tails@.len()
            &&& forall|i: int|
                0 <= i < tails@.len() ==> spec_fragment_held(
                    fragment_table.entries()[i],
                    #[trigger] tails@[i],
                    image@.subrange(SUPERBLOCK_SIZE as int, image@.len() as int),
                    SUPERBLOCK_SIZE as int,
                )
            &&& forall|j: int|
                0 <= j < files@.len() ==> spec_file_tail_in(
                    archive.items()[j],
                    #[trigger] files@[j],
                    tails@,
                    archive.spec_config().block_size as nat,
                )
            &&& forall|k: int|
                0 <= k < walk.order@.len() ==> spec_file_stored(
                    archive.items()[(#[trigger] walk.order@[k]) as int],
                    files@[walk.order@[k] as int],
                )
            &&& forall|k: int|
                0 <= k < walk.order@.len() ==> spec_file_cut(
                    archive.items()[(#[trigger] walk.order@[k]) as int],
                    files@[walk.order@[k] as int],
                    archive.spec_config().block_size as nat,
                    FragmentConfig::spec_from_mode(archive.spec_config().fragment_mode),
                )
            &&& forall|j: int|
                0 <= j < files@.len() ==> spec_file_placed(
                    #[trigger] files@[j],
                    image@.subrange(SUPERBLOCK_SIZE as int, image@.len() as int),
                    SUPERBLOCK_SIZE as int,
                )
        },
        r matches Err(e) ==> e == Error(ErrorInner::Item(ItemError::TableTooLarge)),
        (forall|k: int|
            0 <= k < walk.order@.len() ==> !(archive.items()[(#[trigger] walk.order@[k]) as int].data
                is File)) ==> (r matches Ok((image, files, fragment_table, tails)) && image@.len()
            == SUPERBLOCK_SIZE && fragment_table.entries().len() == 0),
        archive.items().len() <= FIT_ITEMS && (forall|j: int|
            0 <= j < archive.items().len() ==> spec_item_fits(#[trigger] archive.items()[j])) ==> (
        r matches Ok((image, files, fragment_table, tails)) && image@.len() <= 0x1000_0000_0000
            && fragment_table.entries().len() <= 0x1000),
{
    let config = &archive.config;
    let kind = config.compressor_kind;
    let mut image: Vec<u8> = Vec::new();
    fill_zeroed(&mut image, SUPERBLOCK_SIZE);
    proof {
        crate::read::lemma_block_sizes(archive.block_log);
    }
    let mut section = Datablocks::new(
        SUPERBLOCK_SIZE as u64,
        config.block_size,
        FragmentConfig::from_mode(config.fragment_mode),
        codec_if(config.compressed_data, kind),
        codec_if(config.compressed_fragments, kind),
        codec_if(config.compressed_inodes, kind),
    );
    let ghost fresh = section;
    let files = match write_files(&archive.items, walk, &mut section) {
        Ok(files) => files,
        Err(e) => {
            return Err(e);
        },
    };
    proof {
        if section == fresh {
            fresh.lemma_room(0x20_0000, config.block_size as nat);
        }
        if spec_files_fit(archive.items(), &fresh) {
            section.lemma_fragments();
            section.spec_fragments().lemma_has_room();
        }
    }
    if !section.has_room(config.block_size as u64) {
        return Err(too_large());
    }
    proof {
        section.lemma_same_setup(&fresh, &fresh);
        section.lemma_room(config.block_size as nat, 0);
        section.lemma_room(config.block_size as nat, section.fragment_buffer().len());
    }
    proof {
        section.lemma_fragments();
    }
    let ghost stored = section.output();
    let ghost tails = section.spec_finished_bodies();
    let (data, fragment_table) = section.finish();
    append_bytes(&mut image, data.as_slice());
    proof {
        assert(image@.subrange(SUPERBLOCK_SIZE as int, image@.len() as int) =~= data@);
        assert forall|j: int| 0 <= j < files@.len() implies spec_file_placed(
            #[trigger] files@[j],
            data@,
            SUPERBLOCK_SIZE as int,
        ) by {
            match files@[j] {
                Some(file) => {
                    lemma_part_kept(
                        stored,
                        data@,
                        file.blocks_start.0 - SUPERBLOCK_SIZE,
                        spec_block_stored(file.blocks()).len() as int,
                    );
                },
                None => {},
            }
        }
    }
    Ok((image, files, fragment_table, Ghost(tails)))
}

/// Lays out the image of an archive whose root is set.
#[verifier::rlimit(60)]
pub(crate) fn write_image(archive: &Archive) -> (r: Result<Vec<u8>, Error>)
    requires
        archive.wf(),
        archive.spec_root().0 < archive.items().len(),
    ensures
        r matches Err(e) ==> spec_layout_error(e),
        r matches Ok(image) ==> {
            &&& image@.len() >= SUPERBLOCK_SIZE
            &&& spec_superblock_ok(
                archive,
                Superblock::spec_from_packed(image@.subrange(0, SUPERBLOCK_SIZE as int)),
                image@.len(),
            )
        },
        r matches Ok(image) ==> ({
            let sb = Superblock::spec_from_packed(image@.subrange(0, SUPERBLOCK_SIZE as int));
            spec_tables_ok(
                archive.items(),
                archive.spec_root().0,
                archive.ids(),
                archive.spec_config().compressed_inodes,
                archive.spec_config().compressed_ids,
                image@,
                sb.inode_table_start as int,
                sb.directory_table_start as int,
                sb.id_table_start as int,
                sb.inode_count as nat,
                sb.root_inode_ref,
                archive.spec_config().block_size as nat,
                FragmentConfig::spec_from_mode(archive.spec_config().fragment_mode),
                archive.spec_config().exportable,
                sb.export_table_start as int,
                sb.fragment_entry_count as nat,
                sb.fragment_table_start,
            )
        }),
        spec_fits(archive.items()) ==> r is Ok,
        spec_no_entries(archive.items()[archive.spec_root().0 as int]) ==> (r matches Ok(image)
            && spec_lone_root_image(
            archive.items()[archive.spec_root().0 as int],
            archive.ids(),
            archive.spec_config().compressed_inodes,
            image@,
        )),
{
    let config = &archive.config;
    let kind = config.compressor_kind;
    let walk = match post_order(&archive.items, archive.root.0) {
        Ok(walk) => walk,
        Err(e) => {
            return Err(e);
        },
    };
    let (mut image, files, fragment_table, tails) = match write_data(archive, &walk) {
        Ok(stored) => stored,
        Err(e) => {
            return Err(e);
        },
    };
    let ghost with_data = image@;
    let nodes = match write_nodes(archive, &walk, &files) {
        Ok(nodes) => nodes,
        Err(e) => {
            return Err(e);
        },
    };
    let ghost fragment_entries = fragment_table.entries();
    let offsets = match write_tables(archive, &mut image, &nodes, fragment_table) {
        Ok(offsets) => offsets,
        Err(e) => {
            return Err(e);
        },
    };
    let ghost laid = image@;
    write_superblock(archive, &mut image, &nodes, &offsets);
    proof {
        let plain = !archive.spec_config().compressed_inodes;
        if offsets.fragment_count > 0 {
            lemma_table_behind(
                fragment_entries,
                plain,
                laid,
                image@,
                offsets.fragment_table_start as int,
            );
        }
        if archive.spec_config().exportable {
            lemma_table_behind(
                nodes.exported@,
                plain,
                laid,
                image@,
                offsets.export_table_start as int,
            );
        }
    }
    proof {
        reveal(spec_nodes_ok);
        lemma_fragments_ok(
            archive.items(),
            walk.order@,
            nodes.entries@,
            files@,
            fragment_entries,
            tails@,
            with_data,
            laid,
            image@,
            archive.spec_config().block_size as nat,
            FragmentConfig::spec_from_mode(archive.spec_config().fragment_mode),
        );
    }
    proof {
        lemma_files_ok(
            archive.items(),
            archive.spec_root().0,
            archive.ids(),
            walk.order@,
            nodes.entries@,
            nodes.listings@,
            files@,
            with_data,
            laid,
            image@,
            archive.spec_config().block_size as nat,
            FragmentConfig::spec_from_mode(archive.spec_config().fragment_mode),
        );
        lemma_tables_ok(
            archive.items(),
            archive.spec_root().0,
            archive.ids(),
            archive.spec_config().compressed_inodes,
            archive.spec_config().compressed_ids,
            walk.order@,
            nodes.entries@,
            nodes.listings@,
            nodes.exported@,
            nodes.blocks@,
            nodes.dir_blocks@,
            Seq::new(walk.order@.len(), |k: int| spec_blocks_of(files@[walk.order@[k] as int])),
            archive.spec_config().block_size as nat,
            FragmentConfig::spec_from_mode(archive.spec_config().fragment_mode),
            archive.spec_config().exportable,
            offsets.export_table_start as int,
            tails@,
            fragment_entries,
            offsets.fragment_table_start,
            offsets.id_data@,
            offsets.id_index@,
            with_data,
            nodes.inodes@,
            nodes.directories@,
            laid,
            image@,
        );
        if spec_no_entries(archive.items()[archive.spec_root().0 as int]) {
            lemma_lone_root_laid(
                archive.items()[archive.spec_root().0 as int],
                archive.ids(),
                archive.spec_config().compressed_inodes,
                image@,
                nodes.inodes@,
                nodes.directories@,
            );
        }
    }
    Ok(image)
}

} // verus!
