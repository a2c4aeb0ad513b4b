//! The directory table.
//!
//! For each directory the table holds the list of its entries, sorted by
//! name. To save space the inode numbers are stored as differences: a header
//! gives a reference inode number and the metadata block that holds the
//! inodes of the entries after it, and each entry stores its difference to the
//! reference and its offset in that block.

use crate::repr::inode;
use crate::packed::PackedStruct;
use vstd::prelude::*;
use crate::packed::lemma_concat_subranges;
use vstd::slice::slice_subrange;

pub use crate::repr::metablock::Ref;

verus! {

/// The largest number of entries that may follow one header.
pub const MAX_ENTRIES: u32 = 256;

/// A header, which precedes a run of directory entries.
///
/// A new header is written whenever the inode block changes, the difference
/// of an inode number to the reference no longer fits in 16 bits, or 256
/// entries have followed the last header.
#[derive(Debug, Copy, Clone, PartialEq, Eq, Structural)]
pub struct Header {
    /// The number of entries that follow the header.
    pub count: u32,
    /// Where the block with the inodes of the entries starts in the inode
    /// table.
    pub start: u32,
    /// The inode number that the entries store their difference to.
    pub inode_number: inode::Idx,
}

/// A directory entry, followed by `name_size + 1` bytes of name.
#[derive(Debug, Copy, Clone, PartialEq, Eq, Structural)]
pub struct Entry {
    /// The offset of the inode in its uncompressed metadata block.
    pub offset: u16,
    /// The difference of the inode number to the reference in the header.
    pub inode_offset: i16,
    /// The kind of the inode, in its basic form also for extended inodes.
    pub kind: inode::Kind,
    /// One less than the size of the name.
    pub name_size: u16,
}

/// An entry of the index of an extended directory, followed by
/// `name_size + 1` bytes of name.
#[derive(Debug, Copy, Clone, PartialEq, Eq, Structural)]
pub struct Index {
    /// The offset in bytes from the first header of the listing to this
    /// header, counted over the uncompressed blocks.
    pub index: u32,
    /// Where the metadata block with the header starts in the directory
    /// table.
    pub start: u32,
    /// One less than the size of the name.
    pub name_size: u32,
}

impl PackedStruct for Header {
    open spec fn spec_size() -> nat {
        12
    }

    open spec fn spec_to_packed(&self) -> Seq<u8> {
        self.count.spec_to_packed()
            + self.start.spec_to_packed()
            + self.inode_number.spec_to_packed()
    }

    open spec fn spec_from_packed(bytes: Seq<u8>) -> Self {
        Header {
            count: u32::spec_from_packed(bytes.subrange(0, 4)),
            start: u32::spec_from_packed(bytes.subrange(4, 8)),
            inode_number: inode::Idx::spec_from_packed(bytes.subrange(8, 12)),
        }
    }

    proof fn lemma_round_trip(&self) {
        let bytes = self.spec_to_packed();
        self.count.lemma_round_trip();
        self.start.lemma_round_trip();
        self.inode_number.lemma_round_trip();
        lemma_concat_subranges();
        assert(bytes.subrange(0, 4) == self.count.spec_to_packed());
        assert(bytes.subrange(4, 8) == self.start.spec_to_packed());
        assert(bytes.subrange(8, 12) == self.inode_number.spec_to_packed());
    }

    fn size() -> (n: usize) {
        12
    }

    fn pack_into(&self, out: &mut Vec<u8>) {
        self.count.pack_into(out);
        self.start.pack_into(out);
        self.inode_number.pack_into(out);
        assert(out@ =~= old(out)@ + self.spec_to_packed());
    }

    fn from_packed(bytes: &[u8]) -> (r: Self) {
        Header {
            count: u32::from_packed(slice_subrange(bytes, 0, 4)),
            start: u32::from_packed(slice_subrange(bytes, 4, 8)),
            inode_number: inode::Idx::from_packed(slice_subrange(bytes, 8, 12)),
        }
    }
}

impl PackedStruct for Entry {
    open spec fn spec_size() -> nat {
        8
    }

    open spec fn spec_to_packed(&self) -> Seq<u8> {
        self.offset.spec_to_packed()
            + self.inode_offset.spec_to_packed()
            + self.kind.spec_to_packed()
            + self.name_size.spec_to_packed()
    }

    open spec fn spec_from_packed(bytes: Seq<u8>) -> Self {
        Entry {
            offset: u16::spec_from_packed(bytes.subrange(0, 2)),
            inode_offset: i16::spec_from_packed(bytes.subrange(2, 4)),
            kind: inode::Kind::spec_from_packed(bytes.subrange(4, 6)),
            name_size: u16::spec_from_packed(bytes.subrange(6, 8)),
        }
    }

    proof fn lemma_round_trip(&self) {
        let bytes = self.spec_to_packed();
        self.offset.lemma_round_trip();
        self.inode_offset.lemma_round_trip();
        self.kind.lemma_round_trip();
        self.name_size.lemma_round_trip();
        lemma_concat_subranges();
        assert(bytes.subrange(0, 2) == self.offset.spec_to_packed());
        assert(bytes.subrange(2, 4) == self.inode_offset.spec_to_packed());
        assert(bytes.subrange(4, 6) == self.kind.spec_to_packed());
        assert(bytes.subrange(6, 8) == self.name_size.spec_to_packed());
    }

    fn size() -> (n: usize) {
        8
    }

    fn pack_into(&self, out: &mut Vec<u8>) {
        self.offset.pack_into(out);
        self.inode_offset.pack_into(out);
        self.kind.pack_into(out);
        self.name_size.pack_into(out);
        assert(out@ =~= old(out)@ + self.spec_to_packed());
    }

    fn from_packed(bytes: &[u8]) -> (r: Self) {
        Entry {
            offset: u16::from_packed(slice_subrange(bytes, 0, 2)),
            inode_offset: i16::from_packed(slice_subrange(bytes, 2, 4)),
            kind: inode::Kind::from_packed(slice_subrange(bytes, 4, 6)),
            name_size: u16::from_packed(slice_subrange(bytes, 6, 8)),
        }
    }
}

impl PackedStruct for Index {
    open spec fn spec_size() -> nat {
        12
    }

    open spec fn spec_to_packed(&self) -> Seq<u8> {
        self.index.spec_to_packed()
            + self.start.spec_to_packed()
            + self.name_size.spec_to_packed()
    }

    open spec fn spec_from_packed(bytes: Seq<u8>) -> Self {
        Index {
            index: u32::spec_from_packed(bytes.subrange(0, 4)),
            start: u32::spec_from_packed(bytes.subrange(4, 8)),
            name_size: u32::spec_from_packed(bytes.subrange(8, 12)),
        }
    }

    proof fn lemma_round_trip(&self) {
        let bytes = self.spec_to_packed();
        self.index.lemma_round_trip();
        self.start.lemma_round_trip();
        self.name_size.lemma_round_trip();
        lemma_concat_subranges();
        assert(bytes.subrange(0, 4) == self.index.spec_to_packed());
        assert(bytes.subrange(4, 8) == self.start.spec_to_packed());
        assert(bytes.subrange(8, 12) == self.name_size.spec_to_packed());
    }

    fn size() -> (n: usize) {
        12
    }

    fn pack_into(&self, out: &mut Vec<u8>) {
        self.index.pack_into(out);
        self.start.pack_into(out);
        self.name_size.pack_into(out);
        assert(out@ =~= old(out)@ + self.spec_to_packed());
    }

    fn from_packed(bytes: &[u8]) -> (r: Self) {
        Index {
            index: u32::from_packed(slice_subrange(bytes, 0, 4)),
            start: u32::from_packed(slice_subrange(bytes, 4, 8)),
            name_size: u32::from_packed(slice_subrange(bytes, 8, 12)),
        }
    }
}

} // verus!
