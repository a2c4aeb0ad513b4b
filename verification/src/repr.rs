//! The on-disk records of a SquashFS archive.
//!
//! An archive holds up to nine parts, packed together on byte alignment: the
//! superblock, the compression options, data blocks and fragments, the inode
//! table, the directory table, the fragment table, the export table, the
//! UID/GID lookup table and the xattr table.

pub mod compression;
pub mod datablock;
pub mod directory;
pub mod fragment;
pub mod inode;
pub mod metablock;
pub mod mode;
pub mod superblock;
pub mod uid_gid;
pub mod xattr;

pub use mode::Mode;

use crate::packed::PackedStruct;
use vstd::prelude::*;

verus! {

pub const BLOCK_LOG_MIN: u16 = 12;

pub const BLOCK_LOG_MAX: u16 = 20;

pub const BLOCK_LOG_DEFAULT: u16 = 17;

pub const BLOCK_SIZE_MIN: u32 = 0x1000;

pub const BLOCK_SIZE_MAX: u32 = 0x10_0000;

pub const BLOCK_SIZE_DEFAULT: u32 = 0x2_0000;

/// The header stored before a metadata block.
#[derive(Debug, Copy, Clone, PartialEq, Eq, Structural)]
pub struct MetablockHeader(pub u16);

impl MetablockHeader {
    pub open spec fn spec_is_compressed(self) -> bool {
        (self.0 & 0x8000) != 0
    }

    pub open spec fn spec_size_on_disk(self) -> u16 {
        self.0 & 0x7FFF
    }

    /// Whether the block that follows is compressed.
    #[verifier::when_used_as_spec(spec_is_compressed)]
    pub fn is_compressed(self) -> (r: bool)
        ensures
            r == self.spec_is_compressed(),
    {
        (self.0 & 0x8000) != 0
    }

    /// The size in bytes, on disk, of the block that follows.
    #[verifier::when_used_as_spec(spec_size_on_disk)]
    pub fn size_on_disk(self) -> (r: u16)
        ensures
            r == self.spec_size_on_disk(),
            r < 0x8000,
    {
        let raw: u16 = self.0;
        assert(raw & 0x7FFF < 0x8000) by (bit_vector);
        raw & 0x7FFF
    }
}

impl PackedStruct for MetablockHeader {
    open spec fn spec_size() -> nat {
        2
    }

    open spec fn spec_to_packed(&self) -> Seq<u8> {
        self.0.spec_to_packed()
    }

    open spec fn spec_from_packed(bytes: Seq<u8>) -> Self {
        MetablockHeader(u16::spec_from_packed(bytes))
    }

    proof fn lemma_round_trip(&self) {
        self.0.lemma_round_trip();
    }

    fn size() -> (n: usize) {
        2
    }

    fn pack_into(&self, out: &mut Vec<u8>) {
        self.0.pack_into(out);
    }

    fn from_packed(bytes: &[u8]) -> (r: Self) {
        MetablockHeader(u16::from_packed(bytes))
    }
}

} // verus!
