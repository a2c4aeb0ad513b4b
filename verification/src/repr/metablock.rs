//! Metadata blocks.
//!
//! Metadata is stored in blocks of 8 KiB of uncompressed data. Each block is
//! preceded by a 16-bit header: the highest bit says whether the block is
//! compressed, the lower 15 bits give the size of the block on disk, header
//! not included. Neither the size on disk nor the uncompressed size exceeds
//! 8 KiB; only the last block of a section may be shorter than 8 KiB.

use crate::packed::PackedStruct;
use vstd::prelude::*;

verus! {

/// The uncompressed size of a full metadata block.
pub const SIZE: usize = 8192;

pub const COMPRESSED_FLAG: u16 = 0x8000;

/// Facts on the packing of a block start and an offset into 64 bits.
pub proof fn lemma_ref_parts(block_start: u32, offset: u16)
    by (bit_vector)
    ensures
        ((((block_start as u64) << 16) | (offset as u64)) >> 16) & 0xFFFF_FFFF
            == block_start as u64,
        (((block_start as u64) << 16) | (offset as u64)) & 0xFFFF == offset as u64,
        ((block_start as u64) << 16) | (offset as u64) == block_start as u64 * 0x1_0000
            + offset as u64,
{
}

/// The two parts of a packed reference fit their types.
pub proof fn lemma_ref_ranges(packed: u64)
    by (bit_vector)
    ensures
        (packed >> 16) & 0xFFFF_FFFF <= 0xFFFF_FFFF,
        packed & 0xFFFF <= 0xFFFF,
{
}

/// A position in a stream of metadata blocks: where the block starts in its
/// section, and the offset into the uncompressed block.
#[derive(Debug, Copy, Clone, PartialEq, Eq, PartialOrd, Ord, Structural)]
pub struct Ref(pub u64);

impl Ref {
    pub open spec fn spec_new(block_start: u32, offset: u16) -> Ref {
        Ref(((block_start as u64) << 16) | (offset as u64))
    }

    pub open spec fn spec_block_start(self) -> u32 {
        ((self.0 >> 16) & 0xFFFF_FFFF) as u32
    }

    pub open spec fn spec_start_offset(self) -> u16 {
        (self.0 & 0xFFFF) as u16
    }

    /// The offset lies inside a block.
    pub open spec fn wf(self) -> bool {
        self.spec_start_offset() < SIZE
    }

    #[verifier::when_used_as_spec(spec_new)]
    pub fn new(block_start: u32, offset: u16) -> (r: Ref)
        ensures
            r == Ref::spec_new(block_start, offset),
            r.spec_block_start() == block_start,
            r.spec_start_offset() == offset,
            r.0 == block_start * 0x1_0000 + offset,
    {
        proof {
            lemma_ref_parts(block_start, offset);
        }
        let block_start: u64 = block_start as u64;
        let offset: u64 = offset as u64;
        Ref((block_start << 16) | offset)
    }

    #[verifier::when_used_as_spec(spec_block_start)]
    pub fn block_start(self) -> (r: u32)
        ensures
            r == self.spec_block_start(),
    {
        proof {
            lemma_ref_ranges(self.0);
        }
        ((self.0 >> 16) & 0xFFFF_FFFF) as u32
    }

    #[verifier::when_used_as_spec(spec_start_offset)]
    pub fn start_offset(self) -> (r: u16)
        ensures
            r == self.spec_start_offset(),
    {
        proof {
            lemma_ref_ranges(self.0);
        }
        (self.0 & 0xFFFF) as u16
    }
}

impl Default for Ref {
    /// The reference that points nowhere: all bits set.
    fn default() -> (r: Ref)
        ensures
            r.0 == u64::MAX,
    {
        Ref(u64::MAX)
    }
}

/// Packing a block start and an offset and taking them out again gives them
/// back.
pub proof fn lemma_ref_new_parts(block_start: u32, offset: u16)
    ensures
        Ref::spec_new(block_start, offset).spec_block_start() == block_start,
        Ref::spec_new(block_start, offset).spec_start_offset() == offset,
{
    lemma_ref_parts(block_start, offset);
}

/// Facts on the flag and the size of a block header.
pub proof fn lemma_header_parts(size: u16, flag: u16)
    by (bit_vector)
    requires
        size < 0x8000,
        flag == 0x8000 || flag == 0,
    ensures
        (size | flag) & 0x7FFF == size,
        (size | flag) & !0x8000u16 == size,
        (size | flag) & 0x8000 == flag,
{
}

/// The 16-bit header of a metadata block.
#[derive(Debug, Copy, Clone, PartialEq, Eq, Structural)]
pub struct Header(pub u16);

impl Header {
    pub open spec fn spec_new(size: u16, compressed: bool) -> Header {
        Header(
            size | (if compressed {
                COMPRESSED_FLAG
            } else {
                0
            }),
        )
    }

    pub open spec fn spec_compressed(self) -> bool {
        self.0 & COMPRESSED_FLAG == COMPRESSED_FLAG
    }

    pub open spec fn spec_size(self) -> u16 {
        self.0 & !COMPRESSED_FLAG
    }

    #[verifier::when_used_as_spec(spec_new)]
    pub fn new(size: u16, compressed: bool) -> (r: Header)
        requires
            size <= SIZE,
        ensures
            r == Header::spec_new(size, compressed),
            r.spec_size() == size,
            r.spec_compressed() == compressed,
    {
        let flag: u16 = if compressed {
            COMPRESSED_FLAG
        } else {
            0
        };
        proof {
            lemma_header_parts(size, flag);
        }
        Header(size | flag)
    }

    #[verifier::when_used_as_spec(spec_compressed)]
    pub fn compressed(self) -> (r: bool)
        ensures
            r == self.spec_compressed(),
    {
        self.0 & COMPRESSED_FLAG == COMPRESSED_FLAG
    }

    #[verifier::when_used_as_spec(spec_size)]
    pub fn size(self) -> (r: u16)
        ensures
            r == self.spec_size(),
            r < 0x8000,
    {
        let raw: u16 = self.0;
        assert(raw & !0x8000u16 < 0x8000) by (bit_vector);
        raw & !COMPRESSED_FLAG
    }
}

/// A header made of a size and a flag holds that size and that flag.
pub proof fn lemma_header_new_parts(size: u16, compressed: bool)
    requires
        size <= SIZE,
    ensures
        Header::spec_new(size, compressed).spec_size() == size,
        Header::spec_new(size, compressed).spec_compressed() == compressed,
{
    let flag: u16 = if compressed {
        COMPRESSED_FLAG
    } else {
        0
    };
    lemma_header_parts(size, flag);
}

impl PackedStruct for Ref {
    open spec fn spec_size() -> nat {
        8
    }

    open spec fn spec_to_packed(&self) -> Seq<u8> {
        self.0.spec_to_packed()
    }

    open spec fn spec_from_packed(bytes: Seq<u8>) -> Self {
        Ref(u64::spec_from_packed(bytes))
    }

    proof fn lemma_round_trip(&self) {
        self.0.lemma_round_trip();
    }

    fn size() -> (n: usize) {
        8
    }

    fn pack_into(&self, out: &mut Vec<u8>) {
        self.0.pack_into(out);
    }

    fn from_packed(bytes: &[u8]) -> (r: Self) {
        Ref(u64::from_packed(bytes))
    }
}

impl PackedStruct for Header {
    open spec fn spec_size() -> nat {
        2
    }

    open spec fn spec_to_packed(&self) -> Seq<u8> {
        self.0.spec_to_packed()
    }

    open spec fn spec_from_packed(bytes: Seq<u8>) -> Self {
        Header(u16::spec_from_packed(bytes))
    }

    proof fn lemma_round_trip(&self) {
        self.0.lemma_round_trip();
    }

    fn size() -> (n: usize) {
        2
    }

    fn pack_into(&self, out: &mut Vec<u8>) {
        self.0.pack_into(out);
    }

    fn from_packed(bytes: &[u8]) -> (r: Self) {
        Header(u16::from_packed(bytes))
    }
}

} // verus!
