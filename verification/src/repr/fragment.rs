//! The fragment table.
//!
//! The tails of files are packed together into fragment blocks of at most
//! one block size. The table tells where each fragment block lies and how
//! large it is; it is stored in two levels, 512 entries of 16 bytes to a
//! metadata block.

use crate::packed::PackedStruct;
use vstd::prelude::*;
use crate::packed::lemma_concat_subranges;
use vstd::slice::slice_subrange;

pub use crate::repr::datablock::Size;

verus! {

/// The index that stands for "no fragment".
pub const NO_FRAGMENT: u32 = 0xFFFF_FFFF;

/// The entry of a fragment block.
#[derive(Debug, Copy, Clone, PartialEq, Eq, Structural)]
pub struct Entry {
    /// The offset in the archive where the fragment block starts.
    pub start: u64,
    /// The size of the fragment block on disk, with the uncompressed flag.
    pub size: Size,
    pub unused: u32,
}

/// The index of an entry in the fragment table.
#[derive(Debug, Copy, Clone, PartialEq, Eq, Structural)]
pub struct Idx(pub u32);

impl Default for Idx {
    fn default() -> (r: Idx)
        ensures
            r.0 == 0,
    {
        Idx(0)
    }
}

impl PackedStruct for Entry {
    open spec fn spec_size() -> nat {
        16
    }

    open spec fn spec_to_packed(&self) -> Seq<u8> {
        self.start.spec_to_packed()
            + self.size.spec_to_packed()
            + self.unused.spec_to_packed()
    }

    open spec fn spec_from_packed(bytes: Seq<u8>) -> Self {
        Entry {
            start: u64::spec_from_packed(bytes.subrange(0, 8)),
            size: Size::spec_from_packed(bytes.subrange(8, 12)),
            unused: u32::spec_from_packed(bytes.subrange(12, 16)),
        }
    }

    proof fn lemma_round_trip(&self) {
        let bytes = self.spec_to_packed();
        self.start.lemma_round_trip();
        self.size.lemma_round_trip();
        self.unused.lemma_round_trip();
        lemma_concat_subranges();
        assert(bytes.subrange(0, 8) == self.start.spec_to_packed());
        assert(bytes.subrange(8, 12) == self.size.spec_to_packed());
        assert(bytes.subrange(12, 16) == self.unused.spec_to_packed());
    }

    fn size() -> (n: usize) {
        16
    }

    fn pack_into(&self, out: &mut Vec<u8>) {
        self.start.pack_into(out);
        self.size.pack_into(out);
        self.unused.pack_into(out);
        assert(out@ =~= old(out)@ + self.spec_to_packed());
    }

    fn from_packed(bytes: &[u8]) -> (r: Self) {
        Entry {
            start: u64::from_packed(slice_subrange(bytes, 0, 8)),
            size: Size::from_packed(slice_subrange(bytes, 8, 12)),
            unused: u32::from_packed(slice_subrange(bytes, 12, 16)),
        }
    }
}

impl PackedStruct for Idx {
    open spec fn spec_size() -> nat {
        4
    }

    open spec fn spec_to_packed(&self) -> Seq<u8> {
        self.0.spec_to_packed()
    }

    open spec fn spec_from_packed(bytes: Seq<u8>) -> Self {
        Idx(u32::spec_from_packed(bytes))
    }

    proof fn lemma_round_trip(&self) {
        self.0.lemma_round_trip();
    }

    fn size() -> (n: usize) {
        4
    }

    fn pack_into(&self, out: &mut Vec<u8>) {
        self.0.pack_into(out);
    }

    fn from_packed(bytes: &[u8]) -> (r: Self) {
        Idx(u32::from_packed(bytes))
    }
}

} // verus!
