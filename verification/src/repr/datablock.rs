//! Data blocks.

use crate::packed::PackedStruct;
use vstd::prelude::*;

verus! {

/// The largest size of a data block: 1 MiB.
pub const MAX_SIZE: usize = 0x10_0000;

/// The bit of a block size that marks the block as stored uncompressed.
pub const UNCOMPRESSED_FLAG: u32 = 0x100_0000;

/// Facts on the flag and the size of a block size word.
pub proof fn lemma_size_parts(size: u32, flag: u32)
    by (bit_vector)
    requires
        size <= 0x10_0000,
        flag == 0x100_0000 || flag == 0,
    ensures
        (size | flag) & !0x100_0000u32 == size,
        (size | flag) & 0x100_0000 == flag,
{
}

/// The size of a data block on disk, with the flag that says whether the
/// block is stored uncompressed. The value 0 marks a sparse block.
#[derive(Debug, Copy, Clone, PartialEq, Eq, Structural)]
pub struct Size(pub u32);

impl Size {
    pub open spec fn spec_new(size: u32, uncompressed: bool) -> Size {
        Size(
            size | (if uncompressed {
                UNCOMPRESSED_FLAG
            } else {
                0
            }),
        )
    }

    pub open spec fn spec_size(self) -> u32 {
        self.0 & !UNCOMPRESSED_FLAG
    }

    pub open spec fn spec_uncompressed(self) -> bool {
        self.0 & UNCOMPRESSED_FLAG != 0
    }

    /// The marker of a sparse block.
    pub fn zero() -> (r: Size)
        ensures
            r.0 == 0,
    {
        Size(0)
    }

    #[verifier::when_used_as_spec(spec_new)]
    pub fn new(size: u32, uncompressed: bool) -> (r: Size)
        requires
            size <= MAX_SIZE,
        ensures
            r == Size::spec_new(size, uncompressed),
            r.spec_size() == size,
            r.spec_uncompressed() == uncompressed,
    {
        let flag: u32 = if uncompressed {
            UNCOMPRESSED_FLAG
        } else {
            0
        };
        proof {
            lemma_size_parts(size, flag);
        }
        Size(size | flag)
    }

    #[verifier::when_used_as_spec(spec_size)]
    pub fn size(self) -> (r: u32)
        ensures
            r == self.spec_size(),
    {
        self.0 & !UNCOMPRESSED_FLAG
    }

    #[verifier::when_used_as_spec(spec_uncompressed)]
    pub fn uncompressed(self) -> (r: bool)
        ensures
            r == self.spec_uncompressed(),
    {
        self.0 & UNCOMPRESSED_FLAG != 0
    }
}

/// A block size made of a size and a flag holds that size and that flag.
pub proof fn lemma_size_new_parts(size: u32, uncompressed: bool)
    requires
        size <= MAX_SIZE,
    ensures
        Size::spec_new(size, uncompressed).spec_size() == size,
        Size::spec_new(size, uncompressed).spec_uncompressed() == uncompressed,
{
    let flag: u32 = if uncompressed {
        UNCOMPRESSED_FLAG
    } else {
        0
    };
    lemma_size_parts(size, flag);
}

/// The number of bytes from the start of the archive to the start of a block.
#[derive(Debug, Copy, Clone, PartialEq, Eq, Structural)]
pub struct Ref(pub u64);

impl PackedStruct for Size {
    open spec fn spec_size() -> nat {
        4
    }

    open spec fn spec_to_packed(&self) -> Seq<u8> {
        self.0.spec_to_packed()
    }

    open spec fn spec_from_packed(bytes: Seq<u8>) -> Self {
        Size(u32::spec_from_packed(bytes))
    }

    proof fn lemma_round_trip(&self) {
        self.0.lemma_round_trip();
    }

    fn size() -> (n: usize) {
        4
    }

    fn pack_into(&self, out: &mut Vec<u8>) {
        self.0.pack_into(out);
    }

    fn from_packed(bytes: &[u8]) -> (r: Self) {
        Size(u32::from_packed(bytes))
    }
}

impl PackedStruct for Ref {
    open spec fn spec_size() -> nat {
        8
    }

    open spec fn spec_to_packed(&self) -> Seq<u8> {
        self.0.spec_to_packed()
    }

    open spec fn spec_from_packed(bytes: Seq<u8>) -> Self {
        Ref(u64::spec_from_packed(bytes))
    }

    proof fn lemma_round_trip(&self) {
        self.0.lemma_round_trip();
    }

    fn size() -> (n: usize) {
        8
    }

    fn pack_into(&self, out: &mut Vec<u8>) {
        self.0.pack_into(out);
    }

    fn from_packed(bytes: &[u8]) -> (r: Self) {
        Ref(u64::from_packed(bytes))
    }
}

} // verus!
