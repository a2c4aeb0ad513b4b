//! Compression algorithms and their stored options.

pub mod options;

use crate::packed::PackedStruct;
use vstd::prelude::*;

verus! {

pub const GZIP: u16 = 1;

pub const LZMA: u16 = 2;

pub const LZO: u16 = 3;

pub const XZ: u16 = 4;

pub const LZ4: u16 = 5;

pub const ZSTD: u16 = 6;

pub const MAX: u16 = ZSTD;

/// The ID of a compression algorithm, as the superblock stores it.
#[derive(Debug, Copy, Clone, PartialEq, Eq, Structural)]
pub struct Id(pub u16);

impl PackedStruct for Id {
    open spec fn spec_size() -> nat {
        2
    }

    open spec fn spec_to_packed(&self) -> Seq<u8> {
        self.0.spec_to_packed()
    }

    open spec fn spec_from_packed(bytes: Seq<u8>) -> Self {
        Id(u16::spec_from_packed(bytes))
    }

    proof fn lemma_round_trip(&self) {
        self.0.lemma_round_trip();
    }

    fn size() -> (n: usize) {
        2
    }

    fn pack_into(&self, out: &mut Vec<u8>) {
        self.0.pack_into(out);
    }

    fn from_packed(bytes: &[u8]) -> (r: Self) {
        Id(u16::from_packed(bytes))
    }
}

} // verus!
