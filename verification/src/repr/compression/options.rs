//! Compression options.
//!
//! Where an archive was made with options other than the defaults, they are
//! stored after the superblock.

use crate::packed::PackedStruct;
use vstd::prelude::*;
use vstd::string::StringExecFns;
use crate::packed::lemma_concat_subranges;
use vstd::slice::slice_subrange;

verus! {

pub const STRATEGY_DEFAULT: u16 = 0x01;

pub const STRATEGY_FILTERED: u16 = 0x02;

pub const STRATEGY_HUFFMAN_ONLY: u16 = 0x04;

pub const STRATEGY_RUN_LENGTH_ENCODED: u16 = 0x08;

pub const STRATEGY_FIXED: u16 = 0x10;

pub const FILTER_X86: u32 = 0x01;

pub const FILTER_POWERPC: u32 = 0x02;

pub const FILTER_IA64: u32 = 0x04;

pub const FILTER_ARM: u32 = 0x08;

pub const FILTER_ARM_THUMB: u32 = 0x10;

pub const FILTER_SPARC: u32 = 0x20;

/// LZ4 high compression mode.
pub const LZ4_HIGH_COMPRESSION: u32 = 0x01;

pub const LZO_X_1: u32 = 0;

pub const LZO_X_1_11: u32 = 1;

pub const LZO_X_1_12: u32 = 2;

pub const LZO_X_1_15: u32 = 3;

pub const LZO_X_999: u32 = 4;

/// The strategies enabled for gzip. With no bit set, the default strategy is
/// used.
#[derive(Debug, Copy, Clone, PartialEq, Eq, Structural)]
pub struct GzipStrategies {
    pub bits: u16,
}

/// The text so far and whether it is still to begin, once the name of a
/// strategy is added where the strategy is set. Names are joined by " | ".
pub open spec fn spec_named(state: (Seq<char>, bool), set: bool, name: Seq<char>) -> (
    Seq<char>,
    bool,
) {
    if !set {
        state
    } else if state.1 {
        (state.0 + name, false)
    } else {
        (state.0 + " | "@ + name, false)
    }
}

/// Adds the name of a strategy to the text where the strategy is set.
fn named(text: &mut String, first: bool, set: bool, name: &str) -> (r: bool)
    ensures
        (final(text)@, r) == spec_named((old(text)@, first), set, name@),
{
    if !set {
        first
    } else {
        if !first {
            text.append(" | ");
        }
        text.append(name);
        false
    }
}

impl GzipStrategies {
    /// The strategies as text: the names of those that are set, joined by
    /// " | ", and "(empty)" where none is.
    pub open spec fn spec_text(self) -> Seq<char> {
        let bits = self.bits;
        let a = spec_named((Seq::empty(), true), bits & STRATEGY_DEFAULT != 0, "DEFAULT"@);
        let b = spec_named(a, bits & STRATEGY_FILTERED != 0, "FILTERED"@);
        let c = spec_named(b, bits & STRATEGY_HUFFMAN_ONLY != 0, "HUFFMAN_ONLY"@);
        let d = spec_named(c, bits & STRATEGY_RUN_LENGTH_ENCODED != 0, "RUN_LENGTH_ENCODED"@);
        let e = spec_named(d, bits & STRATEGY_FIXED != 0, "FIXED"@);
        if e.1 {
            "(empty)"@
        } else {
            e.0
        }
    }

    /// The strategies as text.
    pub fn to_text(self) -> (s: String)
        ensures
            s@ == self.spec_text(),
    {
        let bits = self.bits;
        let mut s = String::new();
        let first = named(&mut s, true, bits & STRATEGY_DEFAULT != 0, "DEFAULT");
        let first = named(&mut s, first, bits & STRATEGY_FILTERED != 0, "FILTERED");
        let first = named(&mut s, first, bits & STRATEGY_HUFFMAN_ONLY != 0, "HUFFMAN_ONLY");
        let first = named(
            &mut s,
            first,
            bits & STRATEGY_RUN_LENGTH_ENCODED != 0,
            "RUN_LENGTH_ENCODED",
        );
        let first = named(&mut s, first, bits & STRATEGY_FIXED != 0, "FIXED");
        if first {
            s.append("(empty)");
        }
        s
    }
}

impl Default for GzipStrategies {
    fn default() -> (r: GzipStrategies)
        ensures
            r.bits == STRATEGY_DEFAULT,
    {
        GzipStrategies { bits: STRATEGY_DEFAULT }
    }
}

/// Compression options of the gzip compressor.
#[derive(Debug, Copy, Clone, PartialEq, Eq, Structural)]
pub struct Gzip {
    /// In the range 1 to 9. Defaults to 9.
    pub compression_level: u32,
    /// In the range 9 to 15. Defaults to 15.
    pub window_size: u16,
    pub strategies: GzipStrategies,
}

impl Default for Gzip {
    fn default() -> (r: Gzip)
        ensures
            r.compression_level == 9,
            r.window_size == 15,
            r.strategies.bits == STRATEGY_DEFAULT,
    {
        Gzip { compression_level: 9, window_size: 15, strategies: GzipStrategies::default() }
    }
}

/// The filters that xz tries in order to compress executable code better.
#[derive(Debug, Copy, Clone, PartialEq, Eq, Structural)]
pub struct XzFilters {
    pub bits: u32,
}

/// Compression options of the xz compressor.
#[derive(Debug, Copy, Clone, PartialEq, Eq, Structural)]
pub struct Xz {
    /// More than 8 KiB, and either a power of two or the sum of two
    /// consecutive powers of two.
    pub dictionary_size: u32,
    pub executable_filters: XzFilters,
}

#[derive(Debug, Copy, Clone, PartialEq, Eq, Structural)]
pub struct Lz4Flags {
    pub bits: u32,
}

impl Default for Lz4Flags {
    fn default() -> (r: Lz4Flags)
        ensures
            r.bits == 0,
    {
        Lz4Flags { bits: 0 }
    }
}

/// Compression options of the lz4 compressor.
#[derive(Debug, Copy, Clone, PartialEq, Eq, Structural)]
pub struct Lz4 {
    /// The only supported value is 1.
    pub version: i32,
    pub flags: Lz4Flags,
}

impl Default for Lz4 {
    fn default() -> (r: Lz4)
        ensures
            r.version == 1,
            r.flags.bits == 0,
    {
        Lz4 { version: 1, flags: Lz4Flags::default() }
    }
}

/// Compression options of the zstd compressor.
#[derive(Debug, Copy, Clone, PartialEq, Eq, Structural)]
pub struct Zstd {
    /// In the range 1 to 22. Defaults to 15.
    pub compression_level: u32,
}

impl Default for Zstd {
    fn default() -> (r: Zstd)
        ensures
            r.compression_level == 15,
    {
        Zstd { compression_level: 15 }
    }
}

/// Which variant of LZO to use.
#[derive(Debug, Copy, Clone, PartialEq, Eq, Structural)]
pub struct LzoAlgorithm(pub u32);

impl Default for LzoAlgorithm {
    fn default() -> (r: LzoAlgorithm)
        ensures
            r.0 == LZO_X_999,
    {
        LzoAlgorithm(LZO_X_999)
    }
}

/// Compression options of the lzo compressor.
#[derive(Debug, Copy, Clone, PartialEq, Eq, Structural)]
pub struct Lzo {
    pub algorithm: LzoAlgorithm,
    /// Between 0 and 9 for `LZO_X_999` (defaults to 8), and 0 for all other
    /// algorithms.
    pub level: u32,
}

impl Default for Lzo {
    fn default() -> (r: Lzo)
        ensures
            r.algorithm.0 == LZO_X_999,
            r.level == 8,
    {
        Lzo { algorithm: LzoAlgorithm::default(), level: 8 }
    }
}

impl PackedStruct for GzipStrategies {
    open spec fn spec_size() -> nat {
        2
    }

    open spec fn spec_to_packed(&self) -> Seq<u8> {
        self.bits.spec_to_packed()
    }

    open spec fn spec_from_packed(bytes: Seq<u8>) -> Self {
        GzipStrategies { bits: u16::spec_from_packed(bytes) }
    }

    proof fn lemma_round_trip(&self) {
        self.bits.lemma_round_trip();
    }

    fn size() -> (n: usize) {
        2
    }

    fn pack_into(&self, out: &mut Vec<u8>) {
        self.bits.pack_into(out);
    }

    fn from_packed(bytes: &[u8]) -> (r: Self) {
        GzipStrategies { bits: u16::from_packed(bytes) }
    }
}

impl PackedStruct for Gzip {
    open spec fn spec_size() -> nat {
        8
    }

    open spec fn spec_to_packed(&self) -> Seq<u8> {
        self.compression_level.spec_to_packed()
            + self.window_size.spec_to_packed()
            + self.strategies.spec_to_packed()
    }

    open spec fn spec_from_packed(bytes: Seq<u8>) -> Self {
        Gzip {
            compression_level: u32::spec_from_packed(bytes.subrange(0, 4)),
            window_size: u16::spec_from_packed(bytes.subrange(4, 6)),
            strategies: GzipStrategies::spec_from_packed(bytes.subrange(6, 8)),
        }
    }

    proof fn lemma_round_trip(&self) {
        let bytes = self.spec_to_packed();
        self.compression_level.lemma_round_trip();
        self.window_size.lemma_round_trip();
        self.strategies.lemma_round_trip();
        lemma_concat_subranges();
        assert(bytes.subrange(0, 4) == self.compression_level.spec_to_packed());
        assert(bytes.subrange(4, 6) == self.window_size.spec_to_packed());
        assert(bytes.subrange(6, 8) == self.strategies.spec_to_packed());
    }

    fn size() -> (n: usize) {
        8
    }

    fn pack_into(&self, out: &mut Vec<u8>) {
        self.compression_level.pack_into(out);
        self.window_size.pack_into(out);
        self.strategies.pack_into(out);
        assert(out@ =~= old(out)@ + self.spec_to_packed());
    }

    fn from_packed(bytes: &[u8]) -> (r: Self) {
        Gzip {
            compression_level: u32::from_packed(slice_subrange(bytes, 0, 4)),
            window_size: u16::from_packed(slice_subrange(bytes, 4, 6)),
            strategies: GzipStrategies::from_packed(slice_subrange(bytes, 6, 8)),
        }
    }
}

impl PackedStruct for XzFilters {
    open spec fn spec_size() -> nat {
        4
    }

    open spec fn spec_to_packed(&self) -> Seq<u8> {
        self.bits.spec_to_packed()
    }

    open spec fn spec_from_packed(bytes: Seq<u8>) -> Self {
        XzFilters { bits: u32::spec_from_packed(bytes) }
    }

    proof fn lemma_round_trip(&self) {
        self.bits.lemma_round_trip();
    }

    fn size() -> (n: usize) {
        4
    }

    fn pack_into(&self, out: &mut Vec<u8>) {
        self.bits.pack_into(out);
    }

    fn from_packed(bytes: &[u8]) -> (r: Self) {
        XzFilters { bits: u32::from_packed(bytes) }
    }
}

impl PackedStruct for Xz {
    open spec fn spec_size() -> nat {
        8
    }

    open spec fn spec_to_packed(&self) -> Seq<u8> {
        self.dictionary_size.spec_to_packed() + self.executable_filters.spec_to_packed()
    }

    open spec fn spec_from_packed(bytes: Seq<u8>) -> Self {
        Xz {
            dictionary_size: u32::spec_from_packed(bytes.subrange(0, 4)),
            executable_filters: XzFilters::spec_from_packed(bytes.subrange(4, 8)),
        }
    }

    proof fn lemma_round_trip(&self) {
        let bytes = self.spec_to_packed();
        self.dictionary_size.lemma_round_trip();
        self.executable_filters.lemma_round_trip();
        lemma_concat_subranges();
        assert(bytes.subrange(0, 4) == self.dictionary_size.spec_to_packed());
        assert(bytes.subrange(4, 8) == self.executable_filters.spec_to_packed());
    }

    fn size() -> (n: usize) {
        8
    }

    fn pack_into(&self, out: &mut Vec<u8>) {
        self.dictionary_size.pack_into(out);
        self.executable_filters.pack_into(out);
        assert(out@ =~= old(out)@ + self.spec_to_packed());
    }

    fn from_packed(bytes: &[u8]) -> (r: Self) {
        Xz {
            dictionary_size: u32::from_packed(slice_subrange(bytes, 0, 4)),
            executable_filters: XzFilters::from_packed(slice_subrange(bytes, 4, 8)),
        }
    }
}

impl PackedStruct for Lz4Flags {
    open spec fn spec_size() -> nat {
        4
    }

    open spec fn spec_to_packed(&self) -> Seq<u8> {
        self.bits.spec_to_packed()
    }

    open spec fn spec_from_packed(bytes: Seq<u8>) -> Self {
        Lz4Flags { bits: u32::spec_from_packed(bytes) }
    }

    proof fn lemma_round_trip(&self) {
        self.bits.lemma_round_trip();
    }

    fn size() -> (n: usize) {
        4
    }

    fn pack_into(&self, out: &mut Vec<u8>) {
        self.bits.pack_into(out);
    }

    fn from_packed(bytes: &[u8]) -> (r: Self) {
        Lz4Flags { bits: u32::from_packed(bytes) }
    }
}

impl PackedStruct for Lz4 {
    open spec fn spec_size() -> nat {
        8
    }

    open spec fn spec_to_packed(&self) -> Seq<u8> {
        self.version.spec_to_packed() + self.flags.spec_to_packed()
    }

    open spec fn spec_from_packed(bytes: Seq<u8>) -> Self {
        Lz4 {
            version: i32::spec_from_packed(bytes.subrange(0, 4)),
            flags: Lz4Flags::spec_from_packed(bytes.subrange(4, 8)),
        }
    }

    proof fn lemma_round_trip(&self) {
        let bytes = self.spec_to_packed();
        self.version.lemma_round_trip();
        self.flags.lemma_round_trip();
        lemma_concat_subranges();
        assert(bytes.subrange(0, 4) == self.version.spec_to_packed());
        assert(bytes.subrange(4, 8) == self.flags.spec_to_packed());
    }

    fn size() -> (n: usize) {
        8
    }

    fn pack_into(&self, out: &mut Vec<u8>) {
        self.version.pack_into(out);
        self.flags.pack_into(out);
        assert(out@ =~= old(out)@ + self.spec_to_packed());
    }

    fn from_packed(bytes: &[u8]) -> (r: Self) {
        Lz4 {
            version: i32::from_packed(slice_subrange(bytes, 0, 4)),
            flags: Lz4Flags::from_packed(slice_subrange(bytes, 4, 8)),
        }
    }
}

impl PackedStruct for Zstd {
    open spec fn spec_size() -> nat {
        4
    }

    open spec fn spec_to_packed(&self) -> Seq<u8> {
        self.compression_level.spec_to_packed()
    }

    open spec fn spec_from_packed(bytes: Seq<u8>) -> Self {
        Zstd {
            compression_level: u32::spec_from_packed(bytes.subrange(0, 4)),
        }
    }

    proof fn lemma_round_trip(&self) {
        self.compression_level.lemma_round_trip();
        assert(self.spec_to_packed().subrange(0, 4) =~= self.spec_to_packed());
    }

    fn size() -> (n: usize) {
        4
    }

    fn pack_into(&self, out: &mut Vec<u8>) {
        self.compression_level.pack_into(out);
    }

    fn from_packed(bytes: &[u8]) -> (r: Self) {
        Zstd {
            compression_level: u32::from_packed(slice_subrange(bytes, 0, 4)),
        }
    }
}

impl PackedStruct for LzoAlgorithm {
    open spec fn spec_size() -> nat {
        4
    }

    open spec fn spec_to_packed(&self) -> Seq<u8> {
        self.0.spec_to_packed()
    }

    open spec fn spec_from_packed(bytes: Seq<u8>) -> Self {
        LzoAlgorithm(u32::spec_from_packed(bytes))
    }

    proof fn lemma_round_trip(&self) {
        self.0.lemma_round_trip();
    }

    fn size() -> (n: usize) {
        4
    }

    fn pack_into(&self, out: &mut Vec<u8>) {
        self.0.pack_into(out);
    }

    fn from_packed(bytes: &[u8]) -> (r: Self) {
        LzoAlgorithm(u32::from_packed(bytes))
    }
}

impl PackedStruct for Lzo {
    open spec fn spec_size() -> nat {
        8
    }

    open spec fn spec_to_packed(&self) -> Seq<u8> {
        self.algorithm.spec_to_packed() + self.level.spec_to_packed()
    }

    open spec fn spec_from_packed(bytes: Seq<u8>) -> Self {
        Lzo {
            algorithm: LzoAlgorithm::spec_from_packed(bytes.subrange(0, 4)),
            level: u32::spec_from_packed(bytes.subrange(4, 8)),
        }
    }

    proof fn lemma_round_trip(&self) {
        let bytes = self.spec_to_packed();
        self.algorithm.lemma_round_trip();
        self.level.lemma_round_trip();
        lemma_concat_subranges();
        assert(bytes.subrange(0, 4) == self.algorithm.spec_to_packed());
        assert(bytes.subrange(4, 8) == self.level.spec_to_packed());
    }

    fn size() -> (n: usize) {
        8
    }

    fn pack_into(&self, out: &mut Vec<u8>) {
        self.algorithm.pack_into(out);
        self.level.pack_into(out);
        assert(out@ =~= old(out)@ + self.spec_to_packed());
    }

    fn from_packed(bytes: &[u8]) -> (r: Self) {
        Lzo {
            algorithm: LzoAlgorithm::from_packed(slice_subrange(bytes, 0, 4)),
            level: u32::from_packed(slice_subrange(bytes, 4, 8)),
        }
    }
}

} // verus!
