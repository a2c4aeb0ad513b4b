//! The xattr table.
//!
//! Extended attributes are key-value pairs attached to inodes. The topmost
//! namespace of a key (`user.`, `trusted.`, `security.`) is stored as an
//! integer ID. A value is stored either in line, after its key, or out of
//! line, as a 64-bit reference to an earlier copy of the same value.

use crate::repr::metablock;
use crate::packed::PackedStruct;
use vstd::prelude::*;
use crate::packed::lemma_concat_subranges;
use vstd::slice::slice_subrange;

pub use crate::repr::metablock::Ref;

verus! {

pub const USER: u16 = 0;

pub const TRUSTED: u16 = 1;

pub const SECURITY: u16 = 2;

/// The bit of a key kind that marks the value as stored out of line.
pub const OUT_OF_LINE: u16 = 0x0100;

/// The index that stands for "no extended attributes".
pub const NO_XATTRS: u32 = 0xFFFF_FFFF;

/// The prefix of an xattr key, with the flag for an out-of-line value.
#[derive(Debug, Copy, Clone, PartialEq, Eq, Structural)]
pub struct Kind(pub u16);

impl Kind {
    pub open spec fn spec_out_of_line(self) -> bool {
        self.0 & OUT_OF_LINE != 0
    }

    pub open spec fn spec_prefix(self) -> Kind {
        Kind(self.0 & !OUT_OF_LINE)
    }

    /// Whether the value of the key is stored out of line.
    #[verifier::when_used_as_spec(spec_out_of_line)]
    pub fn out_of_line(self) -> (r: bool)
        ensures
            r == self.spec_out_of_line(),
    {
        self.0 & OUT_OF_LINE != 0
    }

    /// The kind without the out-of-line flag.
    #[verifier::when_used_as_spec(spec_prefix)]
    pub fn prefix(self) -> (r: Kind)
        ensures
            r == self.spec_prefix(),
            !r.spec_out_of_line(),
    {
        let raw: u16 = self.0;
        assert((raw & !0x0100u16) & 0x0100 == 0) by (bit_vector);
        Kind(raw & !OUT_OF_LINE)
    }
}

/// An xattr key, followed by `name_size` bytes of name.
#[derive(Debug, Copy, Clone, PartialEq, Eq, Structural)]
pub struct Key {
    /// The ID of the key prefix, with `OUT_OF_LINE` set where the value is
    /// stored out of line.
    pub kind: Kind,
    /// The size of the key name, the omitted prefix included.
    pub name_size: u16,
}

/// An xattr value, followed by `value_size` bytes. Out of line, the size is 8
/// and the bytes are a reference to the value.
#[derive(Debug, Copy, Clone, PartialEq, Eq, Structural)]
pub struct Value {
    pub value_size: u32,
}

/// The header of the xattr lookup table, followed by the locations of the
/// metadata blocks that hold the lookup entries.
#[derive(Debug, Copy, Clone, PartialEq, Eq, Structural)]
pub struct LookupTable {
    /// The absolute position of the first metadata block of key-value pairs.
    pub xattr_table_start: u64,
    /// The number of entries in the lookup table.
    pub xattr_entry_count: u32,
    pub unused: u32,
}

/// An entry of the xattr lookup table: where the key-value pairs of an inode
/// start, how many there are, and their size.
#[derive(Debug, Copy, Clone, PartialEq, Eq, Structural)]
pub struct LookupEntry {
    pub xattr_ref: Ref,
    pub count: u32,
    /// The uncompressed size in bytes of the whole block of key-value pairs.
    pub size: u32,
}

/// The index of an entry in the xattr lookup table.
#[derive(Debug, Copy, Clone, PartialEq, Eq, Structural)]
pub struct Idx(pub u32);

impl Idx {
    pub open spec fn spec_is_some(self) -> bool {
        self.0 != NO_XATTRS
    }

    /// Whether the index points to an entry.
    #[verifier::when_used_as_spec(spec_is_some)]
    pub fn is_some(self) -> (r: bool)
        ensures
            r == self.spec_is_some(),
    {
        self.0 != NO_XATTRS
    }
}

impl Default for Idx {
    /// The index of an inode without extended attributes.
    fn default() -> (r: Idx)
        ensures
            r.0 == NO_XATTRS,
    {
        Idx(NO_XATTRS)
    }
}

impl PackedStruct for Kind {
    open spec fn spec_size() -> nat {
        2
    }

    open spec fn spec_to_packed(&self) -> Seq<u8> {
        self.0.spec_to_packed()
    }

    open spec fn spec_from_packed(bytes: Seq<u8>) -> Self {
        Kind(u16::spec_from_packed(bytes))
    }

    proof fn lemma_round_trip(&self) {
        self.0.lemma_round_trip();
    }

    fn size() -> (n: usize) {
        2
    }

    fn pack_into(&self, out: &mut Vec<u8>) {
        self.0.pack_into(out);
    }

    fn from_packed(bytes: &[u8]) -> (r: Self) {
        Kind(u16::from_packed(bytes))
    }
}

impl PackedStruct for Key {
    open spec fn spec_size() -> nat {
        4
    }

    open spec fn spec_to_packed(&self) -> Seq<u8> {
        self.kind.spec_to_packed() + self.name_size.spec_to_packed()
    }

    open spec fn spec_from_packed(bytes: Seq<u8>) -> Self {
        Key {
            kind: Kind::spec_from_packed(bytes.subrange(0, 2)),
            name_size: u16::spec_from_packed(bytes.subrange(2, 4)),
        }
    }

    proof fn lemma_round_trip(&self) {
        let bytes = self.spec_to_packed();
        self.kind.lemma_round_trip();
        self.name_size.lemma_round_trip();
        lemma_concat_subranges();
        assert(bytes.subrange(0, 2) == self.kind.spec_to_packed());
        assert(bytes.subrange(2, 4) == self.name_size.spec_to_packed());
    }

    fn size() -> (n: usize) {
        4
    }

    fn pack_into(&self, out: &mut Vec<u8>) {
        self.kind.pack_into(out);
        self.name_size.pack_into(out);
        assert(out@ =~= old(out)@ + self.spec_to_packed());
    }

    fn from_packed(bytes: &[u8]) -> (r: Self) {
        Key {
            kind: Kind::from_packed(slice_subrange(bytes, 0, 2)),
            name_size: u16::from_packed(slice_subrange(bytes, 2, 4)),
        }
    }
}

impl PackedStruct for Value {
    open spec fn spec_size() -> nat {
        4
    }

    open spec fn spec_to_packed(&self) -> Seq<u8> {
        self.value_size.spec_to_packed()
    }

    open spec fn spec_from_packed(bytes: Seq<u8>) -> Self {
        Value {
            value_size: u32::spec_from_packed(bytes.subrange(0, 4)),
        }
    }

    proof fn lemma_round_trip(&self) {
        self.value_size.lemma_round_trip();
        assert(self.spec_to_packed().subrange(0, 4) =~= self.spec_to_packed());
    }

    fn size() -> (n: usize) {
        4
    }

    fn pack_into(&self, out: &mut Vec<u8>) {
        self.value_size.pack_into(out);
    }

    fn from_packed(bytes: &[u8]) -> (r: Self) {
        Value {
            value_size: u32::from_packed(slice_subrange(bytes, 0, 4)),
        }
    }
}

impl PackedStruct for LookupTable {
    open spec fn spec_size() -> nat {
        16
    }

    open spec fn spec_to_packed(&self) -> Seq<u8> {
        self.xattr_table_start.spec_to_packed()
            + self.xattr_entry_count.spec_to_packed()
            + self.unused.spec_to_packed()
    }

    open spec fn spec_from_packed(bytes: Seq<u8>) -> Self {
        LookupTable {
            xattr_table_start: u64::spec_from_packed(bytes.subrange(0, 8)),
            xattr_entry_count: u32::spec_from_packed(bytes.subrange(8, 12)),
            unused: u32::spec_from_packed(bytes.subrange(12, 16)),
        }
    }

    proof fn lemma_round_trip(&self) {
        let bytes = self.spec_to_packed();
        self.xattr_table_start.lemma_round_trip();
        self.xattr_entry_count.lemma_round_trip();
        self.unused.lemma_round_trip();
        lemma_concat_subranges();
        assert(bytes.subrange(0, 8) == self.xattr_table_start.spec_to_packed());
        assert(bytes.subrange(8, 12) == self.xattr_entry_count.spec_to_packed());
        assert(bytes.subrange(12, 16) == self.unused.spec_to_packed());
    }

    fn size() -> (n: usize) {
        16
    }

    fn pack_into(&self, out: &mut Vec<u8>) {
        self.xattr_table_start.pack_into(out);
        self.xattr_entry_count.pack_into(out);
        self.unused.pack_into(out);
        assert(out@ =~= old(out)@ + self.spec_to_packed());
    }

    fn from_packed(bytes: &[u8]) -> (r: Self) {
        LookupTable {
            xattr_table_start: u64::from_packed(slice_subrange(bytes, 0, 8)),
            xattr_entry_count: u32::from_packed(slice_subrange(bytes, 8, 12)),
            unused: u32::from_packed(slice_subrange(bytes, 12, 16)),
        }
    }
}

impl PackedStruct for LookupEntry {
    open spec fn spec_size() -> nat {
        16
    }

    open spec fn spec_to_packed(&self) -> Seq<u8> {
        self.xattr_ref.spec_to_packed()
            + self.count.spec_to_packed()
            + self.size.spec_to_packed()
    }

    open spec fn spec_from_packed(bytes: Seq<u8>) -> Self {
        LookupEntry {
            xattr_ref: metablock::Ref::spec_from_packed(bytes.subrange(0, 8)),
            count: u32::spec_from_packed(bytes.subrange(8, 12)),
            size: u32::spec_from_packed(bytes.subrange(12, 16)),
        }
    }

    proof fn lemma_round_trip(&self) {
        let bytes = self.spec_to_packed();
        self.xattr_ref.lemma_round_trip();
        self.count.lemma_round_trip();
        self.size.lemma_round_trip();
        lemma_concat_subranges();
        assert(bytes.subrange(0, 8) == self.xattr_ref.spec_to_packed());
        assert(bytes.subrange(8, 12) == self.count.spec_to_packed());
        assert(bytes.subrange(12, 16) == self.size.spec_to_packed());
    }

    fn size() -> (n: usize) {
        16
    }

    fn pack_into(&self, out: &mut Vec<u8>) {
        self.xattr_ref.pack_into(out);
        self.count.pack_into(out);
        self.size.pack_into(out);
        assert(out@ =~= old(out)@ + self.spec_to_packed());
    }

    fn from_packed(bytes: &[u8]) -> (r: Self) {
        LookupEntry {
            xattr_ref: metablock::Ref::from_packed(slice_subrange(bytes, 0, 8)),
            count: u32::from_packed(slice_subrange(bytes, 8, 12)),
            size: u32::from_packed(slice_subrange(bytes, 12, 16)),
        }
    }
}

impl PackedStruct for Idx {
    open spec fn spec_size() -> nat {
        4
    }

    open spec fn spec_to_packed(&self) -> Seq<u8> {
        self.0.spec_to_packed()
    }

    open spec fn spec_from_packed(bytes: Seq<u8>) -> Self {
        Idx(u32::spec_from_packed(bytes))
    }

    proof fn lemma_round_trip(&self) {
        self.0.lemma_round_trip();
    }

    fn size() -> (n: usize) {
        4
    }

    fn pack_into(&self, out: &mut Vec<u8>) {
        self.0.pack_into(out);
    }

    fn from_packed(bytes: &[u8]) -> (r: Self) {
        Idx(u32::from_packed(bytes))
    }
}

} // verus!
