//! The writer of the data blocks and fragment blocks.
//!
//! The content of a file is cut into blocks of the block size. A full block
//! of zero bytes is not stored at all: its size is recorded as 0. Every
//! other block is compressed, or stored as it is where that is not longer.
//! What remains behind the last full block is the tail: it becomes a short
//! block of its own, or it is packed with the tails of other files into a
//! fragment block, as the fragment mode says.

use crate::bytes::append_bytes;
use crate::bytes::lemma_concat_assoc;
use crate::compression::compress_or_copy;
use crate::compression::AnyCodec;
use crate::config::FragmentMode;
use crate::repr::datablock;
use crate::repr::datablock::Size;
use crate::repr::fragment;
use crate::write::fragments;
use vstd::prelude::*;
use vstd::slice::slice_subrange;

verus! {

/// Which tails are packed into fragment blocks.
#[derive(Debug, Copy, Clone, PartialEq, Eq, Structural)]
pub enum FragmentConfig {
    /// No tail is packed into a fragment block.
    NoFragments,
    /// The tail of a file that is shorter than one block is.
    FragmentEnds,
    /// Every tail is.
    FragmentAlways,
}

impl FragmentConfig {
    pub open spec fn spec_from_mode(mode: FragmentMode) -> FragmentConfig {
        match mode {
            FragmentMode::Never => FragmentConfig::NoFragments,
            FragmentMode::SmallFiles => FragmentConfig::FragmentEnds,
            FragmentMode::Always => FragmentConfig::FragmentAlways,
        }
    }

    #[verifier::when_used_as_spec(spec_from_mode)]
    pub fn from_mode(mode: FragmentMode) -> (r: FragmentConfig)
        ensures
            r == FragmentConfig::spec_from_mode(mode),
    {
        match mode {
            FragmentMode::Never => FragmentConfig::NoFragments,
            FragmentMode::SmallFiles => FragmentConfig::FragmentEnds,
            FragmentMode::Always => FragmentConfig::FragmentAlways,
        }
    }

    /// Whether the tail of a file of `file_size` bytes goes into a fragment
    /// block, for blocks of `block_size` bytes: there is a tail, and the mode
    /// asks for fragments of such a file.
    pub open spec fn spec_tail_in_fragment(self, file_size: nat, block_size: nat) -> bool {
        &&& file_size % block_size > 0
        &&& match self {
            FragmentConfig::NoFragments => false,
            FragmentConfig::FragmentEnds => file_size < block_size,
            FragmentConfig::FragmentAlways => true,
        }
    }
}

/// Whether every byte is zero.
pub open spec fn spec_all_zero(bytes: Seq<u8>) -> bool {
    forall|i: int| 0 <= i < bytes.len() ==> bytes[i] == 0
}

/// Whether every byte of `bytes` is zero.
pub fn all_zero(bytes: &[u8]) -> (r: bool)
    ensures
        r == spec_all_zero(bytes@),
{
    let mut i: usize = 0;
    while i < bytes.len()
        invariant
            i <= bytes@.len(),
            forall|j: int| 0 <= j < i ==> bytes@[j] == 0,
        decreases bytes@.len() - i,
    {
        if bytes[i] != 0 {
            return false;
        }
        i += 1;
    }
    true
}

/// One block of a file: the bytes of the file that it covers, the bytes that
/// are stored for it, and whether those are compressed. A sparse block
/// stores nothing.
pub struct StoredBlock {
    pub body: Seq<u8>,
    pub stored: Seq<u8>,
    pub compressed: bool,
}

impl StoredBlock {
    pub open spec fn sparse(self) -> bool {
        self.stored.len() == 0
    }

    /// The block covers at least one byte and at most a block size. It is
    /// sparse exactly where it is a full block of zero bytes. Where it is
    /// compressed, it is stored in fewer bytes than it covers, and where it
    /// is neither, it is stored as it is.
    pub open spec fn wf(self, block_size: nat) -> bool {
        &&& 0 < self.body.len() <= block_size
        &&& self.sparse() <==> self.body.len() == block_size && spec_all_zero(self.body)
        &&& self.sparse() ==> !self.compressed
        &&& self.compressed ==> self.stored.len() < self.body.len()
        &&& !self.compressed && !self.sparse() ==> self.stored == self.body
    }

    /// The size of the block as the inode records it.
    pub open spec fn size_word(self) -> Size {
        if self.sparse() {
            Size(0)
        } else {
            Size::spec_new(self.stored.len() as u32, !self.compressed)
        }
    }
}

/// The bytes that the blocks cover, one after the other.
pub open spec fn spec_block_bodies(blocks: Seq<StoredBlock>) -> Seq<u8>
    decreases blocks.len(),
{
    if blocks.len() == 0 {
        Seq::empty()
    } else {
        spec_block_bodies(blocks.drop_last()) + blocks.last().body
    }
}

/// The bytes that are stored for the blocks, one after the other.
pub open spec fn spec_block_stored(blocks: Seq<StoredBlock>) -> Seq<u8>
    decreases blocks.len(),
{
    if blocks.len() == 0 {
        Seq::empty()
    } else {
        spec_block_stored(blocks.drop_last()) + blocks.last().stored
    }
}

/// The number of bytes that sparse blocks cover.
pub open spec fn spec_sparse_bytes(blocks: Seq<StoredBlock>) -> nat
    decreases blocks.len(),
{
    if blocks.len() == 0 {
        0
    } else {
        spec_sparse_bytes(blocks.drop_last()) + if blocks.last().sparse() {
            blocks.last().body.len()
        } else {
            0
        }
    }
}

/// The sizes of the blocks as the inode records them.
pub open spec fn spec_size_words(blocks: Seq<StoredBlock>) -> Seq<Size> {
    blocks.map_values(|b: StoredBlock| b.size_word())
}

/// Every block is well formed, and every block but the last is full.
pub open spec fn spec_blocks_ok(blocks: Seq<StoredBlock>, block_size: nat) -> bool {
    forall|i: int|
        0 <= i < blocks.len() ==> (#[trigger] blocks[i]).wf(block_size) && (i + 1 < blocks.len()
            ==> blocks[i].body.len() == block_size)
}

/// One more block adds what it covers and what it stores.
pub proof fn lemma_push_stored_block(blocks: Seq<StoredBlock>, block: StoredBlock)
    ensures
        spec_block_bodies(blocks.push(block)) == spec_block_bodies(blocks) + block.body,
        spec_block_stored(blocks.push(block)) == spec_block_stored(blocks) + block.stored,
        spec_sparse_bytes(blocks.push(block)) == spec_sparse_bytes(blocks) + if block.sparse() {
            block.body.len()
        } else {
            0
        },
        spec_size_words(blocks.push(block)) == spec_size_words(blocks).push(block.size_word()),
{
    assert(blocks.push(block).drop_last() =~= blocks);
    assert(spec_size_words(blocks.push(block)) =~= spec_size_words(blocks).push(block.size_word()));
}

/// Blocks that are all full cover their number times the block size, and
/// sparse blocks cover no more than all blocks do.
pub proof fn lemma_full_blocks_len(blocks: Seq<StoredBlock>, block_size: nat)
    requires
        forall|i: int| 0 <= i < blocks.len() ==> (#[trigger] blocks[i]).body.len() == block_size,
    ensures
        spec_block_bodies(blocks).len() == blocks.len() * block_size,
        spec_sparse_bytes(blocks) <= spec_block_bodies(blocks).len(),
    decreases blocks.len(),
{
    if blocks.len() > 0 {
        lemma_full_blocks_len(blocks.drop_last(), block_size);
        assert((blocks.len() - 1) * block_size + block_size == blocks.len() * block_size)
            by (nonlinear_arith);
    } else {
        assert(0 * block_size == 0) by (nonlinear_arith);
    }
}

/// A file whose size is a multiple of the block size has no tail for a
/// fragment, whatever the mode.
pub proof fn lemma_aligned_file_has_no_tail(config: FragmentConfig, block_size: nat, n: nat)
    requires
        block_size > 0,
    ensures
        !config.spec_tail_in_fragment(n * block_size, block_size),
{
    vstd::arithmetic::div_mod::lemma_mod_multiples_basic(n as int, block_size as int);
}

/// The blocks of a file whose size is a multiple of the block size are as
/// many as the multiple says, and all are full.
pub proof fn lemma_aligned_blocks(blocks: Seq<StoredBlock>, block_size: nat, n: nat)
    requires
        block_size > 0,
        spec_blocks_ok(blocks, block_size),
        spec_block_bodies(blocks).len() == n * block_size,
    ensures
        blocks.len() == n,
        forall|i: int| 0 <= i < blocks.len() ==> (#[trigger] blocks[i]).body.len() == block_size,
{
    if blocks.len() == 0 {
        assert(n == 0) by (nonlinear_arith)
            requires
                n * block_size == 0,
                block_size > 0,
        ;
    } else {
        let front = blocks.drop_last();
        let last = blocks.last();
        assert(last.wf(block_size));
        assert forall|i: int| 0 <= i < front.len() implies (#[trigger] front[i]).body.len()
            == block_size by {
            assert(blocks[i].wf(block_size));
        }
        lemma_full_blocks_len(front, block_size);
        let k = front.len();
        assert(k * block_size + last.body.len() == n * block_size);
        assert(n == k + 1 && last.body.len() == block_size) by (nonlinear_arith)
            requires
                k * block_size + last.body.len() == n * block_size,
                0 < last.body.len() <= block_size,
        ;
    }
}

/// Blocks that are cut from the same content cover the same bytes block by
/// block, and are sparse in the same places. So it makes no difference to
/// the blocks of a file whether its zero bytes came as data or as a hole.
pub proof fn lemma_blocks_by_content(a: Seq<StoredBlock>, b: Seq<StoredBlock>, block_size: nat)
    requires
        block_size > 0,
        spec_blocks_ok(a, block_size),
        spec_blocks_ok(b, block_size),
        spec_block_bodies(a) == spec_block_bodies(b),
    ensures
        a.len() == b.len(),
        forall|i: int|
            0 <= i < a.len() ==> (#[trigger] a[i]).body == b[i].body && a[i].sparse()
                == b[i].sparse() && (a[i].sparse() ==> a[i].size_word() == b[i].size_word()),
    decreases a.len(),
{
    if a.len() == 0 {
        if b.len() > 0 {
            assert(b.last().wf(block_size));
            assert(spec_block_bodies(b) == spec_block_bodies(b.drop_last()) + b.last().body);
            assert(spec_block_bodies(a).len() == 0);
        }
    } else if b.len() == 0 {
        assert(a.last().wf(block_size));
        assert(spec_block_bodies(a) == spec_block_bodies(a.drop_last()) + a.last().body);
        assert(spec_block_bodies(b).len() == 0);
    } else {
        let front_a = a.drop_last();
        let front_b = b.drop_last();
        assert(a.last().wf(block_size));
        assert(b.last().wf(block_size));
        assert forall|i: int| 0 <= i < front_a.len() implies (#[trigger] front_a[i]).body.len()
            == block_size by {
            assert(a[i].wf(block_size));
        }
        assert forall|i: int| 0 <= i < front_b.len() implies (#[trigger] front_b[i]).body.len()
            == block_size by {
            assert(b[i].wf(block_size));
        }
        lemma_full_blocks_len(front_a, block_size);
        lemma_full_blocks_len(front_b, block_size);
        let whole = spec_block_bodies(a);
        assert(whole == spec_block_bodies(front_a) + a.last().body);
        assert(whole == spec_block_bodies(front_b) + b.last().body);
        let ka = front_a.len();
        let kb = front_b.len();
        let ra = a.last().body.len();
        let rb = b.last().body.len();
        assert(spec_block_bodies(front_a).len() == ka * block_size);
        assert(spec_block_bodies(front_b).len() == kb * block_size);
        assert(whole.len() == spec_block_bodies(front_a).len() + ra);
        assert(whole.len() == spec_block_bodies(front_b).len() + rb);
        assert(ka * block_size + ra == kb * block_size + rb);
        assert(ka == kb && ra == rb) by (nonlinear_arith)
            requires
                ka * block_size + ra == kb * block_size + rb,
                0 < ra <= block_size,
                0 < rb <= block_size,
        ;
        let cut = spec_block_bodies(front_a).len() as int;
        assert(spec_block_bodies(front_a) =~= whole.subrange(0, cut));
        assert(spec_block_bodies(front_b) =~= whole.subrange(0, cut));
        assert(a.last().body =~= whole.subrange(cut, whole.len() as int));
        assert(b.last().body =~= whole.subrange(cut, whole.len() as int));
        assert(spec_blocks_ok(front_a, block_size)) by {
            assert forall|i: int| 0 <= i < front_a.len() implies (#[trigger] front_a[i]).wf(
                block_size,
            ) && (i + 1 < front_a.len() ==> front_a[i].body.len() == block_size) by {
                assert(a[i].wf(block_size));
            }
        }
        assert(spec_blocks_ok(front_b, block_size)) by {
            assert forall|i: int| 0 <= i < front_b.len() implies (#[trigger] front_b[i]).wf(
                block_size,
            ) && (i + 1 < front_b.len() ==> front_b[i].body.len() == block_size) by {
                assert(b[i].wf(block_size));
            }
        }
        lemma_blocks_by_content(front_a, front_b, block_size);
        assert forall|i: int| 0 <= i < a.len() implies (#[trigger] a[i]).body == b[i].body
            && a[i].sparse() == b[i].sparse() && (a[i].sparse() ==> a[i].size_word()
            == b[i].size_word()) by {
            assert(a[i].wf(block_size));
            assert(b[i].wf(block_size));
            if i < ka {
                assert(front_a[i].body == front_b[i].body);
            }
        }
    }
}

/// A block whose size is recorded as 0 covers a full block of zero bytes.
pub proof fn lemma_sparse_block_is_zero(block: StoredBlock, block_size: nat)
    requires
        block_size <= 0x10_0000,
        block.wf(block_size),
        block.size_word().0 == 0,
    ensures
        block.body.len() == block_size,
        spec_all_zero(block.body),
        block.stored.len() == 0,
{
    if !block.sparse() {
        crate::repr::datablock::lemma_size_new_parts(block.stored.len() as u32, !block.compressed);
        assert(Size(0).spec_size() == 0) by (bit_vector);
    }
}

/// Where the tail of a file lies in a fragment block.
#[derive(Debug, Copy, Clone, PartialEq, Eq)]
pub struct FragmentRef {
    /// The index of the fragment block in the fragment table.
    pub block_idx: fragment::Idx,
    /// The offset of the tail in the uncompressed fragment block.
    pub offset: u32,
}

/// What the content of a file came to.
pub struct FileBlocks {
    /// Where the first block of the file starts in the archive.
    pub blocks_start: datablock::Ref,
    /// The number of bytes of the file.
    pub file_size: u64,
    /// The number of bytes that sparse blocks cover.
    pub sparse_bytes: u64,
    /// The sizes of the blocks.
    pub sizes: Vec<Size>,
    /// Where the tail lies, where it went into a fragment block.
    pub fragment: Option<FragmentRef>,
    /// The blocks of the file, for proofs.
    pub blocks: Ghost<Seq<StoredBlock>>,
}

impl FileBlocks {
    /// The blocks of the file.
    pub open spec fn blocks(&self) -> Seq<StoredBlock> {
        self.blocks@
    }
}

/// The data section of an archive that is being written: the data blocks
/// and fragment blocks so far, and the fragment block that is being filled.
pub struct Datablocks {
    writer: Vec<u8>,
    start_offset: u64,
    block_size: u32,
    fragment_config: FragmentConfig,
    compressor: Option<AnyCodec>,
    fragment_compressor: Option<AnyCodec>,
    scratch: Vec<u8>,
    fragment_buffer: Vec<u8>,
    fragments: fragments::Table,
    bodies: Ghost<Seq<Seq<u8>>>,
}

/// Whether the bytes, which start at `start` in the archive, hold the
/// fragment block of the entry, whose tails are `body`: the block lies
/// where the entry says, it is not larger than its tails, and it is the
/// tails themselves where it is not compressed.
pub open spec fn spec_fragment_held(
    entry: fragment::Entry,
    body: Seq<u8>,
    bytes: Seq<u8>,
    start: int,
) -> bool {
    let at = entry.start - start;
    let size = entry.size.spec_size() as int;
    &&& 0 <= at
    &&& at + size <= bytes.len()
    &&& size <= body.len()
    &&& entry.size.spec_uncompressed() ==> bytes.subrange(at, at + size) == body
}

/// A fragment block that some bytes hold is held by any bytes that start
/// with them.
pub proof fn lemma_fragment_kept(
    entry: fragment::Entry,
    body: Seq<u8>,
    bytes: Seq<u8>,
    more: Seq<u8>,
    start: int,
)
    requires
        spec_fragment_held(entry, body, bytes, start),
        bytes.len() <= more.len(),
        bytes == more.subrange(0, bytes.len() as int),
    ensures
        spec_fragment_held(entry, body, more, start),
{
    let at = entry.start - start;
    let size = entry.size.spec_size() as int;
    assert(more.subrange(at, at + size) =~= bytes.subrange(at, at + size)) by {
        assert forall|i: int| at <= i < at + size implies more[i] == bytes[i] by {
            assert(bytes[i] == more.subrange(0, bytes.len() as int)[i]);
        }
    }
}

/// Whether the tail lies in the fragment blocks at the place.
pub open spec fn spec_tail_in(bodies: Seq<Seq<u8>>, place: FragmentRef, tail: Seq<u8>) -> bool {
    let idx = place.block_idx.0 as int;
    let off = place.offset as int;
    &&& idx < bodies.len()
    &&& off + tail.len() <= bodies[idx].len()
    &&& bodies[idx].subrange(off, off + tail.len()) == tail
}

impl Datablocks {
    /// The bytes of the section so far.
    pub closed spec fn output(&self) -> Seq<u8> {
        self.writer@
    }

    /// Where the section starts in the archive.
    pub closed spec fn spec_start_offset(&self) -> u64 {
        self.start_offset
    }

    pub closed spec fn spec_block_size(&self) -> u32 {
        self.block_size
    }

    pub closed spec fn spec_fragment_config(&self) -> FragmentConfig {
        self.fragment_config
    }

    /// Whether a codec is bound for the data blocks.
    pub closed spec fn has_compressor(&self) -> bool {
        self.compressor is Some
    }

    /// Whether a codec is bound for the fragment blocks.
    pub closed spec fn fragments_compressed(&self) -> bool {
        self.fragment_compressor is Some
    }

    /// The tails in the fragment block that is being filled.
    pub closed spec fn fragment_buffer(&self) -> Seq<u8> {
        self.fragment_buffer@
    }

    /// The entries of the fragment blocks that are written.
    pub closed spec fn fragment_entries(&self) -> Seq<fragment::Entry> {
        self.fragments.entries()
    }

    /// The fragment table.
    pub closed spec fn spec_fragments(&self) -> fragments::Table {
        self.fragments
    }

    /// The tails that each fragment block holds that is written.
    pub closed spec fn fragment_bodies(&self) -> Seq<Seq<u8>> {
        self.bodies@
    }

    /// The tails of all the fragment blocks, with the block that is being
    /// filled as the last one where it holds anything.
    pub open spec fn spec_finished_bodies(&self) -> Seq<Seq<u8>> {
        if self.fragment_buffer().len() > 0 {
            self.fragment_bodies().push(self.fragment_buffer())
        } else {
            self.fragment_bodies()
        }
    }

    /// Whether the tail lies at the place: in a fragment block that is
    /// written, or in the block that is being filled.
    pub open spec fn spec_tail_at(&self, place: FragmentRef, tail: Seq<u8>) -> bool {
        tail.len() > 0 && spec_tail_in(self.spec_finished_bodies(), place, tail)
    }

    /// Whether the fragment blocks are those of `before` and what came
    /// behind them: the block that `before` was filling is still being
    /// filled and starts as it did, or it is written.
    pub open spec fn spec_fragments_grown(&self, before: &Datablocks) -> bool {
        ||| {
            &&& self.fragment_bodies() == before.fragment_bodies()
            &&& before.fragment_buffer().len() <= self.fragment_buffer().len()
            &&& before.fragment_buffer() == self.fragment_buffer().subrange(
                0,
                before.fragment_buffer().len() as int,
            )
        }
        ||| {
            &&& before.fragment_buffer().len() > 0
            &&& self.fragment_bodies() == before.fragment_bodies().push(before.fragment_buffer())
        }
    }

    /// A tail stays at its place when the fragment blocks grow.
    pub proof fn lemma_tail_kept(&self, before: &Datablocks, place: FragmentRef, tail: Seq<u8>)
        requires
            self.spec_fragments_grown(before),
            before.spec_tail_at(place, tail),
        ensures
            self.spec_tail_at(place, tail),
    {
        let idx = place.block_idx.0 as int;
        let off = place.offset as int;
        if self.fragment_bodies() == before.fragment_bodies() && before.fragment_buffer().len()
            <= self.fragment_buffer().len() && before.fragment_buffer()
            == self.fragment_buffer().subrange(0, before.fragment_buffer().len() as int) {
            if idx >= before.fragment_bodies().len() {
                let there = before.fragment_buffer();
                let here = self.fragment_buffer();
                assert(here.subrange(off, off + tail.len()) =~= there.subrange(
                    off,
                    off + tail.len(),
                )) by {
                    assert forall|i: int| off <= i < off + tail.len() implies here[i]
                        == there[i] by {
                        assert(there[i] == here.subrange(0, there.len() as int)[i]);
                    }
                }
            }
        }
    }

    /// The block size is one of the format, the fragment block that is being
    /// filled is not over it, and the section ends below the largest offset.
    pub open spec fn wf(&self) -> bool {
        &&& 0x1000 <= self.spec_block_size() <= 0x10_0000
        &&& self.fragment_buffer().len() <= self.spec_block_size()
        &&& self.spec_start_offset() + self.output().len() <= u64::MAX
        &&& self.spec_fragments().wf()
        &&& self.fragment_bodies().len() == self.fragment_entries().len()
        &&& forall|i: int|
            0 <= i < self.fragment_bodies().len() ==> spec_fragment_held(
                self.fragment_entries()[i],
                #[trigger] self.fragment_bodies()[i],
                self.output(),
                self.spec_start_offset() as int,
            )
    }

    /// Whether the section can grow by `len` bytes and the fragment table by
    /// one entry.
    pub open spec fn spec_has_room(&self, len: nat) -> bool {
        &&& self.spec_start_offset() + self.output().len() + len <= u64::MAX
        &&& self.spec_fragments().spec_has_room()
        &&& self.fragment_entries().len() < u32::MAX
    }

    /// Where the next block of the section will start in the archive.
    pub open spec fn spec_position(&self) -> int {
        self.spec_start_offset() + self.output().len()
    }

    /// Whether the section came from `before` by writing the fragment block
    /// that `before` was filling, behind the bytes `base`: the fragment
    /// table has one more entry, which says where the block starts and how
    /// many bytes are stored for it, and a block that is not compressed is
    /// stored as the tails that it holds.
    pub open spec fn spec_fragment_block_written(&self, before: &Datablocks, base: Seq<u8>) -> bool {
        &&& self.fragment_entries().len() == before.fragment_entries().len() + 1
        &&& self.fragment_entries().drop_last() == before.fragment_entries()
        &&& self.fragment_entries().last().start == before.spec_start_offset() + base.len()
        &&& self.fragment_entries().last().size.spec_size() == self.output().len() - base.len()
        &&& self.output().len() - base.len() <= before.fragment_buffer().len()
        &&& base == self.output().subrange(0, base.len() as int)
        &&& self.fragment_entries().last().size.spec_uncompressed() ==> self.output() == base
            + before.fragment_buffer()
    }

    /// A data section that starts at `start_offset` in the archive, with
    /// the codecs of the data blocks, of the fragment blocks and of the
    /// fragment table.
    pub fn new(
        start_offset: u64,
        block_size: u32,
        fragment_config: FragmentConfig,
        compressor: Option<AnyCodec>,
        fragment_compressor: Option<AnyCodec>,
        table_compressor: Option<AnyCodec>,
    ) -> (r: Datablocks)
        requires
            0x1000 <= block_size <= 0x10_0000,
        ensures
            r.fragments_compressed() == fragment_compressor is Some,
            r.spec_fragments().has_compressor() == table_compressor is Some,
            r.spec_has_room(0),
            start_offset <= 0x1_0000 ==> r.spec_has_room(0x20_0000),
            r.wf(),
            r.output() == Seq::<u8>::empty(),
            r.spec_start_offset() == start_offset,
            r.spec_block_size() == block_size,
            r.spec_fragment_config() == fragment_config,
            r.has_compressor() == compressor is Some,
            r.fragment_buffer() == Seq::<u8>::empty(),
            r.fragment_entries() == Seq::<fragment::Entry>::empty(),
            r.fragment_bodies() == Seq::<Seq<u8>>::empty(),
    {
        Datablocks {
            writer: Vec::new(),
            start_offset,
            block_size,
            fragment_config,
            compressor,
            fragment_compressor,
            scratch: Vec::new(),
            fragment_buffer: Vec::new(),
            fragments: fragments::Table::new(table_compressor),
            bodies: Ghost(Seq::empty()),
        }
    }

    /// The entries of the fragment blocks are those of the fragment table.
    pub proof fn lemma_fragments(&self)
        ensures
            self.fragment_entries() == self.spec_fragments().entries(),
    {
    }

    /// A section that has room for more bytes has room for fewer, and the
    /// fragment block that is being filled is not over the block size.
    pub proof fn lemma_room(&self, more: nat, less: nat)
        requires
            self.wf(),
            self.spec_has_room(more),
            less <= more,
        ensures
            self.spec_has_room(less),
            self.fragment_buffer().len() <= self.spec_block_size(),
    {
    }

    /// The setup of a section is its own, and setups that are the same as a
    /// third are the same.
    pub proof fn lemma_same_setup(&self, other: &Datablocks, third: &Datablocks)
        ensures
            self.same_setup(self),
            self.same_setup(other) && other.same_setup(third) ==> self.same_setup(third),
            self.same_setup(other) ==> self.spec_block_size() == other.spec_block_size()
                && self.spec_start_offset() == other.spec_start_offset()
                && self.spec_fragment_config() == other.spec_fragment_config(),
    {
    }

    /// Where the next block of the section will start in the archive.
    pub fn position(&self) -> (r: datablock::Ref)
        requires
            self.wf(),
        ensures
            r.0 == self.spec_position(),
    {
        datablock::Ref(self.start_offset + self.writer.len() as u64)
    }

    pub fn block_size(&self) -> (r: u32)
        ensures
            r == self.spec_block_size(),
    {
        self.block_size
    }

    /// Whether the section can grow by `len` bytes and the fragment table by
    /// one entry.
    pub fn has_room(&self, len: u64) -> (r: bool)
        requires
            self.wf(),
        ensures
            r == self.spec_has_room(len as nat),
    {
        let end: u128 = self.start_offset as u128 + self.writer.len() as u128 + len as u128;
        end <= u64::MAX as u128 && self.fragments.has_room() && self.fragments.count()
            < u32::MAX as usize
    }

    /// Stores one block of a file: nothing for a full block of zero bytes,
    /// the compressed form where that is shorter, the block itself
    /// elsewhere. The result is the size of the block as the inode records
    /// it.
    fn store_block(&mut self, block: &[u8]) -> (r: (Size, Ghost<StoredBlock>))
        requires
            old(self).wf(),
            0 < block@.len() <= old(self).spec_block_size(),
            old(self).spec_position() + block@.len() <= u64::MAX,
        ensures
            final(self).wf(),
            final(self).same_setup(old(self)),
            final(self).fragment_buffer() == old(self).fragment_buffer(),
            final(self).spec_fragments() == old(self).spec_fragments(),
            final(self).fragment_bodies() == old(self).fragment_bodies(),
            r.1@.body == block@,
            r.1@.wf(old(self).spec_block_size() as nat),
            r.0 == r.1@.size_word(),
            final(self).output() == old(self).output() + r.1@.stored,
            final(self).spec_position() <= old(self).spec_position() + block@.len(),
    {
        if block.len() == self.block_size as usize && all_zero(block) {
            let ghost stored = StoredBlock { body: block@, stored: Seq::empty(), compressed: false };
            assert(self.writer@ =~= self.writer@ + stored.stored);
            return (Size::zero(), Ghost(stored));
        }
        let (len, compressed) = match &mut self.compressor {
            Some(compressor) => {
                let (len, compressed) = compress_or_copy(compressor, block, &mut self.scratch);
                if compressed && len > 0 {
                    append_bytes(&mut self.writer, slice_subrange(self.scratch.as_slice(), 0, len));
                    (len, true)
                } else {
                    append_bytes(&mut self.writer, block);
                    (block.len(), false)
                }
            },
            None => {
                append_bytes(&mut self.writer, block);
                (block.len(), false)
            },
        };
        let ghost stored = StoredBlock {
            body: block@,
            stored: self.writer@.subrange(old(self).output().len() as int, self.writer@.len() as int),
            compressed,
        };
        proof {
            assert(self.writer@ =~= old(self).output() + stored.stored);
            if !compressed {
                assert(stored.stored =~= block@);
            }
            assert(old(self).output() =~= self.writer@.subrange(0, old(self).output().len() as int));
            assert forall|i: int| 0 <= i < self.fragment_bodies().len() implies spec_fragment_held(
                self.fragment_entries()[i],
                #[trigger] self.fragment_bodies()[i],
                self.output(),
                self.spec_start_offset() as int,
            ) by {
                lemma_fragment_kept(
                    old(self).fragment_entries()[i],
                    old(self).fragment_bodies()[i],
                    old(self).output(),
                    self.output(),
                    self.spec_start_offset() as int,
                );
            }
        }
        (Size::new(len as u32, !compressed), Ghost(stored))
    }

    /// The setup of the section is that of `other`: where it starts, the
    /// block size, the fragment mode, and whether a codec is bound.
    pub open spec fn same_setup(&self, other: &Datablocks) -> bool {
        &&& self.spec_start_offset() == other.spec_start_offset()
        &&& self.spec_block_size() == other.spec_block_size()
        &&& self.spec_fragment_config() == other.spec_fragment_config()
        &&& self.has_compressor() == other.has_compressor()
        &&& self.fragments_compressed() == other.fragments_compressed()
        &&& self.spec_fragments().has_compressor() == other.spec_fragments().has_compressor()
    }

    /// Writes the fragment block that is being filled, where it holds
    /// anything, and adds its entry to the fragment table.
    pub fn flush_fragments(&mut self)
        requires
            old(self).wf(),
            old(self).spec_has_room(old(self).fragment_buffer().len()),
        ensures
            final(self).wf(),
            final(self).same_setup(old(self)),
            final(self).fragment_buffer() == Seq::<u8>::empty(),
            old(self).fragment_buffer().len() == 0 ==> {
                &&& final(self).output() == old(self).output()
                &&& final(self).fragment_entries() == old(self).fragment_entries()
                &&& final(self).fragment_bodies() == old(self).fragment_bodies()
            },
            old(self).fragment_buffer().len() > 0 ==> final(self).fragment_bodies() == old(
                self,
            ).fragment_bodies().push(old(self).fragment_buffer()),
            final(self).spec_finished_bodies() == old(self).spec_finished_bodies(),
            old(self).fragment_buffer().len() > 0 ==> {
                &&& final(self).fragment_entries().len() == old(self).fragment_entries().len() + 1
                &&& final(self).fragment_entries().drop_last() == old(self).fragment_entries()
                &&& final(self).fragment_entries().last().start == old(self).spec_position()
                &&& final(self).fragment_entries().last().size.spec_size() == final(self).output().len() - old(self).output().len()
                &&& final(self).output().len() - old(self).output().len() <= old(self).fragment_buffer().len()
                &&& final(self).fragment_entries().last().size.spec_uncompressed() ==> final(self).output() == old(self).output() + old(self).fragment_buffer()
                &&& old(self).output() == final(self).output().subrange(
                    0,
                    old(self).output().len() as int,
                )
            },
    {
        if self.fragment_buffer.len() == 0 {
            return ;
        }
        let location = self.position();
        let (len, compressed) = match &mut self.fragment_compressor {
            Some(compressor) => {
                let (len, compressed) = compress_or_copy(
                    compressor,
                    self.fragment_buffer.as_slice(),
                    &mut self.scratch,
                );
                if compressed {
                    append_bytes(&mut self.writer, slice_subrange(self.scratch.as_slice(), 0, len));
                    (len, true)
                } else {
                    append_bytes(&mut self.writer, self.fragment_buffer.as_slice());
                    (self.fragment_buffer.len(), false)
                }
            },
            None => {
                append_bytes(&mut self.writer, self.fragment_buffer.as_slice());
                (self.fragment_buffer.len(), false)
            },
        };
        let size = Size::new(len as u32, !compressed);
        self.fragments.add_fragment(location, size);
        self.fragment_buffer.clear();
        proof {
            self.bodies@ = self.bodies@.push(old(self).fragment_buffer());
            assert(self.fragments.entries().drop_last() =~= old(self).fragment_entries());
            assert(old(self).output() =~= self.writer@.subrange(0, old(self).output().len() as int));
            crate::repr::datablock::lemma_size_new_parts(len as u32, !compressed);
            let stored = self.writer@.subrange(
                old(self).output().len() as int,
                self.writer@.len() as int,
            );
            if !compressed {
                assert(stored =~= old(self).fragment_buffer());
            }
            assert forall|i: int| 0 <= i < self.fragment_bodies().len() implies spec_fragment_held(
                self.fragment_entries()[i],
                #[trigger] self.fragment_bodies()[i],
                self.output(),
                self.spec_start_offset() as int,
            ) by {
                if i < old(self).fragment_bodies().len() {
                    assert(self.fragment_entries()[i] == old(self).fragment_entries()[i]);
                    lemma_fragment_kept(
                        old(self).fragment_entries()[i],
                        old(self).fragment_bodies()[i],
                        old(self).output(),
                        self.output(),
                        self.spec_start_offset() as int,
                    );
                }
            }
        }
    }

    /// Puts the tail of a file into the fragment block that is being
    /// filled. Where it does not fit, that block is written first. The
    /// result tells where the tail lies.
    pub fn add_tail(&mut self, tail: &[u8]) -> (r: FragmentRef)
        requires
            old(self).wf(),
            0 < tail@.len() < old(self).spec_block_size(),
            old(self).spec_has_room(old(self).fragment_buffer().len()),
        ensures
            final(self).wf(),
            final(self).same_setup(old(self)),
            r.block_idx.0 == final(self).fragment_entries().len(),
            r.offset + tail@.len() == final(self).fragment_buffer().len(),
            final(self).fragment_buffer().subrange(
                r.offset as int,
                r.offset + tail@.len(),
            ) == tail@,
            old(self).fragment_buffer().len() + tail@.len() <= old(self).spec_block_size() ==> {
                &&& r.offset == old(self).fragment_buffer().len()
                &&& final(self).fragment_buffer() == old(self).fragment_buffer() + tail@
                &&& final(self).output() == old(self).output()
                &&& final(self).fragment_entries() == old(self).fragment_entries()
            },
            old(self).fragment_buffer().len() + tail@.len() > old(self).spec_block_size() ==> {
                &&& r.offset == 0
                &&& final(self).fragment_buffer() == tail@
                &&& final(self).fragment_entries().len() == old(self).fragment_entries().len() + 1
                &&& final(self).spec_fragment_block_written(old(self), old(self).output())
            },
            final(self).spec_position() <= old(self).spec_position() + old(self).fragment_buffer().len(),
            old(self).output() == final(self).output().subrange(0, old(self).output().len() as int),
            final(self).spec_fragments_grown(old(self)),
            final(self).spec_tail_at(r, tail@),
    {
        if self.fragment_buffer.len() + tail.len() > self.block_size as usize {
            self.flush_fragments();
        }
        let block_idx = fragment::Idx(self.fragments.count() as u32);
        let offset = self.fragment_buffer.len() as u32;
        let ghost before = self.fragment_buffer@;
        append_bytes(&mut self.fragment_buffer, tail);
        proof {
            assert(self.fragment_buffer@.subrange(offset as int, offset + tail@.len()) =~= tail@);
            assert(before.len() == 0 ==> self.fragment_buffer@ =~= tail@);
            assert(before =~= self.fragment_buffer@.subrange(0, before.len() as int));
            assert(old(self).output() =~= self.writer@.subrange(0, old(self).output().len() as int));
        }
        FragmentRef { block_idx, offset }
    }

    /// Ends the section: writes the fragment block that is being filled, and
    /// hands out the bytes of the section and the fragment table.
    pub fn finish(self) -> (r: (Vec<u8>, fragments::Table))
        requires
            self.wf(),
            self.spec_has_room(self.fragment_buffer().len()),
        ensures
            r.1.wf(),
            r.1.has_compressor() == self.spec_fragments().has_compressor(),
            self.output() == r.0@.subrange(0, self.output().len() as int),
            self.fragment_buffer().len() == 0 ==> r.0@ == self.output() && r.1.entries()
                == self.fragment_entries(),
            self.fragment_buffer().len() > 0 ==> r.1.entries().len() == self.fragment_entries().len()
                + 1 && r.1.entries().drop_last() == self.fragment_entries(),
            r.0@.len() <= self.output().len() + self.fragment_buffer().len(),
            self.output().len() <= r.0@.len(),
            r.1.entries().len() == self.spec_finished_bodies().len(),
            forall|i: int|
                0 <= i < r.1.entries().len() ==> spec_fragment_held(
                    #[trigger] r.1.entries()[i],
                    self.spec_finished_bodies()[i],
                    r.0@,
                    self.spec_start_offset() as int,
                ),
    {
        let mut section = self;
        section.flush_fragments();
        proof {
            assert(self.output() =~= section.writer@.subrange(0, self.output().len() as int));
        }
        (section.writer, section.fragments)
    }
}

/// A file whose content is being cut into blocks.
pub struct FileIngest {
    block: Vec<u8>,
    sizes: Vec<Size>,
    blocks_start: u64,
    sparse_bytes: u64,
    file_size: u64,
    content: Ghost<Seq<u8>>,
    blocks: Ghost<Seq<StoredBlock>>,
    base: Ghost<Seq<u8>>,
}

impl FileIngest {
    /// The content of the file so far.
    pub closed spec fn content(&self) -> Seq<u8> {
        self.content@
    }

    /// The blocks of the file that are stored.
    pub closed spec fn blocks(&self) -> Seq<StoredBlock> {
        self.blocks@
    }

    /// The bytes of the file which no block covers yet.
    pub closed spec fn pending(&self) -> Seq<u8> {
        self.block@
    }

    /// Where the first block of the file starts in the archive.
    pub closed spec fn spec_blocks_start(&self) -> u64 {
        self.blocks_start
    }

    /// The bytes that the section held when the file began.
    pub closed spec fn base(&self) -> Seq<u8> {
        self.base@
    }

    /// The sizes of the blocks that are stored, as the inode records them.
    pub closed spec fn spec_sizes(&self) -> Seq<Size> {
        self.sizes@
    }

    /// The number of bytes of the content so far.
    pub closed spec fn spec_file_size(&self) -> u64 {
        self.file_size
    }

    /// The number of bytes that the sparse blocks cover.
    pub closed spec fn spec_sparse_bytes(&self) -> u64 {
        self.sparse_bytes
    }

    /// The state of the file fits the section.
    ///
    /// The blocks that are stored are full and well formed, and with the
    /// bytes that no block covers yet they cover the content. The section
    /// holds what is stored for them behind what it held when the file
    /// began, and the sizes, the count of sparse bytes and the size of the
    /// file are theirs.
    pub open spec fn inv(&self, section: &Datablocks) -> bool {
        let block_size = section.spec_block_size() as nat;
        &&& section.wf()
        &&& self.pending().len() < block_size
        &&& self.content() == spec_block_bodies(self.blocks()) + self.pending()
        &&& spec_blocks_ok(self.blocks(), block_size)
        &&& forall|i: int|
            0 <= i < self.blocks().len() ==> (#[trigger] self.blocks()[i]).body.len() == block_size
        &&& self.spec_sizes() == spec_size_words(self.blocks())
        &&& section.output() == self.base() + spec_block_stored(self.blocks())
        &&& self.spec_file_size() == self.content().len()
        &&& self.spec_sparse_bytes() == spec_sparse_bytes(self.blocks())
        &&& self.spec_blocks_start() == section.spec_start_offset() + self.base().len()
        &&& section.spec_position() + self.pending().len() <= self.spec_blocks_start()
            + self.content().len()
    }

    /// A file without content yet, whose blocks will be stored at the end of
    /// the section.
    pub fn new(section: &Datablocks) -> (r: FileIngest)
        requires
            section.wf(),
        ensures
            r.inv(section),
            r.content() == Seq::<u8>::empty(),
            r.blocks() == Seq::<StoredBlock>::empty(),
            r.pending() == Seq::<u8>::empty(),
            r.spec_blocks_start() == section.spec_position(),
            r.base() == section.output(),
    {
        let file = FileIngest {
            block: Vec::new(),
            sizes: Vec::new(),
            blocks_start: section.position().0,
            sparse_bytes: 0,
            file_size: 0,
            content: Ghost(Seq::empty()),
            blocks: Ghost(Seq::empty()),
            base: Ghost(section.output()),
        };
        proof {
            assert(file.content@ =~= spec_block_bodies(file.blocks@) + file.block@);
            assert(file.sizes@ =~= spec_size_words(file.blocks@));
            assert(section.output() =~= file.base@ + spec_block_stored(file.blocks@));
        }
        file
    }

    /// Stores the buffer as a block, once it is full.
    fn store_full(&mut self, section: &mut Datablocks, Ghost(before): Ghost<FileIngest>)
        requires
            old(self).block@.len() == old(section).spec_block_size(),
            before.inv(old(section)),
            old(self).sizes == before.sizes,
            old(self).blocks_start == before.blocks_start,
            old(self).sparse_bytes == before.sparse_bytes,
            old(self).blocks == before.blocks,
            old(self).base == before.base,
            old(self).content@ == spec_block_bodies(old(self).blocks@) + old(self).block@,
            old(self).file_size == old(self).content@.len(),
            old(self).blocks_start + old(self).content@.len() <= u64::MAX,
            old(section).spec_position() + old(self).block@.len() <= old(self).blocks_start + old(self).content@.len(),
        ensures
            final(self).inv(final(section)),
            final(section).same_setup(old(section)),
            final(section).fragment_buffer() == old(section).fragment_buffer(),
            final(section).spec_fragments() == old(section).spec_fragments(),
            final(section).fragment_bodies() == old(section).fragment_bodies(),
            final(self).spec_blocks_start() == old(self).spec_blocks_start(),
            final(self).base() == old(self).base(),
            final(self).content() == old(self).content(),
            final(self).pending() == Seq::<u8>::empty(),
            final(self).blocks().len() == old(self).blocks().len() + 1,
            final(self).blocks().drop_last() == old(self).blocks(),
            final(self).blocks().last().body == old(self).block@,
    {
        let ghost block_size = section.spec_block_size() as nat;
        proof {
            lemma_full_blocks_len(self.blocks@, block_size);
        }
        let (size, Ghost(stored)) = section.store_block(self.block.as_slice());
        if size.0 == 0 {
            self.sparse_bytes = self.sparse_bytes + self.block.len() as u64;
        }
        self.sizes.push(size);
        self.block.clear();
        proof {
            lemma_push_stored_block(self.blocks@, stored);
            lemma_concat_assoc(self.base@, spec_block_stored(self.blocks@), stored.stored);
            assert(stored.sparse() <==> size.0 == 0) by {
                if !stored.sparse() {
                    crate::repr::datablock::lemma_size_new_parts(
                        stored.stored.len() as u32,
                        !stored.compressed,
                    );
                    let word = Size::spec_new(stored.stored.len() as u32, !stored.compressed);
                    assert(word.spec_size() == stored.stored.len());
                    assert(word.0 != 0) by {
                        if word.0 == 0 {
                            assert(Size(0).spec_size() == 0) by (bit_vector);
                        }
                    }
                }
            }
            self.blocks@ = self.blocks@.push(stored);
            assert(self.blocks@.drop_last() =~= old(self).blocks@);
            assert(self.content@ =~= spec_block_bodies(self.blocks@) + self.block@);
        }
    }

    /// Appends bytes to the content of the file.
    pub fn push_data(&mut self, section: &mut Datablocks, data: &[u8])
        requires
            old(self).inv(old(section)),
            old(self).spec_blocks_start() + old(self).content().len() + data@.len() <= u64::MAX,
        ensures
            final(self).inv(final(section)),
            final(section).same_setup(old(section)),
            final(section).fragment_buffer() == old(section).fragment_buffer(),
            final(section).spec_fragments() == old(section).spec_fragments(),
            final(section).fragment_bodies() == old(section).fragment_bodies(),
            final(self).spec_blocks_start() == old(self).spec_blocks_start(),
            final(section).spec_position() + final(self).pending().len() <= final(self).spec_blocks_start() + final(self).content().len(),
            final(self).content() == old(self).content() + data@,
            old(self).blocks() == final(self).blocks().subrange(0, old(self).blocks().len() as int),
            final(self).base() == old(self).base(),
            final(section).output() == final(self).base() + spec_block_stored(final(self).blocks()),
    {
        let mut rest = data;
        assert(self.content@ + rest@ =~= old(self).content() + data@);
        assert(old(self).blocks() =~= self.blocks@.subrange(0, old(self).blocks().len() as int));
        while section.block_size as usize - self.block.len() <= rest.len()
            invariant
                self.inv(section),
                section.same_setup(old(section)),
                section.fragment_buffer() == old(section).fragment_buffer(),
                section.spec_fragments() == old(section).spec_fragments(),
                section.fragment_bodies() == old(section).fragment_bodies(),
                self.content@ + rest@ == old(self).content() + data@,
                self.content@.len() + rest@.len() == old(self).content().len() + data@.len(),
                old(self).blocks_start + old(self).content().len() + data@.len() <= u64::MAX,
                self.blocks_start == old(self).blocks_start,
                self.base == old(self).base,
                old(self).blocks() == self.blocks@.subrange(0, old(self).blocks().len() as int),
                self.blocks@.len() >= old(self).blocks().len(),
            decreases rest@.len(),
        {
            let room = section.block_size as usize - self.block.len();
            let (head, tail) = rest.split_at(room);
            let ghost before = *self;
            append_bytes(&mut self.block, head);
            proof {
                lemma_concat_assoc(spec_block_bodies(self.blocks@), before.block@, head@);
                self.content@ = self.content@ + head@;
                assert(head@ + tail@ =~= rest@);
                lemma_concat_assoc(before.content@, head@, tail@);
            }
            self.file_size = self.file_size + head.len() as u64;
            self.store_full(section, Ghost(before));
            proof {
                assert(old(self).blocks() =~= self.blocks@.subrange(
                    0,
                    old(self).blocks().len() as int,
                )) by {
                    assert(self.blocks@.drop_last() == before.blocks@);
                }
            }
            rest = tail;
        }
        let ghost before = *self;
        append_bytes(&mut self.block, rest);
        self.file_size = self.file_size + rest.len() as u64;
        proof {
            lemma_concat_assoc(spec_block_bodies(self.blocks@), before.block@, rest@);
            self.content@ = self.content@ + rest@;
        }
    }

    /// Appends `len` zero bytes to the content of the file, as a hole of that
    /// length does. A hole that covers whole blocks costs nothing but their
    /// sizes.
    pub fn push_hole(&mut self, section: &mut Datablocks, len: u64)
        requires
            old(self).inv(old(section)),
            old(self).spec_blocks_start() + old(self).content().len() + len <= u64::MAX,
        ensures
            final(self).inv(final(section)),
            final(section).same_setup(old(section)),
            final(section).fragment_buffer() == old(section).fragment_buffer(),
            final(section).spec_fragments() == old(section).spec_fragments(),
            final(section).fragment_bodies() == old(section).fragment_bodies(),
            final(self).spec_blocks_start() == old(self).spec_blocks_start(),
            final(section).spec_position() + final(self).pending().len() <= final(self).spec_blocks_start() + final(self).content().len(),
            final(self).content() == old(self).content() + Seq::new(len as nat, |i: int| 0u8),
            old(self).blocks() == final(self).blocks().subrange(0, old(self).blocks().len() as int),
            final(self).base() == old(self).base(),
            final(section).output() == final(self).base() + spec_block_stored(final(self).blocks()),
    {
        let mut left = len;
        let ghost zeros = Seq::new(len as nat, |i: int| 0u8);
        assert(self.content@ =~= old(self).content() + zeros.subrange(0, 0));
        assert(old(self).blocks() =~= self.blocks@.subrange(0, old(self).blocks().len() as int));
        while left > 0
            invariant
                left <= len,
                zeros == Seq::new(len as nat, |i: int| 0u8),
                self.inv(section),
                section.same_setup(old(section)),
                section.fragment_buffer() == old(section).fragment_buffer(),
                section.spec_fragments() == old(section).spec_fragments(),
                section.fragment_bodies() == old(section).fragment_bodies(),
                self.content@ == old(self).content() + zeros.subrange(0, len - left),
                self.content@.len() == old(self).content().len() + len - left,
                old(self).blocks_start + old(self).content().len() + len <= u64::MAX,
                self.blocks_start == old(self).blocks_start,
                self.base == old(self).base,
                old(self).blocks() == self.blocks@.subrange(0, old(self).blocks().len() as int),
                self.blocks@.len() >= old(self).blocks().len(),
            decreases left,
        {
            let room = section.block_size as usize - self.block.len();
            let take: usize = if left < room as u64 {
                left as usize
            } else {
                room
            };
            let ghost before = *self;
            let ghost piece = zeros.subrange(len - left, len - left + take);
            let mut i: usize = 0;
            while i < take
                invariant
                    i <= take,
                    self.block@ == before.block@ + piece.subrange(0, i as int),
                    piece.len() == take,
                    forall|j: int| 0 <= j < piece.len() ==> piece[j] == 0,
                    self.sizes == before.sizes,
                    self.blocks_start == before.blocks_start,
                    self.sparse_bytes == before.sparse_bytes,
                    self.file_size == before.file_size,
                    self.content == before.content,
                    self.blocks == before.blocks,
                    self.base == before.base,
                decreases take - i,
            {
                self.block.push(0u8);
                assert(self.block@ =~= before.block@ + piece.subrange(0, i + 1));
                i += 1;
            }
            proof {
                assert(piece.subrange(0, take as int) =~= piece);
                lemma_concat_assoc(spec_block_bodies(self.blocks@), before.block@, piece);
                lemma_concat_assoc(
                    old(self).content(),
                    zeros.subrange(0, len - left),
                    piece,
                );
                assert(zeros.subrange(0, len - left) + piece =~= zeros.subrange(
                    0,
                    len - left + take,
                ));
                self.content@ = self.content@ + piece;
            }
            self.file_size = self.file_size + take as u64;
            left = left - take as u64;
            if self.block.len() == section.block_size as usize {
                self.store_full(section, Ghost(before));
                proof {
                    assert(old(self).blocks() =~= self.blocks@.subrange(
                        0,
                        old(self).blocks().len() as int,
                    )) by {
                        assert(self.blocks@.drop_last() == before.blocks@);
                    }
                }
            }
        }
        assert(zeros.subrange(0, len as int) =~= zeros);
    }

    /// Ends the file: stores its tail as a block or puts it into a fragment
    /// block, as the fragment mode says.
    pub fn finish(self, section: &mut Datablocks) -> (r: FileBlocks)
        requires
            self.inv(old(section)),
            old(section).spec_has_room(
                old(section).fragment_buffer().len() + old(section).spec_block_size() as nat,
            ),
        ensures
            final(section).wf(),
            final(section).same_setup(old(section)),
            r.file_size == self.content().len(),
            r.blocks_start.0 == self.spec_blocks_start(),
            r.sizes@ == spec_size_words(r.blocks()),
            r.sparse_bytes == spec_sparse_bytes(r.blocks()),
            spec_blocks_ok(r.blocks(), old(section).spec_block_size() as nat),
            self.blocks() == r.blocks().subrange(0, self.blocks().len() as int),
            ({
                let block_size = old(section).spec_block_size() as nat;
                let in_fragment = old(section).spec_fragment_config().spec_tail_in_fragment(
                    self.content().len(),
                    block_size,
                );
                &&& r.fragment is Some == in_fragment
                &&& in_fragment ==> spec_block_bodies(r.blocks()) + self.pending()
                    == self.content() && r.blocks() == self.blocks()
                &&& !in_fragment ==> spec_block_bodies(r.blocks()) == self.content()
                &&& self.pending().len() == self.content().len() % block_size
                &&& self.blocks().len() == self.content().len() / block_size
                &&& r.fragment matches Some(fragment) ==> {
                    &&& fragment.block_idx.0 == final(section).fragment_entries().len()
                    &&& final(section).fragment_buffer().subrange(
                        fragment.offset as int,
                        fragment.offset + self.pending().len(),
                    ) == self.pending()
                }
                &&& r.fragment is None ==> final(section).fragment_buffer() == old(section).fragment_buffer() && final(section).fragment_entries() == old(section).fragment_entries()
            }),
            final(section).spec_position() <= self.spec_blocks_start() + self.content().len() + old(
                section,
            ).fragment_buffer().len(),
            r.blocks().len() * old(section).spec_block_size() <= self.content().len() + old(
                section,
            ).spec_block_size(),
            final(section).fragment_entries().len() <= old(section).fragment_entries().len() + 1,
            final(section).spec_fragments_grown(old(section)),
            r.fragment matches Some(place) ==> final(section).spec_tail_at(place, self.pending()),
            final(section).fragment_entries().len() == old(section).fragment_entries().len()
                ==> final(section).output() == self.base() + spec_block_stored(r.blocks())
                && final(section).fragment_entries() == old(section).fragment_entries(),
            final(section).fragment_entries().len() != old(section).fragment_entries().len()
                ==> final(section).spec_fragment_block_written(
                old(section),
                self.base() + spec_block_stored(r.blocks()),
            ),
    {
        let ghost block_size = section.spec_block_size() as nat;
        let mut file = self;
        proof {
            lemma_full_blocks_len(file.blocks@, block_size);
            assert(file.content@.len() == file.blocks@.len() * block_size + file.block@.len());
            vstd::arithmetic::div_mod::lemma_fundamental_div_mod_converse(
                file.content@.len() as int,
                block_size as int,
                file.blocks@.len() as int,
                file.block@.len() as int,
            );
        }
        let tail_len = file.block.len();
        let in_fragment = tail_len > 0 && match section.fragment_config {
            FragmentConfig::NoFragments => false,
            FragmentConfig::FragmentEnds => file.file_size < section.block_size as u64,
            FragmentConfig::FragmentAlways => true,
        };
        let fragment = if in_fragment {
            Some(section.add_tail(file.block.as_slice()))
        } else {
            if tail_len > 0 {
                let (size, Ghost(stored)) = section.store_block(file.block.as_slice());
                file.sizes.push(size);
                proof {
                    lemma_push_stored_block(file.blocks@, stored);
                    assert(stored.body.len() < block_size);
                    file.blocks@ = file.blocks@.push(stored);
                    assert(self.blocks() =~= file.blocks@.subrange(0, self.blocks().len() as int));
                }
            } else {
                proof {
                    assert(file.content@ =~= spec_block_bodies(file.blocks@));
                }
            }
            None
        };
        proof {
            if fragment is None {
                assert(old(section).fragment_buffer() =~= section.fragment_buffer().subrange(
                    0,
                    old(section).fragment_buffer().len() as int,
                ));
            }
            assert(self.blocks() =~= file.blocks@.subrange(0, self.blocks().len() as int));
            let full = self.blocks().len();
            assert(full * block_size <= self.content().len());
            assert(file.blocks@.len() <= full + 1);
            assert(file.blocks@.len() * block_size <= self.content().len() + block_size)
                by (nonlinear_arith)
                requires
                    full * block_size <= self.content().len(),
                    file.blocks@.len() <= full + 1,
            ;
        }
        FileBlocks {
            blocks_start: datablock::Ref(file.blocks_start),
            file_size: file.file_size,
            sparse_bytes: file.sparse_bytes,
            sizes: file.sizes,
            fragment,
            blocks: Ghost(file.blocks@),
        }
    }
}

/// Cuts the content of a file into blocks and stores them in the section.
pub fn handle_file(section: &mut Datablocks, contents: &[u8]) -> (r: FileBlocks)
    requires
        old(section).wf(),
        old(section).spec_has_room(
            contents@.len() + old(section).fragment_buffer().len() + old(
                section,
            ).spec_block_size() as nat,
        ),
    ensures
        final(section).wf(),
        final(section).same_setup(old(section)),
        r.file_size == contents@.len(),
        r.sizes@ == spec_size_words(r.blocks()),
        r.sparse_bytes == spec_sparse_bytes(r.blocks()),
        spec_blocks_ok(r.blocks(), old(section).spec_block_size() as nat),
        ({
            let block_size = old(section).spec_block_size() as nat;
            let in_fragment = old(section).spec_fragment_config().spec_tail_in_fragment(
                contents@.len(),
                block_size,
            );
            let tail = contents@.subrange(
                contents@.len() - contents@.len() % block_size,
                contents@.len() as int,
            );
            &&& r.fragment is Some == in_fragment
            &&& in_fragment ==> spec_block_bodies(r.blocks()) + tail == contents@ && r.blocks().len()
                == contents@.len() / block_size
            &&& !in_fragment ==> spec_block_bodies(r.blocks()) == contents@
            &&& r.fragment matches Some(fragment) ==> {
                &&& fragment.block_idx.0 == final(section).fragment_entries().len()
                &&& final(section).fragment_buffer().subrange(
                    fragment.offset as int,
                    fragment.offset + tail.len(),
                ) == tail
            }
            &&& r.fragment is None ==> final(section).fragment_buffer() == old(
                section,
            ).fragment_buffer() && final(section).fragment_entries() == old(
                section,
            ).fragment_entries()
        }),
        r.blocks_start.0 == old(section).spec_position(),
        old(section).output() + spec_block_stored(r.blocks()) == final(section).output().subrange(
            0,
            (old(section).output().len() + spec_block_stored(r.blocks()).len()) as int,
        ),
        final(section).spec_position() <= old(section).spec_position() + contents@.len() + old(
            section,
        ).fragment_buffer().len(),
        r.blocks().len() * old(section).spec_block_size() <= contents@.len() + old(
            section,
        ).spec_block_size(),
        final(section).fragment_entries().len() <= old(section).fragment_entries().len() + 1,
        final(section).spec_fragments_grown(old(section)),
        r.fragment matches Some(place) ==> final(section).spec_tail_at(
            place,
            contents@.subrange(
                contents@.len() - contents@.len() % (old(section).spec_block_size() as nat),
                contents@.len() as int,
            ),
        ),
        final(section).fragment_entries().len() == old(section).fragment_entries().len()
            ==> final(section).output() == old(section).output() + spec_block_stored(r.blocks())
            && final(section).fragment_entries() == old(section).fragment_entries(),
        final(section).fragment_entries().len() != old(section).fragment_entries().len()
            ==> final(section).spec_fragment_block_written(
            old(section),
            old(section).output() + spec_block_stored(r.blocks()),
        ),
{
    let mut file = FileIngest::new(section);
    file.push_data(section, contents);
    proof {
        assert(file.content() =~= contents@);
    }
    let ghost pending = file.pending();
    let ghost stored = file.blocks();
    let result = file.finish(section);
    proof {
        let placed = old(section).output() + spec_block_stored(result.blocks());
        assert(placed =~= section.output().subrange(0, placed.len() as int));
        let block_size = old(section).spec_block_size() as nat;
        lemma_full_blocks_len(stored, block_size);
        assert(contents@ =~= spec_block_bodies(stored) + pending);
        assert(pending =~= contents@.subrange(
            contents@.len() - contents@.len() % block_size,
            contents@.len() as int,
        ));
    }
    result
}

} // verus!
