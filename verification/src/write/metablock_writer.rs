//! The writer of a stream of metadata blocks.
//!
//! Bytes appended to the writer collect in a buffer of 8 KiB. Whenever the
//! buffer is full it is emitted as one metadata block: compressed where a
//! codec is bound and compression makes it shorter, as it is elsewhere, and
//! preceded by its 16-bit header. A position taken before an append keeps
//! pointing at the same byte of the stream.

use crate::bytes::append_bytes;
use crate::bytes::lemma_concat_assoc;
use crate::compression::compress_or_copy;
use crate::compression::Compressor;
use crate::packed::PackedStruct;
use crate::repr::metablock::Header;
use crate::repr::metablock::Ref;
use crate::repr::metablock::SIZE;
use vstd::prelude::*;
use vstd::slice::slice_subrange;

verus! {

/// One metadata block of a stream: the bytes that went in, the bytes that
/// are stored, and whether the stored bytes are compressed.
pub struct Metablock {
    pub body: Seq<u8>,
    pub stored: Seq<u8>,
    pub compressed: bool,
}

impl Metablock {
    /// Neither form is larger than 8 KiB; a compressed block is shorter than
    /// its body, and a block that is not compressed is stored as its body.
    pub open spec fn wf(self) -> bool {
        &&& self.body.len() <= SIZE
        &&& self.stored.len() <= SIZE
        &&& self.compressed ==> self.stored.len() < self.body.len()
        &&& !self.compressed ==> self.stored == self.body
    }

    /// The block on disk: its header, then the stored bytes.
    pub open spec fn frame(self) -> Seq<u8> {
        Header::spec_new(self.stored.len() as u16, self.compressed).spec_to_packed() + self.stored
    }
}

/// The blocks on disk, one after the other.
pub open spec fn spec_frames(blocks: Seq<Metablock>) -> Seq<u8>
    decreases blocks.len(),
{
    if blocks.len() == 0 {
        Seq::empty()
    } else {
        spec_frames(blocks.drop_last()) + blocks.last().frame()
    }
}

/// The bodies of the blocks, one after the other.
pub open spec fn spec_bodies(blocks: Seq<Metablock>) -> Seq<u8>
    decreases blocks.len(),
{
    if blocks.len() == 0 {
        Seq::empty()
    } else {
        spec_bodies(blocks.drop_last()) + blocks.last().body
    }
}

/// Every block is well formed.
pub open spec fn spec_blocks_wf(blocks: Seq<Metablock>) -> bool {
    forall|i: int| 0 <= i < blocks.len() ==> (#[trigger] blocks[i]).wf()
}

/// Every block has a body of exactly 8 KiB.
pub open spec fn spec_blocks_full(blocks: Seq<Metablock>) -> bool {
    forall|i: int| 0 <= i < blocks.len() ==> (#[trigger] blocks[i]).body.len() == SIZE
}

/// No block is compressed.
pub open spec fn spec_blocks_plain(blocks: Seq<Metablock>) -> bool {
    forall|i: int| 0 <= i < blocks.len() ==> !(#[trigger] blocks[i]).compressed
}

/// Whether every compressed block stores a form that the codec gives for
/// its body.
#[verifier::opaque]
pub open spec fn spec_blocks_packed<Comp: Compressor>(blocks: Seq<Metablock>) -> bool {
    forall|i: int|
        0 <= i < blocks.len() ==> ((#[trigger] blocks[i]).compressed ==> Comp::spec_packs(
            blocks[i].body,
            blocks[i].stored,
        ))
}

/// A compressed block of blocks that the codec made stores a form that the
/// codec gives for its body.
pub proof fn lemma_block_packed<Comp: Compressor>(blocks: Seq<Metablock>, i: int)
    requires
        spec_blocks_packed::<Comp>(blocks),
        0 <= i < blocks.len(),
        blocks[i].compressed,
    ensures
        Comp::spec_packs(blocks[i].body, blocks[i].stored),
{
    reveal(spec_blocks_packed);
}

/// With a codec that gives forms of one block only, the blocks of a stream
/// are found again: a block that is not compressed is what is stored, and
/// whatever the stored bytes of a compressed block are a form of is the
/// block.
pub proof fn lemma_blocks_restored<Comp: Compressor>(
    blocks: Seq<Metablock>,
    restored: Seq<Seq<u8>>,
)
    requires
        spec_blocks_wf(blocks),
        spec_blocks_packed::<Comp>(blocks),
        forall|a: Seq<u8>, b: Seq<u8>, out: Seq<u8>|
            #![trigger Comp::spec_packs(a, out), Comp::spec_packs(b, out)]
            Comp::spec_packs(a, out) && Comp::spec_packs(b, out) ==> a == b,
        restored.len() == blocks.len(),
        forall|i: int|
            0 <= i < blocks.len() ==> if blocks[i].compressed {
                Comp::spec_packs(#[trigger] restored[i], blocks[i].stored)
            } else {
                restored[i] == blocks[i].stored
            },
    ensures
        forall|i: int| 0 <= i < blocks.len() ==> #[trigger] restored[i] == blocks[i].body,
{
    assert forall|i: int| 0 <= i < blocks.len() implies #[trigger] restored[i]
        == blocks[i].body by {
        assert(blocks[i].wf());
        if blocks[i].compressed {
            lemma_block_packed::<Comp>(blocks, i);
            assert(Comp::spec_packs(restored[i], blocks[i].stored));
        }
    }
}

/// Whether `bytes` is a stream of metadata blocks on disk that holds `body`:
/// at least one block, every block but the last one full, and no block
/// compressed where `plain` holds.
pub open spec fn spec_stream(bytes: Seq<u8>, body: Seq<u8>, plain: bool) -> bool {
    exists|blocks: Seq<Metablock>| #[trigger] spec_stream_of(blocks, bytes, body, plain)
}

/// Whether `bytes` is the stream of the blocks and holds `body`: there is
/// at least one block, every block but the last one is full, and no block
/// is compressed where `plain` holds.
pub open spec fn spec_stream_of(
    blocks: Seq<Metablock>,
    bytes: Seq<u8>,
    body: Seq<u8>,
    plain: bool,
) -> bool {
    &&& blocks.len() > 0
    &&& spec_blocks_wf(blocks)
    &&& spec_blocks_full(blocks.drop_last())
    &&& plain ==> spec_blocks_plain(blocks)
    &&& spec_bodies(blocks) == body
    &&& bytes == spec_frames(blocks)
}

/// Whether `bytes` is one metadata block on disk that holds `body`, not
/// compressed where `plain` holds.
pub open spec fn spec_single_block(bytes: Seq<u8>, body: Seq<u8>, plain: bool) -> bool {
    exists|block: Metablock|
        {
            &&& block.wf()
            &&& block.body == body
            &&& plain ==> !block.compressed
            &&& bytes == #[trigger] block.frame()
        }
}

/// A block that holds nothing is its header: two bytes that say that no
/// byte is stored and that nothing is compressed.
pub proof fn lemma_empty_block(bytes: Seq<u8>, plain: bool)
    requires
        spec_single_block(bytes, Seq::<u8>::empty(), plain),
    ensures
        bytes == Header::spec_new(0, false).spec_to_packed(),
        bytes.len() == 2,
{
    let block = choose|block: Metablock|
        {
            &&& block.wf()
            &&& block.body == Seq::<u8>::empty()
            &&& plain ==> !block.compressed
            &&& bytes == #[trigger] block.frame()
        };
    Header::spec_new(0, false).lemma_round_trip();
    assert(block.stored =~= Seq::<u8>::empty());
    assert(bytes =~= Header::spec_new(0, false).spec_to_packed());
}

/// One more block adds its frame and its body.
pub proof fn lemma_push_block(blocks: Seq<Metablock>, block: Metablock)
    ensures
        spec_frames(blocks.push(block)) == spec_frames(blocks) + block.frame(),
        spec_bodies(blocks.push(block)) == spec_bodies(blocks) + block.body,
{
    assert(blocks.push(block).drop_last() =~= blocks);
}

/// Full blocks hold 8 KiB each.
pub proof fn lemma_bodies_len(blocks: Seq<Metablock>)
    requires
        spec_blocks_full(blocks),
    ensures
        spec_bodies(blocks).len() == blocks.len() * SIZE,
    decreases blocks.len(),
{
    if blocks.len() > 0 {
        lemma_bodies_len(blocks.drop_last());
    }
}

/// Full blocks that are stored as they are take 8 KiB and two bytes each.
pub proof fn lemma_frames_len_plain(blocks: Seq<Metablock>)
    requires
        spec_blocks_wf(blocks),
        spec_blocks_full(blocks),
        spec_blocks_plain(blocks),
    ensures
        spec_frames(blocks).len() == blocks.len() * (SIZE + 2),
    decreases blocks.len(),
{
    if blocks.len() > 0 {
        lemma_frames_len_plain(blocks.drop_last());
        let last = blocks.last();
        assert(last.wf());
        Header::spec_new(last.stored.len() as u16, last.compressed).lemma_round_trip();
    }
}

/// A frame is two bytes longer than what it stores, and the frames of
/// well-formed blocks take at most 8 KiB and two bytes each.
pub proof fn lemma_frames_len(blocks: Seq<Metablock>)
    requires
        spec_blocks_wf(blocks),
    ensures
        spec_frames(blocks).len() <= blocks.len() * (SIZE + 2),
        spec_frames(blocks).len() >= blocks.len() * 2,
    decreases blocks.len(),
{
    if blocks.len() > 0 {
        lemma_frames_len(blocks.drop_last());
        let last = blocks.last();
        assert(last.wf());
        Header::spec_new(last.stored.len() as u16, last.compressed).lemma_round_trip();
    }
}

/// The frames of blocks that follow a prefix take at most 8 KiB and two
/// bytes each.
pub proof fn lemma_frames_len_after(blocks: Seq<Metablock>, k: int)
    requires
        spec_blocks_wf(blocks),
        0 <= k <= blocks.len(),
    ensures
        spec_frames(blocks).len() <= spec_frames(blocks.subrange(0, k)).len() + (blocks.len() - k) * (
        SIZE + 2),
        spec_frames(blocks).len() >= spec_frames(blocks.subrange(0, k)).len(),
    decreases blocks.len(),
{
    if k == blocks.len() {
        assert(blocks.subrange(0, k) =~= blocks);
    } else {
        let front = blocks.drop_last();
        lemma_frames_len_after(front, k);
        assert(front.subrange(0, k) =~= blocks.subrange(0, k));
        let last = blocks.last();
        assert(last.wf());
        Header::spec_new(last.stored.len() as u16, last.compressed).lemma_round_trip();
    }
}

/// Appends the frame of a block to `output`.
fn write_output(output: &mut Vec<u8>, data: &[u8], compressed: bool)
    requires
        data@.len() <= SIZE,
    ensures
        final(output)@ == old(output)@ + (Header::spec_new(
            data@.len() as u16,
            compressed,
        ).spec_to_packed() + data@),
{
    let header = Header::new(data.len() as u16, compressed);
    header.pack_into(output);
    append_bytes(output, data);
    proof {
        lemma_concat_assoc(old(output)@, header.spec_to_packed(), data@);
    }
}

/// A writer of a stream of metadata blocks.
pub struct MetablockWriter<Comp: Compressor> {
    compressor: Option<Comp>,
    output: Vec<u8>,
    current_block: Vec<u8>,
    scratch: Vec<u8>,
    blocks: Ghost<Seq<Metablock>>,
}

impl<Comp: Compressor> MetablockWriter<Comp> {
    /// The blocks emitted so far.
    pub closed spec fn blocks(&self) -> Seq<Metablock> {
        self.blocks@
    }

    /// The bytes in the buffer, which no block holds yet.
    pub closed spec fn current(&self) -> Seq<u8> {
        self.current_block@
    }

    /// The bytes emitted so far.
    pub closed spec fn output(&self) -> Seq<u8> {
        self.output@
    }

    /// Whether a codec is bound.
    pub closed spec fn has_compressor(&self) -> bool {
        self.compressor is Some
    }

    /// All the bytes appended so far.
    pub open spec fn appended(&self) -> Seq<u8> {
        spec_bodies(self.blocks()) + self.current()
    }

    /// The output is the frames of the blocks, every block is well formed,
    /// no block is compressed where no codec is bound, and a compressed
    /// block stores a form that the codec gave for its body.
    pub open spec fn output_wf(&self) -> bool {
        &&& self.output() == spec_frames(self.blocks())
        &&& spec_blocks_wf(self.blocks())
        &&& !self.has_compressor() ==> spec_blocks_plain(self.blocks())
        &&& spec_blocks_packed::<Comp>(self.blocks())
    }

    /// The state between two operations: the output is well formed, every
    /// block is full, and the buffer is not.
    pub open spec fn wf(&self) -> bool {
        &&& self.output_wf()
        &&& spec_blocks_full(self.blocks())
        &&& self.current().len() < SIZE
    }

    /// The most that the output can have grown once `len` more bytes are
    /// appended: a header and 8 KiB for every block that becomes full.
    pub open spec fn spec_output_bound(&self, len: nat) -> nat {
        self.output().len() + ((self.current().len() + len) / (SIZE as nat)) * ((SIZE + 2) as nat)
    }

    pub fn new(compressor: Option<Comp>) -> (r: Self)
        ensures
            r.wf(),
            r.blocks() == Seq::<Metablock>::empty(),
            r.current() == Seq::<u8>::empty(),
            r.output() == Seq::<u8>::empty(),
            r.has_compressor() == compressor is Some,
    {
        Self::with_capacity(compressor, 0)
    }

    /// A writer with room for `cap` bytes of output.
    pub fn with_capacity(compressor: Option<Comp>, cap: usize) -> (r: Self)
        ensures
            r.wf(),
            r.blocks() == Seq::<Metablock>::empty(),
            r.current() == Seq::<u8>::empty(),
            r.output() == Seq::<u8>::empty(),
            r.has_compressor() == compressor is Some,
    {
        let writer = MetablockWriter {
            compressor,
            output: Vec::with_capacity(cap),
            current_block: Vec::new(),
            scratch: Vec::new(),
            blocks: Ghost(Seq::empty()),
        };
        proof {
            reveal(spec_blocks_packed);
        }
        writer
    }

    /// The number of bytes emitted so far.
    pub fn output_len(&self) -> (r: usize)
        ensures
            r == self.output().len(),
    {
        self.output.len()
    }

    /// The number of bytes in the buffer.
    pub fn buffered_len(&self) -> (r: usize)
        ensures
            r == self.current().len(),
    {
        self.current_block.len()
    }

    /// Where the next byte appended will lie: the length of the output so
    /// far and the fill of the buffer.
    pub fn position(&self) -> (r: Ref)
        requires
            self.wf(),
            self.output().len() <= u32::MAX,
        ensures
            r == Ref::spec_new(self.output().len() as u32, self.current().len() as u16),
            r.spec_block_start() == self.output().len(),
            r.spec_start_offset() == self.current().len(),
            r.wf(),
    {
        Ref::new(self.output.len() as u32, self.current_block.len() as u16)
    }

    /// Appends the packed form of `item`.
    pub fn write<T: PackedStruct>(&mut self, item: &T)
        requires
            old(self).wf(),
        ensures
            final(self).wf(),
            final(self).has_compressor() == old(self).has_compressor(),
            final(self).appended() == old(self).appended() + item.spec_to_packed(),
            old(self).blocks() =~= final(self).blocks().subrange(0, old(self).blocks().len() as int),
            final(self).blocks().len() >= old(self).blocks().len(),
            forall|more: nat| #[trigger]
                final(self).spec_output_bound(more) <= old(self).spec_output_bound(
                    item.spec_to_packed().len() + more,
                ),
    {
        let bytes = item.to_packed();
        self.write_raw(bytes.as_slice());
    }

    /// Appends `data`. Data that does not fit into the buffer is split over
    /// as many blocks as it takes.
    pub fn write_raw(&mut self, data: &[u8])
        requires
            old(self).wf(),
        ensures
            final(self).wf(),
            final(self).has_compressor() == old(self).has_compressor(),
            final(self).appended() == old(self).appended() + data@,
            old(self).blocks() =~= final(self).blocks().subrange(0, old(self).blocks().len() as int),
            final(self).blocks().len() >= old(self).blocks().len(),
            forall|more: nat| #[trigger]
                final(self).spec_output_bound(more) <= old(self).spec_output_bound(
                    data@.len() + more,
                ),
    {
        let mut rest = data;
        assert(self.appended() + rest@ =~= old(self).appended() + data@);
        while SIZE - self.current_block.len() <= rest.len()
            invariant
                self.wf(),
                self.has_compressor() == old(self).has_compressor(),
                self.appended() + rest@ == old(self).appended() + data@,
                old(self).blocks() =~= self.blocks().subrange(0, old(self).blocks().len() as int),
                self.blocks().len() >= old(self).blocks().len(),
            decreases rest@.len(),
        {
            let ghost before = self.appended();
            let room = SIZE - self.current_block.len();
            let (head, tail) = rest.split_at(room);
            append_bytes(&mut self.current_block, head);
            self.flush();
            proof {
                assert(head@ + tail@ =~= rest@);
                lemma_concat_assoc(before, head@, tail@);
                assert(self.appended() =~= before + head@);
            }
            rest = tail;
        }
        let ghost before = self.appended();
        append_bytes(&mut self.current_block, rest);
        proof {
            lemma_concat_assoc(spec_bodies(self.blocks()), old(self).current(), rest@);
            assert(self.appended() =~= before + rest@);
            lemma_bodies_len(self.blocks());
            lemma_bodies_len(old(self).blocks());
            lemma_frames_len_after(self.blocks(), old(self).blocks().len() as int);
            let grown = self.blocks().len() - old(self).blocks().len();
            let filled = old(self).current().len() + data@.len();
            assert(grown * SIZE + self.current().len() == filled);
            assert forall|more: nat| #[trigger]
                self.spec_output_bound(more) <= old(self).spec_output_bound(
                    data@.len() + more,
                ) by {
                let here = (self.current().len() + more) / (SIZE as nat);
                let there = (filled + more) / (SIZE as nat);
                assert(there == grown + here);
                assert((grown + here) * (SIZE + 2) == grown * (SIZE + 2) + here * (SIZE + 2))
                    by (nonlinear_arith);
            }
        }
    }

    /// Emits the buffer as the last block, also where it is not full, and
    /// hands out the whole output.
    pub fn finish(self) -> (r: Vec<u8>)
        requires
            self.wf(),
        ensures
            exists|last: Metablock|
                {
                    &&& last.wf()
                    &&& last.body == self.current()
                    &&& !self.has_compressor() ==> !last.compressed
                    &&& r@ == spec_frames(#[trigger] self.blocks().push(last))
                    &&& spec_stream_of(
                        self.blocks().push(last),
                        r@,
                        self.appended(),
                        !self.has_compressor(),
                    )
                    &&& spec_blocks_packed::<Comp>(self.blocks().push(last))
                },
            r@.len() <= (self.appended().len() / (SIZE as nat) + 1) * (SIZE + 2),
            spec_stream(r@, self.appended(), !self.has_compressor()),
    {
        let mut writer = self;
        writer.flush();
        proof {
            let last = writer.blocks().last();
            assert(writer.blocks() =~= self.blocks().push(last));
            assert(self.blocks().push(last).drop_last() =~= self.blocks());
            lemma_push_block(self.blocks(), last);
            lemma_frames_len(writer.blocks());
            lemma_bodies_len(self.blocks());
            assert(self.appended().len() / (SIZE as nat) == self.blocks().len());
            assert(spec_stream_of(
                self.blocks().push(last),
                writer.output@,
                self.appended(),
                !self.has_compressor(),
            ));
        }
        writer.output
    }

    /// Emits the buffer as one block and empties it.
    fn flush(&mut self)
        requires
            old(self).output_wf(),
            old(self).current().len() <= SIZE,
        ensures
            final(self).output_wf(),
            final(self).current() == Seq::<u8>::empty(),
            final(self).has_compressor() == old(self).has_compressor(),
            final(self).blocks().len() == old(self).blocks().len() + 1,
            final(self).blocks().drop_last() == old(self).blocks(),
            final(self).blocks().last().body == old(self).current(),
            final(self).blocks().last().wf(),
            !old(self).has_compressor() ==> !final(self).blocks().last().compressed,
            old(self).current().len() == SIZE && spec_blocks_full(old(self).blocks())
                ==> spec_blocks_full(final(self).blocks()),
    {
        let ghost body = self.current_block@;
        let ghost block;
        match &mut self.compressor {
            Some(compressor) => {
                let (len, compressed) = compress_or_copy(
                    compressor,
                    self.current_block.as_slice(),
                    &mut self.scratch,
                );
                let stored = slice_subrange(self.scratch.as_slice(), 0, len);
                proof {
                    block = Metablock { body, stored: stored@, compressed };
                    if !compressed {
                        assert(stored@ =~= body);
                    } else {
                        assert(stored@ == self.scratch@.subrange(0, len as int));
                        assert(Comp::spec_packs(body, stored@));
                    }
                }
                write_output(&mut self.output, stored, compressed);
            },
            None => {
                proof {
                    block = Metablock { body, stored: body, compressed: false };
                }
                write_output(&mut self.output, self.current_block.as_slice(), false);
            },
        }
        self.current_block.clear();
        proof {
            lemma_push_block(self.blocks@, block);
            self.blocks@ = self.blocks@.push(block);
            assert(self.blocks@.drop_last() =~= old(self).blocks());
            assert(spec_blocks_packed::<Comp>(self.blocks@)) by {
                reveal(spec_blocks_packed);
                assert forall|i: int| 0 <= i < self.blocks@.len() implies ((
                #[trigger] self.blocks@[i]).compressed ==> Comp::spec_packs(
                    self.blocks@[i].body,
                    self.blocks@[i].stored,
                )) by {
                    if i < old(self).blocks().len() {
                        assert(self.blocks@[i] == old(self).blocks()[i]);
                    }
                }
            }
        }
    }
}

/// The output of a writer whose stream holds at most `bound` bytes once
/// `len` more are appended stays close to that bound: it is larger by at
/// most one part in 4096.
pub proof fn lemma_output_bound<Comp: Compressor>(
    writer: &MetablockWriter<Comp>,
    len: nat,
    bound: nat,
)
    requires
        writer.wf(),
        writer.appended().len() + len <= bound,
    ensures
        writer.spec_output_bound(len) * 4096 <= bound * 4097,
        writer.output().len() * 4096 <= bound * 4097,
{
    lemma_bodies_len(writer.blocks());
    lemma_frames_len(writer.blocks());
    let b = writer.blocks().len();
    let c = writer.current().len();
    let q = (c + len) / (SIZE as nat);
    vstd::arithmetic::div_mod::lemma_fundamental_div_mod((c + len) as int, SIZE as int);
    assert(q * SIZE <= c + len) by (nonlinear_arith)
        requires
            c + len == SIZE * q + (c + len) % (SIZE as nat),
    ;
    assert((b + q) * SIZE <= bound) by (nonlinear_arith)
        requires
            b * SIZE + c + len <= bound,
            q * SIZE <= c + len,
    ;
    assert((b * (SIZE + 2) + q * (SIZE + 2)) * 4096 <= bound * 4097) by (nonlinear_arith)
        requires
            (b + q) * SIZE <= bound,
            SIZE == 8192,
    ;
    assert(q * ((SIZE + 2) as nat) == q * (SIZE + 2));
    assert(b * (SIZE + 2) * 4096 <= (b * (SIZE + 2) + q * (SIZE + 2)) * 4096) by (nonlinear_arith)
        requires
            q >= 0,
            SIZE == 8192,
    ;
}

/// The output of a writer is made of blocks of at most 8 KiB, on disk and
/// uncompressed, and the bodies of the blocks, one after the other, with the
/// bytes still in the buffer are the bytes that were appended.
pub proof fn lemma_stream_decomposes<Comp: Compressor>(writer: &MetablockWriter<Comp>)
    requires
        writer.wf(),
    ensures
        writer.output() == spec_frames(writer.blocks()),
        spec_bodies(writer.blocks()) + writer.current() == writer.appended(),
        forall|i: int|
            0 <= i < writer.blocks().len() ==> (#[trigger] writer.blocks()[i]).body.len() <= SIZE
                && writer.blocks()[i].stored.len() <= SIZE,
        writer.appended().len() == writer.blocks().len() * SIZE + writer.current().len(),
        writer.current().len() == writer.appended().len() % (SIZE as nat),
{
    lemma_bodies_len(writer.blocks());
    vstd::arithmetic::div_mod::lemma_fundamental_div_mod_converse(
        writer.appended().len() as int,
        SIZE as int,
        writer.blocks().len() as int,
        writer.current().len() as int,
    );
}

} // verus!
