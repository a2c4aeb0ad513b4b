//! Tables stored in two levels.
//!
//! The records of such a table are packed one after the other into a stream
//! of metadata blocks. The size of a record divides 8 KiB, so no record
//! straddles two blocks. Whenever the first record of a block is written,
//! the table notes where that block starts in the output, so that record
//! `n` is found in the block of index entry `n / (8192 / size)`.

use crate::bytes::append_bytes;
use crate::compression::AnyCodec;
use crate::compression::Compressor;
use crate::packed::PackedStruct;
use crate::repr::metablock::SIZE;
use crate::write::metablock_writer::lemma_bodies_len;
use crate::write::metablock_writer::lemma_frames_len;
use crate::write::metablock_writer::lemma_push_block;
use crate::write::metablock_writer::spec_blocks_full;
use crate::write::metablock_writer::spec_blocks_plain;
use crate::write::metablock_writer::spec_blocks_wf;
use crate::write::metablock_writer::spec_bodies;
use crate::write::metablock_writer::spec_frames;
use crate::write::metablock_writer::Metablock;
use crate::write::metablock_writer::MetablockWriter;
use vstd::arithmetic::div_mod::lemma_fundamental_div_mod;
use vstd::arithmetic::div_mod::lemma_fundamental_div_mod_converse;
use vstd::prelude::*;

verus! {

/// The packed forms of the records, one after the other.
pub open spec fn spec_packed_all<T: PackedStruct>(items: Seq<T>) -> Seq<u8>
    decreases items.len(),
{
    if items.len() == 0 {
        Seq::empty()
    } else {
        spec_packed_all(items.drop_last()) + items.last().spec_to_packed()
    }
}

/// One more record adds its packed form.
pub proof fn lemma_packed_all_push<T: PackedStruct>(items: Seq<T>, item: T)
    ensures
        spec_packed_all(items.push(item)) == spec_packed_all(items) + item.spec_to_packed(),
{
    assert(items.push(item).drop_last() =~= items);
}

/// The packed records take as many bytes as there are records, times the
/// size of one.
pub proof fn lemma_packed_all_len<T: PackedStruct>(items: Seq<T>)
    ensures
        spec_packed_all(items).len() == items.len() * T::spec_size(),
    decreases items.len(),
{
    if items.len() > 0 {
        lemma_packed_all_len(items.drop_last());
        items.last().lemma_round_trip();
        assert((items.len() - 1) * T::spec_size() + T::spec_size() == items.len() * T::spec_size())
            by (nonlinear_arith);
    } else {
        assert(0 * T::spec_size() == 0) by (nonlinear_arith);
    }
}

/// How the position in a block and the number of full blocks move when one
/// more record is counted, with `per` records to a block.
pub proof fn lemma_count_step(n: nat, per: nat)
    requires
        per > 0,
    ensures
        n % per + 1 < per ==> (n + 1) % per == n % per + 1 && (n + 1) / per == n / per,
        n % per + 1 >= per ==> (n + 1) % per == 0 && (n + 1) / per == n / per + 1,
{
    lemma_fundamental_div_mod(n as int, per as int);
    let d = per as int;
    let q = n as int / d;
    let r = n as int % d;
    assert(q * d == d * q) by (nonlinear_arith);
    if r + 1 < per {
        lemma_fundamental_div_mod_converse(n as int + 1, d, q, r + 1);
    } else {
        assert((q + 1) * d == d * q + d) by (nonlinear_arith);
        lemma_fundamental_div_mod_converse(n as int + 1, d, q + 1, 0);
    }
}

/// The number of index entries of a table of `n` records, with `per`
/// records to a block: one for every block that holds records.
pub open spec fn spec_index_len(n: nat, per: nat) -> nat {
    if n % per == 0 {
        n / per
    } else {
        n / per + 1
    }
}

/// Whether `data` and `index` are a finished table of `items`.
///
/// The data are the frames of metadata blocks whose bodies, one after the
/// other, are the packed records. Every block but the last is full, and no
/// block is compressed where `plain` holds. The index has one entry for
/// every block that holds records: the place in the data where the block
/// starts, so the first entry is 0.
pub open spec fn spec_table_image<T: PackedStruct>(
    items: Seq<T>,
    plain: bool,
    data: Seq<u8>,
    index: Seq<u32>,
) -> bool {
    exists|blocks: Seq<Metablock>|
        {
            &&& blocks.len() == items.len() / ((SIZE as nat) / T::spec_size()) + 1
            &&& spec_blocks_wf(blocks)
            &&& plain ==> spec_blocks_plain(blocks)
            &&& spec_blocks_full(blocks.drop_last())
            &&& spec_bodies(blocks) == spec_packed_all(items)
            &&& data == #[trigger] spec_frames(blocks)
            &&& index.len() == spec_index_len(items.len(), (SIZE as nat) / T::spec_size())
            &&& forall|j: int|
                0 <= j < index.len() ==> (#[trigger] index[j]) == spec_frames(
                    blocks.subrange(0, j),
                ).len()
        }
}

/// A table stored in two levels: the stream of packed records, and the index
/// of the places where its metadata blocks start.
pub struct Table<T: PackedStruct, Comp: Compressor> {
    data_writer: MetablockWriter<Comp>,
    index: Vec<u32>,
    items: Ghost<Seq<T>>,
}

impl<T: PackedStruct, Comp: Compressor> Table<T, Comp> {
    /// The records written so far.
    pub closed spec fn items(&self) -> Seq<T> {
        self.items@
    }

    /// The index noted so far.
    pub closed spec fn index(&self) -> Seq<u32> {
        self.index@
    }

    /// The stream that holds the records.
    pub closed spec fn writer(&self) -> MetablockWriter<Comp> {
        self.data_writer
    }

    /// The size of a record is positive, less than 8 KiB, and divides 8 KiB.
    pub open spec fn spec_record_fits() -> bool {
        &&& 0 < T::spec_size() < SIZE
        &&& (SIZE as nat) % T::spec_size() == 0
    }

    /// The number of records that a metadata block holds.
    pub open spec fn spec_per_block() -> nat {
        (SIZE as nat) / T::spec_size()
    }

    /// The stream holds the packed records. Every block of it holds
    /// `spec_per_block()` records, and the index holds, for each block that
    /// has a record, where the block starts in the output.
    pub open spec fn wf(&self) -> bool {
        &&& Self::spec_record_fits()
        &&& self.writer().wf()
        &&& self.writer().appended() == spec_packed_all(self.items())
        &&& self.writer().blocks().len() == self.items().len() / Self::spec_per_block()
        &&& self.writer().current().len() == (self.items().len() % Self::spec_per_block())
            * T::spec_size()
        &&& self.writer().output().len() <= u32::MAX
        &&& self.index().len() == spec_index_len(self.items().len(), Self::spec_per_block())
        &&& forall|j: int|
            0 <= j < self.index().len() ==> (#[trigger] self.index()[j]) == spec_frames(
                self.writer().blocks().subrange(0, j),
            ).len()
    }

    /// One more full block still fits below 4 GiB of output.
    pub open spec fn spec_has_room(&self) -> bool {
        self.writer().output().len() + SIZE + 2 <= u32::MAX
    }

    pub fn new(compressor: Option<Comp>) -> (r: Self)
        requires
            Self::spec_record_fits(),
        ensures
            r.wf(),
            r.items() == Seq::<T>::empty(),
            r.index() == Seq::<u32>::empty(),
            r.writer().has_compressor() == compressor is Some,
            r.writer().output() == Seq::<u8>::empty(),
    {
        Self::with_capacity(compressor, 0)
    }

    /// A table with room for `cap` bytes of output.
    pub fn with_capacity(compressor: Option<Comp>, cap: usize) -> (r: Self)
        requires
            Self::spec_record_fits(),
        ensures
            r.wf(),
            r.items() == Seq::<T>::empty(),
            r.index() == Seq::<u32>::empty(),
            r.writer().has_compressor() == compressor is Some,
            r.writer().output() == Seq::<u8>::empty(),
    {
        let table = Table {
            data_writer: MetablockWriter::with_capacity(compressor, cap),
            index: Vec::new(),
            items: Ghost(Seq::empty()),
        };
        proof {
            let per = Self::spec_per_block();
            lemma_fundamental_div_mod(SIZE as int, T::spec_size() as int);
            assert(per > 0) by (nonlinear_arith)
                requires
                    SIZE == T::spec_size() * per,
                    T::spec_size() > 0,
            ;
            lemma_fundamental_div_mod_converse(0, per as int, 0, 0);
            assert(0 * T::spec_size() == 0) by (nonlinear_arith);
            assert(table.writer().appended() =~= spec_packed_all(table.items()));
        }
        table
    }

    /// A table of at most 262144 records has room for one more.
    pub proof fn lemma_has_room(&self)
        requires
            self.wf(),
            self.items().len() <= 0x4_0000,
        ensures
            self.spec_has_room(),
    {
        let per = Self::spec_per_block();
        lemma_frames_len(self.writer().blocks());
        lemma_fundamental_div_mod(SIZE as int, T::spec_size() as int);
        assert(per >= 1) by (nonlinear_arith)
            requires
                SIZE == T::spec_size() * per,
                T::spec_size() > 0,
        ;
        vstd::arithmetic::div_mod::lemma_div_is_ordered_by_denominator(
            self.items().len() as int,
            1,
            per as int,
        );
        let b = self.writer().blocks().len();
        assert(b * (SIZE + 2) <= 0x4_0000 * (SIZE + 2)) by (nonlinear_arith)
            requires
                b <= 0x4_0000,
        ;
    }

    /// Whether one more record can be written.
    pub fn has_room(&self) -> (r: bool)
        ensures
            r == self.spec_has_room(),
    {
        self.data_writer.output_len() <= u32::MAX as usize - SIZE - 2
    }

    /// Appends a record.
    pub fn write(&mut self, item: &T)
        requires
            old(self).wf(),
            old(self).spec_has_room(),
        ensures
            final(self).wf(),
            final(self).items() == old(self).items().push(*item),
            final(self).writer().has_compressor() == old(self).writer().has_compressor(),
            final(self).writer().blocks().len() >= old(self).writer().blocks().len(),
            old(self).writer().blocks() =~= final(self).writer().blocks().subrange(
                0,
                old(self).writer().blocks().len() as int,
            ),
            old(self).index() =~= final(self).index().subrange(0, old(self).index().len() as int),
    {
        let ghost size = T::spec_size();
        let ghost per = Self::spec_per_block();
        let ghost n = self.items@.len();
        let ghost old_blocks = self.data_writer.blocks();
        proof {
            item.lemma_round_trip();
            lemma_fundamental_div_mod(SIZE as int, size as int);
            assert(per > 0) by (nonlinear_arith)
                requires
                    SIZE == size * per,
                    size > 0,
            ;
            lemma_count_step(n, per);
            lemma_fundamental_div_mod(n as int, per as int);
            lemma_bodies_len(old_blocks);
            lemma_frames_len(old_blocks);
            // the buffer holds whole records, so one more still fits
            let filled = n % per;
            assert(filled * size + size == (filled + 1) * size) by (nonlinear_arith);
            assert((filled + 1) * size <= per * size) by (nonlinear_arith)
                requires
                    filled + 1 <= per,
                    size > 0,
            ;
            assert(size * per == per * size) by (nonlinear_arith);
            assert((filled + 1) * size > 0) by (nonlinear_arith)
                requires
                    size > 0,
                    filled >= 0,
            ;
        }
        let position = self.data_writer.position();
        if position.start_offset() == 0 {
            self.index.push(position.block_start());
        }
        proof {
            let filled = n % per;
            assert((filled * size == 0) == (filled == 0)) by (nonlinear_arith)
                requires
                    size > 0,
                    filled >= 0,
            ;
        }
        let ghost noted = self.index@;
        self.data_writer.write(item);
        proof {
            self.items@ = self.items@.push(*item);
            lemma_packed_all_push(old(self).items(), *item);
            lemma_bodies_len(self.data_writer.blocks());
            lemma_frames_len(self.data_writer.blocks());
            assert(0 * size == 0) by (nonlinear_arith);
            let new_blocks = self.data_writer.blocks();
            let filled = n % per;
            assert(self.data_writer.appended().len() == old(self).writer().appended().len()
                + size);
            if filled + 1 < per {
                assert((filled + 1) * size < per * size) by (nonlinear_arith)
                    requires
                        filled + 1 < per,
                        size > 0,
                ;
                assert(new_blocks.len() == old_blocks.len());
                assert(new_blocks =~= old_blocks);
            } else {
                assert((filled + 1) * size == per * size) by (nonlinear_arith)
                    requires
                        filled + 1 == per,
                ;
                assert(new_blocks.len() == old_blocks.len() + 1);
            }
            assert(old_blocks.subrange(0, old_blocks.len() as int) =~= old_blocks);
            assert forall|j: int| 0 <= j < self.index@.len() implies (#[trigger] self.index@[j])
                == spec_frames(new_blocks.subrange(0, j)).len() by {
                assert(j <= old_blocks.len());
                assert(new_blocks.subrange(0, j) =~= old_blocks.subrange(0, j));
            }
        }
    }

    /// Ends the stream and hands out its bytes and the index.
    pub fn finish(self) -> (r: (Vec<u8>, Vec<u32>))
        requires
            self.wf(),
        ensures
            r.1@ == self.index(),
            spec_table_image(self.items(), !self.writer().has_compressor(), r.0@, r.1@),
    {
        let ghost blocks = self.data_writer.blocks();
        let table_data = self.data_writer.finish();
        proof {
            let last = choose|last: Metablock|
                {
                    &&& last.wf()
                    &&& last.body == self.data_writer.current()
                    &&& !self.data_writer.has_compressor() ==> !last.compressed
                    &&& table_data@ == spec_frames(#[trigger] blocks.push(last))
                };
            let all = blocks.push(last);
            lemma_push_block(blocks, last);
            assert(all.drop_last() =~= blocks);
            assert forall|j: int| 0 <= j < self.index@.len() implies (#[trigger] self.index@[j])
                == spec_frames(all.subrange(0, j)).len() by {
                assert(all.subrange(0, j) =~= blocks.subrange(0, j));
            }
            assert(table_data@ == spec_frames(all));
        }
        (table_data, self.index)
    }
}

/// The 64-bit little-endian forms of `base` plus each entry of an index.
pub open spec fn spec_index_bytes(base: u64, index: Seq<u32>) -> Seq<u8>
    decreases index.len(),
{
    if index.len() == 0 {
        Seq::empty()
    } else {
        spec_index_bytes(base, index.drop_last()) + ((base + index.last()) as u64).spec_to_packed()
    }
}

/// Appends the absolute offsets of the metadata blocks of a table: `base`
/// plus each entry of its index, as 64-bit numbers.
pub fn write_index(out: &mut Vec<u8>, base: u64, index: &Vec<u32>)
    requires
        base <= u64::MAX - u32::MAX,
    ensures
        final(out)@ == old(out)@ + spec_index_bytes(base, index@),
{
    let mut i: usize = 0;
    assert(index@.subrange(0, 0) =~= Seq::<u32>::empty());
    assert(out@ =~= old(out)@ + spec_index_bytes(base, index@.subrange(0, 0)));
    while i < index.len()
        invariant
            i <= index@.len(),
            base <= u64::MAX - u32::MAX,
            out@ == old(out)@ + spec_index_bytes(base, index@.subrange(0, i as int)),
        decreases index@.len() - i,
    {
        let block_offset: u64 = base + index[i] as u64;
        block_offset.pack_into(out);
        proof {
            let next = index@.subrange(0, i + 1);
            assert(next.drop_last() =~= index@.subrange(0, i as int));
            assert(out@ =~= old(out)@ + spec_index_bytes(base, next));
        }
        i += 1;
    }
    assert(index@.subrange(0, i as int) =~= index@);
}

/// The offsets of an index take eight bytes each.
pub proof fn lemma_index_bytes_len(base: u64, index: Seq<u32>)
    ensures
        spec_index_bytes(base, index).len() == 8 * index.len(),
    decreases index.len(),
{
    if index.len() > 0 {
        lemma_index_bytes_len(base, index.drop_last());
        ((base + index.last()) as u64).lemma_round_trip();
    }
}

/// A finished table has at most one index entry for each of its blocks,
/// and takes at most 8 KiB and two bytes for each block.
pub proof fn lemma_table_image_len<T: PackedStruct>(
    items: Seq<T>,
    plain: bool,
    data: Seq<u8>,
    index: Seq<u32>,
)
    requires
        spec_table_image(items, plain, data, index),
    ensures
        index.len() <= items.len() / ((SIZE as nat) / T::spec_size()) + 1,
        data.len() <= (items.len() / ((SIZE as nat) / T::spec_size()) + 1) * (SIZE + 2),
{
    let blocks = choose|blocks: Seq<Metablock>|
        {
            &&& blocks.len() == items.len() / ((SIZE as nat) / T::spec_size()) + 1
            &&& spec_blocks_wf(blocks)
            &&& plain ==> spec_blocks_plain(blocks)
            &&& spec_blocks_full(blocks.drop_last())
            &&& spec_bodies(blocks) == spec_packed_all(items)
            &&& data == #[trigger] spec_frames(blocks)
            &&& index.len() == spec_index_len(items.len(), (SIZE as nat) / T::spec_size())
            &&& forall|j: int|
                0 <= j < index.len() ==> (#[trigger] index[j]) == spec_frames(
                    blocks.subrange(0, j),
                ).len()
        };
    lemma_frames_len(blocks);
}

/// Whether a table of `n` records is sure to be written, with `per` records
/// to a block: its stream stays below 4 GiB also where no block is
/// compressed.
pub open spec fn spec_table_fits(n: nat, per: nat) -> bool {
    n == 0 || ((n - 1) / (per as int) + 1) * (SIZE + 2) <= u32::MAX
}

/// Appends a table of the given records to `out`: the stream of the packed
/// records, then the absolute offsets of its metadata blocks, for a table
/// that starts at `start_offset` in the archive. The result is the number of
/// bytes of the stream; it is `None`, and nothing is appended, where the
/// stream would grow beyond 4 GiB. For a table that is not compressed that
/// is exactly where `spec_table_fits` fails; a table that is compressed may
/// be written also there.
pub fn write_table<T: PackedStruct>(
    out: &mut Vec<u8>,
    records: &Vec<T>,
    start_offset: u64,
    compressor: Option<AnyCodec>,
) -> (r: Option<usize>)
    requires
        Table::<T, AnyCodec>::spec_record_fits(),
        start_offset <= u64::MAX - u32::MAX,
    ensures
        r matches Some(len) ==> exists|data: Seq<u8>, index: Seq<u32>|
            {
                &&& #[trigger] spec_table_image(records@, compressor is None, data, index)
                &&& final(out)@ == old(out)@ + data + spec_index_bytes(start_offset, index)
                &&& data.len() == len
            },
        r matches Some(len) ==> final(out)@.len() >= old(out)@.len() + len,
        final(out)@.len() >= old(out)@.len(),
        final(out)@.len() <= old(out)@.len() + (records@.len() + 1) * (SIZE + 10),
        r is None ==> final(out)@ == old(out)@,
        records@.len() <= 0x4_0000 ==> r is Some,
        spec_table_fits(records@.len(), Table::<T, AnyCodec>::spec_per_block()) ==> r is Some,
        compressor is None ==> (r is Some <==> spec_table_fits(
            records@.len(),
            Table::<T, AnyCodec>::spec_per_block(),
        )),
        old(out)@ == final(out)@.subrange(0, old(out)@.len() as int),
{
    let mut table: Table<T, AnyCodec> = Table::with_capacity(compressor, records.len());
    let mut i: usize = 0;
    assert(table.items() =~= records@.subrange(0, 0));
    while i < records.len()
        invariant
            i <= records@.len(),
            table.wf(),
            table.writer().has_compressor() == compressor is Some,
            table.items() == records@.subrange(0, i as int),
            out@ == old(out)@,
            compressor is None ==> spec_table_fits(
                i as nat,
                Table::<T, AnyCodec>::spec_per_block(),
            ),
        decreases records@.len() - i,
    {
        proof {
            let per = Table::<T, AnyCodec>::spec_per_block();
            lemma_frames_len(table.writer().blocks());
            if compressor is None {
                crate::write::metablock_writer::lemma_frames_len_plain(table.writer().blocks());
            }

            lemma_fundamental_div_mod(SIZE as int, T::spec_size() as int);
            assert(per >= 1) by (nonlinear_arith)
                requires
                    SIZE == T::spec_size() * per,
                    T::spec_size() > 0,
            ;
            vstd::arithmetic::div_mod::lemma_div_is_ordered_by_denominator(
                i as int,
                1,
                per as int,
            );
            vstd::arithmetic::div_mod::lemma_div_is_ordered(
                i as int,
                records@.len() - 1,
                per as int,
            );
            assert(table.writer().blocks().len() <= i);
            assert(table.writer().blocks().len() * (SIZE + 2) <= i * (SIZE + 2))
                by (nonlinear_arith)
                requires
                    table.writer().blocks().len() <= i,
            ;
        }
        if !table.has_room() {
            assert(old(out)@ =~= out@.subrange(0, old(out)@.len() as int));
            return None;
        }
        table.write(&records[i]);
        assert(table.items() =~= records@.subrange(0, i + 1));
        i += 1;
    }
    assert(records@.subrange(0, i as int) =~= records@);
    let (data_table, indexes) = table.finish();
    append_bytes(out, data_table.as_slice());
    write_index(out, start_offset, &indexes);
    assert(spec_table_image(records@, compressor is None, data_table@, indexes@));
    assert(old(out)@ =~= out@.subrange(0, old(out)@.len() as int));
    proof {
        let per = Table::<T, AnyCodec>::spec_per_block();
        lemma_table_image_len(records@, compressor is None, data_table@, indexes@);
        lemma_index_bytes_len(start_offset, indexes@);
        lemma_fundamental_div_mod(SIZE as int, T::spec_size() as int);
        assert(per >= 1) by (nonlinear_arith)
            requires
                SIZE == T::spec_size() * per,
                T::spec_size() > 0,
        ;
        vstd::arithmetic::div_mod::lemma_div_is_ordered_by_denominator(
            records@.len() as int,
            1,
            per as int,
        );
        let k = indexes@.len();
        let q = records@.len() / per;
        assert((q + 1) * (SIZE + 2) + 8 * k <= (records@.len() + 1) * (SIZE + 10))
            by (nonlinear_arith)
            requires
                q <= records@.len(),
                k <= q + 1,
        ;
    }
    Some(data_table.len())
}

} // verus!
