//! The table of user and group IDs.
//!
//! The IDs of an archive are stored once each, in the order in which they
//! were first seen, and inodes refer to them by a 16-bit index. The set is
//! an `IndexSet` of the `indexmap` crate.

use crate::bytes::append_bytes;
use crate::compression::AnyCodec;
use crate::packed::PackedStruct;
use crate::repr::uid_gid::Id;
use crate::repr::uid_gid::Idx;
use crate::write::metablock_writer::lemma_frames_len;
use crate::write::two_level;
use crate::write::two_level::spec_index_bytes;
use crate::write::two_level::spec_table_image;
use crate::write::two_level::write_index;
use indexmap::IndexSet;
use vstd::prelude::*;

verus! {

/// The most IDs that an archive can hold.
pub const MAX_IDS: usize = 0xFFFF;

/// The insertion-ordered set of the `indexmap` crate.
#[verifier::external_type_specification]
#[verifier::external_body]
#[verifier::reject_recursive_types(T)]
#[verifier::reject_recursive_types(S)]
pub struct ExIndexSet<T, S>(IndexSet<T, S>);

/// The IDs that a set holds, in the order of their insertion.
pub uninterp spec fn spec_id_seq(set: IndexSet<u32>) -> Seq<u32>;

/// `IndexSet::new`: a set that holds nothing.
#[verifier::external_body]
fn id_set_new() -> (set: IndexSet<u32>)
    ensures
        spec_id_seq(set) == Seq::<u32>::empty(),
{
    IndexSet::new()
}

/// `IndexSet::insert_full`. Where the set holds the ID already, it stays as
/// it is, and the result is the index of the ID and `false`. Where it does
/// not, the ID goes to the end, and the result is its index there and `true`.
#[verifier::external_body]
fn id_set_insert_full(set: &mut IndexSet<u32>, id: u32) -> (r: (usize, bool))
    ensures
        spec_id_seq(*old(set)).contains(id) ==> {
            &&& !r.1
            &&& spec_id_seq(*final(set)) == spec_id_seq(*old(set))
            &&& r.0 < spec_id_seq(*old(set)).len()
            &&& spec_id_seq(*old(set))[r.0 as int] == id
        },
        !spec_id_seq(*old(set)).contains(id) ==> {
            &&& r.1
            &&& spec_id_seq(*final(set)) == spec_id_seq(*old(set)).push(id)
            &&& r.0 == spec_id_seq(*old(set)).len()
        },
{
    set.insert_full(id)
}

/// `IndexSet::len`: the number of IDs in the set.
#[verifier::external_body]
fn id_set_len(set: &IndexSet<u32>) -> (n: usize)
    ensures
        n == spec_id_seq(*set).len(),
{
    set.len()
}

/// `IndexSet::get_index_of`: the index of the ID, or `None` where the set
/// does not hold it.
#[verifier::external_body]
fn id_set_get_index_of(set: &IndexSet<u32>, id: u32) -> (r: Option<usize>)
    ensures
        r matches Some(i) ==> i < spec_id_seq(*set).len() && spec_id_seq(*set)[i as int] == id,
        r is None ==> !spec_id_seq(*set).contains(id),
{
    set.get_index_of(&id)
}

/// `IndexSet::get_index`: the ID at the index, or `None` where the index is
/// not below the length.
#[verifier::external_body]
fn id_set_get_index(set: &IndexSet<u32>, index: usize) -> (r: Option<u32>)
    ensures
        index < spec_id_seq(*set).len() ==> r == Some(spec_id_seq(*set)[index as int]),
        index >= spec_id_seq(*set).len() ==> r.is_none(),
{
    set.get_index(index).copied()
}

/// The IDs as records.
pub open spec fn spec_id_records(ids: Seq<u32>) -> Seq<Id> {
    ids.map_values(|id: u32| Id(id))
}

/// The table of the user and group IDs of an archive.
pub struct Table {
    ids: IndexSet<u32>,
}

impl Table {
    /// The IDs of the table, in the order of their indices.
    pub closed spec fn ids(&self) -> Seq<u32> {
        spec_id_seq(self.ids)
    }

    /// No ID occurs twice, and every index fits in 16 bits.
    pub open spec fn wf(&self) -> bool {
        &&& self.ids().no_duplicates()
        &&& self.ids().len() <= MAX_IDS
    }

    pub fn new() -> (r: Table)
        ensures
            r.wf(),
            r.ids() == Seq::<u32>::empty(),
    {
        Table { ids: id_set_new() }
    }

    /// Whether the table holds the ID.
    pub fn contains(&self, id: Id) -> (r: bool)
        ensures
            r == self.ids().contains(id.0),
    {
        id_set_get_index_of(&self.ids, id.0).is_some()
    }

    /// Whether the table holds as many IDs as an archive can.
    pub fn is_full(&self) -> (r: bool)
        ensures
            r == (self.ids().len() >= MAX_IDS),
    {
        id_set_len(&self.ids) >= MAX_IDS
    }

    /// The index of the ID, which is added to the table where it is new.
    pub fn add(&mut self, id: Id) -> (idx: Idx)
        requires
            old(self).wf(),
            old(self).ids().contains(id.0) || old(self).ids().len() < MAX_IDS,
        ensures
            final(self).wf(),
            final(self).ids() == if old(self).ids().contains(id.0) {
                old(self).ids()
            } else {
                old(self).ids().push(id.0)
            },
            idx.0 < final(self).ids().len(),
            final(self).ids()[idx.0 as int] == id.0,
    {
        let (idx, _) = id_set_insert_full(&mut self.ids, id.0);
        Idx(idx as u16)
    }

    /// The number of IDs in the table.
    pub fn len(&self) -> (r: u16)
        requires
            self.wf(),
        ensures
            r == self.ids().len(),
    {
        id_set_len(&self.ids) as u16
    }

    /// The index of an ID that the table holds.
    pub fn get(&self, id: Id) -> (idx: Idx)
        requires
            self.wf(),
            self.ids().contains(id.0),
        ensures
            idx.0 < self.ids().len(),
            self.ids()[idx.0 as int] == id.0,
    {
        match id_set_get_index_of(&self.ids, id.0) {
            Some(idx) => Idx(idx as u16),
            None => Idx(0),
        }
    }

    /// Appends the table to `out`: the stream of the IDs, then the absolute
    /// offsets of its metadata blocks, for a table that starts at
    /// `start_offset` in the archive.
    ///
    /// The result is the number of bytes of the stream: the offsets start
    /// behind them.
    pub fn write_at(&self, out: &mut Vec<u8>, start_offset: u64, compressor: Option<AnyCodec>) -> (r:
        usize)
        requires
            self.wf(),
            start_offset <= u64::MAX - u32::MAX,
        ensures
            exists|data: Seq<u8>, index: Seq<u32>|
                {
                    &&& #[trigger] spec_table_image(
                        spec_id_records(self.ids()),
                        compressor is None,
                        data,
                        index,
                    )
                    &&& final(out)@ == old(out)@ + data + spec_index_bytes(start_offset, index)
                    &&& data.len() == r
                },
            final(out)@.len() >= old(out)@.len() + r,
            final(out)@.len() <= old(out)@.len() + 0x5_0000,
            old(out)@ == final(out)@.subrange(0, old(out)@.len() as int),
    {
        let count = id_set_len(&self.ids);
        let mut table: two_level::Table<Id, AnyCodec> = two_level::Table::with_capacity(
            compressor,
            count,
        );
        let mut i: usize = 0;
        assert(table.items() =~= spec_id_records(self.ids().subrange(0, 0)));
        while i < count
            invariant
                i <= count,
                count == self.ids().len(),
                count <= MAX_IDS,
                table.wf(),
                table.writer().has_compressor() == compressor is Some,
                table.items() == spec_id_records(self.ids().subrange(0, i as int)),
            decreases count - i,
        {
            proof {
                lemma_frames_len(table.writer().blocks());
            }
            match id_set_get_index(&self.ids, i) {
                Some(id) => {
                    table.write(&Id(id));
                    assert(table.items() =~= spec_id_records(self.ids().subrange(0, i + 1)));
                },
                None => {},
            }
            i += 1;
        }
        assert(self.ids().subrange(0, i as int) =~= self.ids());
        let (data_table, indexes) = table.finish();
        append_bytes(out, data_table.as_slice());
        write_index(out, start_offset, &indexes);
        assert(spec_table_image(
            spec_id_records(self.ids()),
            compressor is None,
            data_table@,
            indexes@,
        ));
        assert(old(out)@ =~= out@.subrange(0, old(out)@.len() as int));
        proof {
            crate::write::two_level::lemma_table_image_len(
                spec_id_records(self.ids()),
                compressor is None,
                data_table@,
                indexes@,
            );
            crate::write::two_level::lemma_index_bytes_len(start_offset, indexes@);
        }
        data_table.len()
    }
}

} // verus!
