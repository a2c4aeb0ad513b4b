//! The writer of the directory table.
//!
//! The listing of a directory is a sequence of runs. A run is a header
//! followed by the entries that share its inode block and whose inode
//! numbers lie within 16 bits of its reference number. A new run starts with
//! the first entry of a listing, after 256 entries, when the inode block
//! changes, when an inode number is out of reach of the reference, and after
//! an entry that crossed a boundary of 8 KiB of the uncompressed table.

use crate::bytes::append_bytes;
use crate::bytes::lemma_concat_assoc;
use crate::compression::Compressor;
use crate::packed::PackedStruct;
use crate::repr::directory;
use crate::repr::inode;
use crate::repr::metablock::Ref;
use crate::repr::metablock::SIZE;
use crate::write::metablock_writer::lemma_bodies_len;
use crate::write::metablock_writer::spec_frames;
use crate::write::metablock_writer::Metablock;
use crate::write::metablock_writer::MetablockWriter;
use vstd::prelude::*;

verus! {

/// The smallest reference number of a header: from it every inode number
/// down to zero is in reach.
pub const MIN_INODE_NUM_REF: u32 = 0x8000;

/// The largest reference number of a header: from it every inode number up
/// to the largest is in reach.
pub const MAX_INODE_NUM_REF: u32 = 0xFFFF_8000;

/// The size of a packed header.
pub const HEADER_SIZE: usize = 12;

/// The size of a packed entry without its name.
pub const ENTRY_SIZE: usize = 8;

/// The longest name of an entry.
pub const MAX_NAME_LEN: usize = 0x1_0000;

/// An entry of a directory: the inode it refers to, and its name.
#[derive(Debug, Clone, PartialEq, Eq)]
pub struct Entry {
    pub inode: inode::Ref,
    pub inode_num: inode::Idx,
    pub inode_kind: inode::Kind,
    pub name: Vec<u8>,
}

/// An entry of a directory, as a value.
pub struct EntryView {
    pub inode: inode::Ref,
    pub inode_num: u32,
    pub kind: inode::Kind,
    pub name: Seq<u8>,
}

impl EntryView {
    /// The name has at least one and at most 65535 bytes.
    pub open spec fn wf(self) -> bool {
        1 <= self.name.len() <= MAX_NAME_LEN
    }

    /// The number of bytes of the entry on disk: the packed entry and the
    /// name.
    pub open spec fn size(self) -> nat {
        ENTRY_SIZE as nat + self.name.len()
    }

    /// The most bytes that the entry adds to a listing: a header, and the
    /// entry itself.
    pub open spec fn cost(self) -> nat {
        HEADER_SIZE as nat + self.size()
    }
}

impl View for Entry {
    type V = EntryView;

    open spec fn view(&self) -> EntryView {
        EntryView {
            inode: self.inode,
            inode_num: self.inode_num.0,
            kind: self.inode_kind,
            name: self.name@,
        }
    }
}

/// The entries as values.
pub open spec fn spec_views(entries: Seq<Entry>) -> Seq<EntryView> {
    entries.map_values(|e: Entry| e@)
}

/// The number of bytes of the entries on disk.
pub open spec fn spec_entries_size(entries: Seq<EntryView>) -> nat
    decreases entries.len(),
{
    if entries.len() == 0 {
        0
    } else {
        spec_entries_size(entries.drop_last()) + entries.last().size()
    }
}

/// The sum of the costs of the entries: the number of bytes of their listing
/// if each stood behind a header of its own.
pub open spec fn spec_cost(entries: Seq<EntryView>) -> nat {
    spec_entries_size(entries) + entries.len() * (HEADER_SIZE as nat)
}

/// The difference of an inode number to a reference number, where it fits
/// in 16 bits.
pub open spec fn spec_inode_diff(ref_num: u32, i: u32) -> Option<i16> {
    if -0x8000 <= i - ref_num <= 0x7FFF {
        Some((i - ref_num) as i16)
    } else {
        None
    }
}

/// The reference number of a run that starts with the given inode number:
/// the number itself, kept between the smallest and the largest reference.
pub open spec fn spec_reference(inode_num: u32) -> u32 {
    if inode_num < MIN_INODE_NUM_REF {
        MIN_INODE_NUM_REF
    } else if inode_num > MAX_INODE_NUM_REF {
        MAX_INODE_NUM_REF
    } else {
        inode_num
    }
}

/// The difference of the inode number `i` to the reference number, where it
/// fits in 16 bits.
pub fn inode_diff(ref_num: inode::Idx, i: inode::Idx) -> (r: Option<i16>)
    ensures
        r == spec_inode_diff(ref_num.0, i.0),
{
    let diff: i64 = i.0 as i64 - ref_num.0 as i64;
    if -0x8000 <= diff && diff <= 0x7FFF {
        Some(diff as i16)
    } else {
        None
    }
}

/// The reference number of a run that starts with `inode_num`.
pub fn reference_for(inode_num: inode::Idx) -> (r: inode::Idx)
    ensures
        r.0 == spec_reference(inode_num.0),
        spec_inode_diff(r.0, inode_num.0) is Some,
{
    if inode_num.0 < MIN_INODE_NUM_REF {
        inode::Idx(MIN_INODE_NUM_REF)
    } else if inode_num.0 > MAX_INODE_NUM_REF {
        inode::Idx(MAX_INODE_NUM_REF)
    } else {
        inode_num
    }
}

/// An entry on disk behind a header with the given reference number: the
/// packed entry, then the name.
pub open spec fn spec_entry_bytes(reference: u32, e: EntryView) -> Seq<u8> {
    directory::Entry {
        offset: e.inode.spec_start_offset(),
        inode_offset: (e.inode_num - reference) as i16,
        kind: e.kind.spec_to_basic(),
        name_size: (e.name.len() - 1) as u16,
    }.spec_to_packed() + e.name
}

/// The entries of a run on disk, one after the other.
pub open spec fn spec_entries_bytes(reference: u32, entries: Seq<EntryView>) -> Seq<u8>
    decreases entries.len(),
{
    if entries.len() == 0 {
        Seq::empty()
    } else {
        spec_entries_bytes(reference, entries.drop_last()) + spec_entry_bytes(
            reference,
            entries.last(),
        )
    }
}

/// Whether a byte range from `from` to `to` of the uncompressed table ends
/// in another block of 8 KiB than it starts in.
pub open spec fn spec_crosses(from: int, to: int) -> bool {
    from / (SIZE as int) != to / (SIZE as int)
}

/// A run of a listing: a header and the entries behind it.
pub struct Run {
    /// Where the block with the inodes of the entries starts.
    pub start: u32,
    /// The reference inode number.
    pub reference: u32,
    pub entries: Seq<EntryView>,
}

impl Run {
    pub open spec fn header(self) -> directory::Header {
        directory::Header {
            count: self.entries.len() as u32,
            start: self.start,
            inode_number: inode::Idx(self.reference),
        }
    }

    /// The run on disk: the header, then the entries.
    pub open spec fn bytes(self) -> Seq<u8> {
        self.header().spec_to_packed() + spec_entries_bytes(self.reference, self.entries)
    }

    /// The number of bytes of the run on disk.
    pub open spec fn size(self) -> nat {
        HEADER_SIZE as nat + spec_entries_size(self.entries)
    }

    /// Whether `e` may stand in the run: its inode lies in the block of the
    /// header, and its inode number is in reach of the reference.
    pub open spec fn takes(self, e: EntryView) -> bool {
        &&& e.wf()
        &&& e.inode.spec_block_idx() == self.start
        &&& spec_inode_diff(self.reference, e.inode_num) is Some
    }

    /// The run has at least one and at most 256 entries, every entry may
    /// stand in it, and the header is made for the first entry.
    pub open spec fn wf(self) -> bool {
        &&& 1 <= self.entries.len() <= directory::MAX_ENTRIES
        &&& forall|i: int| 0 <= i < self.entries.len() ==> self.takes(#[trigger] self.entries[i])
        &&& self.start == self.entries[0].inode.spec_block_idx()
        &&& self.reference == spec_reference(self.entries[0].inode_num)
    }

    /// Whether the entry at `i` crossed a boundary of 8 KiB, for a run whose
    /// header lies `at` bytes into the uncompressed table.
    pub open spec fn crossed(self, at: nat, i: int) -> bool {
        spec_crosses(
            at + HEADER_SIZE + spec_entries_size(self.entries.subrange(0, i)),
            at + HEADER_SIZE + spec_entries_size(self.entries.subrange(0, i + 1)),
        )
    }

    /// No entry but the last crossed a boundary of 8 KiB.
    #[verifier::opaque]
    pub open spec fn uncrossed(self, at: nat) -> bool {
        forall|i: int| 0 <= i < self.entries.len() - 1 ==> !#[trigger] self.crossed(at, i)
    }

    /// Whether the run had to end before `next`: it is full, `next` may not
    /// stand in it, or its last entry crossed a boundary of 8 KiB.
    pub open spec fn closed_before(self, at: nat, next: EntryView) -> bool {
        ||| self.entries.len() >= directory::MAX_ENTRIES
        ||| next.inode.spec_block_idx() != self.start
        ||| spec_inode_diff(self.reference, next.inode_num) is None
        ||| self.crossed(at, self.entries.len() - 1)
    }
}

/// The runs on disk, one after the other.
pub open spec fn spec_listing_bytes(runs: Seq<Run>) -> Seq<u8>
    decreases runs.len(),
{
    if runs.len() == 0 {
        Seq::empty()
    } else {
        spec_listing_bytes(runs.drop_last()) + runs.last().bytes()
    }
}

/// The number of bytes of the runs on disk.
pub open spec fn spec_listing_size(runs: Seq<Run>) -> nat
    decreases runs.len(),
{
    if runs.len() == 0 {
        0
    } else {
        spec_listing_size(runs.drop_last()) + runs.last().size()
    }
}

/// The entries of the runs, one after the other.
pub open spec fn spec_listing_entries(runs: Seq<Run>) -> Seq<EntryView>
    decreases runs.len(),
{
    if runs.len() == 0 {
        Seq::empty()
    } else {
        spec_listing_entries(runs.drop_last()) + runs.last().entries
    }
}

/// Whether `runs` are the listing of a directory that starts `at` bytes into
/// the uncompressed table: every run is well formed and was not ended by an
/// entry before its last, and every run but the last had to end where it
/// does.
#[verifier::opaque]
pub open spec fn spec_listing_wf(runs: Seq<Run>, at: nat) -> bool {
    forall|k: int|
        0 <= k < runs.len() ==> {
            let here = at + spec_listing_size(runs.subrange(0, k));
            &&& (#[trigger] runs[k]).wf()
            &&& runs[k].uncrossed(here)
            &&& k + 1 < runs.len() ==> runs[k].closed_before(here, runs[k + 1].entries[0])
        }
}

/// One more entry adds its bytes and its size.
pub proof fn lemma_entries_push(reference: u32, entries: Seq<EntryView>, e: EntryView)
    ensures
        spec_entries_bytes(reference, entries.push(e)) == spec_entries_bytes(reference, entries)
            + spec_entry_bytes(reference, e),
        spec_entries_size(entries.push(e)) == spec_entries_size(entries) + e.size(),
        spec_cost(entries.push(e)) == spec_cost(entries) + e.cost(),
{
    assert(entries.push(e).drop_last() =~= entries);
}

/// One more run adds its bytes, its size and its entries.
pub proof fn lemma_listing_push(runs: Seq<Run>, run: Run)
    ensures
        spec_listing_bytes(runs.push(run)) == spec_listing_bytes(runs) + run.bytes(),
        spec_listing_size(runs.push(run)) == spec_listing_size(runs) + run.size(),
        spec_listing_entries(runs.push(run)) == spec_listing_entries(runs) + run.entries,
{
    assert(runs.push(run).drop_last() =~= runs);
}

/// The bytes of the entries of a run are as many as their size says.
pub proof fn lemma_entries_bytes_len(reference: u32, entries: Seq<EntryView>)
    ensures
        spec_entries_bytes(reference, entries).len() == spec_entries_size(entries),
    decreases entries.len(),
{
    if entries.len() > 0 {
        lemma_entries_bytes_len(reference, entries.drop_last());
        let e = entries.last();
        directory::Entry {
            offset: e.inode.spec_start_offset(),
            inode_offset: (e.inode_num - reference) as i16,
            kind: e.kind.spec_to_basic(),
            name_size: (e.name.len() - 1) as u16,
        }.lemma_round_trip();
    }
}

/// The bytes of a listing are as many as its size says.
pub proof fn lemma_listing_bytes_len(runs: Seq<Run>)
    ensures
        spec_listing_bytes(runs).len() == spec_listing_size(runs),
    decreases runs.len(),
{
    if runs.len() > 0 {
        lemma_listing_bytes_len(runs.drop_last());
        let run = runs.last();
        run.header().lemma_round_trip();
        lemma_entries_bytes_len(run.reference, run.entries);
    }
}

/// The size of a prefix is at most the size of the whole.
pub proof fn lemma_size_prefix(entries: Seq<EntryView>, k: int)
    requires
        0 <= k <= entries.len(),
    ensures
        spec_entries_size(entries.subrange(0, k)) <= spec_entries_size(entries),
    decreases entries.len(),
{
    if k == entries.len() {
        assert(entries.subrange(0, k) =~= entries);
    } else {
        lemma_size_prefix(entries.drop_last(), k);
        assert(entries.drop_last().subrange(0, k) =~= entries.subrange(0, k));
    }
}

/// A run that takes one more entry, after an entry that did not cross a
/// boundary, stays well formed and uncrossed.
pub proof fn lemma_run_extend(run: Run, e: EntryView, at: nat)
    requires
        run.wf(),
        run.uncrossed(at),
        !run.crossed(at, run.entries.len() - 1),
        run.takes(e),
        run.entries.len() < directory::MAX_ENTRIES,
    ensures
        (Run { entries: run.entries.push(e), ..run }).wf(),
        (Run { entries: run.entries.push(e), ..run }).uncrossed(at),
        (Run { entries: run.entries.push(e), ..run }).crossed(at, run.entries.len() as int)
            == spec_crosses(
            at + HEADER_SIZE + spec_entries_size(run.entries),
            at + HEADER_SIZE + spec_entries_size(run.entries) + e.size(),
        ),
{
    reveal(Run::uncrossed);
    let next = Run { entries: run.entries.push(e), ..run };
    let n = run.entries.len() as int;
    lemma_entries_push(run.reference, run.entries, e);
    assert(next.entries.subrange(0, n) =~= run.entries);
    assert(next.entries.subrange(0, n + 1) =~= next.entries);
    assert forall|i: int| 0 <= i < next.entries.len() implies next.takes(
        #[trigger] next.entries[i],
    ) by {
        if i < n {
            assert(run.takes(run.entries[i]));
        }
    }
    assert forall|i: int| 0 <= i < next.entries.len() - 1 implies !#[trigger] next.crossed(
        at,
        i,
    ) by {
        assert(next.entries.subrange(0, i) =~= run.entries.subrange(0, i));
        assert(next.entries.subrange(0, i + 1) =~= run.entries.subrange(0, i + 1));
        assert(next.crossed(at, i) == run.crossed(at, i));
    }
}

/// A run of one entry, with the header made for that entry, is well formed
/// and uncrossed.
pub proof fn lemma_run_single(e: EntryView, at: nat)
    requires
        e.wf(),
    ensures
        (Run {
            start: e.inode.spec_block_idx(),
            reference: spec_reference(e.inode_num),
            entries: seq![e],
        }).wf(),
        (Run {
            start: e.inode.spec_block_idx(),
            reference: spec_reference(e.inode_num),
            entries: seq![e],
        }).uncrossed(at),
        (Run {
            start: e.inode.spec_block_idx(),
            reference: spec_reference(e.inode_num),
            entries: seq![e],
        }).crossed(at, 0) == spec_crosses(at + HEADER_SIZE, at + HEADER_SIZE + e.size()),
        spec_entries_size(seq![e]) == e.size(),
        spec_cost(seq![e]) == e.cost(),
{
    reveal(Run::uncrossed);
    let entries = seq![e];
    assert(entries.subrange(0, 0) =~= Seq::<EntryView>::empty());
    assert(entries.subrange(0, 1) =~= entries);
    assert(entries.drop_last() =~= Seq::<EntryView>::empty());
}

/// A listing that takes one more run, which the run before had to make way
/// for, stays well formed.
pub proof fn lemma_listing_wf_push(runs: Seq<Run>, run: Run, at: nat)
    requires
        spec_listing_wf(runs, at),
        run.wf(),
        run.uncrossed(at + spec_listing_size(runs)),
        runs.len() > 0 ==> runs.last().closed_before(
            at + spec_listing_size(runs.drop_last()),
            run.entries[0],
        ),
    ensures
        spec_listing_wf(runs.push(run), at),
{
    reveal(spec_listing_wf);
    let next = runs.push(run);
    assert forall|k: int| 0 <= k < next.len() implies {
        let here = at + spec_listing_size(next.subrange(0, k));
        &&& (#[trigger] next[k]).wf()
        &&& next[k].uncrossed(here)
        &&& k + 1 < next.len() ==> next[k].closed_before(here, next[k + 1].entries[0])
    } by {
        if k < runs.len() {
            assert(next.subrange(0, k) =~= runs.subrange(0, k));
            assert(next[k] == runs[k]);
            if k + 1 == runs.len() {
                assert(runs.subrange(0, k) =~= runs.drop_last());
            }
        } else {
            assert(next.subrange(0, k) =~= runs);
        }
    }
}

/// In a well-formed listing every run has at most 256 entries, its entries
/// share the inode block of its header, and their inode numbers are in reach
/// of its reference.
pub proof fn lemma_listing_runs(runs: Seq<Run>, at: nat, k: int, i: int)
    requires
        spec_listing_wf(runs, at),
        0 <= k < runs.len(),
        0 <= i < runs[k].entries.len(),
    ensures
        1 <= runs[k].entries.len() <= 256,
        runs[k].entries[i].inode.spec_block_idx() == runs[k].start,
        -0x8000 <= runs[k].entries[i].inode_num - runs[k].reference <= 0x7FFF,
        1 <= runs[k].entries[i].name.len() <= MAX_NAME_LEN,
{
    reveal(spec_listing_wf);
    assert(runs[k].wf());
    assert(runs[k].takes(runs[k].entries[i]));
}

/// What starts a sequence of blocks that starts another starts that one
/// too.
pub proof fn lemma_blocks_prefix(a: Seq<Metablock>, b: Seq<Metablock>, c: Seq<Metablock>)
    requires
        a.len() <= b.len() <= c.len(),
        a =~= b.subrange(0, a.len() as int),
        b =~= c.subrange(0, b.len() as int),
    ensures
        a == c.subrange(0, a.len() as int),
{
    assert(a =~= c.subrange(0, a.len() as int)) by {
        assert forall|i: int| 0 <= i < a.len() implies a[i] == c[i] by {
            assert(a[i] == b.subrange(0, a.len() as int)[i]);
            assert(b[i] == c.subrange(0, b.len() as int)[i]);
        }
    }
}

/// More bytes to come can only raise the bound on the output.
pub proof fn lemma_bound_monotone<Comp: Compressor>(
    writer: MetablockWriter<Comp>,
    less: nat,
    more: nat,
)
    requires
        less <= more,
    ensures
        writer.spec_output_bound(less) <= writer.spec_output_bound(more),
{
    let a = (writer.current().len() + less) / (SIZE as nat);
    let b = (writer.current().len() + more) / (SIZE as nat);
    assert(a <= b);
    assert(a * (SIZE + 2) <= b * (SIZE + 2)) by (nonlinear_arith)
        requires
            a <= b,
    ;
}

/// What the listing of a directory came to.
pub struct DirectoryInfo {
    header_refs: Vec<Ref>,
    header_offsets: Vec<u32>,
    first_entries: Vec<usize>,
    uncompressed_size: u32,
    runs: Ghost<Seq<Run>>,
}

/// The runs in front of run `k`, and all of them for the run that is still
/// open behind them.
pub open spec fn spec_runs_before(done: Seq<Run>, k: int) -> Seq<Run> {
    if k < done.len() {
        done.subrange(0, k)
    } else {
        done
    }
}

/// Whether the marks are those of the runs, the open one included: for
/// each run the offset of its header from the start of the listing, and the
/// place of its first entry among the entries of the directory.
pub open spec fn spec_marks_ok(
    views: Seq<EntryView>,
    done: Seq<Run>,
    pending: Seq<EntryView>,
    offsets: Seq<u32>,
    firsts: Seq<usize>,
) -> bool {
    let n = done.len() + if pending.len() > 0 {
        1int
    } else {
        0int
    };
    &&& offsets.len() == n
    &&& firsts.len() == n
    &&& forall|k: int|
        0 <= k < n ==> {
            &&& (#[trigger] offsets[k]) == spec_listing_size(spec_runs_before(done, k))
            &&& firsts[k] == spec_listing_entries(spec_runs_before(done, k)).len()
            &&& firsts[k] < views.len()
            &&& k < done.len() ==> done[k].entries.len() > 0 && views[firsts[k] as int]
                == done[k].entries[0]
            &&& k >= done.len() ==> views[firsts[k] as int] == pending[0]
        }
}

/// Whether `later` are the runs `done` with the open run behind them, where
/// that run has any entries.
pub open spec fn spec_run_closed(done: Seq<Run>, pending: Seq<EntryView>, later: Seq<Run>) -> bool {
    if pending.len() == 0 {
        later == done
    } else {
        &&& later.len() == done.len() + 1
        &&& later.drop_last() == done
        &&& later.last().entries == pending
    }
}

/// The number of full blocks in front of the byte that lies `offset` bytes
/// behind the byte `at` of a stream.
pub open spec fn spec_blocks_before(at: nat, offset: u32) -> int {
    (at + offset) / (SIZE as int)
}

/// Whether `place` names the block that has `full` blocks in front of it.
pub open spec fn spec_start_ok(place: Ref, full: int, blocks: Seq<Metablock>) -> bool {
    &&& 0 <= full <= blocks.len()
    &&& place.spec_block_start() == spec_frames(blocks.subrange(0, full)).len()
}

/// Whether every header of a listing lies in the block that its place
/// names: the listing starts `at` bytes into the stream of the blocks, header
/// `k` lies `offsets[k]` bytes behind that, and `refs[k]` says where on disk
/// the block with that byte starts.
pub open spec fn spec_starts_ok(
    refs: Seq<Ref>,
    offsets: Seq<u32>,
    blocks: Seq<Metablock>,
    at: nat,
) -> bool {
    &&& refs.len() == offsets.len()
    &&& forall|k: int|
        0 <= k < refs.len() ==> spec_start_ok(
            #[trigger] refs[k],
            spec_blocks_before(at, offsets[k]),
            blocks,
        )
}

/// The headers stay in their blocks when more blocks are written.
proof fn lemma_starts_kept(
    refs: Seq<Ref>,
    offsets: Seq<u32>,
    blocks: Seq<Metablock>,
    later: Seq<Metablock>,
    at: nat,
)
    requires
        spec_starts_ok(refs, offsets, blocks, at),
        blocks.len() <= later.len(),
        blocks == later.subrange(0, blocks.len() as int),
    ensures
        spec_starts_ok(refs, offsets, later, at),
{
    assert forall|k: int| 0 <= k < refs.len() implies spec_start_ok(
        #[trigger] refs[k],
        spec_blocks_before(at, offsets[k]),
        later,
    ) by {
        let full = spec_blocks_before(at, offsets[k]);
        assert(spec_start_ok(refs[k], full, blocks));
        assert(later.subrange(0, full) =~= blocks.subrange(0, full));
    }
}

/// A header that is about to be written lies in the block that the stream
/// is filling.
proof fn lemma_starts_new<Comp: Compressor>(
    refs: Seq<Ref>,
    offsets: Seq<u32>,
    writer: &MetablockWriter<Comp>,
    at: nat,
    place: Ref,
    offset: u32,
)
    requires
        writer.wf(),
        spec_starts_ok(refs, offsets, writer.blocks(), at),
        place.spec_block_start() == writer.output().len(),
        at + offset == writer.appended().len(),
    ensures
        spec_starts_ok(refs.push(place), offsets.push(offset), writer.blocks(), at),
{
    crate::write::metablock_writer::lemma_stream_decomposes(writer);
    let blocks = writer.blocks();
    let more = refs.push(place);
    let longer = offsets.push(offset);
    vstd::arithmetic::div_mod::lemma_fundamental_div_mod_converse(
        writer.appended().len() as int,
        SIZE as int,
        blocks.len() as int,
        writer.current().len() as int,
    );
    assert(blocks.subrange(0, blocks.len() as int) =~= blocks);
    assert forall|k: int| 0 <= k < more.len() implies spec_start_ok(
        #[trigger] more[k],
        spec_blocks_before(at, longer[k]),
        blocks,
    ) by {
        if k < refs.len() {
            assert(more[k] == refs[k]);
            assert(longer[k] == offsets[k]);
            assert(spec_start_ok(refs[k], spec_blocks_before(at, offsets[k]), blocks));
        } else {
            assert(more[k] == place);
            assert(at + longer[k] == writer.appended().len());
            assert(spec_blocks_before(at, longer[k]) == blocks.len());
        }
    }
}

/// The marks stay when an entry goes into the open run.
proof fn lemma_marks_same(
    views: Seq<EntryView>,
    done: Seq<Run>,
    pending: Seq<EntryView>,
    offsets: Seq<u32>,
    firsts: Seq<usize>,
    e: EntryView,
)
    requires
        spec_marks_ok(views, done, pending, offsets, firsts),
        pending.len() > 0,
    ensures
        spec_marks_ok(views, done, pending.push(e), offsets, firsts),
{
    assert(pending.push(e)[0] == pending[0]);
}

/// The marks stay when the open run is closed.
proof fn lemma_marks_closed(
    views: Seq<EntryView>,
    done: Seq<Run>,
    pending: Seq<EntryView>,
    offsets: Seq<u32>,
    firsts: Seq<usize>,
    later: Seq<Run>,
)
    requires
        spec_marks_ok(views, done, pending, offsets, firsts),
        spec_run_closed(done, pending, later),
    ensures
        spec_marks_ok(views, later, Seq::<EntryView>::empty(), offsets, firsts),
        forall|k: int|
            0 <= k < later.len() ==> (#[trigger] offsets[k]) == spec_listing_size(
                later.subrange(0, k),
            ),
{
    let n = later.len() as int;
    assert(offsets.len() == n);
    assert(firsts.len() == n);
    assert forall|k: int| 0 <= k < n implies {
        &&& (#[trigger] offsets[k]) == spec_listing_size(spec_runs_before(later, k))
        &&& firsts[k] == spec_listing_entries(spec_runs_before(later, k)).len()
        &&& firsts[k] < views.len()
        &&& later[k].entries.len() > 0
        &&& views[firsts[k] as int] == later[k].entries[0]
        &&& offsets[k] == spec_listing_size(later.subrange(0, k))
    } by {
        let mark = offsets[k];
        assert(mark == spec_listing_size(spec_runs_before(done, k)));
        assert(firsts[k] == spec_listing_entries(spec_runs_before(done, k)).len());
        assert(firsts[k] < views.len());
        if pending.len() == 0 {
            assert(later == done);
            assert(done[k].entries.len() > 0);
        } else if k < done.len() {
            assert(later.subrange(0, k) =~= done.subrange(0, k));
            assert(later[k] == later.drop_last()[k]);
            assert(later[k] == done[k]);
            assert(done[k].entries.len() > 0);
        } else {
            assert(k == done.len());
            assert(later.subrange(0, k) =~= later.drop_last());
            assert(later.subrange(0, k) == done);
            assert(later[k] == later.last());
            assert(later[k].entries == pending);
            assert(views[firsts[k] as int] == pending[0]);
        }
        assert(spec_runs_before(later, k) == later.subrange(0, k));
        assert(spec_runs_before(done, k) == later.subrange(0, k));
    }
}

/// The runs with one more run behind them are the runs with the open run
/// closed, where the run has the entries of the open run.
proof fn lemma_closed_by_push(done: Seq<Run>, run: Run, pending: Seq<EntryView>)
    requires
        pending.len() > 0,
        run.entries == pending,
    ensures
        spec_run_closed(done, pending, done.push(run)),
{
    assert(done.push(run).drop_last() =~= done);
}

/// One more mark stands for the run that an entry starts behind the runs
/// that are closed.
proof fn lemma_marks_new(
    views: Seq<EntryView>,
    later: Seq<Run>,
    offsets: Seq<u32>,
    firsts: Seq<usize>,
    e: EntryView,
    offset: u32,
    first: usize,
)
    requires
        spec_marks_ok(views, later, Seq::<EntryView>::empty(), offsets, firsts),
        offset == spec_listing_size(later),
        first == spec_listing_entries(later).len(),
        first < views.len(),
        views[first as int] == e,
    ensures
        spec_marks_ok(views, later, seq![e], offsets.push(offset), firsts.push(first)),
{
    let more = offsets.push(offset);
    let marks = firsts.push(first);
    assert(seq![e].len() == 1);
    assert(more.len() == later.len() + 1);
    assert(marks.len() == later.len() + 1);
    assert forall|k: int| 0 <= k < later.len() + 1 implies {
        &&& (#[trigger] more[k]) == spec_listing_size(spec_runs_before(later, k))
        &&& marks[k] == spec_listing_entries(spec_runs_before(later, k)).len()
        &&& marks[k] < views.len()
        &&& k < later.len() ==> later[k].entries.len() > 0 && views[marks[k] as int]
            == later[k].entries[0]
        &&& k >= later.len() ==> views[marks[k] as int] == seq![e][0]
    } by {
        if k < later.len() {
            assert(more[k] == offsets[k]);
            assert(marks[k] == firsts[k]);
        }
    }
}

impl DirectoryInfo {
    /// The runs of the listing.
    pub closed spec fn runs(&self) -> Seq<Run> {
        self.runs@
    }

    pub closed spec fn spec_header_refs(&self) -> Seq<Ref> {
        self.header_refs@
    }

    pub closed spec fn spec_uncompressed_size(&self) -> u32 {
        self.uncompressed_size
    }

    /// The offset of the header of each run from the start of the listing.
    pub closed spec fn spec_header_offsets(&self) -> Seq<u32> {
        self.header_offsets@
    }

    /// The place of the first entry of each run among the entries of the
    /// directory.
    pub closed spec fn spec_first_entries(&self) -> Seq<usize> {
        self.first_entries@
    }

    /// The offset of the header of each run from the start of the listing.
    pub fn header_offsets(&self) -> (r: &Vec<u32>)
        ensures
            r@ == self.spec_header_offsets(),
    {
        &self.header_offsets
    }

    /// The place of the first entry of each run among the entries of the
    /// directory.
    pub fn first_entries(&self) -> (r: &Vec<usize>)
        ensures
            r@ == self.spec_first_entries(),
    {
        &self.first_entries
    }

    /// Where the header of each run lies in the directory table.
    pub fn header_refs(&self) -> (r: &Vec<Ref>)
        ensures
            r@ == self.spec_header_refs(),
    {
        &self.header_refs
    }

    /// The size in bytes of the listing: all headers, entries and names.
    pub fn uncompressed_size(&self) -> (r: u32)
        ensures
            r == self.spec_uncompressed_size(),
    {
        self.uncompressed_size
    }
}

/// The directory table of an archive.
pub struct Table<Comp: Compressor> {
    writer: MetablockWriter<Comp>,
    total_size: usize,
}

impl<Comp: Compressor> Table<Comp> {
    /// The stream that holds the listings.
    pub closed spec fn writer(&self) -> MetablockWriter<Comp> {
        self.writer
    }

    /// The number of bytes of all the listings written so far.
    pub closed spec fn spec_total_size(&self) -> nat {
        self.total_size as nat
    }

    /// The stream is well formed and holds as many bytes as the table
    /// counts.
    pub open spec fn wf(&self) -> bool {
        &&& self.writer().wf()
        &&& self.writer().appended().len() == self.spec_total_size()
    }

    /// Whether a listing of at most `cost` bytes can be written: the output
    /// stays below 4 GiB, and so does the size of the listing.
    pub open spec fn spec_can_take(&self, cost: nat) -> bool {
        &&& self.writer().spec_output_bound(cost) <= u32::MAX
        &&& self.spec_total_size() + cost <= usize::MAX
        &&& cost <= u32::MAX
    }

    pub fn new(compressor: Option<Comp>) -> (r: Self)
        ensures
            r.wf(),
            r.spec_total_size() == 0,
            r.writer().has_compressor() == compressor is Some,
            r.writer().output() == Seq::<u8>::empty(),
            r.writer().appended() == Seq::<u8>::empty(),
    {
        let table = Table { writer: MetablockWriter::new(compressor), total_size: 0 };
        assert(table.writer().appended() =~= Seq::<u8>::empty());
        table
    }

    /// Where the next listing will start.
    pub fn position(&self) -> (r: Ref)
        requires
            self.wf(),
            self.writer().output().len() <= u32::MAX,
        ensures
            r.spec_block_start() == self.writer().output().len(),
            r.spec_start_offset() == self.writer().current().len(),
            r.wf(),
    {
        self.writer.position()
    }

    /// The number of bytes of all the listings written so far.
    pub fn total_size(&self) -> (r: usize)
        ensures
            r == self.spec_total_size(),
    {
        self.total_size
    }

    /// Whether a listing of at most `cost` bytes can be written.
    pub fn can_take(&self, cost: usize) -> (r: bool)
        requires
            self.wf(),
        ensures
            r == self.spec_can_take(cost as nat),
    {
        let filled: u128 = self.writer.buffered_len() as u128 + cost as u128;
        let bound: u128 = self.writer.output_len() as u128 + (filled / SIZE as u128) * (SIZE as u128
            + 2);
        bound <= u32::MAX as u128 && cost <= u32::MAX as usize && self.total_size as u128
            + cost as u128 <= usize::MAX as u128
    }

    fn start_dir(&self) -> (r: DirBuilder)
        requires
            self.wf(),
        ensures
            r.inv(self, self.spec_total_size(), self.writer().appended()),
            r.done() == Seq::<Run>::empty(),
            r.pending() == Seq::<EntryView>::empty(),
    {
        let builder = DirBuilder {
            header: directory::Header {
                count: 0,
                start: 0xFFFF_FFFF,
                inode_number: inode::Idx(0xFFFF_FFFF),
            },
            entries: Vec::new(),
            crossed_metablock: false,
            pending: Ghost(Seq::empty()),
            done: Ghost(Seq::empty()),
        };
        proof {
            reveal(spec_listing_wf);
            assert(self.writer().appended() + spec_listing_bytes(builder.done())
                =~= self.writer().appended());
        }
        builder
    }

    /// Writes the listing of a directory with the given entries, in their
    /// order.
    #[verifier::rlimit(60)]
    pub fn dir(&mut self, contents: &Vec<Entry>) -> (info: DirectoryInfo)
        requires
            old(self).wf(),
            forall|i: int| 0 <= i < contents@.len() ==> (#[trigger] contents@[i])@.wf(),
            old(self).spec_can_take(spec_cost(spec_views(contents@))),
        ensures
            final(self).wf(),
            final(self).writer().has_compressor() == old(self).writer().has_compressor(),
            spec_listing_wf(info.runs(), old(self).spec_total_size()),
            spec_listing_entries(info.runs()) == spec_views(contents@),
            final(self).writer().appended() == old(self).writer().appended() + spec_listing_bytes(
                info.runs(),
            ),
            final(self).spec_total_size() == old(self).spec_total_size() + spec_listing_size(
                info.runs(),
            ),
            info.spec_uncompressed_size() == spec_listing_size(info.runs()),
            spec_listing_size(info.runs()) <= spec_cost(spec_views(contents@)),
            info.spec_header_refs().len() == info.runs().len(),
            info.runs().len() <= contents@.len(),
            spec_marks_ok(
                spec_views(contents@),
                info.runs(),
                Seq::<EntryView>::empty(),
                info.spec_header_offsets(),
                info.spec_first_entries(),
            ),
            forall|k: int|
                0 <= k < info.runs().len() ==> (#[trigger] info.spec_header_offsets()[k])
                    == spec_listing_size(info.runs().subrange(0, k)),
            contents@.len() == 0 ==> info.runs() == Seq::<Run>::empty() && *final(self) == *old(
                self,
            ),
            old(self).writer().blocks().len() <= final(self).writer().blocks().len(),
            old(self).writer().blocks() == final(self).writer().blocks().subrange(
                0,
                old(self).writer().blocks().len() as int,
            ),
            forall|k: int|
                0 <= k < info.runs().len() ==> (#[trigger] info.spec_header_refs()[k]).spec_start_offset()
                    == (old(self).spec_total_size() + spec_listing_size(
                    info.runs().subrange(0, k),
                )) as int % (SIZE as int),
            spec_starts_ok(
                info.spec_header_refs(),
                info.spec_header_offsets(),
                final(self).writer().blocks(),
                old(self).spec_total_size(),
            ),
    {
        let start_size = self.total_size;
        let ghost at = self.spec_total_size();
        let ghost base = self.writer().appended();
        let mut builder = self.start_dir();
        let mut header_refs: Vec<Ref> = Vec::new();
        let mut header_offsets: Vec<u32> = Vec::new();
        let mut first_entries: Vec<usize> = Vec::new();
        let ghost views = spec_views(contents@);
        let mut i: usize = 0;
        proof {
            assert(views.subrange(0, 0) =~= Seq::<EntryView>::empty());
            assert(spec_listing_entries(builder.done()) + builder.pending() =~= views.subrange(
                0,
                0,
            ));
        }
        while i < contents.len()
            invariant
                i <= contents@.len(),
                views == spec_views(contents@),
                forall|j: int| 0 <= j < contents@.len() ==> (#[trigger] contents@[j])@.wf(),
                at == start_size,
                self.wf(),
                self.writer().has_compressor() == old(self).writer().has_compressor(),
                builder.inv(self, at, base),
                spec_listing_entries(builder.done()) + builder.pending() == views.subrange(
                    0,
                    i as int,
                ),
                builder.spec_refs_ok(header_refs@, at),
                spec_starts_ok(header_refs@, header_offsets@, self.writer().blocks(), at),
                spec_marks_ok(
                    views,
                    builder.done(),
                    builder.pending(),
                    header_offsets@,
                    first_entries@,
                ),
                old(self).spec_can_take(spec_cost(views)),
                header_refs@.len() <= i,
                builder.pending().len() > 0 || builder.done().len() == 0,
                i == 0 ==> builder.done() == Seq::<Run>::empty() && builder.pending()
                    == Seq::<EntryView>::empty() && *self == *old(self),
                old(self).writer().blocks().len() <= self.writer().blocks().len(),
                old(self).writer().blocks() == self.writer().blocks().subrange(
                    0,
                    old(self).writer().blocks().len() as int,
                ),
                spec_listing_size(builder.done()) + spec_cost(builder.pending()) <= spec_cost(
                    views.subrange(0, i as int),
                ),
                spec_entries_size(views.subrange(0, i as int)) <= spec_entries_size(views),
                self.spec_can_take(
                    (spec_cost(views) - spec_cost(views.subrange(0, i as int)) + spec_cost(
                        builder.pending(),
                    )) as nat,
                ),
            decreases contents@.len() - i,
        {
            let entry = &contents[i];
            let ghost e = entry@;
            proof {
                assert(views[i as int] == e);
                assert(views.subrange(0, i + 1) =~= views.subrange(0, i as int).push(e));
                lemma_entries_push(0, views.subrange(0, i as int), e);
                lemma_size_prefix(views, i + 1);
                let rest = (spec_cost(views) - spec_cost(views.subrange(0, i + 1))) as nat;
                assert((spec_cost(views) - spec_cost(views.subrange(0, i as int)) + spec_cost(
                    builder.pending(),
                )) as nat == spec_cost(builder.pending()) + e.cost() + rest);
                lemma_bound_monotone(
                    self.writer(),
                    spec_cost(builder.pending()) + e.cost(),
                    spec_cost(builder.pending()) + e.cost() + rest,
                );
            }
            let ghost old_done = builder.done();
            let ghost old_pending = builder.pending();
            let ghost rest = (spec_cost(views) - spec_cost(views.subrange(0, i + 1))) as nat;
            let ghost listed = self.writer().blocks();
            let started = builder.add_entry(self, entry, Ghost(at), Ghost(base), Ghost(rest));
            proof {
                lemma_starts_kept(
                    header_refs@,
                    header_offsets@,
                    listed,
                    self.writer().blocks(),
                    at,
                );
                lemma_blocks_prefix(old(self).writer().blocks(), listed, self.writer().blocks());
                if started is Some {
                    if old_pending.len() > 0 {
                        lemma_listing_push(old_done, builder.done().last());
                        assert(builder.done().last().entries == old_pending);
                    }
                    assert(spec_listing_entries(builder.done()) + builder.pending()
                        =~= views.subrange(0, i + 1));
                } else {
                    assert(spec_listing_entries(builder.done()) + builder.pending()
                        =~= views.subrange(0, i + 1));
                }
            }
            if let Some(header_ref) = started {
                let ghost refs_before = header_refs@;
                header_refs.push(header_ref);
                proof {
                    if old_pending.len() > 0 {
                        lemma_closed_by_push(old_done, builder.done().last(), old_pending);
                        assert(old_done.push(builder.done().last()) =~= builder.done());
                    }
                    lemma_marks_closed(
                        views,
                        old_done,
                        old_pending,
                        header_offsets@,
                        first_entries@,
                        builder.done(),
                    );
                    lemma_size_prefix(views, i + 1);
                }
                let offset = (self.total_size - start_size) as u32;
                let ghost offsets_before = header_offsets@;
                let ghost firsts_before = first_entries@;
                header_offsets.push(offset);
                first_entries.push(i);
                proof {
                    lemma_starts_new(
                        refs_before,
                        offsets_before,
                        &self.writer(),
                        at,
                        header_ref,
                        offset,
                    );
                    lemma_marks_new(
                        views,
                        builder.done(),
                        offsets_before,
                        firsts_before,
                        e,
                        offset,
                        i,
                    );
                }
            } else {
                proof {
                    lemma_marks_same(
                        views,
                        old_done,
                        old_pending,
                        header_offsets@,
                        first_entries@,
                        e,
                    );
                }
            }
            i += 1;
        }
        let ghost old_done = builder.done();
        let ghost old_pending = builder.pending();
        let ghost listed = self.writer().blocks();
        proof {
            assert(views.subrange(0, i as int) =~= views);
            assert(self.spec_can_take(spec_cost(builder.pending())));
        }
        builder.flush(self, Ghost(at), Ghost(base), Ghost(0));
        proof {
            lemma_starts_kept(header_refs@, header_offsets@, listed, self.writer().blocks(), at);
            lemma_blocks_prefix(old(self).writer().blocks(), listed, self.writer().blocks());
            if old_pending.len() > 0 {
                lemma_listing_push(old_done, builder.done().last());
                assert(builder.done().last().entries == old_pending);
            }
            assert(spec_listing_entries(builder.done()) =~= views);
            lemma_listing_bytes_len(builder.done());
            assert(builder.spec_refs_ok(header_refs@, at));
            if old_pending.len() > 0 {
                lemma_closed_by_push(old_done, builder.done().last(), old_pending);
                assert(old_done.push(builder.done().last()) =~= builder.done());
            }
            lemma_marks_closed(
                views,
                old_done,
                old_pending,
                header_offsets@,
                first_entries@,
                builder.done(),
            );
        }
        let end_size = self.total_size;
        DirectoryInfo {
            header_refs,
            header_offsets,
            first_entries,
            uncompressed_size: (end_size - start_size) as u32,
            runs: Ghost(builder.done()),
        }
    }

    /// Ends the table and hands out the number of bytes of its listings and
    /// the bytes of its stream.
    pub fn finish(self) -> (r: (usize, Vec<u8>))
        requires
            self.wf(),
        ensures
            r.0 == self.spec_total_size(),
            exists|last: Metablock|
                {
                    &&& last.wf()
                    &&& last.body == self.writer().current()
                    &&& !self.writer().has_compressor() ==> !last.compressed
                    &&& r.1@ == spec_frames(#[trigger] self.writer().blocks().push(last))
                    &&& crate::write::metablock_writer::spec_stream_of(
                        self.writer().blocks().push(last),
                        r.1@,
                        self.writer().appended(),
                        !self.writer().has_compressor(),
                    )
                    &&& crate::write::metablock_writer::spec_blocks_packed::<Comp>(
                        self.writer().blocks().push(last),
                    )
                },
            r.1@.len() <= (self.spec_total_size() / (SIZE as nat) + 1) * (SIZE + 2),
            crate::write::metablock_writer::spec_stream(
                r.1@,
                self.writer().appended(),
                !self.writer().has_compressor(),
            ),
    {
        (self.total_size, self.writer.finish())
    }
}

/// The state of a listing that is being written: the header of the run that
/// is open and the bytes of its entries.
pub struct DirBuilder {
    header: directory::Header,
    entries: Vec<u8>,
    crossed_metablock: bool,
    pending: Ghost<Seq<EntryView>>,
    done: Ghost<Seq<Run>>,
}

impl DirBuilder {
    /// The entries of the run that is open.
    pub closed spec fn pending(&self) -> Seq<EntryView> {
        self.pending@
    }

    /// The runs of the listing that are written.
    pub closed spec fn done(&self) -> Seq<Run> {
        self.done@
    }

    /// The header of the run that is open.
    pub closed spec fn spec_header(&self) -> directory::Header {
        self.header
    }

    /// The bytes of the entries of the run that is open.
    pub closed spec fn buffered(&self) -> Seq<u8> {
        self.entries@
    }

    /// Whether the last entry of the open run crossed a boundary of 8 KiB.
    pub closed spec fn spec_crossed(&self) -> bool {
        self.crossed_metablock
    }

    /// The run that is open.
    pub open spec fn run(&self) -> Run {
        Run { start: self.spec_header().start, reference: self.spec_header().inode_number.0, entries: self.pending() }
    }

    /// The state of the builder fits the table.
    ///
    /// For a listing that started `at` bytes into a table whose stream then
    /// held `base`: the table holds the runs that are written, which are a
    /// well-formed listing; the header counts the entries of the open run,
    /// the buffer holds their bytes, and the open run is well formed so far
    /// and had to be started.
    pub open spec fn inv<Comp: Compressor>(&self, table: &Table<Comp>, at: nat, base: Seq<u8>) -> bool {
        let here = at + spec_listing_size(self.done());
        &&& table.spec_total_size() == here
        &&& table.writer().appended() == base + spec_listing_bytes(self.done())
        &&& spec_listing_wf(self.done(), at)
        &&& self.spec_header().count == self.pending().len()
        &&& self.pending().len() <= directory::MAX_ENTRIES
        &&& self.buffered() == spec_entries_bytes(self.spec_header().inode_number.0, self.pending())
        &&& self.pending().len() == 0 ==> !self.spec_crossed()
        &&& self.pending().len() > 0 ==> {
            &&& self.run().wf()
            &&& self.run().uncrossed(here)
            &&& self.spec_crossed() == self.run().crossed(here, self.pending().len() - 1)
            &&& self.done().len() > 0 ==> self.done().last().closed_before(
                at + spec_listing_size(self.done().drop_last()),
                self.pending()[0],
            )
        }
    }

    /// Whether `refs` hold one place for each run, the open one included,
    /// each with the offset of the header of its run in its block.
    pub open spec fn spec_refs_ok(&self, refs: Seq<Ref>, at: nat) -> bool {
        &&& refs.len() == self.done().len() + (if self.pending().len() > 0 {
            1nat
        } else {
            0nat
        })
        &&& forall|k: int|
            0 <= k < refs.len() ==> (#[trigger] refs[k]).spec_start_offset() == (at
                + spec_listing_size(
                if k < self.done().len() {
                    self.done().subrange(0, k)
                } else {
                    self.done()
                },
            )) as int % (SIZE as int)
    }

    /// The number of bytes of the table once the open run is written.
    fn total_size<Comp: Compressor>(&self, table: &Table<Comp>) -> (r: usize)
        requires
            table.spec_total_size() + HEADER_SIZE + self.entries@.len() <= usize::MAX,
        ensures
            r == table.spec_total_size() + HEADER_SIZE + self.entries@.len(),
    {
        table.total_size + HEADER_SIZE + self.entries.len()
    }

    /// Whether `e` starts a new run: no run is open, the last entry of the
    /// open run crossed a boundary of 8 KiB, the open run has 256 entries,
    /// the inode of `e` lies in another block than those of the run, or its
    /// number is out of reach of the reference number of the run.
    pub open spec fn spec_starts_run(&self, e: EntryView) -> bool {
        ||| self.pending().len() == 0
        ||| self.spec_crossed()
        ||| self.pending().len() >= directory::MAX_ENTRIES
        ||| self.spec_header().start != e.inode.spec_block_idx()
        ||| spec_inode_diff(self.spec_header().inode_number.0, e.inode_num) is None
    }

    /// Whether the builder is ready to take `e` into the open run: the run is
    /// empty and its header is made for `e`, or the run has room for `e` and
    /// its last entry did not cross a boundary.
    pub open spec fn ready_for(&self, e: EntryView) -> bool {
        if self.pending().len() == 0 {
            &&& self.spec_header().start == e.inode.spec_block_idx()
            &&& self.spec_header().inode_number.0 == spec_reference(e.inode_num)
        } else {
            &&& self.run().takes(e)
            &&& !self.spec_crossed()
            &&& self.pending().len() < directory::MAX_ENTRIES
        }
    }

    /// Takes an entry into the open run.
    fn push_entry<Comp: Compressor>(
        &mut self,
        table: &Table<Comp>,
        entry: &Entry,
        Ghost(at): Ghost<nat>,
        Ghost(base): Ghost<Seq<u8>>,
    )
        requires
            old(self).inv(table, at, base),
            old(self).ready_for(entry@),
            entry@.wf(),
            old(self).pending().len() == 0 && old(self).done().len() > 0 ==> old(
                self,
            ).done().last().closed_before(
                at + spec_listing_size(old(self).done().drop_last()),
                entry@,
            ),
            table.spec_total_size() + spec_cost(old(self).pending()) + entry@.cost() <= usize::MAX,
        ensures
            final(self).inv(table, at, base),
            final(self).done() == old(self).done(),
            final(self).pending() == old(self).pending().push(entry@),
    {
        let ghost e = entry@;
        let ghost here = table.spec_total_size();
        let ghost run_before = self.run();
        proof {
            lemma_entries_bytes_len(self.header.inode_number.0, self.pending@);
        }
        let prev_metablock = self.total_size(table) / SIZE;
        self.header.count += 1;
        let name_size: u16 = (entry.name.len() - 1) as u16;
        let raw_entry = directory::Entry {
            offset: entry.inode.start_offset(),
            inode_offset: match inode_diff(self.header.inode_number, entry.inode_num) {
                Some(diff) => diff,
                None => 0,
            },
            kind: entry.inode_kind.to_basic(),
            name_size,
        };
        let ghost bytes_before = self.entries@;
        raw_entry.pack_into(&mut self.entries);
        append_bytes(&mut self.entries, entry.name.as_slice());
        proof {
            raw_entry.lemma_round_trip();
            lemma_concat_assoc(bytes_before, raw_entry.spec_to_packed(), entry.name@);
            lemma_entries_push(self.header.inode_number.0, self.pending@, e);
            if self.pending@.len() == 0 {
                lemma_run_single(e, here);
                assert(self.pending@.push(e) =~= seq![e]);
            } else {
                lemma_run_extend(run_before, e, here);
            }
            self.pending@ = self.pending@.push(e);
            lemma_entries_bytes_len(self.header.inode_number.0, self.pending@);
        }
        let current_metablock = self.total_size(table) / SIZE;
        if current_metablock != prev_metablock {
            self.crossed_metablock = true;
        }
    }

    /// Adds an entry to the listing. Where the entry starts a new run, the
    /// open run is written to the table first, and the result is the place
    /// of the new header in the table.
    ///
    /// The ghost arguments name where the listing started, what the stream
    /// of the table held then, and how many bytes are still to come.
    pub fn add_entry<Comp: Compressor>(
        &mut self,
        table: &mut Table<Comp>,
        entry: &Entry,
        Ghost(at): Ghost<nat>,
        Ghost(base): Ghost<Seq<u8>>,
        Ghost(rest): Ghost<nat>,
    ) -> (r: Option<Ref>)
        requires
            old(table).wf(),
            old(self).inv(old(table), at, base),
            entry@.wf(),
            old(table).spec_can_take(spec_cost(old(self).pending()) + entry@.cost() + rest),
            old(self).pending().len() > 0 || old(self).done().len() == 0,
        ensures
            final(table).wf(),
            final(table).writer().has_compressor() == old(table).writer().has_compressor(),
            old(table).writer().blocks().len() <= final(table).writer().blocks().len(),
            old(table).writer().blocks() == final(table).writer().blocks().subrange(
                0,
                old(table).writer().blocks().len() as int,
            ),
            final(self).inv(final(table), at, base),
            final(table).spec_can_take(spec_cost(final(self).pending()) + rest),
            spec_listing_size(final(self).done()) + spec_cost(final(self).pending())
                <= spec_listing_size(old(self).done()) + spec_cost(old(self).pending())
                + entry@.cost(),
            r is Some == old(self).spec_starts_run(entry@),
            r is None ==> {
                &&& final(self).done() == old(self).done()
                &&& final(self).pending() == old(self).pending().push(entry@)
            },
            r is Some ==> {
                &&& final(self).pending() == seq![entry@]
                &&& old(self).pending().len() == 0 ==> final(self).done() == old(self).done()
                &&& old(self).pending().len() > 0 ==> final(self).done() == old(self).done().push(
                    old(self).run(),
                ) && old(self).run().entries == old(self).pending()
            },
            r matches Some(pos) ==> forall|refs: Seq<Ref>|
                old(self).spec_refs_ok(refs, at) ==> #[trigger] final(self).spec_refs_ok(
                    refs.push(pos),
                    at,
                ),
            r is None ==> forall|refs: Seq<Ref>|
                old(self).spec_refs_ok(refs, at) ==> #[trigger] final(self).spec_refs_ok(refs, at),
            r matches Some(pos) ==> pos.spec_block_start() == final(table).writer().output().len(),
    {
        let ghost e = entry@;
        proof {
            assert(table.writer().blocks().subrange(0, table.writer().blocks().len() as int)
                =~= table.writer().blocks());
        }
        let need_header = self.header.count == 0 || self.crossed_metablock || self.header.count
            >= directory::MAX_ENTRIES || self.header.start != entry.inode.block_start()
            || inode_diff(self.header.inode_number, entry.inode_num).is_none();
        proof {
            lemma_bound_monotone(
                table.writer(),
                spec_cost(self.pending@),
                spec_cost(self.pending@) + e.cost() + rest,
            );
        }
        let header_pos = if need_header {
            let pos = self.begin_run(table, entry, Ghost(at), Ghost(base), Ghost(rest));
            Some(pos)
        } else {
            None
        };
        let ghost mid_pending = self.pending@;
        proof {
            lemma_run_single(e, 0);
            lemma_bound_monotone(table.writer(), spec_cost(self.pending@) + e.cost(), spec_cost(self.pending@) + e.cost() + rest);
        }
        self.push_entry(table, entry, Ghost(at), Ghost(base));
        proof {
            lemma_entries_push(0, mid_pending, e);
            if header_pos is Some {
                assert(self.pending@ =~= seq![e]);
            }
        }
        header_pos
    }

    /// Writes the open run to the table and makes the header of a new run
    /// that starts with `entry`. The result is the place of that header.
    #[verifier::spinoff_prover]
    #[verifier::rlimit(40)]
    fn begin_run<Comp: Compressor>(
        &mut self,
        table: &mut Table<Comp>,
        entry: &Entry,
        Ghost(at): Ghost<nat>,
        Ghost(base): Ghost<Seq<u8>>,
        Ghost(rest): Ghost<nat>,
    ) -> (pos: Ref)
        requires
            old(table).wf(),
            old(self).inv(old(table), at, base),
            entry@.wf(),
            old(table).spec_can_take(spec_cost(old(self).pending()) + entry@.cost() + rest),
            old(self).pending().len() > 0 || old(self).done().len() == 0,
            old(self).pending().len() > 0 ==> old(self).run().closed_before(
                old(table).spec_total_size(),
                entry@,
            ),
        ensures
            final(table).wf(),
            final(table).writer().has_compressor() == old(table).writer().has_compressor(),
            old(table).writer().blocks().len() <= final(table).writer().blocks().len(),
            old(table).writer().blocks() == final(table).writer().blocks().subrange(
                0,
                old(table).writer().blocks().len() as int,
            ),
            final(self).inv(final(table), at, base),
            final(self).ready_for(entry@),
            final(self).pending() == Seq::<EntryView>::empty(),
            final(self).done().len() > 0 ==> final(self).done().last().closed_before(
                at + spec_listing_size(final(self).done().drop_last()),
                entry@,
            ),
            final(table).spec_can_take(entry@.cost() + rest),
            spec_listing_size(final(self).done()) <= spec_listing_size(old(self).done())
                + spec_cost(old(self).pending()),
            old(self).pending().len() == 0 ==> final(self).done() == old(self).done(),
            old(self).pending().len() > 0 ==> final(self).done() == old(self).done().push(
                old(self).run(),
            ) && old(self).run().entries == old(self).pending(),
            forall|refs: Seq<Ref>|
                old(self).spec_refs_ok(refs, at) ==> {
                    &&& refs.len() == final(self).done().len()
                    &&& forall|k: int|
                        0 <= k < refs.len() ==> (#[trigger] refs[k]).spec_start_offset() == (at
                            + spec_listing_size(final(self).done().subrange(0, k))) as int % (
                        SIZE as int)
                },
            pos.spec_start_offset() == (at + spec_listing_size(final(self).done())) as int % (
            SIZE as int),
            pos.spec_block_start() == final(table).writer().output().len(),
    {
        let ghost e = entry@;
        let ghost old_done = self.done@;
        self.flush(table, Ghost(at), Ghost(base), Ghost(e.cost() + rest));
        let ghost flushed = *self;
        self.header.start = entry.inode.block_start();
        self.header.inode_number = reference_for(entry.inode_num);
        proof {
            lemma_bodies_len(table.writer().blocks());
            lemma_bound_monotone(table.writer(), 0, e.cost() + rest);
            if old(self).pending().len() > 0 {
                assert(self.done@.drop_last() =~= old_done);
            }
            assert forall|refs: Seq<Ref>| old(self).spec_refs_ok(refs, at) implies {
                &&& refs.len() == self.done@.len()
                &&& forall|k: int|
                    0 <= k < refs.len() ==> (#[trigger] refs[k]).spec_start_offset() == (at
                        + spec_listing_size(self.done@.subrange(0, k))) as int % (SIZE as int)
            } by {
                assert(flushed.spec_refs_ok(refs, at));
            }
        }
        table.writer.position()
    }

    /// Writes the open run to the table, where it has entries, and opens an
    /// empty one.
    ///
    /// The ghost arguments name where the listing started, what the stream
    /// of the table held then, and how many bytes are still to come.
    pub fn flush<Comp: Compressor>(
        &mut self,
        table: &mut Table<Comp>,
        Ghost(at): Ghost<nat>,
        Ghost(base): Ghost<Seq<u8>>,
        Ghost(rest): Ghost<nat>,
    )
        requires
            old(table).wf(),
            old(self).inv(old(table), at, base),
            old(table).spec_can_take(spec_cost(old(self).pending()) + rest),
        ensures
            final(table).wf(),
            final(table).writer().has_compressor() == old(table).writer().has_compressor(),
            old(table).writer().blocks().len() <= final(table).writer().blocks().len(),
            old(table).writer().blocks() == final(table).writer().blocks().subrange(
                0,
                old(table).writer().blocks().len() as int,
            ),
            final(self).inv(final(table), at, base),
            final(self).pending() == Seq::<EntryView>::empty(),
            old(self).pending().len() == 0 ==> final(self).done() == old(self).done(),
            old(self).pending().len() > 0 ==> final(self).done() == old(self).done().push(
                old(self).run(),
            ) && old(self).run().entries == old(self).pending(),
            spec_listing_size(final(self).done()) <= spec_listing_size(old(self).done())
                + spec_cost(old(self).pending()),
            final(table).spec_can_take(rest),
            final(table).writer().output().len() <= u32::MAX,
            old(self).pending().len() == 0 ==> *final(table) == *old(table),
            forall|refs: Seq<Ref>|
                old(self).spec_refs_ok(refs, at) ==> #[trigger] final(self).spec_refs_ok(refs, at),
    {
        proof {
            assert(table.writer().blocks().subrange(0, table.writer().blocks().len() as int)
                =~= table.writer().blocks());
            lemma_entries_bytes_len(self.header.inode_number.0, self.pending@);
            self.header.lemma_round_trip();
            lemma_bound_monotone(table.writer(), 0, spec_cost(self.pending@) + rest);
            lemma_bound_monotone(table.writer(), rest, spec_cost(self.pending@) + rest);
        }
        if self.header.count != 0 {
            let ghost run = self.run();
            let ghost cost = spec_cost(self.pending@);
            let ghost start = table.writer();
            table.total_size = self.total_size(table);
            table.writer.write(&self.header);
            let ghost mid = table.writer;
            table.writer.write_raw(self.entries.as_slice());
            proof {
                lemma_blocks_prefix(start.blocks(), mid.blocks(), table.writer.blocks());
                lemma_concat_assoc(start.appended(), self.header.spec_to_packed(), self.entries@);
                lemma_concat_assoc(base, spec_listing_bytes(self.done@), run.bytes());
                lemma_listing_push(self.done@, run);
                lemma_listing_wf_push(self.done@, run, at);
                assert(table.writer.spec_output_bound(rest) <= mid.spec_output_bound(
                    self.entries@.len() + rest,
                ));
                assert(mid.spec_output_bound(self.entries@.len() + rest)
                    <= start.spec_output_bound(
                    self.header.spec_to_packed().len() + (self.entries@.len() + rest),
                ));
                lemma_bound_monotone(
                    start,
                    self.header.spec_to_packed().len() + (self.entries@.len() + rest),
                    cost + rest,
                );
                lemma_bound_monotone(table.writer, 0, rest);
                assert forall|refs: Seq<Ref>| old(self).spec_refs_ok(refs, at) implies old(
                    self,
                ).done().push(run).len() == refs.len() && forall|k: int|
                    0 <= k < refs.len() ==> (#[trigger] refs[k]).spec_start_offset() == (at
                        + spec_listing_size(
                        if k < old(self).done().push(run).len() {
                            old(self).done().push(run).subrange(0, k)
                        } else {
                            old(self).done().push(run)
                        },
                    )) as int % (SIZE as int) by {
                    assert forall|k: int| 0 <= k < refs.len() implies (#[trigger] refs[k]).spec_start_offset()
                        == (at + spec_listing_size(
                        if k < old(self).done().push(run).len() {
                            old(self).done().push(run).subrange(0, k)
                        } else {
                            old(self).done().push(run)
                        },
                    )) as int % (SIZE as int) by {
                        if k < old(self).done().len() {
                            assert(old(self).done().push(run).subrange(0, k) =~= old(
                                self,
                            ).done().subrange(0, k));
                        } else {
                            assert(old(self).done().push(run).subrange(0, k) =~= old(self).done());
                        }
                    }
                }
            }
            self.entries.clear();
            self.header = directory::Header { count: 0, start: 0, inode_number: inode::Idx(0) };
            self.crossed_metablock = false;
            proof {
                self.done@ = self.done@.push(run);
                self.pending@ = Seq::empty();
            }
        } else {
            proof {
                assert(self.pending@ =~= Seq::<EntryView>::empty());
            }
        }
    }
}

} // verus!
