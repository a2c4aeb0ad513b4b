//! How many headers a listing has.
//!
//! A run ends where it is full, where the next entry may not stand in it, or
//! where it has crossed a boundary of 8 KiB. Where the last two cannot
//! happen, a listing has one header for every 256 entries.

use crate::repr::metablock::SIZE;
use crate::write::dir::lemma_size_prefix;
use crate::write::dir::spec_entries_size;
use crate::write::dir::spec_inode_diff;
use crate::write::dir::spec_listing_entries;
use crate::write::dir::spec_listing_size;
use crate::write::dir::spec_listing_wf;
use crate::write::dir::spec_reference;
use crate::write::dir::EntryView;
use crate::write::dir::Run;
use crate::write::dir::HEADER_SIZE;
use vstd::arithmetic::div_mod::lemma_fundamental_div_mod;
use vstd::arithmetic::div_mod::lemma_fundamental_div_mod_converse;
use vstd::prelude::*;

verus! {

/// Whether any of the entries could stand in a run with any other: their
/// inodes lie in one block, and the number of each is in reach of the
/// reference number that is made for any of them.
pub open spec fn spec_close(entries: Seq<EntryView>) -> bool {
    forall|i: int, j: int|
        0 <= i < entries.len() && 0 <= j < entries.len() ==> {
            &&& (#[trigger] entries[i]).inode.spec_block_idx() == (
            #[trigger] entries[j]).inode.spec_block_idx()
            &&& spec_inode_diff(spec_reference(entries[i].inode_num), entries[j].inode_num) is Some
        }
}

/// Whether a listing of `size` bytes that starts `at` bytes into the table
/// lies in one block of 8 KiB.
pub open spec fn spec_in_one_block(at: nat, size: nat) -> bool {
    at % (SIZE as nat) + size < SIZE
}

/// An entry of a run is an entry of the listing: the result is its place
/// there.
proof fn lemma_entry_listed(runs: Seq<Run>, k: int, i: int) -> (m: int)
    requires
        0 <= k < runs.len(),
        0 <= i < runs[k].entries.len(),
    ensures
        0 <= m < spec_listing_entries(runs).len(),
        spec_listing_entries(runs)[m] == runs[k].entries[i],
    decreases runs.len(),
{
    let before = spec_listing_entries(runs.drop_last());
    assert(spec_listing_entries(runs) == before + runs.last().entries);
    if k == runs.len() - 1 {
        before.len() + i
    } else {
        let m = lemma_entry_listed(runs.drop_last(), k, i);
        assert(runs.drop_last()[k] == runs[k]);
        m
    }
}

/// The runs up to one of them are not larger than the listing.
proof fn lemma_size_up_to(runs: Seq<Run>, k: int)
    requires
        0 <= k < runs.len(),
    ensures
        spec_listing_size(runs.subrange(0, k)) + runs[k].size() <= spec_listing_size(runs),
    decreases runs.len(),
{
    if k == runs.len() - 1 {
        assert(runs.subrange(0, k) =~= runs.drop_last());
    } else {
        lemma_size_up_to(runs.drop_last(), k);
        assert(runs.drop_last().subrange(0, k) =~= runs.subrange(0, k));
        assert(runs.drop_last()[k] == runs[k]);
    }
}

/// Two bytes of one block of 8 KiB lie in the same block.
proof fn lemma_same_block(at: nat, from: int, to: int, size: nat)
    requires
        spec_in_one_block(at, size),
        at <= from <= at + size,
        at <= to <= at + size,
    ensures
        from / (SIZE as int) == to / (SIZE as int),
{
    let q = at as int / (SIZE as int);
    let r = at as int % (SIZE as int);
    lemma_fundamental_div_mod(at as int, SIZE as int);
    assert(at == (SIZE as int) * q + r);
    assert(from == q * (SIZE as int) + (r + (from - at))) by (nonlinear_arith)
        requires
            at == (SIZE as int) * q + r,
    ;
    assert(to == q * (SIZE as int) + (r + (to - at))) by (nonlinear_arith)
        requires
            at == (SIZE as int) * q + r,
    ;
    lemma_fundamental_div_mod_converse(from, SIZE as int, q, r + (from - at));
    lemma_fundamental_div_mod_converse(to, SIZE as int, q, r + (to - at));
}

/// In a listing of entries that could all stand in one run, and that lies
/// in one block of 8 KiB, every run but the last is full: it has 256
/// entries.
pub proof fn lemma_runs_full(runs: Seq<Run>, at: nat, k: int)
    requires
        spec_listing_wf(runs, at),
        spec_close(spec_listing_entries(runs)),
        spec_in_one_block(at, spec_listing_size(runs)),
        0 <= k < runs.len() - 1,
    ensures
        runs[k].entries.len() == 256,
{
    reveal(spec_listing_wf);
    let run = runs[k];
    let next = runs[k + 1];
    let here = at + spec_listing_size(runs.subrange(0, k));
    assert(run.wf());
    assert(next.wf());
    assert(run.closed_before(here, next.entries[0]));
    let first = lemma_entry_listed(runs, k, 0);
    let second = lemma_entry_listed(runs, k + 1, 0);
    let all = spec_listing_entries(runs);
    assert(all[first].inode.spec_block_idx() == all[second].inode.spec_block_idx());
    assert(spec_inode_diff(spec_reference(all[first].inode_num), all[second].inode_num) is Some);
    let n = run.entries.len() as int;
    lemma_size_up_to(runs, k);
    lemma_size_prefix(run.entries, n - 1);
    assert(run.entries.subrange(0, n) =~= run.entries);
    let from = here + HEADER_SIZE + spec_entries_size(run.entries.subrange(0, n - 1));
    let to = here + HEADER_SIZE + spec_entries_size(run.entries.subrange(0, n));
    lemma_same_block(at, from, to, spec_listing_size(runs));
    assert(!run.crossed(here, n - 1));
}

/// Runs of 256 entries each hold 256 entries for every run.
proof fn lemma_full_runs_count(runs: Seq<Run>)
    requires
        forall|k: int| 0 <= k < runs.len() ==> (#[trigger] runs[k]).entries.len() == 256,
    ensures
        spec_listing_entries(runs).len() == 256 * runs.len(),
    decreases runs.len(),
{
    if runs.len() > 0 {
        assert forall|k: int| 0 <= k < runs.drop_last().len() implies (
        #[trigger] runs.drop_last()[k]).entries.len() == 256 by {
            assert(runs.drop_last()[k] == runs[k]);
        }
        lemma_full_runs_count(runs.drop_last());
    }
}

/// A listing of entries that could all stand in one run, and that lies in
/// one block of 8 KiB, has one header for every 256 entries: one for up to
/// 256 entries, two for 257 to 512, and so on.
pub proof fn lemma_header_count(runs: Seq<Run>, at: nat)
    requires
        spec_listing_wf(runs, at),
        spec_close(spec_listing_entries(runs)),
        spec_in_one_block(at, spec_listing_size(runs)),
    ensures
        spec_listing_entries(runs).len() == 0 ==> runs.len() == 0,
        spec_listing_entries(runs).len() > 0 ==> runs.len() == (spec_listing_entries(runs).len()
            - 1) / 256 + 1,
{
    if runs.len() > 0 {
        let full = runs.drop_last();
        assert forall|k: int| 0 <= k < full.len() implies (#[trigger] full[k]).entries.len()
            == 256 by {
            assert(full[k] == runs[k]);
            lemma_runs_full(runs, at, k);
        }
        lemma_full_runs_count(full);
        reveal(spec_listing_wf);
        assert(runs[runs.len() - 1].wf());
        let last = runs.last().entries.len() as int;
        let n = spec_listing_entries(runs).len() as int;
        assert(n == 256 * full.len() + last);
        lemma_fundamental_div_mod_converse(n - 1, 256, full.len() as int, last - 1);
    }
}

} // verus!
