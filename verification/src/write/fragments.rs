//! The table of fragment blocks.

use crate::compression::AnyCodec;
use crate::repr::datablock;
use crate::repr::fragment::Entry;
use crate::write::two_level;
use crate::write::two_level::spec_table_image;
use vstd::prelude::*;

verus! {

/// The fragment blocks of an archive, in the order in which they were
/// written: where each lies and how large it is.
pub struct Table {
    inner: two_level::Table<Entry, AnyCodec>,
    count: usize,
}

impl Table {
    /// The entries of the table.
    pub closed spec fn entries(&self) -> Seq<Entry> {
        self.inner.items()
    }

    /// Whether a codec is bound.
    pub closed spec fn has_compressor(&self) -> bool {
        self.inner.writer().has_compressor()
    }

    pub closed spec fn wf(&self) -> bool {
        &&& self.inner.wf()
        &&& self.count == self.inner.items().len()
    }

    /// Whether one more entry can be added.
    pub closed spec fn spec_has_room(&self) -> bool {
        &&& self.inner.spec_has_room()
        &&& self.count < usize::MAX
    }

    pub fn new(compressor: Option<AnyCodec>) -> (r: Table)
        ensures
            r.wf(),
            r.entries() == Seq::<Entry>::empty(),
            r.has_compressor() == compressor is Some,
            r.spec_has_room(),
    {
        Table { inner: two_level::Table::new(compressor), count: 0 }
    }

    /// A table of at most 262144 entries has room for one more.
    pub proof fn lemma_has_room(&self)
        requires
            self.wf(),
            self.entries().len() <= 0x4_0000,
        ensures
            self.spec_has_room(),
    {
        self.inner.lemma_has_room();
    }

    /// Whether one more entry can be added.
    #[verifier::when_used_as_spec(spec_has_room)]
    pub fn has_room(&self) -> (r: bool)
        ensures
            r == self.spec_has_room(),
    {
        self.inner.has_room() && self.count < usize::MAX
    }

    /// Adds the entry of a fragment block at `location` with the given size.
    pub fn add_fragment(&mut self, location: datablock::Ref, size: datablock::Size)
        requires
            old(self).wf(),
            old(self).spec_has_room(),
        ensures
            final(self).wf(),
            final(self).has_compressor() == old(self).has_compressor(),
            final(self).entries() == old(self).entries().push(
                Entry { start: location.0, size, unused: 0 },
            ),
    {
        let entry = Entry { start: location.0, size, unused: 0 };
        self.inner.write(&entry);
        self.count += 1;
    }

    /// The number of entries, which the superblock records.
    pub fn count(&self) -> (r: usize)
        requires
            self.wf(),
        ensures
            r == self.entries().len(),
    {
        self.count
    }

    /// Ends the table and hands out its stream and the index of its
    /// metadata blocks.
    pub fn finish(self) -> (r: (Vec<u8>, Vec<u32>))
        requires
            self.wf(),
        ensures
            spec_table_image(self.entries(), !self.has_compressor(), r.0@, r.1@),
    {
        self.inner.finish()
    }
}

} // verus!
