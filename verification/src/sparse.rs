//! Sources that may have holes.
//!
//! A hole is a run of bytes that are known to be zero without being read. A
//! source that can tell where it has holes lets the writer of the data blocks
//! skip them.

use vstd::prelude::*;

verus! {

/// A source that may be able to skip holes.
pub trait SparseRead {
    /// Whether the source can find holes. One that cannot skips nothing,
    /// and a source cannot unless it says otherwise.
    open spec fn spec_finds_holes(&self) -> bool {
        false
    }

    /// Moves past the hole at the current position, if there is one, and
    /// returns the number of bytes skipped. A source that cannot find holes
    /// returns 0 every time, which is what the default does.
    fn skip_hole(&mut self) -> (r: Result<u64, std::io::Error>)
        ensures
            !old(self).spec_finds_holes() ==> (r matches Ok(n) && n == 0),
    {
        Ok(0)
    }
}

/// A source that is treated as one without holes.
pub struct NoHoles<R> {
    inner: R,
}

impl<R> NoHoles<R> {
    pub closed spec fn spec_inner(&self) -> R {
        self.inner
    }

    pub fn new(inner: R) -> (r: Self)
        ensures
            r.spec_inner() == inner,
    {
        NoHoles { inner }
    }

    pub fn get_ref(&self) -> (r: &R)
        ensures
            *r == self.spec_inner(),
    {
        &self.inner
    }

    pub fn get_mut(&mut self) -> (r: &mut R)
        ensures
            *r == old(self).spec_inner(),
            final(self).spec_inner() == *final(r),
    {
        &mut self.inner
    }

    pub fn into_inner(self) -> (r: R)
        ensures
            r == self.spec_inner(),
    {
        self.inner
    }
}

impl<R> SparseRead for NoHoles<R> {
    /// Skips nothing and leaves the source alone.
    fn skip_hole(&mut self) -> (r: Result<u64, std::io::Error>)
        ensures
            final(self).spec_inner() == old(self).spec_inner(),
    {
        Ok(0)
    }
}

} // verus!
