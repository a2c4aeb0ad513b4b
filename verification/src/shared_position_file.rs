//! A cursor over a file that is written at given positions.

use vstd::prelude::*;

verus! {

/// A file that can be written at a position through a shared reference.
///
/// An implementation writes at most the bytes that it is given: the count
/// that `write_at` returns is not above the length of the buffer.
pub trait SharedWriteAt: Send + Sync {
    fn write_at(&self, buf: &[u8], pos: u64) -> (r: Result<usize, std::io::Error>)
        ensures
            r matches Ok(n) ==> n <= buf@.len(),
    ;

    fn write_all_at(&self, buf: &[u8], pos: u64) -> (r: Result<(), std::io::Error>);

    fn flush(&self) -> (r: Result<(), std::io::Error>);
}

/// A file with a position, which moves on with every write.
pub struct Positioned<F> {
    file: F,
    position: u64,
}

impl<W> Positioned<W> {
    /// Where the next write goes.
    pub closed spec fn spec_position(&self) -> u64 {
        self.position
    }

    /// The file that the cursor writes to.
    pub closed spec fn spec_file(&self) -> W {
        self.file
    }

    /// A cursor at the start of the file.
    pub fn new(file: W) -> (r: Self)
        ensures
            r.spec_position() == 0,
            r.spec_file() == file,
    {
        Positioned { file, position: 0 }
    }

    /// A cursor at the given position.
    pub fn with_position(file: W, position: u64) -> (r: Self)
        ensures
            r.spec_position() == position,
            r.spec_file() == file,
    {
        Positioned { file, position }
    }

    #[verifier::when_used_as_spec(spec_position)]
    pub fn position(&self) -> (r: u64)
        ensures
            r == self.spec_position(),
    {
        self.position
    }

    /// Gives the file back.
    pub fn into_inner(self) -> (r: W)
        ensures
            r == self.spec_file(),
    {
        self.file
    }
}

impl<W: SharedWriteAt> Positioned<W> {
    /// Writes some of `buf` at the position and moves on by what was
    /// written. A failure leaves the position where it was.
    pub fn write(&mut self, buf: &[u8]) -> (r: Result<usize, std::io::Error>)
        requires
            old(self).spec_position() + buf@.len() <= u64::MAX,
        ensures
            r matches Ok(n) ==> n <= buf@.len() && final(self).spec_position() == old(
                self,
            ).spec_position() + n,
            r is Err ==> final(self).spec_position() == old(self).spec_position(),
            final(self).spec_file() == old(self).spec_file(),
    {
        let position = self.position;
        match self.file.write_at(buf, position) {
            Ok(written) => {
                self.position = position + written as u64;
                Ok(written)
            },
            Err(e) => Err(e),
        }
    }

    /// Writes all of `buf` at the position and moves on by its length. A
    /// failure leaves the position where it was.
    pub fn write_all(&mut self, buf: &[u8]) -> (r: Result<(), std::io::Error>)
        requires
            old(self).spec_position() + buf@.len() <= u64::MAX,
        ensures
            r is Ok ==> final(self).spec_position() == old(self).spec_position() + buf@.len(),
            r is Err ==> final(self).spec_position() == old(self).spec_position(),
            final(self).spec_file() == old(self).spec_file(),
    {
        let position = self.position;
        match self.file.write_all_at(buf, position) {
            Ok(()) => {
                self.position = position + buf.len() as u64;
                Ok(())
            },
            Err(e) => Err(e),
        }
    }

    /// Flushes the file. The position stays.
    pub fn flush(&mut self) -> (r: Result<(), std::io::Error>)
        ensures
            final(self).spec_position() == old(self).spec_position(),
            final(self).spec_file() == old(self).spec_file(),
    {
        self.file.flush()
    }
}

} // verus!
