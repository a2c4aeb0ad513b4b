//! Choices that a writer of an archive makes.

use vstd::prelude::*;

verus! {

/// Which tails of files are packed into fragment blocks.
#[derive(Debug, Copy, Clone, PartialEq, Eq, PartialOrd, Ord, Hash, Structural)]
pub enum FragmentMode {
    /// No fragments: the tail of a file is stored as a block of its own.
    Never,
    /// Files that are shorter than one block are stored in fragments.
    SmallFiles,
    /// Every tail that is shorter than one block is stored in a fragment.
    Always,
}

impl Default for FragmentMode {
    fn default() -> (r: FragmentMode)
        ensures
            r == FragmentMode::Always,
    {
        FragmentMode::Always
    }
}

} // verus!
