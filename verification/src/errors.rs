//! The errors of the library.

use crate::compression::Kind;
use crate::packed::ReadError;
use crate::repr::compression::Id;
use vstd::prelude::*;

verus! {

/// The superblock does not describe an archive that this library reads.
#[derive(Debug, Copy, Clone, PartialEq, Eq, Structural)]
pub enum SuperblockError {
    /// The magic number is not that of a SquashFS archive.
    BadMagic { magic: u32 },
    /// The version is not 4.0.
    BadVersion { major: u16, minor: u16 },
    /// The compression ID names no known algorithm.
    UnknownCompression { id: Id },
    /// The compression algorithm is known, but not built in.
    DisabledCompression { kind: Kind },
    /// The block size is not two to the power of the block log, or lies
    /// outside of 4 KiB to 1 MiB.
    CorruptBlockSizes { block_log: u16, block_size: u32 },
    /// Flag bits without a meaning are set; `flags` holds them.
    UnsupportedOption { flags: u16 },
}

/// A metadata block cannot be read.
#[derive(Debug, Copy, Clone, PartialEq, Eq, Structural)]
pub enum MetablockError {
    /// The header declares more than 8 KiB on disk.
    HugeMetablock(usize),
    /// The caller asked for an exact size and the block has another one.
    UnexpectedMetablockSize { actual: usize, expected: usize },
    /// The block claims to be compressed where no codec is at hand, as in
    /// the compressor options.
    CompressedCompressorOptions,
}

/// A codec could not do its work.
#[derive(Debug, Copy, Clone, PartialEq, Eq, Structural)]
pub enum CodecError {
    /// The compressed form does not fit into the destination.
    ShortOutput,
    /// The input is no valid compressed stream, or it does not fit into the
    /// destination.
    CorruptInput,
}

/// The stored options of a compressor are not usable.
#[derive(Debug, Copy, Clone, PartialEq, Eq, Structural)]
pub enum OptionsError {
    /// The options end before the record is complete.
    UnexpectedEof,
    /// The compression level is out of range.
    InvalidCompressionLevel(u32),
    /// The window size is out of range.
    InvalidWindowSize(u16),
}

/// An item cannot be stored in an archive.
#[derive(Debug, Copy, Clone, PartialEq, Eq, Structural)]
pub enum ItemError {
    /// The target of a symlink is empty.
    EmptySymlinkTarget,
    /// The target of a symlink is longer than 32 bits can say.
    SymlinkTargetTooLong,
    /// A name is empty.
    EmptyName,
    /// A name is longer than its size field can say.
    NameTooLong,
    /// The link count of a directory does not fit in 32 bits.
    TooManyLinks,
    /// A directory has more index entries than 16 bits can count.
    TooManyIndexEntries,
    /// The archive has more inodes than 32 bits can count.
    TooManyInodes,
    /// The archive has more user and group IDs than 16 bits can index.
    TooManyIds,
    /// A table has grown beyond what its references can address.
    TableTooLarge,
    /// The item that is referred to does not exist, or is of the wrong kind.
    InvalidItem,
    /// The archive is flushed already, or a flush of it has failed.
    ArchiveClosed,
}

/// A failure of the byte source.
#[derive(Debug, Copy, Clone, PartialEq, Eq, Structural)]
pub enum IoError {
    /// The source ended before all the bytes asked for were read.
    UnexpectedEof,
}

#[derive(Debug, Copy, Clone, PartialEq, Eq, Structural)]
pub enum ErrorInner {
    BadSuperblock(SuperblockError),
    Metablock(MetablockError),
    InvalidCompressorOptions(OptionsError),
    Codec(CodecError),
    Item(ItemError),
    Io(IoError),
}

/// Any error that reading or writing an archive can end in.
#[derive(Debug, Copy, Clone, PartialEq, Eq, Structural)]
pub struct Error(pub ErrorInner);

impl From<SuperblockError> for Error {
    fn from(e: SuperblockError) -> (r: Error) {
        Error(ErrorInner::BadSuperblock(e))
    }
}

impl vstd::std_specs::convert::FromSpecImpl<SuperblockError> for Error {
    open spec fn obeys_from_spec() -> bool {
        true
    }

    open spec fn from_spec(e: SuperblockError) -> Error {
        Error(ErrorInner::BadSuperblock(e))
    }
}

impl From<MetablockError> for Error {
    fn from(e: MetablockError) -> (r: Error) {
        Error(ErrorInner::Metablock(e))
    }
}

impl vstd::std_specs::convert::FromSpecImpl<MetablockError> for Error {
    open spec fn obeys_from_spec() -> bool {
        true
    }

    open spec fn from_spec(e: MetablockError) -> Error {
        Error(ErrorInner::Metablock(e))
    }
}

impl From<OptionsError> for Error {
    fn from(e: OptionsError) -> (r: Error) {
        Error(ErrorInner::InvalidCompressorOptions(e))
    }
}

impl vstd::std_specs::convert::FromSpecImpl<OptionsError> for Error {
    open spec fn obeys_from_spec() -> bool {
        true
    }

    open spec fn from_spec(e: OptionsError) -> Error {
        Error(ErrorInner::InvalidCompressorOptions(e))
    }
}

impl From<CodecError> for Error {
    fn from(e: CodecError) -> (r: Error) {
        Error(ErrorInner::Codec(e))
    }
}

impl vstd::std_specs::convert::FromSpecImpl<CodecError> for Error {
    open spec fn obeys_from_spec() -> bool {
        true
    }

    open spec fn from_spec(e: CodecError) -> Error {
        Error(ErrorInner::Codec(e))
    }
}

impl From<ItemError> for Error {
    fn from(e: ItemError) -> (r: Error) {
        Error(ErrorInner::Item(e))
    }
}

impl vstd::std_specs::convert::FromSpecImpl<ItemError> for Error {
    open spec fn obeys_from_spec() -> bool {
        true
    }

    open spec fn from_spec(e: ItemError) -> Error {
        Error(ErrorInner::Item(e))
    }
}

impl From<ReadError> for Error {
    fn from(e: ReadError) -> (r: Error) {
        Error(ErrorInner::Io(IoError::UnexpectedEof))
    }
}

impl vstd::std_specs::convert::FromSpecImpl<ReadError> for Error {
    open spec fn obeys_from_spec() -> bool {
        true
    }

    open spec fn from_spec(e: ReadError) -> Error {
        Error(ErrorInner::Io(IoError::UnexpectedEof))
    }
}

} // verus!
