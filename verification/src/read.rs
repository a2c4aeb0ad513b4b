//! Opening archives and reading their metadata blocks.
//!
//! The functions here work on the bytes of an archive, or of the part of it
//! that a caller has read.

use crate::bytes::copy_prefix;
use crate::compression::AnyCodec;
use crate::compression::CodecConfig;
use crate::compression::Kind;
use crate::errors::CodecError;
use crate::errors::Error;
use crate::errors::ErrorInner;
use crate::errors::IoError;
use crate::errors::MetablockError;
use crate::errors::SuperblockError;
use crate::packed::PackedStruct;
use crate::repr;
use crate::repr::metablock;
use crate::repr::superblock;
use crate::repr::superblock::Superblock;
use crate::write::metablock_writer::spec_blocks_wf;
use crate::write::metablock_writer::spec_frames;
use crate::write::metablock_writer::Metablock;
use vstd::prelude::*;
use vstd::slice::slice_subrange;

verus! {

/// The block sizes of the format: two to the power of 12 up to 20.
pub proof fn lemma_block_sizes(block_log: u16)
    by (bit_vector)
    requires
        12 <= block_log <= 20,
    ensures
        0x1000 <= (1u32 << block_log) <= 0x10_0000,
        (1u32 << block_log) & (((1u32 << block_log) - 1) as u32) == 0,
{
}

/// Whether a block size and its logarithm agree and lie in the range of the
/// format.
pub open spec fn spec_block_sizes_ok(block_size: u32, block_log: u16) -> bool {
    &&& repr::BLOCK_LOG_MIN <= block_log <= repr::BLOCK_LOG_MAX
    &&& block_size == (1u32 << block_log)
}

/// The compression algorithm of a superblock that this library can read, or
/// the first thing that is wrong with the superblock.
pub open spec fn spec_validate_superblock(sb: Superblock) -> Result<Kind, SuperblockError> {
    if sb.magic != superblock::MAGIC {
        Err(SuperblockError::BadMagic { magic: sb.magic })
    } else if sb.version_major != superblock::VERSION_MAJOR || sb.version_minor
        != superblock::VERSION_MINOR {
        Err(SuperblockError::BadVersion { major: sb.version_major, minor: sb.version_minor })
    } else if !spec_block_sizes_ok(sb.block_size, sb.block_log) {
        Err(
            SuperblockError::CorruptBlockSizes {
                block_log: sb.block_log,
                block_size: sb.block_size,
            },
        )
    } else if Kind::spec_from_id(sb.compression_id) == Kind::Unknown {
        Err(SuperblockError::UnknownCompression { id: sb.compression_id })
    } else if !Kind::spec_from_id(sb.compression_id).spec_supported() {
        Err(SuperblockError::DisabledCompression { kind: Kind::spec_from_id(sb.compression_id) })
    } else {
        Ok(Kind::spec_from_id(sb.compression_id))
    }
}

/// Checks the magic number, the version, the block sizes and the compression
/// algorithm of a superblock, in this order.
pub fn validate_superblock(sb: &Superblock) -> (r: Result<Kind, SuperblockError>)
    ensures
        r == spec_validate_superblock(*sb),
        r is Ok ==> 0x1000 <= sb.block_size <= 0x10_0000,
{
    if sb.magic != superblock::MAGIC {
        return Err(SuperblockError::BadMagic { magic: sb.magic });
    }
    if sb.version_major != superblock::VERSION_MAJOR || sb.version_minor
        != superblock::VERSION_MINOR {
        return Err(
            SuperblockError::BadVersion { major: sb.version_major, minor: sb.version_minor },
        );
    }
    if sb.block_log < repr::BLOCK_LOG_MIN || sb.block_log > repr::BLOCK_LOG_MAX || sb.block_size
        != (1u32 << sb.block_log) {
        return Err(
            SuperblockError::CorruptBlockSizes {
                block_log: sb.block_log,
                block_size: sb.block_size,
            },
        );
    }
    proof {
        lemma_block_sizes(sb.block_log);
    }
    let compression_kind = Kind::from_id(sb.compression_id);
    if compression_kind == Kind::Unknown {
        return Err(SuperblockError::UnknownCompression { id: sb.compression_id });
    }
    if !compression_kind.supported() {
        return Err(SuperblockError::DisabledCompression { kind: compression_kind });
    }
    Ok(compression_kind)
}

/// The header of the metadata block at the start of `src`, or the reason why
/// there is none: the source is shorter than a header, or the header declares
/// more than 8 KiB.
pub open spec fn spec_metablock_header(src: Seq<u8>) -> Result<metablock::Header, Error> {
    if src.len() < 2 {
        Err(Error(ErrorInner::Io(IoError::UnexpectedEof)))
    } else {
        let header = metablock::Header::spec_from_packed(src.subrange(0, 2));
        if header.spec_size() > metablock::SIZE {
            Err(Error(ErrorInner::Metablock(MetablockError::HugeMetablock(header.spec_size() as usize))))
        } else {
            Ok(header)
        }
    }
}

/// Decodes and checks the header of a metadata block.
pub fn read_metablock_header(src: &[u8]) -> (r: Result<metablock::Header, Error>)
    ensures
        r == spec_metablock_header(src@),
{
    if src.len() < 2 {
        return Err(Error(ErrorInner::Io(IoError::UnexpectedEof)));
    }
    let header = metablock::Header::from_packed(slice_subrange(src, 0, 2));
    let size = header.size() as usize;
    if size > metablock::SIZE {
        return Err(Error(ErrorInner::Metablock(MetablockError::HugeMetablock(size))));
    }
    Ok(header)
}

/// What a metadata block that was decompressed counts as: its size, the
/// failure of the codec, or a size that is not the exact one asked for.
pub open spec fn spec_decompressed_size(
    outcome: Result<usize, CodecError>,
    expected: usize,
    exact: bool,
) -> Result<usize, Error> {
    match outcome {
        Err(e) => Err(Error(ErrorInner::Codec(e))),
        Ok(size) => if exact && size != expected {
            Err(
                Error(
                    ErrorInner::Metablock(
                        MetablockError::UnexpectedMetablockSize { actual: size, expected },
                    ),
                ),
            )
        } else {
            Ok(size)
        },
    }
}

/// Judges what the codec returned for a compressed metadata block that is
/// to fill a destination of `expected` bytes.
pub fn decompressed_size(outcome: Result<usize, CodecError>, expected: usize, exact: bool) -> (r:
    Result<usize, Error>)
    ensures
        r == spec_decompressed_size(outcome, expected, exact),
{
    match outcome {
        Err(e) => Err(Error(ErrorInner::Codec(e))),
        Ok(size) => {
            if exact && size != expected {
                Err(
                    Error(
                        ErrorInner::Metablock(
                            MetablockError::UnexpectedMetablockSize { actual: size, expected },
                        ),
                    ),
                )
            } else {
                Ok(size)
            }
        },
    }
}

/// Reads the metadata block at the start of `src` into `dst` and returns its
/// uncompressed size.
///
/// With `exact`, the block has to fill `dst` exactly. Without it, `dst` has
/// room for a full block. A block that is stored as it is lands at the start
/// of `dst`; the rest of `dst` stays. For a compressed block, what `dst`
/// holds and how large the block is lies with the codec. A block that is
/// refused before anything is copied or decompressed leaves `dst` as it is.
pub fn read_metablock(
    src: &[u8],
    compressor: Option<&mut AnyCodec>,
    dst: &mut [u8],
    exact: bool,
) -> (r: Result<usize, Error>)
    requires
        exact || old(dst)@.len() >= metablock::SIZE,
    ensures
        final(dst)@.len() == old(dst)@.len(),
        spec_metablock_header(src@) matches Err(e) ==> r == Err::<usize, Error>(e) && final(dst)@
            == old(dst)@,
        spec_metablock_header(src@) matches Ok(header) ==> {
            let size = header.spec_size() as int;
            let expected = old(dst)@.len();
            if header.spec_compressed() {
                if compressor is None {
                    &&& r == Err::<usize, Error>(
                        Error(ErrorInner::Metablock(MetablockError::CompressedCompressorOptions)),
                    )
                    &&& final(dst)@ == old(dst)@
                } else if src@.len() < 2 + size {
                    &&& r == Err::<usize, Error>(Error(ErrorInner::Io(IoError::UnexpectedEof)))
                    &&& final(dst)@ == old(dst)@
                } else {
                    exists|outcome: Result<usize, CodecError>|
                        {
                            &&& outcome matches Ok(n) ==> n <= expected
                            &&& outcome matches Err(e) ==> e == CodecError::CorruptInput
                            &&& r == #[trigger] spec_decompressed_size(
                                outcome,
                                expected as usize,
                                exact,
                            )
                        }
                }
            } else {
                if exact && size != expected {
                    &&& r == Err::<usize, Error>(
                        Error(
                            ErrorInner::Metablock(
                                MetablockError::UnexpectedMetablockSize {
                                    actual: size as usize,
                                    expected: expected as usize,
                                },
                            ),
                        ),
                    )
                    &&& final(dst)@ == old(dst)@
                } else if src@.len() < 2 + size {
                    &&& r == Err::<usize, Error>(Error(ErrorInner::Io(IoError::UnexpectedEof)))
                    &&& final(dst)@ == old(dst)@
                } else {
                    &&& r == Ok::<usize, Error>(size as usize)
                    &&& final(dst)@.subrange(0, size) == src@.subrange(2, 2 + size)
                    &&& final(dst)@.subrange(size, expected as int) == old(dst)@.subrange(
                        size,
                        expected as int,
                    )
                }
            }
        },
{
    let header = match read_metablock_header(src) {
        Ok(header) => header,
        Err(e) => {
            return Err(e);
        },
    };
    let compressed = header.compressed();
    let size = header.size() as usize;
    if compressed {
        let compressor = match compressor {
            Some(compressor) => compressor,
            None => {
                return Err(
                    Error(ErrorInner::Metablock(MetablockError::CompressedCompressorOptions)),
                );
            },
        };
        if src.len() - 2 < size {
            return Err(Error(ErrorInner::Io(IoError::UnexpectedEof)));
        }
        let expected = dst.len();
        let outcome = compressor.decompress(slice_subrange(src, 2, 2 + size), dst);
        decompressed_size(outcome, expected, exact)
    } else {
        if exact && size != dst.len() {
            return Err(
                Error(
                    ErrorInner::Metablock(
                        MetablockError::UnexpectedMetablockSize {
                            actual: size,
                            expected: dst.len(),
                        },
                    ),
                ),
            );
        }
        if src.len() - 2 < size {
            return Err(Error(ErrorInner::Io(IoError::UnexpectedEof)));
        }
        copy_prefix(dst, slice_subrange(src, 2, 2 + size));
        Ok(size)
    }
}

/// The frames of blocks are the frames of the first of them, then the
/// frames of the rest.
pub proof fn lemma_frames_split(blocks: Seq<Metablock>, k: int)
    requires
        0 <= k <= blocks.len(),
    ensures
        spec_frames(blocks) == spec_frames(blocks.subrange(0, k)) + spec_frames(
            blocks.subrange(k, blocks.len() as int),
        ),
    decreases blocks.len(),
{
    let rest = blocks.subrange(k, blocks.len() as int);
    if k == blocks.len() {
        assert(blocks.subrange(0, k) =~= blocks);
        assert(spec_frames(blocks) + spec_frames(rest) =~= spec_frames(blocks));
    } else {
        let front = blocks.drop_last();
        lemma_frames_split(front, k);
        assert(front.subrange(0, k) =~= blocks.subrange(0, k));
        assert(front.subrange(k, front.len() as int) =~= rest.drop_last());
        assert(rest.last() == blocks.last());
        crate::bytes::lemma_concat_assoc(
            spec_frames(blocks.subrange(0, k)),
            spec_frames(rest.drop_last()),
            blocks.last().frame(),
        );
    }
}

/// Every block of a stream can be read back where it starts.
///
/// At the offset at which the frames of the blocks before it end, the header
/// of block `i` is found: it says how many bytes are stored and whether they
/// are compressed, and those bytes follow it.
pub proof fn lemma_block_read_back(blocks: Seq<Metablock>, i: int)
    requires
        spec_blocks_wf(blocks),
        0 <= i < blocks.len(),
    ensures
        ({
            let stream = spec_frames(blocks);
            let start = spec_frames(blocks.subrange(0, i)).len() as int;
            let src = stream.subrange(start, stream.len() as int);
            let stored = blocks[i].stored;
            &&& start + 2 + stored.len() <= stream.len()
            &&& spec_metablock_header(src) == Ok::<metablock::Header, Error>(
                metablock::Header::spec_new(stored.len() as u16, blocks[i].compressed),
            )
            &&& metablock::Header::spec_new(stored.len() as u16, blocks[i].compressed).spec_size()
                == stored.len()
            &&& metablock::Header::spec_new(
                stored.len() as u16,
                blocks[i].compressed,
            ).spec_compressed() == blocks[i].compressed
            &&& src.subrange(2, 2 + stored.len() as int) == stored
        }),
{
    let stream = spec_frames(blocks);
    let before = spec_frames(blocks.subrange(0, i));
    let block = blocks[i];
    let header = metablock::Header::spec_new(block.stored.len() as u16, block.compressed);
    let from = blocks.subrange(i, blocks.len() as int);
    let after = spec_frames(from.subrange(1, from.len() as int));
    lemma_frames_split(blocks, i);
    lemma_frames_split(from, 1);
    let single = Seq::<Metablock>::empty().push(block);
    assert(from.subrange(0, 1) =~= single);
    crate::write::metablock_writer::lemma_push_block(Seq::<Metablock>::empty(), block);
    assert(spec_frames(single) =~= block.frame());
    assert(block.wf());
    header.lemma_round_trip();
    metablock::lemma_header_new_parts(block.stored.len() as u16, block.compressed);
    let src = stream.subrange(before.len() as int, stream.len() as int);
    assert(src =~= block.frame() + after);
    assert(src.subrange(0, 2) =~= header.spec_to_packed());
    assert(src.subrange(2, 2 + block.stored.len() as int) =~= block.stored);
}

/// The number of metadata blocks that hold `item_count` records of
/// `item_size` bytes.
pub open spec fn spec_block_count(item_size: nat, item_count: nat) -> nat {
    (item_size * item_count + (metablock::SIZE - 1) as nat) / (metablock::SIZE as nat)
}

/// The 64-bit little-endian numbers that `bytes` start with, `count` of
/// them.
pub open spec fn spec_offsets(bytes: Seq<u8>, count: nat) -> Seq<u64>
    decreases count,
{
    if count == 0 {
        Seq::empty()
    } else {
        spec_offsets(bytes, (count - 1) as nat).push(
            u64::spec_from_packed(bytes.subrange((count - 1) * 8, (count * 8) as int)),
        )
    }
}

/// Reads the index of a table stored in two levels: the offsets of the
/// metadata blocks that hold `item_count` records of type `T`.
///
/// The index lies in `image` from `start` up to `end`, the start of the next
/// section. It fails where that range is not inside of `image` or ends before
/// the last offset.
pub fn metablock_indexes<T: PackedStruct>(image: &[u8], start: u64, end: u64, item_count: usize) -> (r:
    Result<Vec<u64>, Error>)
    requires
        end > start,
        T::spec_size() <= metablock::SIZE,
    ensures
        ({
            let count = spec_block_count(T::spec_size(), item_count as nat);
            if end <= image@.len() && count * 8 <= end - start {
                r matches Ok(offsets) && offsets@ == spec_offsets(
                    image@.subrange(start as int, end as int),
                    count,
                )
            } else {
                r == Err::<Vec<u64>, Error>(Error(ErrorInner::Io(IoError::UnexpectedEof)))
            }
        }),
{
    let item_size: u128 = T::size() as u128;
    assert(item_size * (item_count as u128) <= 8192 * 0xFFFF_FFFF_FFFF_FFFF) by (nonlinear_arith)
        requires
            item_size <= 8192,
            item_count <= 0xFFFF_FFFF_FFFF_FFFF,
    ;
    let total_size: u128 = item_size * item_count as u128;
    let block_count: u128 = (total_size + (metablock::SIZE as u128 - 1)) / metablock::SIZE as u128;
    if end > image.len() as u64 || block_count * 8 > (end - start) as u128 {
        return Err(Error(ErrorInner::Io(IoError::UnexpectedEof)));
    }
    let section = slice_subrange(image, start as usize, end as usize);
    let count: usize = block_count as usize;
    let mut offsets: Vec<u64> = Vec::new();
    let mut i: usize = 0;
    while i < count
        invariant
            i <= count,
            count * 8 <= section@.len() <= usize::MAX,
            offsets@ == spec_offsets(section@, i as nat),
        decreases count - i,
    {
        let offset = u64::from_packed(slice_subrange(section, i * 8, i * 8 + 8));
        offsets.push(offset);
        i += 1;
    }
    Ok(offsets)
}

/// An archive that has been opened: its superblock and the codec of its
/// compression algorithm, made from the stored options where there are any.
pub struct Archive {
    superblock: Superblock,
    compressor: AnyCodec,
}

/// What opening an archive ends in where the codec is not asked: the kind of
/// the codec and whether it has stored options, or the error.
pub open spec fn spec_open_plan(image: Seq<u8>) -> Result<(Superblock, Kind, bool), Error> {
    if image.len() < Superblock::spec_size() {
        Err(Error(ErrorInner::Io(IoError::UnexpectedEof)))
    } else {
        let sb = Superblock::spec_from_packed(image.subrange(0, Superblock::spec_size() as int));
        match spec_validate_superblock(sb) {
            Err(e) => Err(Error(ErrorInner::BadSuperblock(e))),
            Ok(kind) => if sb.flags.spec_unknown_bits() != 0 {
                Err(
                    Error(
                        ErrorInner::BadSuperblock(
                            SuperblockError::UnsupportedOption { flags: sb.flags.spec_unknown_bits() },
                        ),
                    ),
                )
            } else {
                Ok((sb, kind, sb.flags.spec_contains(superblock::COMPRESSOR_OPTIONS)))
            },
        }
    }
}

/// The stored options of a compressor: the content of the metadata block
/// after the superblock, which must not be compressed.
pub open spec fn spec_stored_options(image: Seq<u8>) -> Result<Seq<u8>, Error> {
    let src = image.subrange(Superblock::spec_size() as int, image.len() as int);
    match spec_metablock_header(src) {
        Err(e) => Err(e),
        Ok(header) => if header.spec_compressed() {
            Err(Error(ErrorInner::Metablock(MetablockError::CompressedCompressorOptions)))
        } else if src.len() < 2 + header.spec_size() {
            Err(Error(ErrorInner::Io(IoError::UnexpectedEof)))
        } else {
            Ok(src.subrange(2, 2 + header.spec_size()))
        },
    }
}

/// What opening an archive ends in: the superblock and the options of the
/// codec, or the first error on the way.
pub open spec fn spec_open(image: Seq<u8>) -> Result<(Superblock, Kind, Option<CodecConfig>), Error> {
    match spec_open_plan(image) {
        Err(e) => Err(e),
        Ok((sb, kind, false)) => Ok((sb, kind, None)),
        Ok((sb, kind, true)) => match spec_stored_options(image) {
            Err(e) => Err(e),
            Ok(options) => match AnyCodec::spec_read_config(kind, options) {
                Err(e) => Err(Error(ErrorInner::InvalidCompressorOptions(e))),
                Ok(config) => Ok((sb, kind, Some(config))),
            },
        },
    }
}

impl Archive {
    pub closed spec fn spec_superblock(&self) -> Superblock {
        self.superblock
    }

    pub closed spec fn spec_compressor(&self) -> AnyCodec {
        self.compressor
    }

    /// Opens the archive whose bytes start with `image`: decodes and checks
    /// the superblock, rejects flags without a meaning, and sets up the
    /// codec, with the stored options where the archive has any.
    pub fn new(image: &[u8]) -> (r: Result<Archive, Error>)
        ensures
            match spec_open(image@) {
                Err(e) => r matches Err(f) && f == e,
                Ok((sb, kind, config)) => {
                    &&& r matches Ok(archive)
                    &&& archive.spec_superblock() == sb
                    &&& archive.spec_compressor().spec_kind() == kind
                    &&& config matches Some(c) ==> archive.spec_compressor().spec_config() == c
                &&& config is None ==> archive.spec_compressor().spec_config()
                    == AnyCodec::spec_default_config(kind)
                },
            },
    {
        let sb: Superblock = match crate::packed::read(image) {
            Ok(sb) => sb,
            Err(_) => {
                return Err(Error(ErrorInner::Io(IoError::UnexpectedEof)));
            },
        };
        let compressor_kind = match validate_superblock(&sb) {
            Ok(kind) => kind,
            Err(e) => {
                return Err(Error(ErrorInner::BadSuperblock(e)));
            },
        };
        let flags = sb.flags;
        let unknown = flags.unknown_bits();
        if unknown != 0 {
            return Err(
                Error(
                    ErrorInner::BadSuperblock(SuperblockError::UnsupportedOption { flags: unknown }),
                ),
            );
        }
        let compressor = if flags.contains(superblock::COMPRESSOR_OPTIONS) {
            let mut options: Vec<u8> = Vec::new();
            crate::bytes::fill_zeroed(&mut options, metablock::SIZE);
            let src = slice_subrange(image, Superblock::size(), image.len());
            let size = match read_metablock(src, None, options.as_mut_slice(), false) {
                Ok(size) => size,
                Err(e) => {
                    return Err(e);
                },
            };
            match AnyCodec::configured(compressor_kind, slice_subrange(options.as_slice(), 0, size)) {
                Ok(codec) => codec,
                Err(e) => {
                    return Err(Error(ErrorInner::InvalidCompressorOptions(e)));
                },
            }
        } else {
            AnyCodec::new(compressor_kind)
        };
        Ok(Archive { superblock: sb, compressor })
    }

    pub fn superblock(&self) -> (r: &Superblock)
        ensures
            *r == self.spec_superblock(),
    {
        &self.superblock
    }

    /// The kind of the codec of the archive.
    pub fn compression_kind(&self) -> (r: Kind)
        ensures
            r == self.spec_compressor().spec_kind(),
    {
        self.compressor.kind()
    }

    /// The options of the codec of the archive.
    pub fn compressor_config(&self) -> (r: CodecConfig)
        ensures
            r == self.spec_compressor().spec_config(),
    {
        self.compressor.config()
    }

    /// A codec like that of the archive, for a caller to decompress with.
    pub fn compressor(&self) -> (r: AnyCodec)
        ensures
            r.spec_kind() == self.spec_compressor().spec_kind(),
            r.spec_config() == self.spec_compressor().spec_config(),
    {
        self.compressor.clone()
    }
}

} // verus!
