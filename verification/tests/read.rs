use sqfs::compression::AnyCodec;
use sqfs::compression::CodecConfig;
use sqfs::compression::Kind;
use sqfs::errors::CodecError;
use sqfs::errors::Error;
use sqfs::errors::ErrorInner;
use sqfs::errors::IoError;
use sqfs::errors::MetablockError;
use sqfs::errors::OptionsError;
use sqfs::errors::SuperblockError;
use sqfs::packed::PackedStruct;
use sqfs::read::decompressed_size;
use sqfs::read::metablock_indexes;
use sqfs::read::read_metablock;
use sqfs::read::read_metablock_header;
use sqfs::read::validate_superblock;
use sqfs::read::Archive;
use sqfs::repr::compression::options;
use sqfs::repr::compression::Id;
use sqfs::repr::inode;
use sqfs::repr::metablock;
use sqfs::repr::superblock;
use sqfs::repr::superblock::Flags;
use sqfs::repr::superblock::Superblock;
use sqfs::write::metablock_writer::MetablockWriter;

fn good() -> Superblock {
    Superblock {
        magic: superblock::MAGIC,
        inode_count: 1,
        modification_time: 0,
        block_size: 0x2_0000,
        fragment_entry_count: 0,
        compression_id: Id(1),
        block_log: 17,
        flags: Flags { bits: 0 },
        id_count: 1,
        version_major: 4,
        version_minor: 0,
        root_inode_ref: inode::Ref(0),
        bytes_used: 96,
        id_table_start: 96,
        xattr_id_table_start: u64::MAX,
        inode_table_start: 96,
        directory_table_start: 96,
        fragment_table_start: u64::MAX,
        export_table_start: u64::MAX,
    }
}

#[test]
fn superblocks_are_validated() {
    assert_eq!(validate_superblock(&good()), Ok(Kind::ZLib));
    assert_eq!(validate_superblock(&Superblock { compression_id: Id(6), ..good() }), Ok(Kind::Zstd));
    assert_eq!(
        validate_superblock(&Superblock { magic: 0x68737173, ..good() }),
        Err(SuperblockError::BadMagic { magic: 0x68737173 })
    );
    assert_eq!(
        validate_superblock(&Superblock { version_major: 3, ..good() }),
        Err(SuperblockError::BadVersion { major: 3, minor: 0 })
    );
    assert_eq!(
        validate_superblock(&Superblock { version_minor: 1, ..good() }),
        Err(SuperblockError::BadVersion { major: 4, minor: 1 })
    );
    assert_eq!(
        validate_superblock(&Superblock { block_log: 16, ..good() }),
        Err(SuperblockError::CorruptBlockSizes { block_log: 16, block_size: 0x2_0000 })
    );
    for (log, size) in [(11u16, 0x800u32), (21, 0x20_0000), (40, 0x100), (0, 1)] {
        assert_eq!(
            validate_superblock(&Superblock { block_log: log, block_size: size, ..good() }),
            Err(SuperblockError::CorruptBlockSizes { block_log: log, block_size: size })
        );
    }
    for log in 12..=20u16 {
        assert_eq!(
            validate_superblock(&Superblock { block_log: log, block_size: 1 << log, ..good() }),
            Ok(Kind::ZLib)
        );
    }
    for id in [0u16, 7, 0xFFFF] {
        assert_eq!(
            validate_superblock(&Superblock { compression_id: Id(id), ..good() }),
            Err(SuperblockError::UnknownCompression { id: Id(id) })
        );
    }
    for (id, kind) in [(2u16, Kind::Lzma), (3, Kind::Lzo), (4, Kind::Xz), (5, Kind::Lz4)] {
        assert_eq!(
            validate_superblock(&Superblock { compression_id: Id(id), ..good() }),
            Err(SuperblockError::DisabledCompression { kind })
        );
    }
    // the first thing that is wrong is reported
    assert_eq!(
        validate_superblock(&Superblock { magic: 0, version_major: 9, ..good() }),
        Err(SuperblockError::BadMagic { magic: 0 })
    );
}

fn bad(e: SuperblockError) -> Option<Error> {
    Some(Error(ErrorInner::BadSuperblock(e)))
}

#[test]
fn archives_are_opened() {
    let image = good().to_packed();
    let archive = Archive::new(&image).ok().unwrap();
    assert_eq!(*archive.superblock(), good());
    assert_eq!(archive.compression_kind(), Kind::ZLib);
    assert_eq!(archive.compressor_config(), CodecConfig::Gzip(options::Gzip::default()));
    assert_eq!(archive.compressor().kind(), Kind::ZLib);

    assert_eq!(
        Archive::new(&image[..95]).err(),
        Some(Error(ErrorInner::Io(IoError::UnexpectedEof)))
    );
    assert_eq!(
        Archive::new(&Superblock { magic: 1, ..good() }.to_packed()).err(),
        bad(SuperblockError::BadMagic { magic: 1 })
    );
    assert_eq!(
        Archive::new(&Superblock { flags: Flags { bits: 0x1001 }, ..good() }.to_packed()).err(),
        bad(SuperblockError::UnsupportedOption { flags: 0x1000 })
    );
    assert!(Archive::new(&Superblock { flags: Flags { bits: 0x0BFF }, ..good() }.to_packed()).is_ok());
}

fn with_options(header: u16, options: &[u8], kind: u16) -> Vec<u8> {
    let sb = Superblock {
        flags: Flags { bits: superblock::COMPRESSOR_OPTIONS },
        compression_id: Id(kind),
        ..good()
    };
    let mut image = sb.to_packed();
    image.extend_from_slice(&header.to_le_bytes());
    image.extend_from_slice(options);
    image
}

#[test]
fn stored_options_are_loaded() {
    let stored = options::Gzip { compression_level: 5, window_size: 10, strategies: Default::default() };
    let archive = Archive::new(&with_options(8, &stored.to_packed(), 1)).ok().unwrap();
    assert_eq!(archive.compressor_config(), CodecConfig::Gzip(stored));
    let stored = options::Zstd { compression_level: 7 };
    let archive = Archive::new(&with_options(4, &stored.to_packed(), 6)).ok().unwrap();
    assert_eq!(archive.compressor_config(), CodecConfig::Zstd(stored));

    let invalid = |e: OptionsError| Some(Error(ErrorInner::InvalidCompressorOptions(e)));
    let out_of_range = options::Zstd { compression_level: 23 };
    assert_eq!(
        Archive::new(&with_options(4, &out_of_range.to_packed(), 6)).err(),
        invalid(OptionsError::InvalidCompressionLevel(23))
    );
    let window = options::Gzip { compression_level: 5, window_size: 8, strategies: Default::default() };
    assert_eq!(
        Archive::new(&with_options(8, &window.to_packed(), 1)).err(),
        invalid(OptionsError::InvalidWindowSize(8))
    );
    assert_eq!(
        Archive::new(&with_options(2, &[1, 0], 6)).err(),
        invalid(OptionsError::UnexpectedEof)
    );
    // the options must not be compressed, and must be there
    assert_eq!(
        Archive::new(&with_options(0x8004, &[1, 0, 0, 0], 6)).err(),
        Some(Error(ErrorInner::Metablock(MetablockError::CompressedCompressorOptions)))
    );
    assert_eq!(
        Archive::new(&with_options(4, &[1, 0], 6)).err(),
        Some(Error(ErrorInner::Io(IoError::UnexpectedEof)))
    );
    assert_eq!(
        Archive::new(&with_options(0x2001, &[], 6)).err(),
        Some(Error(ErrorInner::Metablock(MetablockError::HugeMetablock(0x2001))))
    );
}

#[test]
fn metablocks_are_read() {
    let io = |e: IoError| Err(Error(ErrorInner::Io(e)));
    let meta = |e: MetablockError| Err(Error(ErrorInner::Metablock(e)));
    let mut dst = vec![0xAAu8; metablock::SIZE];

    assert_eq!(read_metablock(&[], None, &mut dst, false), io(IoError::UnexpectedEof));
    assert_eq!(read_metablock(&[3], None, &mut dst, false), io(IoError::UnexpectedEof));
    assert_eq!(read_metablock(&[3, 0, 1, 2], None, &mut dst, false), io(IoError::UnexpectedEof));
    assert_eq!(
        read_metablock(&[0x01, 0x20, 0], None, &mut dst, false),
        meta(MetablockError::HugeMetablock(0x2001))
    );
    assert_eq!(
        read_metablock(&[0xFF, 0xFF, 0], None, &mut dst, false),
        meta(MetablockError::HugeMetablock(0x7FFF))
    );
    assert_eq!(
        read_metablock(&[0x03, 0x80, 1, 2, 3], None, &mut dst, false),
        meta(MetablockError::CompressedCompressorOptions)
    );

    assert_eq!(read_metablock(&[3, 0, 1, 2, 3, 4], None, &mut dst, false), Ok(3));
    assert_eq!(&dst[..5], &[1, 2, 3, 0xAA, 0xAA]);
    assert_eq!(read_metablock(&[0, 0], None, &mut dst, false), Ok(0));

    let mut small = [0u8; 3];
    assert_eq!(read_metablock(&[3, 0, 7, 8, 9], None, &mut small, true), Ok(3));
    assert_eq!(small, [7, 8, 9]);
    assert_eq!(
        read_metablock(&[2, 0, 7, 8], None, &mut small, true),
        meta(MetablockError::UnexpectedMetablockSize { actual: 2, expected: 3 })
    );
    assert_eq!(
        read_metablock_header(&[0x00, 0xA0]).map(|h| (h.size(), h.compressed())),
        Ok((8192, true))
    );
}

#[test]
fn compressed_metablocks_are_read() {
    for kind in [Kind::ZLib, Kind::Zstd] {
        let mut writer = MetablockWriter::new(Some(AnyCodec::new(kind)));
        writer.write_raw(&[42u8; 500]);
        let stream = writer.finish();
        assert!(metablock::Header(u16::from_le_bytes([stream[0], stream[1]])).compressed());
        let mut codec = AnyCodec::new(kind);

        let mut dst = vec![0u8; metablock::SIZE];
        assert_eq!(read_metablock(&stream, Some(&mut codec), &mut dst, false), Ok(500));
        assert_eq!(&dst[..500], &[42u8; 500]);
        let mut exact = vec![0u8; 500];
        assert_eq!(read_metablock(&stream, Some(&mut codec), &mut exact, true), Ok(500));
        let mut larger = vec![0u8; 501];
        assert_eq!(
            read_metablock(&stream, Some(&mut codec), &mut larger, true),
            Err(Error(ErrorInner::Metablock(MetablockError::UnexpectedMetablockSize {
                actual: 500,
                expected: 501
            })))
        );
        let mut smaller = vec![0u8; 499];
        assert_eq!(
            read_metablock(&stream, Some(&mut codec), &mut smaller, true),
            Err(Error(ErrorInner::Codec(CodecError::CorruptInput)))
        );
        assert_eq!(
            read_metablock(&stream[..stream.len() - 1], Some(&mut codec), &mut dst, false),
            Err(Error(ErrorInner::Io(IoError::UnexpectedEof)))
        );
        let broken = [0x04, 0x80, 1, 2, 3, 4];
        assert_eq!(
            read_metablock(&broken, Some(&mut codec), &mut dst, false),
            Err(Error(ErrorInner::Codec(CodecError::CorruptInput)))
        );
    }
}

#[test]
fn sizes_of_decompressed_blocks() {
    assert_eq!(decompressed_size(Ok(5), 5, true), Ok(5));
    assert_eq!(decompressed_size(Ok(4), 5, false), Ok(4));
    assert_eq!(
        decompressed_size(Ok(4), 5, true),
        Err(Error(ErrorInner::Metablock(MetablockError::UnexpectedMetablockSize {
            actual: 4,
            expected: 5
        })))
    );
    assert_eq!(
        decompressed_size(Err(CodecError::CorruptInput), 5, false),
        Err(Error(ErrorInner::Codec(CodecError::CorruptInput)))
    );
}

#[test]
fn indexes_are_read() {
    let mut image = vec![0u8; 10];
    for offset in [100u64, 8294, u64::MAX] {
        image.extend_from_slice(&offset.to_le_bytes());
    }
    let eof = Err(Error(ErrorInner::Io(IoError::UnexpectedEof)));
    // 2049 records of 4 bytes take two blocks
    assert_eq!(metablock_indexes::<u32>(&image, 10, 34, 2049), Ok(vec![100, 8294]));
    assert_eq!(metablock_indexes::<u32>(&image, 10, 34, 2048), Ok(vec![100]));
    assert_eq!(metablock_indexes::<u32>(&image, 10, 34, 0), Ok(vec![]));
    assert_eq!(metablock_indexes::<u64>(&image, 10, 34, 2049), Ok(vec![100, 8294, u64::MAX]));
    assert_eq!(metablock_indexes::<u64>(&image, 10, 33, 2049), eof);
    assert_eq!(metablock_indexes::<u64>(&image, 10, 35, 2049), eof);
    assert_eq!(metablock_indexes::<u64>(&image, 18, 34, 1), Ok(vec![8294]));
}

#[test]
fn a_refused_block_leaves_the_destination() {
    let mut dst = vec![7u8; metablock::SIZE];
    // no header
    assert!(read_metablock(&[1], None, &mut dst, false).is_err());
    // compressed, and no codec
    assert!(read_metablock(&[2, 0x80, 9, 9], None, &mut dst, false).is_err());
    // the block ends early
    assert!(read_metablock(&[4, 0, 9, 9], None, &mut dst, false).is_err());
    // the size is not the one that is asked for
    let mut small = vec![7u8; 3];
    assert!(read_metablock(&[2, 0, 9, 9], None, &mut small, true).is_err());
    assert_eq!(dst, vec![7u8; metablock::SIZE]);
    assert_eq!(small, vec![7u8; 3]);
}
