use sqfs::compression::AnyCodec;
use sqfs::compression::Decompressor;
use sqfs::compression::Kind;
use sqfs::read::read_metablock;
use sqfs::repr::metablock;
use sqfs::write::metablock_writer::MetablockWriter;

fn pos(pos: metablock::Ref) -> (u32, u16) {
    (pos.block_start(), pos.start_offset())
}

#[test]
fn metablock_writer_simple() {
    let compressor = AnyCodec::new(Kind::ZLib);

    let mut writer = MetablockWriter::new(Some(compressor));

    let big_t = [0u8; 1000];
    // Write 9 * 1000 bytes so the next one will start in the second metablock
    for i in 0..9 {
        let position = writer.position();
        writer.write_raw(&big_t);
        assert_eq!(pos(position), (0, i * 1000));
    }

    // This will start in the second metablock. The first metablock should compress well
    let position = writer.position();
    writer.write_raw(&big_t);
    assert!((1..400).contains(&position.block_start()));
    assert_eq!(
        usize::from(position.start_offset()),
        (9 * 1000) % metablock::SIZE
    );

    let _result = writer.finish();
}

#[test]
fn giant() {
    const GIANT_SIZE: usize = metablock::SIZE * 3 + 1;

    let mut writer: MetablockWriter<AnyCodec> = MetablockWriter::new(None);

    let big_t = vec![0u8; GIANT_SIZE];
    writer.write_raw(&big_t);
    let position = writer.position();
    // This will start in the fourth metablock (3 metablocks before here). Each metablock has a u16 in front of it
    assert_eq!(
        u64::from(position.block_start()),
        (3 * (2 + metablock::SIZE)) as u64
    );
    assert_eq!(
        position.start_offset(),
        (GIANT_SIZE % metablock::SIZE) as u16
    );

    let _result = writer.finish();
}

/// Reads every block of a stream back and puts the bodies together.
fn read_stream(stream: &[u8], mut codec: Option<AnyCodec>) -> (Vec<u8>, usize) {
    let mut at = 0;
    let mut bodies = Vec::new();
    let mut blocks = 0;
    while at < stream.len() {
        let header = metablock::Header(u16::from_le_bytes([stream[at], stream[at + 1]]));
        assert!(usize::from(header.size()) <= metablock::SIZE);
        let mut dst = vec![0u8; metablock::SIZE];
        let n = read_metablock(&stream[at..], codec.as_mut(), &mut dst, false).unwrap();
        assert!(n <= metablock::SIZE);
        bodies.extend_from_slice(&dst[..n]);
        at += 2 + usize::from(header.size());
        blocks += 1;
    }
    assert_eq!(at, stream.len());
    (bodies, blocks)
}

#[test]
fn stream_decomposes_into_blocks() {
    for kind in [None, Some(Kind::ZLib), Some(Kind::Zstd)] {
        let mut writer = MetablockWriter::new(kind.map(AnyCodec::new));
        let mut appended = Vec::new();
        for i in 0..200u32 {
            let piece: Vec<u8> = (0..(i * 37 % 500)).map(|j| (i + j * j) as u8).collect();
            writer.write_raw(&piece);
            appended.extend_from_slice(&piece);
            assert_eq!(
                usize::from(writer.position().start_offset()),
                appended.len() % metablock::SIZE
            );
        }
        let stream = writer.finish();
        let (bodies, blocks) = read_stream(&stream, kind.map(AnyCodec::new));
        assert_eq!(bodies, appended);
        assert_eq!(blocks, appended.len() / metablock::SIZE + 1);
    }
}

#[test]
fn full_buffer_is_flushed_at_once() {
    let mut writer: MetablockWriter<AnyCodec> = MetablockWriter::new(None);
    writer.write_raw(&[7u8; metablock::SIZE]);
    // the block is out, and the next byte starts a new one
    assert_eq!(pos(writer.position()), ((metablock::SIZE + 2) as u32, 0));
    assert_eq!(writer.output_len(), metablock::SIZE + 2);
    assert_eq!(writer.buffered_len(), 0);
    let out = writer.finish();
    // the last block is empty
    assert_eq!(out.len(), metablock::SIZE + 4);
    assert_eq!(&out[..2], &[0x00, 0x20]);
    assert_eq!(&out[metablock::SIZE + 2..], &[0, 0]);
    assert!(out[2..metablock::SIZE + 2].iter().all(|b| *b == 7));
}

#[test]
fn incompressible_block_is_stored_as_it_is() {
    // bytes without a pattern do not compress
    let mut state = 0x2545F491u32;
    let src: Vec<u8> = (0..metablock::SIZE)
        .map(|_| {
            state ^= state << 13;
            state ^= state >> 17;
            state ^= state << 5;
            (state >> 24) as u8
        })
        .collect();
    let noise = &src[..];

    let mut writer = MetablockWriter::new(Some(AnyCodec::new(Kind::ZLib)));
    writer.write_raw(noise);
    let out = writer.finish();
    let header = metablock::Header(u16::from_le_bytes([out[0], out[1]]));
    assert!(!header.compressed());
    assert_eq!(usize::from(header.size()), metablock::SIZE);
    assert_eq!(&out[2..2 + metablock::SIZE], noise);
    let mut dst = vec![0u8; metablock::SIZE];
    let mut reader = AnyCodec::new(Kind::ZLib);
    assert!(reader.decompress(&[0u8; 4], &mut dst).is_err());
}

#[test]
fn records_fill_the_blocks_as_bytes_do() {
    let mut writer = MetablockWriter::new(Some(AnyCodec::new(Kind::ZLib)));
    let mut plain: MetablockWriter<AnyCodec> = MetablockWriter::new(None);
    let per_block = (metablock::SIZE / 8) as u16;
    for i in 0..per_block {
        let position = writer.position();
        assert_eq!(pos(position), (0, i * 8));
        writer.write(&(u64::from(i) * 3));
        plain.write(&(u64::from(i) * 3));
    }
    // the first block is full and out: the next record starts the second
    let position = writer.position();
    assert!((3..metablock::SIZE as u32 + 2).contains(&position.block_start()));
    assert_eq!(position.start_offset(), 0);
    assert_eq!(pos(plain.position()), ((metablock::SIZE + 2) as u32, 0));
    writer.write(&(0x0102_0304u32, 0x0506u16));
    plain.write(&(0x0102_0304u32, 0x0506u16));
    assert_eq!(writer.position().start_offset(), 6);

    let expected: Vec<u8> = (0..u64::from(per_block))
        .flat_map(|i| (i * 3).to_le_bytes())
        .chain([4, 3, 2, 1, 6, 5])
        .collect();
    let (bodies, blocks) = read_stream(&writer.finish(), Some(AnyCodec::new(Kind::ZLib)));
    assert_eq!(bodies, expected);
    assert_eq!(blocks, 2);
    let (bodies, blocks) = read_stream(&plain.finish(), None);
    assert_eq!(bodies, expected);
    assert_eq!(blocks, 2);
}
