use sqfs::compression::AnyCodec;
use sqfs::compression::Decompressor;
use sqfs::compression::Kind;
use sqfs::config::FragmentMode;
use sqfs::repr::datablock::Size;
use sqfs::write::datablocks::all_zero;
use sqfs::write::datablocks::handle_file;
use sqfs::write::datablocks::Datablocks;
use sqfs::write::datablocks::FileBlocks;
use sqfs::write::datablocks::FileIngest;
use sqfs::write::datablocks::FragmentConfig;

const BLOCK: usize = 4096;

fn section(config: FragmentConfig, kind: Option<Kind>) -> Datablocks {
    Datablocks::new(
        96,
        BLOCK as u32,
        config,
        kind.map(AnyCodec::new),
        kind.map(AnyCodec::new),
        kind.map(AnyCodec::new),
    )
}

fn noise(len: usize, seed: u32) -> Vec<u8> {
    (0..len as u32).map(|i| (i.wrapping_mul(2654435761).wrapping_add(seed) >> 11) as u8).collect()
}

/// The content that the blocks of a file stand for.
fn recover(data: &[u8], blocks: &FileBlocks, kind: Option<Kind>) -> Vec<u8> {
    let mut at = (blocks.blocks_start.0 - 96) as usize;
    let mut content = Vec::new();
    for size in &blocks.sizes {
        if size.0 == 0 {
            content.extend_from_slice(&[0u8; BLOCK]);
        } else if size.uncompressed() {
            content.extend_from_slice(&data[at..at + size.size() as usize]);
            at += size.size() as usize;
        } else {
            let mut dst = vec![0u8; BLOCK];
            let n = AnyCodec::new(kind.unwrap())
                .decompress(&data[at..at + size.size() as usize], &mut dst)
                .unwrap();
            content.extend_from_slice(&dst[..n]);
            at += size.size() as usize;
        }
    }
    content
}

#[test]
fn sparse_block() {
    let mut content = noise(BLOCK, 1);
    content.extend_from_slice(&[0u8; BLOCK]);
    content.extend_from_slice(&noise(BLOCK, 2));
    for kind in [None, Some(Kind::ZLib)] {
        let mut section = section(FragmentConfig::FragmentAlways, kind);
        assert_eq!(section.position().0, 96);
        let blocks = handle_file(&mut section, &content);
        assert_eq!(blocks.blocks_start.0, 96);
        assert_eq!(blocks.file_size, 3 * BLOCK as u64);
        assert_eq!(blocks.sparse_bytes, BLOCK as u64);
        assert_eq!(blocks.sizes.len(), 3);
        assert_eq!(blocks.sizes.iter().filter(|s| s.0 == 0).count(), 1);
        assert_eq!(blocks.sizes[1], Size(0));
        assert!(blocks.fragment.is_none());
        let (data, table) = section.finish();
        assert_eq!(table.count(), 0);
        assert_eq!(recover(&data, &blocks, kind), content);
    }
}

#[test]
fn aligned_file_without_fragments() {
    for n in [0usize, 1, 2, 5] {
        let content = noise(BLOCK * n, 3);
        let mut section = section(FragmentConfig::NoFragments, None);
        let blocks = handle_file(&mut section, &content);
        assert_eq!(blocks.sizes.len(), n);
        assert!(blocks.fragment.is_none());
        for size in &blocks.sizes {
            assert_eq!(*size, Size::new(BLOCK as u32, true));
        }
        assert_eq!(section.position().0, 96 + (BLOCK * n) as u64);
        let (data, table) = section.finish();
        assert_eq!(data, content);
        assert_eq!(table.count(), 0);
    }
}

#[test]
fn holes_are_zero_bytes() {
    // the same content, once with holes that are skipped and once read in full
    let mut read = noise(100, 4);
    read.extend_from_slice(&vec![0u8; 3 * BLOCK + 50]);
    read.extend_from_slice(&noise(BLOCK, 5));
    read.extend_from_slice(&vec![0u8; 2 * BLOCK]);

    for kind in [None, Some(Kind::Zstd)] {
        let mut plain = section(FragmentConfig::NoFragments, kind);
        let expected = handle_file(&mut plain, &read);
        let (plain_data, _) = plain.finish();

        let mut skipping = section(FragmentConfig::NoFragments, kind);
        let mut file = FileIngest::new(&skipping);
        file.push_data(&mut skipping, &read[..100]);
        file.push_hole(&mut skipping, (3 * BLOCK + 50) as u64);
        file.push_data(&mut skipping, &read[3 * BLOCK + 150..4 * BLOCK + 150]);
        file.push_hole(&mut skipping, (2 * BLOCK) as u64);
        let blocks = file.finish(&mut skipping);
        let (data, _) = skipping.finish();

        assert_eq!(blocks.file_size, read.len() as u64);
        assert_eq!(blocks.sizes, expected.sizes);
        assert_eq!(blocks.sparse_bytes, expected.sparse_bytes);
        assert_eq!(data, plain_data);
        assert_eq!(recover(&data, &blocks, kind), read);
        // the blocks inside of the holes are sparse; the short tail of zero bytes is stored
        assert_eq!(blocks.sizes.len(), 7);
        assert_eq!(blocks.sizes[1], Size(0));
        assert_eq!(blocks.sizes[2], Size(0));
        assert_eq!(blocks.sizes[5], Size(0));
        assert_eq!(blocks.sizes.iter().filter(|s| s.0 == 0).count(), 3);
        assert_eq!(blocks.sparse_bytes, 3 * BLOCK as u64);
    }
}

#[test]
fn fragment_modes() {
    let small = noise(100, 6);
    let large = noise(BLOCK + 100, 7);
    let cases = [
        (FragmentMode::Never, FragmentConfig::NoFragments, false, false),
        (FragmentMode::SmallFiles, FragmentConfig::FragmentEnds, true, false),
        (FragmentMode::Always, FragmentConfig::FragmentAlways, true, true),
    ];
    for (mode, config, small_in_fragment, large_in_fragment) in cases {
        assert_eq!(FragmentConfig::from_mode(mode), config);
        let mut section = section(config, None);
        let first = handle_file(&mut section, &small);
        let second = handle_file(&mut section, &large);
        let empty = handle_file(&mut section, &[]);
        assert_eq!(first.fragment.is_some(), small_in_fragment);
        assert_eq!(second.fragment.is_some(), large_in_fragment);
        assert_eq!(first.sizes.len(), if small_in_fragment { 0 } else { 1 });
        assert_eq!(second.sizes.len(), if large_in_fragment { 1 } else { 2 });
        assert!(empty.fragment.is_none());
        assert!(empty.sizes.is_empty());
        assert_eq!(empty.file_size, 0);
        if !small_in_fragment {
            assert_eq!(first.sizes[0], Size::new(100, true));
        }
        if let Some(fragment) = first.fragment {
            assert_eq!((fragment.block_idx.0, fragment.offset), (0, 0));
        }
        if let Some(fragment) = second.fragment {
            assert_eq!((fragment.block_idx.0, fragment.offset), (0, 100));
        }
        let (data, table) = section.finish();
        let fragments = usize::from(small_in_fragment) * 100 + usize::from(large_in_fragment) * 100;
        assert_eq!(table.count(), usize::from(small_in_fragment));
        assert_eq!(data.len(), small.len() + large.len());
        if fragments > 0 {
            // the fragment block is the last thing in the section
            assert_eq!(&data[data.len() - fragments..][..100], &small[..]);
        }
    }
    assert_eq!(FragmentMode::default(), FragmentMode::Always);
}

#[test]
fn fragment_blocks_fill_up() {
    let mut section = section(FragmentConfig::FragmentAlways, None);
    let tail = noise(3000, 8);
    let a = section.add_tail(&tail);
    assert_eq!((a.block_idx.0, a.offset), (0, 0));
    let b = section.add_tail(&tail[..1096]);
    // the block is exactly full, and stays open
    assert_eq!((b.block_idx.0, b.offset), (0, 3000));
    assert_eq!(section.position().0, 96);
    let c = section.add_tail(&tail[..1]);
    assert_eq!((c.block_idx.0, c.offset), (1, 0));
    assert_eq!(section.position().0, 96 + BLOCK as u64);
    assert!(section.has_room(1 << 40));
    section.flush_fragments();
    assert_eq!(section.position().0, 96 + BLOCK as u64 + 1);
    let (data, table) = section.finish();
    assert_eq!(table.count(), 2);
    assert_eq!(&data[..3000], &tail[..]);
    assert_eq!(data[BLOCK], tail[0]);
    let (entries, index) = table.finish();
    assert_eq!(index, vec![0]);
    // two entries of 16 bytes behind the header of the block
    assert_eq!(entries.len(), 2 + 32);
    assert_eq!(&entries[2..10], &96u64.to_le_bytes());
    assert_eq!(&entries[10..14], &Size::new(BLOCK as u32, true).0.to_le_bytes());
    assert_eq!(&entries[18..26], &(96 + BLOCK as u64).to_le_bytes());
    assert_eq!(&entries[26..30], &Size::new(1, true).0.to_le_bytes());
}

#[test]
fn zero_bytes() {
    assert!(all_zero(&[]));
    assert!(all_zero(&[0, 0, 0]));
    assert!(!all_zero(&[0, 0, 1]));
    // a short block of zero bytes is stored
    let mut section = section(FragmentConfig::NoFragments, None);
    let blocks = handle_file(&mut section, &[0u8; 10]);
    assert_eq!(blocks.sizes, vec![Size::new(10, true)]);
    assert_eq!(blocks.sparse_bytes, 0);
}

#[test]
fn a_file_is_stored_behind_what_the_section_held() {
    let mut section = section(FragmentConfig::NoFragments, None);
    let first = noise(BLOCK + 10, 1);
    let a = handle_file(&mut section, &first);
    assert_eq!(a.blocks_start.0, 96);
    assert_eq!(section.position().0, 96 + first.len() as u64);
    let mut second = noise(3 * BLOCK, 2);
    second[BLOCK..2 * BLOCK].fill(0);
    let b = handle_file(&mut section, &second);
    assert_eq!(b.blocks_start.0, 96 + first.len() as u64);
    assert!(b.fragment.is_none());
    // nothing is stored for the block of zeros
    assert_eq!(b.sizes[1], Size(0));
    assert_eq!(section.position().0, 96 + (first.len() + 2 * BLOCK) as u64);
    let (data, table) = section.finish();
    assert_eq!(table.count(), 0);
    assert_eq!(&data[..first.len()], &first[..]);
    assert_eq!(&data[first.len()..][..BLOCK], &second[..BLOCK]);
    assert_eq!(&data[first.len() + BLOCK..], &second[2 * BLOCK..]);
}
