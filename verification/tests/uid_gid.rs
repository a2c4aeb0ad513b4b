use sqfs::compression::AnyCodec;
use sqfs::compression::Kind;
use sqfs::read::metablock_indexes;
use sqfs::read::read_metablock;
use sqfs::repr::metablock;
use sqfs::repr::uid_gid::Id;
use sqfs::repr::uid_gid::Idx;
use sqfs::write::two_level;
use sqfs::write::uid_gid::Table;

#[test]
fn uid_dedup() {
    let mut table = Table::new();
    for i in 0..50u32 {
        let idx = table.add(Id(1000 + i % 2));
        assert!(idx.0 == 0 || idx.0 == 1);
        assert_eq!(idx.0, (i % 2) as u16);
    }
    assert_eq!(table.len(), 2);
    assert_eq!(table.get(Id(1000)), Idx(0));
    assert_eq!(table.get(Id(1001)), Idx(1));
    assert!(table.contains(Id(1001)));
    assert!(!table.contains(Id(1002)));
    assert!(!table.is_full());
}

#[test]
fn ids_keep_their_order() {
    let mut table = Table::new();
    for id in [5u32, 0, 5, u32::MAX, 7, 0] {
        table.add(Id(id));
    }
    assert_eq!(table.len(), 4);
    let mut out = vec![0xEE];
    let len = table.write_at(&mut out, 1000, None);
    // a header and four IDs, then the offset of their block
    assert_eq!(len, 2 + 16);
    assert_eq!(
        out,
        vec![
            0xEE, 16, 0, 5, 0, 0, 0, 0, 0, 0, 0, 0xFF, 0xFF, 0xFF, 0xFF, 7, 0, 0, 0, 0xE8, 0x03,
            0, 0, 0, 0, 0, 0
        ]
    );
}

#[test]
fn full_table() {
    let mut table = Table::new();
    for id in 0..0xFFFFu32 {
        assert_eq!(table.add(Id(id * 3)).0 as u32, id);
    }
    assert!(table.is_full());
    assert_eq!(table.len(), 0xFFFF);
    // an ID that is known is still found
    assert_eq!(table.add(Id(30)), Idx(10));

    let base = 96u64;
    let mut out = Vec::new();
    let len = table.write_at(&mut out, base, Some(AnyCodec::new(Kind::ZLib)));
    // 65535 IDs fill 31 blocks and part of one more
    let index = &out[len..];
    assert_eq!(index.len(), 32 * 8);
    let mut image = vec![0u8; base as usize];
    image.extend_from_slice(&out);
    let start = base + len as u64;
    // the index as the table wrote it: an offset for each block
    let offsets = metablock_indexes::<Id>(&image, start, image.len() as u64, 0xFFFF).unwrap();
    assert_eq!(offsets.len(), 32);
    assert_eq!(offsets[0], base);
    let mut codec = AnyCodec::new(Kind::ZLib);
    // record n stands in the block of offset n / 2048
    let mut dst = vec![0u8; metablock::SIZE];
    for (k, offset) in offsets.iter().enumerate() {
        let n = read_metablock(&image[*offset as usize..], Some(&mut codec), &mut dst, false)
            .unwrap();
        let first = (k as u32 * 2048 * 3).to_le_bytes();
        assert_eq!(&dst[..4], &first);
        assert_eq!(n == metablock::SIZE, k < 31);
    }
}

#[test]
fn two_level_table_notes_each_block_with_records() {
    let mut one: two_level::Table<u64, AnyCodec> = two_level::Table::new(None);
    one.write(&7);
    let (data, index) = one.finish();
    assert_eq!(index, vec![0]);
    assert_eq!(data, vec![8, 0, 7, 0, 0, 0, 0, 0, 0, 0]);
    let none: two_level::Table<u64, AnyCodec> = two_level::Table::new(None);
    assert_eq!(none.finish(), (vec![0, 0], vec![]));

    let mut table: two_level::Table<u64, AnyCodec> = two_level::Table::new(None);
    for i in 0..1024u64 {
        assert!(table.has_room());
        table.write(&i);
    }
    let (data, index) = table.finish();
    // one full block, which has the one offset, and an empty last one
    assert_eq!(index, vec![0]);
    assert_eq!(data.len(), metablock::SIZE + 4);

    let mut out = Vec::new();
    let records: Vec<u64> = (0..1025u64).collect();
    let len = two_level::write_table(&mut out, &records, 500, None).unwrap();
    assert_eq!(len, metablock::SIZE + 2 + 2 + 8);
    assert_eq!(&out[len..len + 8], &500u64.to_le_bytes());
    assert_eq!(&out[len + 8..], &(500 + metablock::SIZE as u64 + 2).to_le_bytes());
    let mut more = vec![1u8, 2];
    two_level::write_index(&mut more, 10, &vec![1, 2]);
    assert_eq!(more, vec![1, 2, 11, 0, 0, 0, 0, 0, 0, 0, 12, 0, 0, 0, 0, 0, 0, 0]);
}
