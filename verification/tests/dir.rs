use sqfs::compression::AnyCodec;
use sqfs::compression::Kind;
use sqfs::packed::PackedStruct;
use sqfs::read::read_metablock;
use sqfs::repr::directory;
use sqfs::repr::inode;
use sqfs::repr::metablock;
use sqfs::write::dir::inode_diff;
use sqfs::write::dir::reference_for;
use sqfs::write::dir::Entry;
use sqfs::write::dir::Table;
use sqfs::write::dir::MAX_INODE_NUM_REF;
use sqfs::write::dir::MIN_INODE_NUM_REF;

#[test]
fn dir_simple() {
    let compressor = AnyCodec::new(Kind::default());
    let mut table = Table::new(Some(compressor));
    let entries: Vec<Entry> = (0..1000u32)
        .map(|i| Entry {
            inode: inode::Ref::new(i / 100, i as u16),
            inode_num: inode::Idx(i * 50),
            inode_kind: inode::Kind(inode::BASIC_FILE),
            name: format!("b{:03}", i).into_bytes(),
        })
        .collect();
    let _header_refs = table.dir(&entries);

    let (uncompressed_size, data) = table.finish();
    assert!(data.len() < uncompressed_size);
}

#[test]
fn can_reach_min_max() {
    let smallest = inode::Idx(MIN_INODE_NUM_REF);
    let zero = inode::Idx(0);
    assert_eq!(inode_diff(smallest, zero), Some(i16::MIN));

    let largest = inode::Idx(MAX_INODE_NUM_REF);
    let max = inode::Idx(u32::MAX);
    assert_eq!(inode_diff(largest, max), Some(i16::MAX));
}

#[test]
fn inode_differences() {
    assert_eq!(inode_diff(inode::Idx(10), inode::Idx(12)), Some(2));
    assert_eq!(inode_diff(inode::Idx(12), inode::Idx(10)), Some(-2));
    assert_eq!(inode_diff(inode::Idx(0), inode::Idx(32767)), Some(32767));
    assert_eq!(inode_diff(inode::Idx(0), inode::Idx(32768)), None);
    assert_eq!(inode_diff(inode::Idx(32768), inode::Idx(0)), Some(-32768));
    assert_eq!(inode_diff(inode::Idx(32769), inode::Idx(0)), None);
    assert_eq!(inode_diff(inode::Idx(0), inode::Idx(u32::MAX)), None);
    assert_eq!(inode_diff(inode::Idx(u32::MAX), inode::Idx(0)), None);
    assert_eq!(inode_diff(inode::Idx(u32::MAX), inode::Idx(u32::MAX - 5)), Some(-5));
    assert_eq!(reference_for(inode::Idx(0)), inode::Idx(MIN_INODE_NUM_REF));
    assert_eq!(reference_for(inode::Idx(40000)), inode::Idx(40000));
    assert_eq!(reference_for(inode::Idx(u32::MAX)), inode::Idx(MAX_INODE_NUM_REF));
}

fn entry(block: u32, offset: u16, inode_num: u32, name: &str) -> Entry {
    Entry {
        inode: inode::Ref::new(block, offset),
        inode_num: inode::Idx(inode_num),
        inode_kind: inode::Kind(inode::EXT_FILE),
        name: name.as_bytes().to_vec(),
    }
}

/// The runs of a listing: each header with the entries and names behind it.
fn parse(listing: &[u8]) -> Vec<(directory::Header, Vec<(directory::Entry, Vec<u8>)>)> {
    let mut at = 0;
    let mut runs = Vec::new();
    while at < listing.len() {
        let header = directory::Header::from_packed(&listing[at..at + 12]);
        at += 12;
        let mut entries = Vec::new();
        for _ in 0..header.count {
            let e = directory::Entry::from_packed(&listing[at..at + 8]);
            at += 8;
            let len = usize::from(e.name_size) + 1;
            entries.push((e, listing[at..at + len].to_vec()));
            at += len;
        }
        runs.push((header, entries));
    }
    assert_eq!(at, listing.len());
    runs
}

fn plain_listing(entries: &[Entry]) -> (Vec<u8>, Vec<metablock::Ref>, u32) {
    let mut table: Table<AnyCodec> = Table::new(None);
    let info = table.dir(&entries.to_vec());
    let refs = info.header_refs().clone();
    let size = info.uncompressed_size();
    let (total, data) = table.finish();
    assert_eq!(total, size as usize);
    // the stream is plain: cut the headers of the blocks out
    let mut listing = Vec::new();
    let mut at = 0;
    while at < data.len() {
        let mut dst = vec![0u8; metablock::SIZE];
        let n = read_metablock(&data[at..], None, &mut dst, false).unwrap();
        listing.extend_from_slice(&dst[..n]);
        at += 2 + n;
    }
    assert_eq!(listing.len(), size as usize);
    (listing, refs, size)
}

#[test]
fn directory_of_256_has_one_header() {
    let entries: Vec<Entry> =
        (0..256u32).map(|i| entry(0, (i * 16) as u16, i + 1, &format!("f{:03}", i))).collect();
    let (listing, refs, size) = plain_listing(&entries);
    let runs = parse(&listing);
    assert_eq!(runs.len(), 1);
    assert_eq!(refs.len(), 1);
    assert_eq!(runs[0].0.count, 256);
    assert_eq!(size, 12 + 256 * (8 + 4));
}

#[test]
fn directory_of_257_has_two_headers() {
    let entries: Vec<Entry> =
        (0..257u32).map(|i| entry(0, (i * 16) as u16, i + 1, &format!("f{:03}", i))).collect();
    let (listing, refs, size) = plain_listing(&entries);
    let runs = parse(&listing);
    assert_eq!(runs.len(), 2);
    assert_eq!(refs.len(), 2);
    assert_eq!(runs[0].0.count, 256);
    assert_eq!(runs[1].0.count, 1);
    assert_eq!(runs[1].1[0].1, b"f256".to_vec());
    assert_eq!(size, 2 * 12 + 257 * (8 + 4));
    assert_eq!(refs[0].start_offset(), 0);
    assert_eq!(usize::from(refs[1].start_offset()), 12 + 256 * 12);
}

#[test]
fn directory_delta_overflow() {
    let entries = vec![entry(0, 0, 1, "a"), entry(0, 32, 2, "b"), entry(0, 64, 100000, "c")];
    let (listing, refs, _) = plain_listing(&entries);
    let runs = parse(&listing);
    assert_eq!(runs.len(), 2);
    assert_eq!(refs.len(), 2);
    assert_eq!(runs[0].0.count, 2);
    assert_eq!(runs[0].0.inode_number, inode::Idx(MIN_INODE_NUM_REF));
    assert_eq!(runs[0].1[0].0.inode_offset, (1i32 - 32768) as i16);
    assert_eq!(runs[0].1[1].0.inode_offset, (2i32 - 32768) as i16);
    assert_eq!(runs[1].0.count, 1);
    assert_eq!(runs[1].0.inode_number, inode::Idx(100000));
    assert_eq!(runs[1].1[0].0.inode_offset, 0);
    assert_eq!(runs[1].1[0].1, b"c".to_vec());
    // the kind of an entry is the basic one
    assert_eq!(runs[0].1[0].0.kind, inode::Kind(inode::BASIC_FILE));
    assert_eq!(runs[0].1[0].0.name_size, 0);
}

#[test]
fn directory_runs_keep_the_rules() {
    // blocks change, numbers jump, and the listing crosses 8 KiB
    let entries: Vec<Entry> = (0..2000u32)
        .map(|i| {
            entry(
                (i / 300) * 1000,
                (i % 300) as u16,
                if i % 700 == 699 { 4_000_000_000 } else { 70000 + i * 3 },
                &format!("name-{:05}", i),
            )
        })
        .collect();
    let (listing, refs, _) = plain_listing(&entries);
    let runs = parse(&listing);
    assert_eq!(refs.len(), runs.len());
    let mut seen = 0usize;
    let mut at = 0usize;
    for (k, (header, run)) in runs.iter().enumerate() {
        assert!(header.count >= 1 && header.count <= 256);
        assert_eq!(usize::from(refs[k].start_offset()), at % metablock::SIZE);
        at += 12;
        for (j, (e, name)) in run.iter().enumerate() {
            let source = &entries[seen];
            assert_eq!(source.inode.block_idx(), header.start);
            assert_eq!(
                i64::from(header.inode_number.0) + i64::from(e.inode_offset),
                i64::from(source.inode_num.0)
            );
            assert_eq!(e.offset, source.inode.start_offset());
            assert_eq!(name, &source.name);
            // only the last entry of a run may cross a boundary of 8 KiB
            let before = at / metablock::SIZE;
            at += 8 + name.len();
            if at / metablock::SIZE != before {
                assert_eq!(j + 1, run.len());
            }
            seen += 1;
        }
    }
    assert_eq!(seen, entries.len());
    assert!(runs.len() > 8);
}

#[test]
fn empty_directory_has_no_listing() {
    let (listing, refs, size) = plain_listing(&[]);
    assert!(listing.is_empty());
    assert!(refs.is_empty());
    assert_eq!(size, 0);
}

#[test]
fn table_counts_every_listing() {
    let mut table: Table<AnyCodec> = Table::new(None);
    assert!(table.can_take(1000));
    let first = table.dir(&vec![entry(0, 0, 1, "x")]);
    assert_eq!(first.uncompressed_size(), 21);
    assert_eq!(table.total_size(), 21);
    assert_eq!(table.position().start_offset(), 21);
    let second = table.dir(&vec![entry(0, 0, 1, "yy"), entry(0, 0, 2, "zzz")]);
    assert_eq!(second.uncompressed_size(), 12 + 10 + 11);
    assert_eq!(second.header_refs()[0].start_offset(), 21);
    assert_eq!(table.total_size(), 54);
}

#[test]
fn a_name_may_have_65536_bytes() {
    let long = "n".repeat(0x1_0000);
    let (listing, refs, size) = plain_listing(&[entry(0, 0, 1, &long), entry(0, 32, 2, "b")]);
    assert_eq!(refs.len(), 2);
    assert_eq!(size as usize, 12 + 8 + 0x1_0000 + 12 + 8 + 1);
    let runs = parse(&listing);
    assert_eq!(runs.len(), 2);
    assert_eq!(runs[0].1[0].0.name_size, 0xFFFF);
    assert_eq!(runs[0].1[0].1.len(), 0x1_0000);
    assert_eq!(runs[1].1[0].1, b"b".to_vec());
}

#[test]
fn an_empty_listing_leaves_the_position() {
    let mut table: Table<AnyCodec> = Table::new(None);
    table.dir(&vec![entry(0, 0, 1, "a")]);
    let at = table.position();
    let total = table.total_size();
    let info = table.dir(&Vec::new());
    assert!(info.header_refs().is_empty());
    assert_eq!(info.uncompressed_size(), 0);
    assert_eq!(table.position(), at);
    assert_eq!(table.total_size(), total);
}

#[test]
fn one_header_for_every_256_entries() {
    // entries of one inode block with numbers close to each other, and a
    // listing of less than 8 KiB
    for n in [1u32, 2, 255, 256, 257, 511, 512, 513, 600] {
        let entries: Vec<Entry> =
            (0..n).map(|i| entry(0, (i * 16) as u16, i + 1, &format!("{:03}", i))).collect();
        let (listing, refs, size) = plain_listing(&entries);
        let headers = (n - 1) / 256 + 1;
        assert!(size < 8192);
        assert_eq!(size, headers * 12 + n * (8 + 3));
        let runs = parse(&listing);
        assert_eq!(runs.len() as u32, headers);
        assert_eq!(refs.len() as u32, headers);
        for (k, run) in runs.iter().enumerate() {
            let expected = if k as u32 + 1 < headers { 256 } else { n - 256 * (headers - 1) };
            assert_eq!(run.0.count, expected);
        }
    }
}
