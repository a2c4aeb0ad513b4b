use sqfs::compression::AnyCodec;
use sqfs::compression::Kind;
use sqfs::config::FragmentMode;
use sqfs::errors::Error;
use sqfs::errors::ErrorInner;
use sqfs::errors::ItemError;
use sqfs::packed::PackedStruct;
use sqfs::read;
use sqfs::read::read_metablock;
use sqfs::repr::directory;
use sqfs::repr::inode;
use sqfs::repr::metablock;
use sqfs::repr::mode::O755;
use sqfs::repr::superblock;
use sqfs::repr::superblock::Superblock;
use sqfs::repr::Mode;
use sqfs::write::date_time_to_mtime;
use sqfs::write::insert_entry;
use sqfs::write::name_order;
use sqfs::write::Archive;
use sqfs::write::ArchiveBuilder;
use sqfs::write::ItemRef;
use sqfs::write::NameOrder;
use sqfs::write::NamedItem;
use sqfs::write::State;

fn plain() -> ArchiveBuilder {
    let mut builder = ArchiveBuilder::new(0);
    builder.compressed_inodes = false;
    builder.compressed_data = false;
    builder.compressed_fragments = false;
    builder.compressed_ids = false;
    builder.exportable = false;
    builder
}

/// The uncompressed content of a stream of metadata blocks.
fn stream(image: &[u8], start: u64, end: u64, codec: &mut Option<AnyCodec>) -> Vec<u8> {
    let mut at = start as usize;
    let mut content = Vec::new();
    while at < end as usize {
        let header = metablock::Header(u16::from_le_bytes([image[at], image[at + 1]]));
        let mut dst = vec![0u8; metablock::SIZE];
        let n = read_metablock(&image[at..], codec.as_mut(), &mut dst, false).unwrap();
        content.extend_from_slice(&dst[..n]);
        at += 2 + usize::from(header.size());
    }
    assert_eq!(at, end as usize);
    content
}

#[test]
fn minimum_viable_archive() {
    let mut archive = plain().build();
    let mut root = archive.create_dir();
    root.set_mode(Mode { bits: O755 });
    root.set_uid(1000);
    root.set_gid(1000);
    root.set_modified_time(0);
    let root = root.finish(&mut archive).unwrap();
    archive.set_root(root);
    let image = archive.flush().unwrap();
    assert_eq!(archive.state(), State::Flushed);

    let sb = Superblock::from_packed(&image[..96]);
    assert_eq!(sb.magic, 0x73717368);
    assert_eq!(&image[..4], &[0x68, 0x73, 0x71, 0x73]);
    assert_eq!(sb.inode_count, 1);
    assert_eq!((sb.root_inode_ref.block_idx(), sb.root_inode_ref.start_offset()), (0, 0));
    assert_eq!(sb.fragment_table_start, u64::MAX);
    assert_eq!(sb.fragment_entry_count, 0);
    assert_eq!(sb.xattr_id_table_start, u64::MAX);
    assert_eq!(sb.export_table_start, u64::MAX);
    assert_eq!(sb.id_count, 1);
    assert_eq!(sb.bytes_used, image.len() as u64);
    assert_eq!((sb.version_major, sb.version_minor), (4, 0));
    assert_eq!((sb.block_size, sb.block_log), (0x2_0000, 17));
    assert_eq!(sb.compression_id.0, 1);
    assert_eq!(sb.modification_time, 0);
    // the superblock, the inode of the root, an empty directory table, and the one ID
    assert_eq!(sb.inode_table_start, 96);
    assert_eq!(sb.directory_table_start, 96 + 2 + 32);
    assert_eq!(sb.id_table_start, sb.directory_table_start + 2 + 2 + 4);
    assert_eq!(image.len() as u64, sb.id_table_start + 8);
    assert_eq!(&image[sb.directory_table_start as usize..][..2], &[0, 0]);
    assert_eq!(&image[sb.directory_table_start as usize + 2..][..6], &[4, 0, 0xE8, 0x03, 0, 0]);
    // the one offset of the table of IDs is that of its block
    assert_eq!(&image[sb.id_table_start as usize..], &(sb.directory_table_start + 2).to_le_bytes());

    // the archive opens, and its root has no entries
    let opened = read::Archive::new(&image).ok().unwrap();
    assert_eq!(*opened.superblock(), sb);
    let inodes = stream(&image, sb.inode_table_start, sb.directory_table_start, &mut None);
    let header = inode::Header::from_packed(&inodes[..16]);
    assert_eq!(header.inode_type, inode::Kind(inode::BASIC_DIR));
    assert_eq!(header.permissions, Mode { bits: 0o755 });
    assert_eq!(header.inode_number, inode::Idx(1));
    assert_eq!((header.uid_idx.0, header.gid_idx.0), (0, 0));
    let dir = inode::BasicDir::from_packed(&inodes[16..32]);
    assert_eq!(dir.file_size, 0);
    assert_eq!(dir.hard_link_count, 2);
    assert_eq!(inodes.len(), 32);
}

#[test]
fn archive_states() {
    let closed = Err(Error(ErrorInner::Item(ItemError::ArchiveClosed)));
    let mut archive = Archive::from_writer(5);
    assert_eq!(archive.state(), State::Collecting);
    let dir = archive.create_dir().finish(&mut archive).unwrap();
    assert_eq!(dir, ItemRef(0));
    assert!(archive.is_dir(dir));
    assert!(!archive.is_dir(ItemRef(1)));
    // no root is set
    assert_eq!(archive.flush(), Err(Error(ErrorInner::Item(ItemError::InvalidItem))));
    assert_eq!(archive.state(), State::Poisoned);
    assert_eq!(archive.flush(), closed.clone());
    assert_eq!(archive.create_dir().finish(&mut archive), Err(Error(ErrorInner::Item(ItemError::ArchiveClosed))));
    assert_eq!(archive.len(), 1);

    let mut archive = Archive::from_writer(5);
    let dir = archive.create_dir().finish(&mut archive).unwrap();
    archive.set_root(dir);
    assert!(archive.flush().is_ok());
    assert_eq!(archive.state(), State::Flushed);
    assert_eq!(archive.flush(), closed);
    assert_eq!(archive.state(), State::Flushed);
}

#[test]
fn builder_choices() {
    let builder = ArchiveBuilder::new(7);
    assert!(builder.validate());
    assert_eq!(builder.block_log(), Some(17));
    assert_eq!(builder.fragment_mode, FragmentMode::Always);
    assert_eq!(builder.compressor_kind, Kind::ZLib);
    assert_eq!(
        builder.flags().bits,
        superblock::ALWAYS_FRAGMENTS | superblock::DUPLICATES | superblock::EXPORTABLE
    );
    let mut other = plain();
    other.fragment_mode = FragmentMode::Never;
    other.find_duplicates = false;
    other.xattrs = false;
    other.compressed_xattrs = false;
    assert_eq!(
        other.flags().bits,
        superblock::UNCOMPRESSED_INODES
            | superblock::UNCOMPRESSED_DATA
            | superblock::UNCOMPRESSED_FRAGMENTS
            | superblock::UNCOMPRESSED_XATTRS
            | superblock::UNCOMPRESSED_IDS
            | superblock::NO_FRAGMENTS
            | superblock::NO_XATTRS
    );
    other.fragment_mode = FragmentMode::SmallFiles;
    assert_eq!(other.flags().bits & (superblock::NO_FRAGMENTS | superblock::ALWAYS_FRAGMENTS), 0);
    for (size, log) in [(4096u32, Some(12u16)), (1 << 20, Some(20)), (2048, None), (5000, None), (1 << 21, None)] {
        other.block_size = size;
        assert_eq!(other.block_log(), log);
        assert_eq!(other.validate(), log.is_some());
    }
    other.block_size = 4096;
    other.compressor_kind = Kind::Xz;
    assert!(!other.validate());
    other.set_modification_time(9);
    assert_eq!(other.modified_time, 9);
}

#[test]
fn times_are_kept_within_32_bits() {
    assert_eq!(date_time_to_mtime(0), 0);
    assert_eq!(date_time_to_mtime(1_700_000_000), 1_700_000_000);
    assert_eq!(date_time_to_mtime(-1), 0);
    assert_eq!(date_time_to_mtime(i64::MIN), 0);
    assert_eq!(date_time_to_mtime(u32::MAX as i64), u32::MAX);
    assert_eq!(date_time_to_mtime(u32::MAX as i64 + 1), u32::MAX);
    assert_eq!(date_time_to_mtime(i64::MAX), u32::MAX);
}

#[test]
fn names_are_ordered() {
    assert_eq!(name_order(b"a", b"b"), NameOrder::Before);
    assert_eq!(name_order(b"b", b"a"), NameOrder::After);
    assert_eq!(name_order(b"a", b"a"), NameOrder::Same);
    assert_eq!(name_order(b"a", b"ab"), NameOrder::Before);
    assert_eq!(name_order(b"ab", b"a"), NameOrder::After);
    assert_eq!(name_order(b"", b""), NameOrder::Same);
    assert_eq!(name_order(b"", b"a"), NameOrder::Before);
    assert_eq!(name_order(b"Z", b"a"), NameOrder::Before);
    assert_eq!(name_order(&[0xFF], &[0x7F, 0xFF]), NameOrder::After);

    let mut entries: Vec<NamedItem> = Vec::new();
    for (name, item) in [("m", 1u32), ("a", 2), ("z", 3), ("m", 4), ("ab", 5), ("", 6)] {
        insert_entry(&mut entries, name.as_bytes().to_vec(), ItemRef(item));
    }
    let listed: Vec<(Vec<u8>, u32)> = entries.iter().map(|e| (e.name.clone(), e.item.0)).collect();
    assert_eq!(
        listed,
        vec![
            (b"".to_vec(), 6),
            (b"a".to_vec(), 2),
            (b"ab".to_vec(), 5),
            (b"m".to_vec(), 4),
            (b"z".to_vec(), 3)
        ]
    );
}

/// The names and inode numbers of the listing that a directory inode points to.
fn list(image: &[u8], sb: &Superblock, dir: &inode::BasicDir, codec: &mut Option<AnyCodec>) -> Vec<(Vec<u8>, u32, u16)> {
    let end = sb.id_table_start.min(sb.fragment_table_start);
    let directories = stream(image, sb.directory_table_start, end_of_directories(image, sb, end), codec);
    assert_eq!(dir.block_idx, 0);
    let mut at = usize::from(dir.block_offset);
    let stop = at + usize::from(dir.file_size);
    let mut entries = Vec::new();
    while at < stop {
        let header = directory::Header::from_packed(&directories[at..at + 12]);
        at += 12;
        for _ in 0..header.count {
            let e = directory::Entry::from_packed(&directories[at..at + 8]);
            at += 8;
            let len = usize::from(e.name_size) + 1;
            let number = (i64::from(header.inode_number.0) + i64::from(e.inode_offset)) as u32;
            entries.push((directories[at..at + len].to_vec(), number, e.kind.0));
            at += len;
        }
    }
    assert_eq!(at, stop);
    entries
}

/// Where the directory table ends: at the start of the table of IDs, which
/// is the first offset of that table.
fn end_of_directories(image: &[u8], sb: &Superblock, _hint: u64) -> u64 {
    let at = sb.id_table_start as usize;
    let mut first = [0u8; 8];
    first.copy_from_slice(&image[at..at + 8]);
    u64::from_le_bytes(first)
}

#[test]
fn archive_with_items() {
    for compressed in [false, true] {
        for kind in [Kind::ZLib, Kind::Zstd] {
            let mut builder = if compressed { ArchiveBuilder::new(1_600_000_000) } else { plain() };
            builder.compressor_kind = kind;
            builder.block_size = 4096;
            builder.modified_time = 1_600_000_000;
            let mut archive = builder.build();

            let mut file = archive.create_file();
            let contents: Vec<u8> = (0..10000u32).map(|i| (i % 251) as u8).collect();
            file.set_contents(contents.clone());
            file.set_uid(1000);
            file.set_gid(2000);
            file.set_mode(Mode { bits: 0o555 });
            let file = file.finish(&mut archive).unwrap();

            let link = archive.create_symlink(b"my_file".to_vec()).finish(&mut archive).unwrap();
            let fifo = archive.create_ipc(false).finish(&mut archive).unwrap();
            let device = archive
                .create_device(true, inode::DeviceNumber::new(8, 0))
                .finish(&mut archive)
                .unwrap();

            let mut child = archive.create_dir();
            child.set_uid(1000);
            child.add_item(b"my_file".to_vec(), file);
            child.add_item(b"a_link".to_vec(), link);
            let child = child.finish(&mut archive).unwrap();

            let mut root = archive.create_dir();
            root.add_item(b"subdir".to_vec(), child);
            root.add_item(b"my_file_link".to_vec(), file);
            root.add_item(b"pipe".to_vec(), fifo);
            root.add_item(b"disk".to_vec(), device);
            let root = root.finish(&mut archive).unwrap();
            archive.set_root(root);
            assert_eq!(archive.len(), 6);

            let image = archive.flush().unwrap();
            let opened = read::Archive::new(&image).ok().unwrap();
            let sb = *opened.superblock();
            assert_eq!(opened.compression_kind(), kind);
            assert_eq!(sb.inode_count, 6);
            assert_eq!(sb.id_count, 3);
            assert_eq!(sb.modification_time, 1_600_000_000);
            assert_eq!(sb.bytes_used, image.len() as u64);
            assert_eq!(sb.fragment_entry_count, 1);
            assert_eq!(sb.export_table_start != u64::MAX, compressed);

            let mut codec = if compressed { Some(opened.compressor()) } else { None };
            let inodes = stream(&image, sb.inode_table_start, sb.directory_table_start, &mut codec);
            // the root is the last inode
            assert_eq!(usize::from(sb.root_inode_ref.start_offset()), inodes.len() - 32);
            let root_header = inode::Header::from_packed(&inodes[inodes.len() - 32..][..16]);
            assert_eq!(root_header.inode_type, inode::Kind(inode::BASIC_DIR));
            assert_eq!(root_header.inode_number, inode::Idx(6));
            assert_eq!(root_header.modified_time, 1_600_000_000);
            let root_dir = inode::BasicDir::from_packed(&inodes[inodes.len() - 16..]);
            assert_eq!(root_dir.hard_link_count, 2 + 4);
            let listing = list(&image, &sb, &root_dir, &mut codec);
            let names: Vec<&[u8]> = listing.iter().map(|e| &e.0[..]).collect();
            assert_eq!(names, vec![&b"disk"[..], b"my_file_link", b"pipe", b"subdir"]);
            let kinds: Vec<u16> = listing.iter().map(|e| e.2).collect();
            assert_eq!(
                kinds,
                vec![inode::BASIC_BLOCK_DEV, inode::BASIC_FILE, inode::BASIC_FIFO, inode::BASIC_DIR]
            );
            // every inode is numbered from 1 on, and the file is listed twice
            for e in &listing {
                assert!(e.1 >= 1 && e.1 <= 5);
            }

            // the first inode is one that the root reaches first: the device
            let first = inode::Header::from_packed(&inodes[..16]);
            assert_eq!(first.inode_number, inode::Idx(1));
            assert_eq!(first.inode_type, inode::Kind(inode::BASIC_BLOCK_DEV));
            // the file has two links, so its inode is extended
            let file_header = inode::Header::from_packed(&inodes[16 + 8..][..16]);
            assert_eq!(file_header.inode_type, inode::Kind(inode::EXT_FILE));
            assert_eq!(file_header.permissions, Mode { bits: 0o555 });
            let file_body = inode::ExtendedFile::from_packed(&inodes[16 + 8 + 16..][..40]);
            assert_eq!(file_body.file_size, 10000);
            assert_eq!(file_body.hard_link_count, 2);
            assert_eq!(file_body.blocks_start, 96);
            assert_eq!(file_body.fragment_block_index, 0);
            assert_eq!(file_body.block_offset, 0);
            assert_eq!(file_body.sparse, 0);
        }
    }
}

#[test]
fn items_know_their_kind_and_children() {
    let mut archive = plain().build();
    let link = archive.create_symlink(b"target".to_vec()).finish(&mut archive).unwrap();
    let pipe = archive.create_ipc(false).finish(&mut archive).unwrap();
    let socket = archive.create_ipc(true).finish(&mut archive).unwrap();
    let block = archive
        .create_device(true, inode::DeviceNumber::new(8, 1))
        .finish(&mut archive)
        .unwrap();
    let chars = archive
        .create_device(false, inode::DeviceNumber::new(4, 2))
        .finish(&mut archive)
        .unwrap();
    let file = archive.create_file().finish(&mut archive).unwrap();
    let mut dir = archive.create_dir();
    dir.add_item(b"z".to_vec(), link);
    dir.add_item(b"a".to_vec(), socket);
    dir.add_item(b"m".to_vec(), pipe);
    let dir = dir.finish(&mut archive).unwrap();

    assert_eq!(archive.get(link).kind(), inode::Kind(inode::BASIC_SYMLINK));
    assert_eq!(archive.get(pipe).kind(), inode::Kind(inode::BASIC_FIFO));
    assert_eq!(archive.get(socket).kind(), inode::Kind(inode::BASIC_SOCKET));
    assert_eq!(archive.get(block).kind(), inode::Kind(inode::BASIC_BLOCK_DEV));
    assert_eq!(archive.get(chars).kind(), inode::Kind(inode::BASIC_CHAR_DEV));
    assert_eq!(archive.get(file).kind(), inode::Kind(inode::BASIC_FILE));
    assert_eq!(archive.get(dir).kind(), inode::Kind(inode::BASIC_DIR));

    assert_eq!(archive.get(file).children_refs(), None);
    assert_eq!(archive.get(link).children_refs(), None);
    // in the order of the names: a, m, z
    assert_eq!(archive.get(dir).children_refs(), Some(vec![socket, pipe, link]));
}

#[test]
fn lone_root_with_compressed_tables() {
    for kind in [Kind::ZLib, Kind::Zstd] {
        let mut builder = ArchiveBuilder::new(77);
        builder.compressor_kind = kind;
        let mut archive = builder.build();
        let mut root = archive.create_dir();
        root.set_mode(Mode { bits: 0o40700 });
        root.set_uid(7);
        root.set_gid(9);
        root.set_modified_time(5_000_000_000);
        let root = root.finish(&mut archive).unwrap();
        archive.set_root(root);
        let image = archive.flush().unwrap();

        let opened = read::Archive::new(&image).ok().unwrap();
        let sb = *opened.superblock();
        assert_eq!(sb.inode_count, 1);
        assert_eq!((sb.root_inode_ref.block_idx(), sb.root_inode_ref.start_offset()), (0, 0));
        assert_eq!(sb.fragment_entry_count, 0);
        assert_eq!(sb.fragment_table_start, u64::MAX);
        assert_eq!(sb.inode_table_start, 96);
        assert_eq!(sb.id_count, 2);
        assert_eq!(sb.modification_time, 77);

        // the one block of the inode table holds the inode of the root
        let mut codec = Some(opened.compressor());
        let inodes = stream(&image, sb.inode_table_start, sb.directory_table_start, &mut codec);
        assert_eq!(inodes.len(), 32);
        let header = inode::Header::from_packed(&inodes[..16]);
        assert_eq!(header.inode_type, inode::Kind(inode::BASIC_DIR));
        assert_eq!(header.permissions, Mode { bits: 0o700 });
        assert_eq!(header.inode_number, inode::Idx(1));
        assert_eq!((header.uid_idx.0, header.gid_idx.0), (0, 1));
        assert_eq!(header.modified_time, u32::MAX);
        let dir = inode::BasicDir::from_packed(&inodes[16..]);
        assert_eq!((dir.block_idx, dir.block_offset), (0, 0));
        assert_eq!(dir.file_size, 0);
        assert_eq!(dir.hard_link_count, 2);
        assert_eq!(dir.parent_inode_number, inode::Idx(1));

        // the directory table is one block that stores nothing
        let at = sb.directory_table_start as usize;
        assert_eq!(&image[at..at + 2], &[0, 0]);

        // the IDs, in the order in which they came, end where their offsets start
        let ids = stream(&image, sb.directory_table_start + 2, sb.id_table_start, &mut codec);
        assert_eq!(ids, vec![7, 0, 0, 0, 9, 0, 0, 0]);
    }
}

#[test]
fn only_what_the_root_reaches_is_written() {
    let mut archive = plain().build();
    let orphan = archive.create_symlink(b"nowhere".to_vec()).finish(&mut archive).unwrap();
    let kept = archive.create_ipc(false).finish(&mut archive).unwrap();
    let mut root = archive.create_dir();
    root.add_item(b"twice".to_vec(), kept);
    root.add_item(b"once".to_vec(), kept);
    let root = root.finish(&mut archive).unwrap();
    archive.set_root(root);
    assert_eq!(archive.len(), 3);
    assert_ne!(orphan, kept);

    let image = archive.flush().unwrap();
    let sb = Superblock::from_packed(&image[..96]);
    // the pipe, listed twice, has one inode; the link has none
    assert_eq!(sb.inode_count, 2);
    let inodes = stream(&image, sb.inode_table_start, sb.directory_table_start, &mut None);
    assert_eq!(inodes.len(), 20 + 32);
    let pipe = inode::Header::from_packed(&inodes[..16]);
    assert_eq!(pipe.inode_type, inode::Kind(inode::BASIC_FIFO));
    assert_eq!(pipe.inode_number, inode::Idx(1));
    let top = inode::Header::from_packed(&inodes[20..36]);
    assert_eq!(top.inode_type, inode::Kind(inode::BASIC_DIR));
    assert_eq!(top.inode_number, inode::Idx(2));
    assert_eq!(usize::from(sb.root_inode_ref.start_offset()), 20);
    let dir = inode::BasicDir::from_packed(&inodes[36..52]);
    assert_eq!(dir.hard_link_count, 2 + 2);
    let listing = list(&image, &sb, &dir, &mut None);
    let names: Vec<&[u8]> = listing.iter().map(|e| e.0.as_slice()).collect();
    assert_eq!(names, vec![&b"once"[..], &b"twice"[..]]);
    assert!(listing.iter().all(|e| e.1 == 1));
}

#[test]
fn large_directory_has_an_index() {
    let mut archive = plain().build();
    let pipe = archive.create_ipc(false).finish(&mut archive).unwrap();
    let mut root = archive.create_dir();
    for i in 0..3000u32 {
        root.add_item(format!("name_of_entry_number_{:06}", i).into_bytes(), pipe);
    }
    let root = root.finish(&mut archive).unwrap();
    archive.set_root(root);
    let image = archive.flush().unwrap();
    let sb = Superblock::from_packed(&image[..96]);
    assert_eq!(sb.inode_count, 2);

    let inodes = stream(&image, sb.inode_table_start, sb.directory_table_start, &mut None);
    let at = usize::from(sb.root_inode_ref.start_offset());
    assert_eq!(at, 20);
    let header = inode::Header::from_packed(&inodes[at..at + 16]);
    assert_eq!(header.inode_type, inode::Kind(inode::EXT_DIR));
    let dir = inode::ExtendedDir::from_packed(&inodes[at + 16..at + 40]);
    assert_eq!(dir.hard_link_count, 2 + 3000);

    let end = end_of_directories(&image, &sb, 0);
    let listing = stream(&image, sb.directory_table_start, end, &mut None);
    assert_eq!(listing.len(), dir.file_size as usize);
    assert!(listing.len() > 0xFFFF);
    // the headers of the listing, each with the name of the entry behind it
    let mut headers: Vec<(usize, Vec<u8>)> = Vec::new();
    let mut at_listing = 0usize;
    let mut entries = 0u32;
    while at_listing < listing.len() {
        let run = directory::Header::from_packed(&listing[at_listing..at_listing + 12]);
        assert!(1 <= run.count && run.count <= 256);
        let mut next = at_listing + 12;
        let first = directory::Entry::from_packed(&listing[next..next + 8]);
        let len = usize::from(first.name_size) + 1;
        headers.push((at_listing, listing[next + 8..next + 8 + len].to_vec()));
        for _ in 0..run.count {
            let e = directory::Entry::from_packed(&listing[next..next + 8]);
            next += 8 + usize::from(e.name_size) + 1;
        }
        entries += run.count;
        at_listing = next;
    }
    assert_eq!(entries, 3000);
    assert_eq!(at_listing, listing.len());
    assert!(headers.len() >= 12);
    assert_eq!(headers[0].1, b"name_of_entry_number_000000".to_vec());

    // the index of the inode has an entry for each header
    assert_eq!(usize::from(dir.index_count), headers.len());
    let mut place = at + 40;
    for (header_at, name) in &headers {
        let index = directory::Index::from_packed(&inodes[place..place + 12]);
        assert_eq!(index.index as usize, *header_at);
        // the blocks in front of the header are full and not compressed
        assert_eq!(index.start as usize, (*header_at / metablock::SIZE) * (metablock::SIZE + 2));
        assert_eq!(index.name_size as usize + 1, name.len());
        assert_eq!(&inodes[place + 12..place + 12 + name.len()], &name[..]);
        place += 12 + name.len();
    }
    assert_eq!(place, inodes.len());
}

#[test]
fn tails_lie_where_the_inodes_say() {
    let mut builder = plain();
    builder.block_size = 4096;
    let mut archive = builder.build();
    let first: Vec<u8> = (0..5000u32).map(|i| (i % 241) as u8).collect();
    let second: Vec<u8> = (0..100u32).map(|i| (i % 7) as u8 + 1).collect();
    let mut file = archive.create_file();
    file.set_contents(first.clone());
    let a = file.finish(&mut archive).unwrap();
    let mut file = archive.create_file();
    file.set_contents(second.clone());
    let b = file.finish(&mut archive).unwrap();
    let mut root = archive.create_dir();
    root.add_item(b"a".to_vec(), a);
    root.add_item(b"b".to_vec(), b);
    let root = root.finish(&mut archive).unwrap();
    archive.set_root(root);

    let image = archive.flush().unwrap();
    let sb = Superblock::from_packed(&image[..96]);
    assert_eq!(sb.fragment_entry_count, 1);
    assert!(sb.fragment_table_start != u64::MAX);

    // the one entry of the fragment table
    let at = sb.fragment_table_start as usize;
    let block = u64::from_le_bytes(image[at..at + 8].try_into().unwrap()) as usize;
    let header = metablock::Header(u16::from_le_bytes([image[block], image[block + 1]]));
    assert_eq!(header.size(), 16);
    let entry = &image[block + 2..block + 18];
    let start = u64::from_le_bytes(entry[..8].try_into().unwrap()) as usize;
    let size = u32::from_le_bytes(entry[8..12].try_into().unwrap());
    assert_eq!(size, 0x100_0000 | (904 + 100));
    let tails = &image[start..start + 904 + 100];

    let mut codec = None;
    let inodes = stream(&image, sb.inode_table_start, sb.directory_table_start, &mut codec);
    let one = inode::BasicFile::from_packed(&inodes[16..32]);
    assert_eq!(one.file_size, 5000);
    assert_eq!(one.blocks_start, 96);
    assert_eq!(one.fragment_block_index, 0);
    assert_eq!(&image[96..96 + 4096], &first[..4096]);
    let from = one.block_offset as usize;
    assert_eq!(&tails[from..from + 904], &first[4096..]);
    // one block size follows the first inode
    let two = inode::BasicFile::from_packed(&inodes[36 + 16..36 + 32]);
    assert_eq!(two.file_size, 100);
    assert_eq!(two.fragment_block_index, 0);
    let from = two.block_offset as usize;
    assert_eq!(&tails[from..from + 100], &second[..]);
    assert!(one.block_offset != two.block_offset);
}
