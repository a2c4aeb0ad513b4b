use sqfs::compression::AnyCodec;
use sqfs::compression::Kind;
use sqfs::errors::Error;
use sqfs::errors::ErrorInner;
use sqfs::errors::ItemError;
use sqfs::packed::PackedStruct;
use sqfs::repr::datablock;
use sqfs::repr::fragment;
use sqfs::repr::inode as raw;
use sqfs::repr::metablock;
use sqfs::repr::mode::TYPE_FILE;
use sqfs::repr::uid_gid;
use sqfs::repr::xattr;
use sqfs::repr::Mode;
use sqfs::write::inode::Common;
use sqfs::write::inode::Data;
use sqfs::write::inode::DeviceData;
use sqfs::write::inode::DirData;
use sqfs::write::inode::DirIndex;
use sqfs::write::inode::Entry;
use sqfs::write::inode::FileData;
use sqfs::write::inode::SymlinkData;
use sqfs::write::inode::Table;

fn common() -> Common {
    Common {
        permissions: Default::default(),
        uid_idx: uid_gid::Idx(0),
        gid_idx: uid_gid::Idx(0),
        modified_time: 0,
        hardlink_count: 1,
        xattr_idx: xattr::Idx::default(),
        force_ext: false,
    }
}

#[test]
fn add_entries() {
    let mut table = Table::new(None);

    let common = common();
    let entry = Entry {
        common,
        data: Data::Socket,
    };
    table.add(&entry).unwrap();

    let entry = Entry {
        common,
        data: Data::Symlink(SymlinkData {
            target_path: b"abcdef".to_vec(),
        }),
    };
    let r = table.add(&entry).unwrap();
    assert_eq!(r.block_start(), 0);
    // Size of base header + ipc
    assert_eq!(
        r.start_offset() as usize,
        raw::Header::size() + raw::BasicIpc::size()
    );

    let entry = Entry {
        common,
        data: Data::File(FileData {
            blocks_start: datablock::Ref(0),
            file_size: 10,
            sparse_bytes: 0,
            fragment_block_idx: Default::default(),
            fragment_offset: 0,
            block_sizes: vec![10],
        }),
    };
    let r = table.add(&entry).unwrap();
    assert_eq!(r.block_start(), 0);
    // Size of base header + file + 1 block size
    assert_eq!(
        r.start_offset() as usize,
        raw::Header::size()
            + raw::BasicIpc::size()
            + raw::Header::size()
            + raw::Symlink::size()
            + 6 // target_path of "abcdef"
    );

    // the inodes have the numbers 1, 2 and 3
    let data = table.finish();
    let expected: Vec<u8> = [
        "\x56\0\x07\0\0\0\0\0\0\0\0\0\0\0\x01\0\0\0\x01\0\0\0\x03\0\0\0",
        "\0\0\0\0\0\0\0\0\x02\0\0\0\x01\0\0\0\x06\0\0\0abcdef\x02\0\0",
        "\0\0\0\0\0\0\0\0\0\x03\0\0\0\0\0\0\0\0\0\0\0\0\0\0\0\x0A\0\0",
        "\0\x0A\0\0\0",
    ]
    .iter()
    .flat_map(|s| s.as_bytes().iter().copied())
    .collect();
    assert_eq!(data, expected);
}

#[test]
fn symlink_without_target_is_rejected() {
    let mut table = Table::new(None);
    let entry = Entry { common: common(), data: Data::Symlink(SymlinkData { target_path: Vec::new() }) };
    assert_eq!(
        table.add(&entry),
        Err(Error(ErrorInner::Item(ItemError::EmptySymlinkTarget)))
    );
    // the table is as before
    assert_eq!(table.count(), 1);
    assert_eq!(table.finish(), vec![0, 0]);
}

fn body_of(entry: &Entry) -> (raw::Header, Vec<u8>) {
    let mut table = Table::new(None);
    let r = table.add(entry).unwrap();
    assert_eq!((r.block_start(), r.start_offset()), (0, 0));
    assert_eq!(table.count(), 2);
    let data = table.finish();
    let size = usize::from(metablock::Header(u16::from_le_bytes([data[0], data[1]])).size());
    assert_eq!(size + 2, data.len());
    let header = raw::Header::from_packed(&data[2..18]);
    assert_eq!(header.inode_number, raw::Idx(1));
    (header, data[18..].to_vec())
}

#[test]
fn kinds_and_promotion() {
    let plain = common();
    let with_xattr = Common { xattr_idx: xattr::Idx(3), ..plain };
    let forced = Common { force_ext: true, ..plain };
    let device = DeviceData { device: raw::DeviceNumber::new(8, 1) };

    let cases: Vec<(Data, u16, u16)> = vec![
        (Data::Fifo, raw::BASIC_FIFO, raw::EXT_FIFO),
        (Data::Socket, raw::BASIC_SOCKET, raw::EXT_SOCKET),
        (Data::BlockDev(device), raw::BASIC_BLOCK_DEV, raw::EXT_BLOCK_DEV),
        (Data::CharDev(device), raw::BASIC_CHAR_DEV, raw::EXT_CHAR_DEV),
        (
            Data::Symlink(SymlinkData { target_path: b"t".to_vec() }),
            raw::BASIC_SYMLINK,
            raw::EXT_SYMLINK,
        ),
    ];
    for (data, basic, extended) in cases {
        let entry = Entry { common: plain, data: data.clone() };
        assert!(!entry.needs_ext());
        assert_eq!(body_of(&entry).0.inode_type, raw::Kind(basic));
        assert_eq!(data.inode_kind(false), raw::Kind(basic));
        assert_eq!(data.inode_kind(true), raw::Kind(extended));
        for common in [with_xattr, forced] {
            let entry = Entry { common, data: data.clone() };
            assert!(entry.needs_ext());
            let (header, body) = body_of(&entry);
            assert_eq!(header.inode_type, raw::Kind(extended));
            // the extended forms end with the xattr index
            assert_eq!(&body[body.len() - 4..], &common.xattr_idx.0.to_le_bytes());
        }
    }
}

#[test]
fn device_and_ipc_bodies() {
    let device = DeviceData { device: raw::DeviceNumber::new(8, 1) };
    let entry = Entry { common: Common { hardlink_count: 2, ..common() }, data: Data::BlockDev(device) };
    let (_, body) = body_of(&entry);
    assert_eq!(body, vec![2, 0, 0, 0, 0x01, 0x08, 0, 0]);
    let entry = Entry { common: common(), data: Data::Fifo };
    assert_eq!(body_of(&entry).1, vec![1, 0, 0, 0]);
    let entry = Entry { common: Common { xattr_idx: xattr::Idx(9), ..common() }, data: Data::Fifo };
    assert_eq!(body_of(&entry).1, vec![1, 0, 0, 0, 9, 0, 0, 0]);
}

fn file(blocks_start: u64, file_size: u64, sparse_bytes: u64) -> Data {
    Data::File(FileData {
        blocks_start: datablock::Ref(blocks_start),
        file_size,
        sparse_bytes,
        fragment_block_idx: fragment::Idx(7),
        fragment_offset: 11,
        block_sizes: vec![0x100_0010, 0],
    })
}

#[test]
fn file_promotion() {
    let plain = common();
    assert!(!Entry { common: plain, data: file(96, 10, 0) }.needs_ext());
    assert!(!Entry { common: plain, data: file(u32::MAX as u64, u32::MAX as u64, 0) }.needs_ext());
    assert!(Entry { common: plain, data: file(1 << 32, 10, 0) }.needs_ext());
    assert!(Entry { common: plain, data: file(96, 1 << 32, 0) }.needs_ext());
    assert!(Entry { common: plain, data: file(96, 10, 1) }.needs_ext());
    assert!(Entry { common: Common { hardlink_count: 2, ..plain }, data: file(96, 10, 0) }.needs_ext());

    let (header, body) = body_of(&Entry { common: plain, data: file(96, 10, 0) });
    assert_eq!(header.inode_type, raw::Kind(raw::BASIC_FILE));
    let basic = raw::BasicFile::from_packed(&body[..16]);
    assert_eq!(
        basic,
        raw::BasicFile { blocks_start: 96, fragment_block_index: 7, block_offset: 11, file_size: 10 }
    );
    assert_eq!(&body[16..], &[0x10, 0, 0, 1, 0, 0, 0, 0]);

    let (header, body) = body_of(&Entry { common: plain, data: file(1 << 40, 1 << 33, 4096) });
    assert_eq!(header.inode_type, raw::Kind(raw::EXT_FILE));
    let ext = raw::ExtendedFile::from_packed(&body[..40]);
    assert_eq!(ext.blocks_start, 1 << 40);
    assert_eq!(ext.file_size, 1 << 33);
    assert_eq!(ext.sparse, 4096);
    assert_eq!(ext.hard_link_count, 1);
    assert_eq!(ext.fragment_block_index, 7);
    assert_eq!(ext.block_offset, 11);
    assert_eq!(ext.xattr_idx, xattr::Idx(xattr::NO_XATTRS));
    assert_eq!(&body[40..], &[0x10, 0, 0, 1, 0, 0, 0, 0]);
}

fn dir(dir_size: u32, child_count: u32, header_locations: Option<Vec<DirIndex>>) -> Data {
    Data::Directory(DirData {
        dir_ref: metablock::Ref::new(300, 40),
        dir_size,
        parent_inode_num: raw::Idx(9),
        child_count,
        header_locations,
    })
}

#[test]
fn directory_bodies() {
    let base = Common { hardlink_count: 0, ..common() };
    let entry = Entry { common: base, data: dir(100, 3, None) };
    assert!(!entry.needs_ext());
    let (header, body) = body_of(&entry);
    assert_eq!(header.inode_type, raw::Kind(raw::BASIC_DIR));
    assert_eq!(
        raw::BasicDir::from_packed(&body),
        raw::BasicDir {
            block_idx: 300,
            hard_link_count: 5,
            file_size: 100,
            block_offset: 40,
            parent_inode_number: raw::Idx(9),
        }
    );

    assert!(!Entry { common: base, data: dir(65535, 0, None) }.needs_ext());
    let entry = Entry { common: base, data: dir(65536, 0, None) };
    assert!(entry.needs_ext());
    let (header, body) = body_of(&entry);
    assert_eq!(header.inode_type, raw::Kind(raw::EXT_DIR));
    let ext = raw::ExtendedDir::from_packed(&body);
    assert_eq!(ext.hard_link_count, 2);
    assert_eq!(ext.file_size, 65536);
    assert_eq!(ext.block_idx, 300);
    assert_eq!(ext.block_offset, 40);
    assert_eq!(ext.index_count, 0);
    assert_eq!(ext.parent_inode_number, raw::Idx(9));

    let index = vec![
        DirIndex { index: 0, start: 0, name: b"a".to_vec() },
        DirIndex { index: 8000, start: 0, name: b"mm".to_vec() },
    ];
    let entry = Entry { common: base, data: dir(100, 2, Some(index)) };
    assert!(entry.needs_ext());
    let (_, body) = body_of(&entry);
    assert_eq!(raw::ExtendedDir::from_packed(&body[..24]).index_count, 2);
    assert_eq!(
        &body[24..],
        &[
            0, 0, 0, 0, 0, 0, 0, 0, 0, 0, 0, 0, b'a', 0x40, 0x1F, 0, 0, 0, 0, 0, 0, 1, 0, 0, 0,
            b'm', b'm'
        ]
    );
}

#[test]
fn entries_that_cannot_be_stored() {
    let item = |e: ItemError| Err(Error(ErrorInner::Item(e)));
    let base = common();
    let mut table = Table::new(Some(AnyCodec::new(Kind::Zstd)));
    assert_eq!(
        table.add(&Entry { common: Common { hardlink_count: u32::MAX, ..base }, data: dir(0, 0, None) }),
        item(ItemError::TooManyLinks)
    );
    assert_eq!(
        table.add(&Entry {
            common: Common { hardlink_count: 0, ..base },
            data: dir(0, u32::MAX - 1, None)
        }),
        item(ItemError::TooManyLinks)
    );
    let empty = vec![DirIndex { index: 0, start: 0, name: Vec::new() }];
    assert_eq!(
        table.add(&Entry { common: base, data: dir(0, 0, Some(empty)) }),
        item(ItemError::EmptyName)
    );
    let many: Vec<DirIndex> =
        (0..65536u32).map(|i| DirIndex { index: i, start: 0, name: b"n".to_vec() }).collect();
    assert_eq!(
        table.add(&Entry { common: base, data: dir(0, 0, Some(many)) }),
        item(ItemError::TooManyIndexEntries)
    );
    assert_eq!(table.count(), 1);
    // permissions lose the file type
    let entry = Entry {
        common: Common { permissions: Mode { bits: TYPE_FILE | 0o640 }, ..base },
        data: Data::Fifo,
    };
    assert_eq!(body_of(&entry).0.permissions, Mode { bits: 0o640 });
}
