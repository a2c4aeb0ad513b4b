use sqfs::packed::PackedStruct;
use sqfs::repr::datablock;
use sqfs::repr::directory;
use sqfs::repr::fragment;
use sqfs::repr::inode;
use sqfs::repr::metablock;
use sqfs::repr::mode::BIT_SGID;
use sqfs::repr::mode::BIT_STICKY;
use sqfs::repr::mode::BIT_SUID;
use sqfs::repr::mode::TYPE_BLOCK;
use sqfs::repr::mode::TYPE_CHAR;
use sqfs::repr::mode::TYPE_DIR;
use sqfs::repr::mode::TYPE_FIFO;
use sqfs::repr::mode::TYPE_FILE;
use sqfs::repr::mode::TYPE_LINK;
use sqfs::repr::mode::TYPE_SOCKET;
use sqfs::repr::superblock;
use sqfs::repr::xattr;
use sqfs::repr::MetablockHeader;
use sqfs::repr::Mode;

#[test]
fn mode_tests() {
    let mode = Mode { bits: 0o754 } | Mode { bits: TYPE_FILE };
    assert_eq!(&mode.to_string(), "-rwxr-xr--");
    let mode = mode | Mode { bits: BIT_STICKY };
    assert_eq!(&mode.to_string(), "-rwxr-xr-T");
}

#[test]
fn mode_letters() {
    assert_eq!(Mode { bits: TYPE_DIR | 0o755 }.to_string(), "drwxr-xr-x");
    assert_eq!(Mode { bits: TYPE_CHAR }.to_string(), "c---------");
    assert_eq!(Mode { bits: TYPE_BLOCK }.to_string(), "b---------");
    assert_eq!(Mode { bits: TYPE_LINK | 0o777 }.to_string(), "lrwxrwxrwx");
    assert_eq!(Mode { bits: TYPE_SOCKET }.to_string(), "s---------");
    assert_eq!(Mode { bits: TYPE_FIFO }.to_string(), "p---------");
    assert_eq!(Mode { bits: 0 }.to_string(), "?---------");
    assert_eq!(
        Mode { bits: TYPE_FILE | BIT_SUID | BIT_SGID | BIT_STICKY }.to_string(),
        "---S--S--T"
    );
    assert_eq!(
        Mode { bits: TYPE_FILE | BIT_SUID | BIT_SGID | BIT_STICKY | 0o111 }.to_string(),
        "---s--s--t"
    );
    assert!(Mode { bits: 0o755 }.contains(Mode { bits: 0o700 }));
    assert!(!Mode { bits: 0o755 }.contains(Mode { bits: 0o002 }));
    assert_eq!((Mode { bits: TYPE_FILE | 0o644 } & Mode { bits: 0o7777 }).bits, 0o644);
    assert_eq!(Mode { bits: TYPE_FILE | 0o644 }.permissions().bits(), 0o644);
    assert_eq!(Mode::default(), Mode::from_bits_truncate(0));
}

#[test]
fn metablock_refs() {
    let r = metablock::Ref::new(0x12345678, 0x1ABC);
    assert_eq!(r.0, 0x1234_5678_1ABC);
    assert_eq!(r.block_start(), 0x12345678);
    assert_eq!(r.start_offset(), 0x1ABC);
    assert_eq!(metablock::Ref::default().0, u64::MAX);

    let i = inode::Ref::new(7, 9);
    assert_eq!(i.0, (7 << 16) | 9);
    assert_eq!(i.block_idx(), 7);
    assert_eq!(i.block_start(), 7);
    assert_eq!(i.start_offset(), 9);
}

#[test]
fn metablock_headers() {
    let h = metablock::Header::new(8192, true);
    assert_eq!(h.0, 0xA000);
    assert!(h.compressed());
    assert_eq!(h.size(), 8192);
    let h = metablock::Header::new(86, false);
    assert_eq!(h.to_packed(), vec![0x56, 0x00]);
    assert!(!h.compressed());
    assert_eq!(h.size(), 86);

    assert!(MetablockHeader(0x8001).is_compressed());
    assert_eq!(MetablockHeader(0x8001).size_on_disk(), 1);
    assert!(!MetablockHeader(0x7FFF).is_compressed());
    assert_eq!(MetablockHeader(0x7FFF).size_on_disk(), 0x7FFF);
}

#[test]
fn datablock_sizes() {
    let s = datablock::Size::new(1 << 20, true);
    assert_eq!(s.0, (1 << 24) | (1 << 20));
    assert_eq!(s.size(), 1 << 20);
    assert!(s.uncompressed());
    let s = datablock::Size::new(4096, false);
    assert_eq!(s.0, 4096);
    assert!(!s.uncompressed());
    assert_eq!(datablock::Size::zero().0, 0);
}

#[test]
fn device_numbers() {
    let d = inode::DeviceNumber::new(0xABC, 0xDEF12);
    assert_eq!(d.major(), 0xABC);
    assert_eq!(d.minor(), 0xDEF12);
    assert_eq!(d.0, (0xABC << 8) | 0x12 | (0xDEF00 << 12));
    let d = inode::DeviceNumber::new(8, 1);
    assert_eq!(d.0, 0x801);
}

#[test]
fn kinds() {
    assert_eq!(inode::Kind(inode::EXT_DIR).to_basic(), inode::Kind(inode::BASIC_DIR));
    assert_eq!(
        inode::Kind(inode::EXT_SOCKET).to_basic(),
        inode::Kind(inode::BASIC_SOCKET)
    );
    assert_eq!(inode::Kind(inode::BASIC_FILE).to_basic(), inode::Kind(inode::BASIC_FILE));
    assert!(inode::Kind(inode::EXT_FILE).is_extended());
    assert!(!inode::Kind(inode::BASIC_SOCKET).is_extended());
    assert!(xattr::Kind(0x0102).out_of_line());
    assert_eq!(xattr::Kind(0x0102).prefix(), xattr::Kind(xattr::SECURITY));
    assert!(!xattr::Kind(xattr::USER).out_of_line());
    assert!(!xattr::Idx::default().is_some());
    assert!(xattr::Idx(3).is_some());
    assert_eq!(fragment::Idx::default(), fragment::Idx(0));
}

#[test]
fn record_sizes() {
    assert_eq!(inode::Header::size(), 16);
    assert_eq!(inode::BasicDir::size(), 16);
    assert_eq!(inode::ExtendedDir::size(), 24);
    assert_eq!(inode::BasicFile::size(), 16);
    assert_eq!(inode::ExtendedFile::size(), 40);
    assert_eq!(inode::Symlink::size(), 8);
    assert_eq!(inode::BasicDevice::size(), 8);
    assert_eq!(inode::ExtendedDevice::size(), 12);
    assert_eq!(inode::BasicIpc::size(), 4);
    assert_eq!(inode::ExtendedIpc::size(), 8);
    assert_eq!(directory::Header::size(), 12);
    assert_eq!(directory::Entry::size(), 8);
    assert_eq!(directory::Index::size(), 12);
    assert_eq!(fragment::Entry::size(), 16);
    assert_eq!(xattr::LookupTable::size(), 16);
    assert_eq!(xattr::LookupEntry::size(), 16);
    assert_eq!(superblock::Superblock::size(), 96);
}

#[test]
fn records_round_trip() {
    let entry = directory::Entry {
        offset: 0x0102,
        inode_offset: -2,
        kind: inode::Kind(inode::BASIC_FILE),
        name_size: 5,
    };
    let bytes = entry.to_packed();
    assert_eq!(bytes, vec![0x02, 0x01, 0xFE, 0xFF, 0x02, 0x00, 0x05, 0x00]);
    assert_eq!(directory::Entry::from_packed(&bytes), entry);

    let frag = fragment::Entry { start: 96, size: datablock::Size::new(100, true), unused: 0 };
    assert_eq!(fragment::Entry::from_packed(&frag.to_packed()), frag);

    // flags keep bits without a meaning
    let flags = superblock::Flags { bits: 0xF123 };
    assert_eq!(superblock::Flags::from_packed(&flags.to_packed()), flags);
    assert_eq!(flags.unknown_bits(), 0xF000);
    assert!(flags.contains(superblock::UNCOMPRESSED_INODES));
    assert!(!flags.contains(superblock::UNCOMPRESSED_FRAGMENTS));
    assert_eq!(superblock::Flags::all().unknown_bits(), 0);
}
