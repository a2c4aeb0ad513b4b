use sqfs::packed::read;
use sqfs::packed::try_read;
use sqfs::packed::PackedStruct;
use sqfs::packed::ReadError;
use sqfs::repr::compression::Id;
use sqfs::repr::inode;
use sqfs::repr::superblock::Flags;
use sqfs::repr::superblock::Superblock;

#[test]
fn embedded() {
    // an inner record, a byte, and an inner record again
    let outer: (u64, u8, u64) = (0x11121314_15161718, 0xFF, 0x21222324_25262728);

    assert_eq!(
        outer.to_packed().as_slice(),
        &[
            0x18, 0x17, 0x16, 0x15, 0x14, 0x13, 0x12, 0x11, 0xFF, 0x28, 0x27, 0x26, 0x25, 0x24,
            0x23, 0x22, 0x21,
        ][..]
    );

    let outer_2 = <(u64, u8, u64)>::from_packed(&outer.to_packed());
    assert_eq!(outer, outer_2);
}

#[test]
fn large_struct() {
    assert_eq!(Superblock::size(), 96);
    let superblock = Superblock {
        magic: 0x01020304,
        inode_count: 0x11121314,
        modification_time: 0x21222324,
        block_size: 0x31323334,
        fragment_entry_count: 0x41424344,
        compression_id: Id(0x5152),
        block_log: 0x5354,
        flags: Flags { bits: 0x6162 },
        id_count: 0x6364,
        version_major: 0x7172,
        version_minor: 0x7374,
        root_inode_ref: inode::Ref(0x81828384_85868788),
        bytes_used: 0x91929394_95969798,
        id_table_start: 0xA1A2A3A4_A5A6A7A8,
        xattr_id_table_start: 0xB1B2B3B4_B5B6B7B8,
        inode_table_start: 0xC1C2C3C4_C5C6C7C8,
        directory_table_start: 0xD1D2D3D4_D5D6D7D8,
        fragment_table_start: 0xE1E2E3E4_E5E6E7E8,
        export_table_start: 0xF1F2F3F4_F5F6F7F8,
    };
    assert_eq!(
        superblock.to_packed().as_slice(),
        &[
            0x04, 0x03, 0x02, 0x01, 0x14, 0x13, 0x12, 0x11, 0x24, 0x23, 0x22, 0x21, 0x34, 0x33,
            0x32, 0x31, 0x44, 0x43, 0x42, 0x41, 0x52, 0x51, 0x54, 0x53, 0x62, 0x61, 0x64, 0x63,
            0x72, 0x71, 0x74, 0x73, 0x88, 0x87, 0x86, 0x85, 0x84, 0x83, 0x82, 0x81, 0x98, 0x97,
            0x96, 0x95, 0x94, 0x93, 0x92, 0x91, 0xA8, 0xA7, 0xA6, 0xA5, 0xA4, 0xA3, 0xA2, 0xA1,
            0xB8, 0xB7, 0xB6, 0xB5, 0xB4, 0xB3, 0xB2, 0xB1, 0xC8, 0xC7, 0xC6, 0xC5, 0xC4, 0xC3,
            0xC2, 0xC1, 0xD8, 0xD7, 0xD6, 0xD5, 0xD4, 0xD3, 0xD2, 0xD1, 0xE8, 0xE7, 0xE6, 0xE5,
            0xE4, 0xE3, 0xE2, 0xE1, 0xF8, 0xF7, 0xF6, 0xF5, 0xF4, 0xF3, 0xF2, 0xF1,
        ][..]
    );

    let superblock_2 = Superblock::from_packed(&superblock.to_packed());
    assert_eq!(superblock, superblock_2);
}

#[test]
fn packed_struct_round_trip() {
    let record: (u32, u8, u64) = (0x01020304, 0xFF, 0x1122334455667788);
    let bytes = record.to_packed();
    assert_eq!(
        bytes,
        vec![0x04, 0x03, 0x02, 0x01, 0xFF, 0x88, 0x77, 0x66, 0x55, 0x44, 0x33, 0x22, 0x11]
    );
    assert_eq!(bytes.len(), <(u32, u8, u64)>::size());
    assert_eq!(<(u32, u8, u64)>::from_packed(&bytes), record);
}

#[test]
fn integers_round_trip() {
    for x in [0u16, 1, 0xFF, 0x100, 0xADDE, u16::MAX] {
        assert_eq!(x.to_packed(), x.to_le_bytes().to_vec());
        assert_eq!(u16::from_packed(&x.to_packed()), x);
    }
    for x in [0u32, 1, 0xDEADBEEF, u32::MAX] {
        assert_eq!(x.to_packed(), x.to_le_bytes().to_vec());
        assert_eq!(u32::from_packed(&x.to_packed()), x);
    }
    for x in [0u64, 1, 0x0102030405060708, u64::MAX] {
        assert_eq!(x.to_packed(), x.to_le_bytes().to_vec());
        assert_eq!(u64::from_packed(&x.to_packed()), x);
    }
    for x in [0i8, -1, i8::MIN, i8::MAX] {
        assert_eq!(x.to_packed(), x.to_le_bytes().to_vec());
        assert_eq!(i8::from_packed(&x.to_packed()), x);
    }
    for x in [0i16, -1, i16::MIN, i16::MAX, 0x1234] {
        assert_eq!(x.to_packed(), x.to_le_bytes().to_vec());
        assert_eq!(i16::from_packed(&x.to_packed()), x);
    }
    for x in [0i32, -1, i32::MIN, i32::MAX] {
        assert_eq!(x.to_packed(), x.to_le_bytes().to_vec());
        assert_eq!(i32::from_packed(&x.to_packed()), x);
    }
    for x in [0i64, -1, i64::MIN, i64::MAX] {
        assert_eq!(x.to_packed(), x.to_le_bytes().to_vec());
        assert_eq!(i64::from_packed(&x.to_packed()), x);
    }
}

#[test]
fn try_read_of_sources() {
    let empty_data: &[u8] = &[];
    assert!(try_read::<(u16, u16)>(empty_data).unwrap().is_none());

    let short_data: &[u8] = &[0x01, 0x02];
    assert_eq!(
        try_read::<(u16, u16)>(short_data).unwrap_err(),
        ReadError::UnexpectedEof
    );

    let full_data: &[u8] = &[0xDE, 0xAD, 0xBE, 0xEF];
    let record: (u16, u16) = try_read(full_data).unwrap().unwrap();
    assert_eq!(record.0, 0xADDE);
    assert_eq!(record.1, 0xEFBE);
}

#[test]
fn read_and_write() {
    let mut out = vec![9u8];
    sqfs::packed::write(&0x0A0Bu16, &mut out);
    assert_eq!(out, vec![9, 0x0B, 0x0A]);
    assert_eq!(read::<u16>(&out[1..]).unwrap(), 0x0A0B);
    assert_eq!(read::<u32>(&out[..]).unwrap_err(), ReadError::UnexpectedEof);
    // what follows the record is left alone
    assert_eq!(read::<u8>(&out[..]).unwrap(), 9);

    let mut value = 0u16;
    value.read_packed_arr(&[0x34, 0x12]);
    assert_eq!(value, 0x1234);
}
