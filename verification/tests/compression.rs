use sqfs::compression::gzip;
use sqfs::compression::zstd;
use sqfs::compression::Codec;
use sqfs::compression::CodecImpl;
use sqfs::compression::Compressor;
use sqfs::compression::Decompressor;

fn round_trip<C: CodecImpl>() {
    let mut c = Codec::<C>::new();
    let src: &[u8] = b"11111111111111111111111111111111111c111";
    let mut dest = [0; 64];
    let mut clear_dest = vec![0u8; src.len()];
    let dest_size = c.compress(src, &mut dest).expect("compression");
    let clear_size = c
        .decompress(&dest[..dest_size], &mut clear_dest)
        .expect("decompression");
    assert_eq!(&src[..], &clear_dest[..clear_size]);
}

fn small_dst<C: CodecImpl>() {
    let mut c = Codec::<C>::new();
    let src: &[u8] = b"11111111111111111111111111111111111c111";
    let mut dest = [0; 1];
    c.decompress(src, &mut dest)
        .expect_err("cannot compress to 1 bytes");

    let src: &[u8] = b"11111111111111111111111111111111111c111";
    let mut dest = [0; 1];
    c.compress(src, &mut dest)
        .expect_err("cannot compress to 1 bytes");
}

#[test]
fn gzip_compressor() {
    round_trip::<gzip::Gzip>();
    small_dst::<gzip::Gzip>();
}

#[test]
fn zstd_compressor() {
    round_trip::<zstd::Zstd>();
    small_dst::<zstd::Zstd>();
}

#[test]
fn a_block_is_kept_or_copied() {
    let mut dst = vec![9u8, 8, 7];
    assert_eq!(sqfs::compression::kept_or_copied(b"abcd", &mut dst, Ok(2)), (2, true));
    assert_eq!(dst, vec![9u8, 8, 7]);
    assert_eq!(sqfs::compression::kept_or_copied(b"abcd", &mut dst, Err(sqfs::errors::CodecError::ShortOutput)), (4, false));
    assert_eq!(dst, b"abcd".to_vec());
    assert_eq!(sqfs::compression::kept_or_copied(b"", &mut dst, Err(sqfs::errors::CodecError::ShortOutput)), (0, false));
    assert!(dst.is_empty());
}
