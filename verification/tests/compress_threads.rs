use sqfs::compress_threads::compress_block;
use sqfs::compress_threads::decompress_block;
use sqfs::compress_threads::handle_request;
use sqfs::compress_threads::RequestType;
use sqfs::compression::compress_or_copy;
use sqfs::compression::stored_block;
use sqfs::compression::AnyCodec;
use sqfs::compression::Kind;
use sqfs::errors::CodecError;

#[test]
fn compress_threads_multiple_requests() {
    let duplicate_data: Vec<u8> = "hi there you all"
        .as_bytes()
        .iter()
        .copied()
        .cycle()
        .take(4 * 1024)
        .collect();

    let uncompressible = vec![1];

    let mut compressor = AnyCodec::new(Kind::ZLib);
    let response1 =
        handle_request(&mut compressor, duplicate_data.clone(), RequestType::Compress).unwrap();
    let response2 =
        handle_request(&mut compressor, uncompressible.clone(), RequestType::Compress).unwrap();

    assert!(response1.compressed);
    assert!(response1.data.len() < duplicate_data.len());
    assert!(!response2.compressed);
    assert_eq!(response2.data, uncompressible);
}

#[test]
fn replies_are_never_longer_than_requests() {
    for kind in [Kind::ZLib, Kind::Zstd] {
        let mut codec = AnyCodec::new(kind);
        for len in [0usize, 1, 2, 10, 100, 5000] {
            for seed in [0u32, 1, 77] {
                let data: Vec<u8> = (0..len as u32)
                    .map(|i| if seed == 0 { 0 } else { (i.wrapping_mul(seed * 2654435761) >> 9) as u8 })
                    .collect();
                let reply = compress_block(&mut codec, data.clone());
                assert!(reply.data.len() <= data.len());
                if reply.compressed {
                    assert!(reply.data.len() < data.len());
                    let back =
                        decompress_block(&mut codec, reply.data.clone(), data.len()).unwrap();
                    assert!(!back.compressed);
                    assert_eq!(back.data, data);
                } else {
                    assert_eq!(reply.data, data);
                }
            }
        }
    }
}

#[test]
fn decompress_requests() {
    let mut codec = AnyCodec::new(Kind::ZLib);
    let data = vec![3u8; 3000];
    let packed = compress_block(&mut codec, data.clone());
    assert!(packed.compressed);
    let reply = handle_request(
        &mut codec,
        packed.data.clone(),
        RequestType::Decompress { max_size: 3000 },
    )
    .unwrap();
    assert_eq!(reply.data, data);
    // a destination that is too small, and input that is no stream
    assert_eq!(
        handle_request(&mut codec, packed.data.clone(), RequestType::Decompress { max_size: 2999 }),
        Err(CodecError::CorruptInput)
    );
    assert_eq!(
        handle_request(&mut codec, vec![1, 2, 3, 4], RequestType::Decompress { max_size: 100 }),
        Err(CodecError::CorruptInput)
    );
}

#[test]
fn compress_or_copy_leaves_what_to_store() {
    let mut codec = AnyCodec::new(Kind::Zstd);
    let mut dst = vec![9u8; 3];
    let src = vec![0u8; 2000];
    let (len, compressed) = compress_or_copy(&mut codec, &src, &mut dst);
    assert!(compressed);
    assert!(len < src.len() && len <= dst.len());
    let (len, compressed) = compress_or_copy(&mut codec, &[1, 2, 3], &mut dst);
    assert!(!compressed);
    assert_eq!(len, 3);
    assert_eq!(dst, vec![1, 2, 3]);
    let (len, compressed) = compress_or_copy(&mut codec, &[], &mut dst);
    assert_eq!((len, compressed), (0, false));
}

#[test]
fn stored_block_follows_the_codec() {
    let src = [1u8, 2, 3, 4];
    let dst = [9u8, 8, 7];
    assert_eq!(stored_block(&src, &dst, Ok(2)), (vec![9, 8], true));
    assert_eq!(stored_block(&src, &dst, Ok(0)), (vec![], true));
    assert_eq!(stored_block(&src, &dst, Err(CodecError::ShortOutput)), (vec![1, 2, 3, 4], false));
}
