use sqfs::compress_threads::restored_block;
use sqfs::compress_threads::Response;
use sqfs::compression::gzip::next_step;
use sqfs::compression::gzip::stream_level;
use sqfs::compression::gzip::stream_size;
use sqfs::compression::gzip::Step;
use sqfs::compression::zstd::block_size;
use sqfs::compression::zstd::context_level;
use sqfs::errors::CodecError;
use std::io;

#[test]
fn a_step_goes_on_until_the_stream_ends() {
    assert_eq!(next_step::<()>(Ok(flate2::Status::Ok)), Step::Again);
    assert_eq!(next_step::<()>(Ok(flate2::Status::StreamEnd)), Step::Done);
    assert_eq!(next_step::<()>(Ok(flate2::Status::BufError)), Step::Failed);
    assert_eq!(next_step(Err::<flate2::Status, u8>(3)), Step::Failed);
}

#[test]
fn a_stream_counts_only_what_the_buffer_holds() {
    assert_eq!(stream_size(0, 0, CodecError::ShortOutput), Ok(0));
    assert_eq!(stream_size(10, 10, CodecError::ShortOutput), Ok(10));
    assert_eq!(stream_size(11, 10, CodecError::ShortOutput), Err(CodecError::ShortOutput));
    assert_eq!(stream_size(u64::MAX, 10, CodecError::CorruptInput), Err(CodecError::CorruptInput));
}

#[test]
fn a_stream_has_one_of_ten_levels() {
    assert_eq!(stream_level(0), 0);
    assert_eq!(stream_level(6), 6);
    assert_eq!(stream_level(9), 9);
    assert_eq!(stream_level(10), 9);
    assert_eq!(stream_level(u32::MAX), 9);
}

#[test]
fn a_context_answers_with_a_size_or_fails() {
    assert_eq!(block_size(Ok(5), 5, CodecError::ShortOutput), Ok(5));
    assert_eq!(block_size(Ok(6), 5, CodecError::ShortOutput), Err(CodecError::ShortOutput));
    let failed = io::Error::new(io::ErrorKind::Other, "no room");
    assert_eq!(block_size(Err(failed), 5, CodecError::CorruptInput), Err(CodecError::CorruptInput));
    assert_eq!(context_level(3), 3);
    assert_eq!(context_level(22), 22);
    assert_eq!(context_level(i32::MAX as u32), i32::MAX);
}

#[test]
fn a_restored_block_is_what_the_codec_wrote() {
    let answer = restored_block(vec![1, 2, 3, 4], Ok(3));
    assert_eq!(answer, Ok(Response { data: vec![1, 2, 3], compressed: false }));
    let answer = restored_block(vec![1, 2, 3, 4], Ok(0));
    assert_eq!(answer, Ok(Response { data: vec![], compressed: false }));
    let answer = restored_block(vec![1, 2, 3, 4], Err(CodecError::CorruptInput));
    assert_eq!(answer, Err(CodecError::CorruptInput));
}
