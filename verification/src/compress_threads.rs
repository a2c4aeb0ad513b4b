//! The work of one compression request.
//!
//! A pool of workers takes requests from a queue and answers each of them
//! once. What a worker does with a request is decided here: a block is
//! compressed into room for one byte less than it has, and is handed back as
//! it is where the compressed form does not fit, so that no block grows.

use crate::bytes::fill_zeroed;
use crate::compression::stored_block;
use crate::compression::Compressor;
use crate::compression::Decompressor;
use crate::errors::CodecError;
use vstd::prelude::*;

verus! {

/// What a request asks for.
#[derive(Debug, Copy, Clone, PartialEq, Eq)]
pub enum RequestType {
    /// Compress the data.
    Compress,
    /// Decompress the data into at most `max_size` bytes.
    Decompress { max_size: usize },
}

/// The answer to a request.
#[derive(Debug, Clone, PartialEq, Eq)]
pub struct Response {
    pub data: Vec<u8>,
    /// Whether `data` is compressed.
    pub compressed: bool,
}

/// Compresses a block. The answer is never longer than the block: where it
/// is not compressed, it is the block itself.
pub fn compress_block<C: Compressor>(codec: &mut C, data: Vec<u8>) -> (r: Response)
    ensures
        r.data@.len() <= data@.len(),
        r.compressed ==> r.data@.len() < data@.len(),
        !r.compressed ==> r.data@ == data@,
{
    if data.len() == 0 {
        return Response { data, compressed: false };
    }
    let mut dst: Vec<u8> = Vec::new();
    fill_zeroed(&mut dst, data.len() - 1);
    let outcome = codec.compress(data.as_slice(), dst.as_mut_slice());
    let (stored, compressed) = stored_block(data.as_slice(), dst.as_slice(), outcome);
    Response { data: stored, compressed }
}

/// The answer to a request to decompress, once the codec has answered.
///
/// `outcome` is what the codec returned, and `dst` the destination after the
/// call. Where the codec wrote the block, the answer holds the bytes that it
/// wrote, as a block that is not compressed; where it failed, so does the
/// request.
pub fn restored_block(dst: Vec<u8>, outcome: Result<usize, CodecError>) -> (r: Result<
    Response,
    CodecError,
>)
    requires
        outcome matches Ok(n) ==> n <= dst@.len(),
    ensures
        outcome matches Ok(n) ==> (r matches Ok(response) && response.data@ == dst@.subrange(
            0,
            n as int,
        ) && !response.compressed),
        outcome matches Err(e) ==> r == Err::<Response, CodecError>(e),
{
    match outcome {
        Ok(n) => {
            let mut data = dst;
            data.truncate(n);
            Ok(Response { data, compressed: false })
        },
        Err(e) => Err(e),
    }
}

/// Decompresses a block into at most `max_size` bytes.
pub fn decompress_block<C: Decompressor>(codec: &mut C, data: Vec<u8>, max_size: usize) -> (r:
    Result<Response, CodecError>)
    ensures
        r matches Ok(response) ==> response.data@.len() <= max_size && !response.compressed,
        r matches Err(e) ==> e == CodecError::CorruptInput,
{
    let mut dst: Vec<u8> = Vec::new();
    fill_zeroed(&mut dst, max_size);
    let outcome = codec.decompress(data.as_slice(), dst.as_mut_slice());
    restored_block(dst, outcome)
}

/// Does what a request asks for and returns its answer.
pub fn handle_request<C: Compressor + Decompressor>(
    codec: &mut C,
    data: Vec<u8>,
    request_type: RequestType,
) -> (r: Result<Response, CodecError>)
    ensures
        request_type is Compress ==> {
            &&& r matches Ok(response)
            &&& response.data@.len() <= data@.len()
            &&& response.compressed ==> response.data@.len() < data@.len()
            &&& !response.compressed ==> response.data@ == data@
        },
        request_type matches RequestType::Decompress { max_size } ==> {
            &&& r matches Ok(response) ==> response.data@.len() <= max_size && !response.compressed
            &&& r matches Err(e) ==> e == CodecError::CorruptInput
        },
{
    match request_type {
        RequestType::Compress => Ok(compress_block(codec, data)),
        RequestType::Decompress { max_size } => decompress_block(codec, data, max_size),
    }
}

} // verus!
