//! The gzip codec, on the deflate streams of `flate2`.

use crate::compression::parse_number;
use crate::compression::same_text;
use crate::compression::spec_parse_number;
use crate::compression::CodecImpl;
use crate::compression::Compressor;
use crate::compression::Config;
use crate::compression::ConfigError;
use crate::compression::ConfigValue;
use crate::compression::Decompressor;
use crate::errors::CodecError;
use crate::errors::OptionsError;
use crate::packed::PackedStruct;
use crate::repr::compression::options;
use vstd::prelude::*;
use vstd::slice::slice_subrange;

verus! {

/// A deflate stream of `flate2` that compresses.
#[verifier::external_type_specification]
#[verifier::external_body]
pub struct ExCompress(flate2::Compress);

/// A deflate stream of `flate2` that decompresses.
#[verifier::external_type_specification]
#[verifier::external_body]
pub struct ExDecompress(flate2::Decompress);

/// What a step of a `flate2` stream ended in.
#[verifier::external_type_specification]
pub struct ExStatus(flate2::Status);

/// The error of a `flate2` stream that compresses.
#[verifier::external_type_specification]
#[verifier::external_body]
pub struct ExCompressError(flate2::CompressError);

/// The error of a `flate2` stream that decompresses.
#[verifier::external_type_specification]
#[verifier::external_body]
pub struct ExDecompressError(flate2::DecompressError);

/// `flate2::Compress::new` with a zlib header. Nothing is claimed of the
/// stream. Levels above 9 are left out: the stream is not made for them.
#[verifier::external_body]
fn deflate_stream(level: u32) -> (stream: flate2::Compress)
    requires
        level <= 9,
{
    flate2::Compress::new(flate2::Compression::new(level), true)
}

/// `flate2::Decompress::new` with a zlib header. Nothing is claimed of the
/// stream.
#[verifier::external_body]
fn inflate_stream() -> (stream: flate2::Decompress) {
    flate2::Decompress::new(true)
}

/// `flate2::Compress::reset`. Nothing is claimed of the stream.
#[verifier::external_body]
fn deflate_reset(stream: &mut flate2::Compress) {
    stream.reset()
}

/// `flate2::Compress::total_in`. Nothing is claimed of the count.
pub assume_specification[ flate2::Compress::total_in ](stream: &flate2::Compress) -> (n: u64)
;

/// `flate2::Compress::total_out`. Nothing is claimed of the count.
pub assume_specification[ flate2::Compress::total_out ](stream: &flate2::Compress) -> (n: u64)
;

/// `flate2::Decompress::reset`, for the zlib format. Nothing is claimed of the
/// stream.
#[verifier::external_body]
fn inflate_reset(stream: &mut flate2::Decompress) {
    stream.reset(true)
}

/// `flate2::Decompress::total_in`. Nothing is claimed of the count.
pub assume_specification[ flate2::Decompress::total_in ](stream: &flate2::Decompress) -> (n: u64)
;

/// `flate2::Decompress::total_out`. Nothing is claimed of the count.
pub assume_specification[ flate2::Decompress::total_out ](stream: &flate2::Decompress) -> (n: u64)
;

/// `flate2::Compress::compress` with `FlushCompress::Finish`. The one claim
/// is that of every function on a mutable slice: its length stays.
#[verifier::external_body]
fn deflate_finish(stream: &mut flate2::Compress, input: &[u8], output: &mut [u8]) -> (r: Result<
    flate2::Status,
    flate2::CompressError,
>)
    ensures
        final(output)@.len() == old(output)@.len(),
{
    stream.compress(input, output, flate2::FlushCompress::Finish)
}

/// `flate2::Decompress::decompress` with `FlushDecompress::Finish`. The one
/// claim is that of every function on a mutable slice: its length stays.
#[verifier::external_body]
fn inflate_finish(stream: &mut flate2::Decompress, input: &[u8], output: &mut [u8]) -> (r: Result<
    flate2::Status,
    flate2::DecompressError,
>)
    ensures
        final(output)@.len() == old(output)@.len(),
{
    stream.decompress(input, output, flate2::FlushDecompress::Finish)
}

/// The smaller of a count of a stream and the size of a buffer.
pub fn min_mem(file_size: u64, mem_size: usize) -> (r: usize)
    ensures
        r <= mem_size,
        r as int == if file_size < mem_size {
            file_size as int
        } else {
            mem_size as int
        },
{
    if file_size < mem_size as u64 {
        file_size as usize
    } else {
        mem_size
    }
}

/// How to go on after a step of a stream.
#[derive(Debug, Copy, Clone, PartialEq, Eq)]
pub enum Step {
    /// The stream made progress and has more to do: run it again.
    Again,
    /// The stream has reached its end.
    Done,
    /// The stream failed, or it cannot go on with the room that it has.
    Failed,
}

/// How to go on after a step that ended in `outcome`.
pub open spec fn spec_next_step<E>(outcome: Result<flate2::Status, E>) -> Step {
    match outcome {
        Ok(flate2::Status::Ok) => Step::Again,
        Ok(flate2::Status::StreamEnd) => Step::Done,
        Ok(flate2::Status::BufError) => Step::Failed,
        Err(_) => Step::Failed,
    }
}

/// Decides how to go on after a step of a stream, from what the step ended
/// in.
pub fn next_step<E>(outcome: Result<flate2::Status, E>) -> (r: Step)
    ensures
        r == spec_next_step(outcome),
{
    match outcome {
        Ok(flate2::Status::Ok) => Step::Again,
        Ok(flate2::Status::StreamEnd) => Step::Done,
        Ok(flate2::Status::BufError) => Step::Failed,
        Err(_) => Step::Failed,
    }
}

/// What a stream that has ended comes to, for a buffer of `room` bytes: the
/// number of bytes that it counts as written, where the buffer holds as
/// many, and `failure` elsewhere.
pub open spec fn spec_stream_size(total: u64, room: nat, failure: CodecError) -> Result<
    usize,
    CodecError,
> {
    if total <= room {
        Ok(total as usize)
    } else {
        Err(failure)
    }
}

/// The result of a stream that has ended, from its count of written bytes.
pub fn stream_size(total: u64, room: usize, failure: CodecError) -> (r: Result<usize, CodecError>)
    ensures
        r == spec_stream_size(total, room as nat, failure),
{
    if total > room as u64 {
        Err(failure)
    } else {
        Ok(total as usize)
    }
}

/// The level that a stream is made for: that of the options, and the
/// highest one where the options ask for more.
pub open spec fn spec_stream_level(level: u32) -> u32 {
    if level <= 9 {
        level
    } else {
        9
    }
}

/// The level that a stream is made for.
pub fn stream_level(level: u32) -> (r: u32)
    ensures
        r == spec_stream_level(level),
        r <= 9,
{
    if level <= 9 {
        level
    } else {
        9
    }
}

/// The gzip algorithm.
#[derive(Debug)]
pub struct Gzip;

pub struct GzipCompressor(flate2::Compress);

pub struct GzipDecompressor(flate2::Decompress);

impl Compressor for GzipCompressor {
    /// Nothing is said of what the stream writes: every pair passes.
    open spec fn spec_packs(src: Seq<u8>, out: Seq<u8>) -> bool {
        true
    }

    /// Runs the stream from its start until it has taken all of `src`. The
    /// stream reports progress with every step, so the steps are bounded by
    /// the bytes of both buffers.
    fn compress(&mut self, src: &[u8], dst: &mut [u8]) -> (r: Result<usize, CodecError>) {
        deflate_reset(&mut self.0);
        let mut steps: u128 = src.len() as u128 + dst.len() as u128 + 2;
        loop
            invariant
                dst@.len() == old(dst)@.len(),
            decreases steps,
        {
            let in_offset = min_mem(self.0.total_in(), src.len());
            let input = slice_subrange(src, in_offset, src.len());
            let out_offset = min_mem(self.0.total_out(), dst.len());
            let (_, output) = dst.split_at_mut(out_offset);
            match next_step(deflate_finish(&mut self.0, input, output)) {
                Step::Again => {
                    if steps == 0 {
                        return Err(CodecError::ShortOutput);
                    }
                    steps -= 1;
                },
                Step::Done => {
                    break ;
                },
                Step::Failed => {
                    return Err(CodecError::ShortOutput);
                },
            }
        }
        stream_size(self.0.total_out(), dst.len(), CodecError::ShortOutput)
    }
}

impl Decompressor for GzipDecompressor {
    /// Runs the stream from its start until it has reached the end of the
    /// compressed block.
    fn decompress(&mut self, src: &[u8], dst: &mut [u8]) -> (r: Result<usize, CodecError>) {
        inflate_reset(&mut self.0);
        let mut steps: u128 = src.len() as u128 + dst.len() as u128 + 2;
        loop
            invariant
                dst@.len() == old(dst)@.len(),
            decreases steps,
        {
            let in_offset = min_mem(self.0.total_in(), src.len());
            let input = slice_subrange(src, in_offset, src.len());
            let out_offset = min_mem(self.0.total_out(), dst.len());
            let (_, output) = dst.split_at_mut(out_offset);
            match next_step(inflate_finish(&mut self.0, input, output)) {
                Step::Again => {
                    if steps == 0 {
                        return Err(CodecError::CorruptInput);
                    }
                    steps -= 1;
                },
                Step::Done => {
                    break ;
                },
                Step::Failed => {
                    return Err(CodecError::CorruptInput);
                },
            }
        }
        stream_size(self.0.total_out(), dst.len(), CodecError::CorruptInput)
    }
}

impl Config for options::Gzip {
    open spec fn spec_set(self, field: Seq<char>, value: Seq<u8>) -> Result<Self, ConfigError> {
        if field == "compression_level"@ {
            match spec_parse_number(value, u32::MAX as int) {
                Some(level) => Ok(
                    options::Gzip {
                        compression_level: level as u32,
                        window_size: self.window_size,
                        strategies: self.strategies,
                    },
                ),
                None => Err(ConfigError::InvalidValue),
            }
        } else if field == "window_size"@ {
            match spec_parse_number(value, u16::MAX as int) {
                Some(size) => Ok(
                    options::Gzip {
                        compression_level: self.compression_level,
                        window_size: size as u16,
                        strategies: self.strategies,
                    },
                ),
                None => Err(ConfigError::InvalidValue),
            }
        } else {
            Err(ConfigError::UnknownField)
        }
    }

    fn set(&mut self, field: &str, value: &str) -> (r: Result<(), ConfigError>) {
        if same_text(field, "compression_level") {
            match parse_number(value.as_bytes(), u32::MAX as u64) {
                Some(level) => {
                    self.compression_level = level as u32;
                    Ok(())
                },
                None => Err(ConfigError::InvalidValue),
            }
        } else if same_text(field, "window_size") {
            match parse_number(value.as_bytes(), u16::MAX as u64) {
                Some(size) => {
                    self.window_size = size as u16;
                    Ok(())
                },
                None => Err(ConfigError::InvalidValue),
            }
        } else {
            Err(ConfigError::UnknownField)
        }
    }

    fn key_values(&self) -> (r: Vec<(&'static str, ConfigValue<'static>)>)
        ensures
            r@.len() == 3,
            r@[0].0@ == "compression_level"@,
            r@[0].1 == ConfigValue::Int(self.compression_level as i64),
            r@[1].0@ == "window_size"@,
            r@[1].1 == ConfigValue::Int(self.window_size as i64),
            r@[2].0@ == "strategies"@,
            r@[2].1 matches ConfigValue::String(text) && text@ == self.strategies.spec_text(),
    {
        vec![
            ("compression_level", ConfigValue::Int(self.compression_level as i64)),
            ("window_size", ConfigValue::Int(self.window_size as i64)),
            ("strategies", ConfigValue::String(self.strategies.to_text())),
        ]
    }
}

impl CodecImpl for Gzip {
    type Compressor = GzipCompressor;

    type Decompressor = GzipDecompressor;

    type Config = options::Gzip;

    open spec fn valid_config(config: options::Gzip) -> bool {
        &&& 1 <= config.compression_level <= 9
        &&& 9 <= config.window_size <= 15
    }

    open spec fn spec_read_config(data: Seq<u8>) -> Result<options::Gzip, OptionsError> {
        if data.len() < options::Gzip::spec_size() {
            Err(OptionsError::UnexpectedEof)
        } else {
            let config = options::Gzip::spec_from_packed(
                data.subrange(0, options::Gzip::spec_size() as int),
            );
            if !(1 <= config.compression_level <= 9) {
                Err(OptionsError::InvalidCompressionLevel(config.compression_level))
            } else if !(9 <= config.window_size <= 15) {
                Err(OptionsError::InvalidWindowSize(config.window_size))
            } else {
                Ok(config)
            }
        }
    }

    open spec fn spec_default_config() -> options::Gzip {
        options::Gzip {
            compression_level: 9,
            window_size: 15,
            strategies: options::GzipStrategies { bits: options::STRATEGY_DEFAULT },
        }
    }

    fn default_config() -> (config: options::Gzip) {
        options::Gzip::default()
    }

    fn read_config(data: &[u8]) -> (r: Result<options::Gzip, OptionsError>) {
        let config: options::Gzip = match crate::packed::read(data) {
            Ok(config) => config,
            Err(_) => {
                return Err(OptionsError::UnexpectedEof);
            },
        };
        let compression_level = config.compression_level;
        if compression_level < 1 || compression_level > 9 {
            return Err(OptionsError::InvalidCompressionLevel(compression_level));
        }
        let window_size = config.window_size;
        if window_size < 9 || window_size > 15 {
            return Err(OptionsError::InvalidWindowSize(window_size));
        }
        Ok(config)
    }

    /// A stream at the level of the options, and at the highest level where
    /// the options ask for more.
    fn compressor(config: options::Gzip) -> GzipCompressor {
        GzipCompressor(deflate_stream(stream_level(config.compression_level)))
    }

    fn decompressor(config: options::Gzip) -> GzipDecompressor {
        GzipDecompressor(inflate_stream())
    }
}

} // verus!
