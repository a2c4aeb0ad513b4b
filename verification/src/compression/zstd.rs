//! The zstd codec, on the bulk contexts of the `zstd` crate.

use crate::compression::parse_number;
use crate::compression::same_text;
use crate::compression::spec_parse_number;
use crate::compression::CodecImpl;
use crate::compression::Compressor;
use crate::compression::Config;
use crate::compression::ConfigError;
use crate::compression::ConfigValue;
use crate::compression::Decompressor;
use crate::errors::CodecError;
use crate::errors::OptionsError;
use crate::packed::PackedStruct;
use crate::repr::compression::options;
use vstd::prelude::*;

verus! {

/// The error type of `std::io`.
#[verifier::external_type_specification]
#[verifier::external_body]
pub struct ExIoError(std::io::Error);

/// The zstd algorithm.
#[derive(Debug)]
pub struct Zstd;

/// A zstd compressor: a bulk compression context of the `zstd` crate, made
/// without a dictionary and set to the level of the options.
#[verifier::external_body]
pub struct ZstdCompressor(::zstd::bulk::Compressor<'static>);

/// A zstd decompressor: a bulk decompression context of the `zstd` crate,
/// made without a dictionary.
#[verifier::external_body]
pub struct ZstdDecompressor(::zstd::bulk::Decompressor<'static>);

/// `Default::default` of `zstd::bulk::Compressor`: a context without a
/// dictionary. Nothing is claimed of it.
#[verifier::external_body]
fn compression_context() -> (context: ZstdCompressor) {
    ZstdCompressor(Default::default())
}

/// `zstd::bulk::Compressor::set_compression_level`. Nothing is claimed of the
/// outcome.
#[verifier::external_body]
fn set_compression_level(context: &mut ZstdCompressor, level: i32) -> (r: Result<
    (),
    std::io::Error,
>) {
    context.0.set_compression_level(level)
}

/// `Default::default` of `zstd::bulk::Decompressor`: a context without a
/// dictionary. Nothing is claimed of it.
#[verifier::external_body]
fn decompression_context() -> (context: ZstdDecompressor) {
    ZstdDecompressor(Default::default())
}

/// `zstd::bulk::Compressor::compress_to_buffer` on a slice. The slice keeps
/// its length, and the count of bytes that is returned is not above it:
/// `zstd-safe` checks the count against the capacity of the buffer before
/// it returns.
#[verifier::external_body]
fn compress_to_buffer(context: &mut ZstdCompressor, src: &[u8], dst: &mut [u8]) -> (r: Result<
    usize,
    std::io::Error,
>)
    ensures
        final(dst)@.len() == old(dst)@.len(),
        r matches Ok(n) ==> n <= old(dst)@.len(),
{
    context.0.compress_to_buffer(src, dst)
}

/// `zstd::bulk::Decompressor::decompress_to_buffer` on a slice. The slice
/// keeps its length, and the count of bytes that is returned is not above
/// it: `zstd-safe` checks the count against the capacity of the buffer
/// before it returns.
#[verifier::external_body]
fn decompress_to_buffer(context: &mut ZstdDecompressor, src: &[u8], dst: &mut [u8]) -> (r: Result<
    usize,
    std::io::Error,
>)
    ensures
        final(dst)@.len() == old(dst)@.len(),
        r matches Ok(n) ==> n <= old(dst)@.len(),
{
    context.0.decompress_to_buffer(src, dst)
}

/// What the answer of a context comes to, for a buffer of `room` bytes: the
/// number of bytes that it wrote, where the buffer holds as many, and
/// `failure` where it wrote more or failed.
pub open spec fn spec_block_size(
    outcome: Result<usize, std::io::Error>,
    room: nat,
    failure: CodecError,
) -> Result<usize, CodecError> {
    match outcome {
        Ok(written) => if written <= room {
            Ok(written)
        } else {
            Err(failure)
        },
        Err(_) => Err(failure),
    }
}

/// The result of a codec, from the answer of its context.
pub fn block_size(outcome: Result<usize, std::io::Error>, room: usize, failure: CodecError) -> (r:
    Result<usize, CodecError>)
    ensures
        r == spec_block_size(outcome, room as nat, failure),
{
    match outcome {
        Ok(written) => {
            if written <= room {
                Ok(written)
            } else {
                Err(failure)
            }
        },
        Err(_) => Err(failure),
    }
}

/// The level that is handed to a context: that of the options, as a signed
/// number.
pub fn context_level(level: u32) -> (r: i32)
    ensures
        r == level as i32,
        level <= i32::MAX ==> r == level,
{
    level as i32
}

impl Compressor for ZstdCompressor {
    /// Nothing is said of what the context writes: every pair passes.
    open spec fn spec_packs(src: Seq<u8>, out: Seq<u8>) -> bool {
        true
    }

    /// Every failure of the context counts as a block that does not fit: the
    /// caller then stores the block as it is.
    fn compress(&mut self, src: &[u8], dst: &mut [u8]) -> (r: Result<usize, CodecError>) {
        let room = dst.len();
        block_size(compress_to_buffer(self, src, dst), room, CodecError::ShortOutput)
    }
}

impl Decompressor for ZstdDecompressor {
    fn decompress(&mut self, src: &[u8], dst: &mut [u8]) -> (r: Result<usize, CodecError>) {
        let room = dst.len();
        block_size(decompress_to_buffer(self, src, dst), room, CodecError::CorruptInput)
    }
}

impl Config for options::Zstd {
    open spec fn spec_set(self, field: Seq<char>, value: Seq<u8>) -> Result<Self, ConfigError> {
        if field == "compression_level"@ {
            match spec_parse_number(value, u32::MAX as int) {
                Some(level) => Ok(options::Zstd { compression_level: level as u32 }),
                None => Err(ConfigError::InvalidValue),
            }
        } else {
            Err(ConfigError::UnknownField)
        }
    }

    fn set(&mut self, field: &str, value: &str) -> (r: Result<(), ConfigError>) {
        if same_text(field, "compression_level") {
            match parse_number(value.as_bytes(), u32::MAX as u64) {
                Some(level) => {
                    self.compression_level = level as u32;
                    Ok(())
                },
                None => Err(ConfigError::InvalidValue),
            }
        } else {
            Err(ConfigError::UnknownField)
        }
    }

    fn key_values(&self) -> (r: Vec<(&'static str, ConfigValue<'static>)>)
        ensures
            r@.len() == 1,
            r@[0].0@ == "compression_level"@,
            r@[0].1 == ConfigValue::Int(self.compression_level as i64),
    {
        vec![("compression_level", ConfigValue::Int(self.compression_level as i64))]
    }
}

impl CodecImpl for Zstd {
    type Compressor = ZstdCompressor;

    type Decompressor = ZstdDecompressor;

    type Config = options::Zstd;

    open spec fn valid_config(config: options::Zstd) -> bool {
        1 <= config.compression_level <= 22
    }

    open spec fn spec_read_config(data: Seq<u8>) -> Result<options::Zstd, OptionsError> {
        if data.len() < options::Zstd::spec_size() {
            Err(OptionsError::UnexpectedEof)
        } else {
            let config = options::Zstd::spec_from_packed(
                data.subrange(0, options::Zstd::spec_size() as int),
            );
            if !(1 <= config.compression_level <= 22) {
                Err(OptionsError::InvalidCompressionLevel(config.compression_level))
            } else {
                Ok(config)
            }
        }
    }

    open spec fn spec_default_config() -> options::Zstd {
        options::Zstd { compression_level: 15 }
    }

    fn default_config() -> (config: options::Zstd) {
        options::Zstd::default()
    }

    fn read_config(data: &[u8]) -> (r: Result<options::Zstd, OptionsError>) {
        let config: options::Zstd = match crate::packed::read(data) {
            Ok(config) => config,
            Err(_) => {
                return Err(OptionsError::UnexpectedEof);
            },
        };
        let compression_level = config.compression_level;
        if compression_level < 1 || compression_level > 22 {
            return Err(OptionsError::InvalidCompressionLevel(compression_level));
        }
        Ok(config)
    }

    /// A context at the level of the options. A level that the context does
    /// not take leaves it at its own default.
    fn compressor(config: options::Zstd) -> ZstdCompressor {
        let mut context = compression_context();
        let _ = set_compression_level(&mut context, context_level(config.compression_level));
        context
    }

    fn decompressor(config: options::Zstd) -> ZstdDecompressor {
        decompression_context()
    }
}

} // verus!
