//! The codec registry: the known compression algorithms, and the codecs that
//! are built in.

pub mod gzip;
pub mod zstd;

use crate::bytes::append_bytes;
use crate::bytes::fill_zeroed;
use crate::errors::CodecError;
use crate::errors::OptionsError;
use crate::repr::compression as ids;
use crate::repr::compression::options;
use crate::repr::compression::Id;
use vstd::prelude::*;
use vstd::string::StringSliceAdditionalSpecFns;

verus! {

/// A compression algorithm of the format.
#[derive(Debug, Copy, Clone, PartialEq, Eq, PartialOrd, Ord, Hash, Structural)]
pub enum Kind {
    Unknown,
    ZLib,
    Lzma,
    Lzo,
    Xz,
    Lz4,
    Zstd,
}

impl Default for Kind {
    fn default() -> (r: Kind)
        ensures
            r == Kind::ZLib,
    {
        Kind::ZLib
    }
}

/// Whether two strings hold the same characters.
pub(crate) fn same_text(a: &str, b: &str) -> (r: bool)
    ensures
        r == (a@ == b@),
{
    a.to_owned() == b.to_owned()
}

impl Kind {
    /// The stable ID of the algorithm, 0 for an unknown one.
    pub open spec fn spec_id(self) -> u16 {
        match self {
            Kind::Unknown => 0,
            Kind::ZLib => ids::GZIP,
            Kind::Lzma => ids::LZMA,
            Kind::Lzo => ids::LZO,
            Kind::Xz => ids::XZ,
            Kind::Lz4 => ids::LZ4,
            Kind::Zstd => ids::ZSTD,
        }
    }

    pub open spec fn spec_from_id(id: Id) -> Kind {
        if id.0 == ids::GZIP {
            Kind::ZLib
        } else if id.0 == ids::LZMA {
            Kind::Lzma
        } else if id.0 == ids::LZO {
            Kind::Lzo
        } else if id.0 == ids::XZ {
            Kind::Xz
        } else if id.0 == ids::LZ4 {
            Kind::Lz4
        } else if id.0 == ids::ZSTD {
            Kind::Zstd
        } else {
            Kind::Unknown
        }
    }

    pub open spec fn spec_name(self) -> Seq<char> {
        match self {
            Kind::Unknown => "unknown"@,
            Kind::ZLib => "gzip"@,
            Kind::Lzma => "lzma"@,
            Kind::Lzo => "lzo"@,
            Kind::Xz => "xz"@,
            Kind::Lz4 => "lz4"@,
            Kind::Zstd => "zstd"@,
        }
    }

    pub open spec fn spec_from_name(name: Seq<char>) -> Kind {
        if name == "gzip"@ {
            Kind::ZLib
        } else if name == "lzma"@ {
            Kind::Lzma
        } else if name == "lzo"@ {
            Kind::Lzo
        } else if name == "xz"@ {
            Kind::Xz
        } else if name == "lz4"@ {
            Kind::Lz4
        } else if name == "zstd"@ {
            Kind::Zstd
        } else {
            Kind::Unknown
        }
    }

    /// The algorithms that this library has a codec for.
    pub open spec fn spec_supported(self) -> bool {
        self == Kind::ZLib || self == Kind::Zstd
    }

    /// The algorithm of the given name, `Unknown` where no algorithm has it.
    pub fn from_name(name: &str) -> (r: Kind)
        ensures
            r == Kind::spec_from_name(name@),
    {
        if same_text(name, "gzip") {
            Kind::ZLib
        } else if same_text(name, "lzma") {
            Kind::Lzma
        } else if same_text(name, "lzo") {
            Kind::Lzo
        } else if same_text(name, "xz") {
            Kind::Xz
        } else if same_text(name, "lz4") {
            Kind::Lz4
        } else if same_text(name, "zstd") {
            Kind::Zstd
        } else {
            Kind::Unknown
        }
    }

    /// The algorithm of the given ID, `Unknown` for an ID outside of 1 to 6.
    #[verifier::when_used_as_spec(spec_from_id)]
    pub fn from_id(id: Id) -> (r: Kind)
        ensures
            r == Kind::spec_from_id(id),
            r != Kind::Unknown <==> 1 <= id.0 <= 6,
            r != Kind::Unknown ==> r.spec_id() == id.0,
    {
        if id.0 == ids::GZIP {
            Kind::ZLib
        } else if id.0 == ids::LZMA {
            Kind::Lzma
        } else if id.0 == ids::LZO {
            Kind::Lzo
        } else if id.0 == ids::XZ {
            Kind::Xz
        } else if id.0 == ids::LZ4 {
            Kind::Lz4
        } else if id.0 == ids::ZSTD {
            Kind::Zstd
        } else {
            Kind::Unknown
        }
    }

    #[verifier::when_used_as_spec(spec_id)]
    pub fn id(self) -> (r: u16)
        ensures
            r == self.spec_id(),
    {
        match self {
            Kind::Unknown => 0,
            Kind::ZLib => ids::GZIP,
            Kind::Lzma => ids::LZMA,
            Kind::Lzo => ids::LZO,
            Kind::Xz => ids::XZ,
            Kind::Lz4 => ids::LZ4,
            Kind::Zstd => ids::ZSTD,
        }
    }

    pub fn name(self) -> (r: &'static str)
        ensures
            r@ == self.spec_name(),
    {
        match self {
            Kind::Unknown => "unknown",
            Kind::ZLib => "gzip",
            Kind::Lzma => "lzma",
            Kind::Lzo => "lzo",
            Kind::Xz => "xz",
            Kind::Lz4 => "lz4",
            Kind::Zstd => "zstd",
        }
    }

    /// Whether this library has a codec for the algorithm.
    #[verifier::when_used_as_spec(spec_supported)]
    pub fn supported(self) -> (r: bool)
        ensures
            r == self.spec_supported(),
    {
        match self {
            Kind::ZLib => true,
            Kind::Zstd => true,
            _ => false,
        }
    }
}

/// The ID of an algorithm leads back to the algorithm, and the ID of every
/// known algorithm lies in 1 to 6.
pub proof fn lemma_kind_id_round_trip(kind: Kind)
    ensures
        Kind::spec_from_id(Id(kind.spec_id())) == kind,
        kind != Kind::Unknown ==> 1 <= kind.spec_id() <= 6,
{
}

/// The name of an algorithm leads back to the algorithm.
pub proof fn lemma_kind_name_round_trip(kind: Kind)
    ensures
        Kind::spec_from_name(kind.spec_name()) == kind,
{
    reveal_strlit("unknown");
    reveal_strlit("gzip");
    reveal_strlit("lzma");
    reveal_strlit("lzo");
    reveal_strlit("xz");
    reveal_strlit("lz4");
    reveal_strlit("zstd");
    match kind {
        Kind::Unknown => {
            assert("unknown"@.len() == 7);
        },
        Kind::ZLib => {},
        Kind::Lzma => {
            assert("lzma"@[0] == 'l');
            assert("gzip"@[0] == 'g');
        },
        Kind::Lzo => {
            assert("lzo"@.len() == 3);
        },
        Kind::Xz => {
            assert("xz"@.len() == 2);
        },
        Kind::Lz4 => {
            assert("lz4"@.len() == 3);
            assert("lz4"@[2] == '4');
            assert("lzo"@[2] == 'o');
        },
        Kind::Zstd => {
            assert("zstd"@[0] == 'z');
            assert("gzip"@[0] == 'g');
            assert("lzma"@[0] == 'l');
        },
    }
}

/// Compresses blocks of bytes.
pub trait Compressor {
    /// What the codec says of its compressed forms: whether `out` may be
    /// what it writes for `src`. A codec that says nothing of its forms
    /// lets every pair through.
    spec fn spec_packs(src: Seq<u8>, out: Seq<u8>) -> bool;

    /// Compresses `src` into the start of `dst` and returns the number of
    /// bytes written, which are a compressed form of `src`. The only
    /// failure is that the compressed form does not fit into `dst`.
    fn compress(&mut self, src: &[u8], dst: &mut [u8]) -> (r: Result<usize, CodecError>)
        ensures
            final(dst)@.len() == old(dst)@.len(),
            r matches Ok(n) ==> n <= old(dst)@.len(),
            r matches Ok(n) ==> Self::spec_packs(src@, final(dst)@.subrange(0, n as int)),
            r matches Err(e) ==> e == CodecError::ShortOutput,
    ;
}

/// Decompresses blocks of bytes.
pub trait Decompressor {
    /// Decompresses `src` into the start of `dst` and returns the number of
    /// bytes written. It fails where `src` is no valid compressed block or
    /// its content does not fit into `dst`.
    fn decompress(&mut self, src: &[u8], dst: &mut [u8]) -> (r: Result<usize, CodecError>)
        ensures
            final(dst)@.len() == old(dst)@.len(),
            r matches Ok(n) ==> n <= old(dst)@.len(),
            r matches Err(e) ==> e == CodecError::CorruptInput,
    ;
}

/// Compresses `src` into `dst`, and copies it where that does not make it
/// shorter.
///
/// The codec gets room for one byte less than `src` has. Where the compressed
/// form fits, the result is its length and `true`; where it does not, `dst`
/// holds `src` itself, and the result is its length and `false`. Either way
/// the first bytes of `dst`, as many as the result says, are what to store.
pub fn compress_or_copy<Comp: Compressor>(compressor: &mut Comp, src: &[u8], dst: &mut Vec<u8>) -> (r:
    (usize, bool))
    ensures
        r.0 <= final(dst)@.len(),
        r.0 <= src@.len(),
        r.1 ==> r.0 < src@.len(),
        r.1 ==> Comp::spec_packs(src@, final(dst)@.subrange(0, r.0 as int)),
        !r.1 ==> r.0 == src@.len() && final(dst)@ == src@,
{
    if src.len() > 0 {
        fill_zeroed(dst, src.len() - 1);
        let outcome = compressor.compress(src, dst.as_mut_slice());
        kept_or_copied(src, dst, outcome)
    } else {
        kept_or_copied(src, dst, Err(CodecError::ShortOutput))
    }
}

/// What to store for a block, once the codec has answered.
///
/// `outcome` is what the codec returned for `src`, and `dst` the destination
/// after the call. Where the codec wrote a compressed form, `dst` stays, and
/// the result is the length of that form and `true`. Where it did not, `dst`
/// becomes `src` itself, and the result is its length and `false`.
pub fn kept_or_copied(src: &[u8], dst: &mut Vec<u8>, outcome: Result<usize, CodecError>) -> (r: (
    usize,
    bool,
))
    ensures
        outcome matches Ok(n) ==> r == (n, true) && final(dst)@ == old(dst)@,
        outcome is Err ==> r == (src@.len() as usize, false) && final(dst)@ == src@,
{
    match outcome {
        Ok(written) => (written, true),
        Err(_) => {
            dst.clear();
            append_bytes(dst, src);
            (src.len(), false)
        },
    }
}

/// The bytes to store for a block, and whether they are compressed, once the
/// codec has answered.
///
/// `outcome` is what the codec returned for `src` and a destination one byte
/// shorter, and `dst` that destination after the call. Where the codec wrote
/// a compressed form, its bytes are stored; where it did not, the block
/// itself is.
pub fn stored_block(src: &[u8], dst: &[u8], outcome: Result<usize, CodecError>) -> (r: (
    Vec<u8>,
    bool,
))
    requires
        outcome matches Ok(n) ==> n <= dst@.len(),
    ensures
        outcome matches Ok(n) ==> r.1 && r.0@ == dst@.subrange(0, n as int),
        outcome is Err ==> !r.1 && r.0@ == src@,
{
    let mut data = Vec::new();
    match outcome {
        Ok(n) => {
            append_bytes(&mut data, vstd::slice::slice_subrange(dst, 0, n));
            (data, true)
        },
        Err(_) => {
            append_bytes(&mut data, src);
            (data, false)
        },
    }
}

/// A value of a configuration, for display.
#[derive(Debug, Clone, PartialEq, Eq)]
pub enum ConfigValue<'a> {
    Str(&'a str),
    String(String),
    Int(i64),
}

/// Setting a field of a configuration failed.
#[derive(Debug, Copy, Clone, PartialEq, Eq, Structural)]
pub enum ConfigError {
    /// The configuration has no field of that name.
    UnknownField,
    /// The value is no number that the field can hold.
    InvalidValue,
}

/// The value of a decimal digit, if `b` is one.
pub open spec fn spec_digit(b: u8) -> Option<int> {
    if 0x30 <= b <= 0x39 {
        Some(b - 0x30)
    } else {
        None
    }
}

/// The number that a run of decimal digits stands for, or `None` where a
/// byte is no digit.
pub open spec fn spec_digits_value(digits: Seq<u8>) -> Option<int>
    decreases digits.len(),
{
    if digits.len() == 0 {
        Some(0)
    } else {
        match (spec_digits_value(digits.drop_last()), spec_digit(digits.last())) {
            (Some(high), Some(low)) => Some(high * 10 + low),
            _ => None,
        }
    }
}

/// The number that a run of at least one decimal digit stands for, where it
/// is at most `max`.
pub open spec fn spec_bounded_value(digits: Seq<u8>, max: int) -> Option<int> {
    if digits.len() == 0 {
        None
    } else {
        match spec_digits_value(digits) {
            Some(v) if v <= max => Some(v),
            _ => None,
        }
    }
}

/// The number that `text` stands for: an optional plus sign and at least one
/// decimal digit, with a value of at most `max`.
pub open spec fn spec_parse_number(text: Seq<u8>, max: int) -> Option<int> {
    if text.len() > 0 && text[0] == 0x2B {
        spec_bounded_value(text.subrange(1, text.len() as int), max)
    } else {
        spec_bounded_value(text, max)
    }
}

/// Once a prefix of digits is worth more than `max`, so is every longer run.
proof fn lemma_digits_value_grows(digits: Seq<u8>, k: int)
    requires
        0 <= k <= digits.len(),
        spec_digits_value(digits) is Some,
    ensures
        spec_digits_value(digits.subrange(0, k)) is Some,
        spec_digits_value(digits.subrange(0, k)).unwrap() <= spec_digits_value(digits).unwrap(),
        spec_digits_value(digits).unwrap() >= 0,
    decreases digits.len(),
{
    if digits.len() == 0 {
        assert(digits.subrange(0, k) =~= digits);
    } else if k == digits.len() {
        assert(digits.subrange(0, k) =~= digits);
        lemma_digits_value_grows(digits.drop_last(), k - 1);
    } else {
        assert(digits.drop_last().subrange(0, k) =~= digits.subrange(0, k));
        lemma_digits_value_grows(digits.drop_last(), k);
    }
}

/// Reads a decimal number of at most `max` from `text`.
pub fn parse_number(text: &[u8], max: u64) -> (r: Option<u64>)
    ensures
        r matches Some(v) ==> spec_parse_number(text@, max as int) == Some(v as int),
        r is None ==> spec_parse_number(text@, max as int) is None,
{
    let start: usize = if text.len() > 0 && text[0] == 0x2B {
        1
    } else {
        0
    };
    let ghost digits = text@.subrange(start as int, text@.len() as int);
    assert(start == 0 ==> digits =~= text@);
    if start == text.len() {
        return None;
    }
    let mut value: u64 = 0;
    let mut i: usize = start;
    assert(digits.subrange(0, 0) =~= Seq::<u8>::empty());
    while i < text.len()
        invariant
            start <= i <= text@.len(),
            digits == text@.subrange(start as int, text@.len() as int),
            digits.len() > 0,
            spec_parse_number(text@, max as int) == spec_bounded_value(digits, max as int),
            spec_digits_value(digits.subrange(0, i - start)) == Some(value as int),
            value <= max,
        decreases text@.len() - i,
    {
        let b = text[i];
        let ghost prefix = digits.subrange(0, i + 1 - start);
        assert(prefix.drop_last() =~= digits.subrange(0, i - start));
        assert(prefix.last() == b);
        if b < 0x30 || b > 0x39 {
            proof {
                assert(spec_digits_value(prefix) is None);
                if spec_digits_value(digits) is Some {
                    lemma_digits_value_grows(digits, i + 1 - start);
                }
            }
            return None;
        }
        let low: u64 = (b - 0x30) as u64;
        if low > max || value > (max - low) / 10 {
            proof {
                assert(spec_digits_value(prefix) == Some(value * 10 + low));
                assert(value * 10 + low > max);
                if spec_digits_value(digits) is Some {
                    lemma_digits_value_grows(digits, i + 1 - start);
                }
            }
            return None;
        }
        value = value * 10 + low;
        i += 1;
    }
    assert(digits.subrange(0, i - start) =~= digits);
    Some(value)
}

/// The options of a codec.
pub trait Config: Copy {
    /// The configuration after `field` is set to the number that `value`
    /// holds, where that succeeds.
    spec fn spec_set(self, field: Seq<char>, value: Seq<u8>) -> Result<Self, ConfigError>;

    /// Sets the named field to the number that `value` holds in decimal.
    fn set(&mut self, field: &str, value: &str) -> (r: Result<(), ConfigError>)
        ensures
            match old(self).spec_set(field@, value.spec_bytes()) {
                Ok(c) => r is Ok && *final(self) == c,
                Err(e) => r == Err::<(), ConfigError>(e) && *final(self) == *old(self),
            },
    ;

    /// The fields with their values, in the order of the packed form.
    fn key_values(&self) -> (r: Vec<(&'static str, ConfigValue<'static>)>);
}

/// A compression algorithm with its compressor, its decompressor and its
/// options.
pub trait CodecImpl {
    type Compressor: Compressor;

    type Decompressor: Decompressor;

    type Config: Config;

    /// The options that a codec can be made from.
    spec fn valid_config(config: Self::Config) -> bool;

    /// What the stored options `data` hold.
    spec fn spec_read_config(data: Seq<u8>) -> Result<Self::Config, OptionsError>;

    /// The options that are used where an archive stores none.
    spec fn spec_default_config() -> Self::Config;

    /// The options that are used where an archive stores none.
    fn default_config() -> (config: Self::Config)
        ensures
            config == Self::spec_default_config(),
            Self::valid_config(config),
    ;

    /// Decodes and validates stored options.
    fn read_config(data: &[u8]) -> (r: Result<Self::Config, OptionsError>)
        ensures
            r == Self::spec_read_config(data@),
            r matches Ok(config) ==> Self::valid_config(config),
    ;

    fn compressor(config: Self::Config) -> Self::Compressor;

    fn decompressor(config: Self::Config) -> Self::Decompressor;
}

/// A compressor and a decompressor of one algorithm, made from the same
/// options.
pub struct Codec<C: CodecImpl> {
    config: C::Config,
    comp: C::Compressor,
    decomp: C::Decompressor,
}

impl<C: CodecImpl> Codec<C> {
    /// The options that the codec was made from.
    pub closed spec fn spec_config(self) -> C::Config {
        self.config
    }

    /// The codec with the default options.
    pub fn new() -> (r: Self)
        ensures
            r.spec_config() == C::spec_default_config(),
            C::valid_config(r.spec_config()),
    {
        Self::with_config(C::default_config())
    }

    /// The codec with the stored options `data`.
    pub fn configured(data: &[u8]) -> (r: Result<Self, OptionsError>)
        ensures
            match C::spec_read_config(data@) {
                Ok(config) => r is Ok && r.unwrap().spec_config() == config,
                Err(e) => r matches Err(f) && f == e,
            },
    {
        match C::read_config(data) {
            Ok(config) => Ok(Self::with_config(config)),
            Err(e) => Err(e),
        }
    }

    pub fn with_config(config: C::Config) -> (r: Self)
        ensures
            r.spec_config() == config,
    {
        Codec { config, comp: C::compressor(config), decomp: C::decompressor(config) }
    }

    pub fn config(&self) -> (r: C::Config)
        ensures
            r == self.spec_config(),
    {
        self.config
    }
}

impl<C: CodecImpl> Compressor for Codec<C> {
    /// The forms of the compressor of the algorithm.
    open spec fn spec_packs(src: Seq<u8>, out: Seq<u8>) -> bool {
        C::Compressor::spec_packs(src, out)
    }

    fn compress(&mut self, src: &[u8], dst: &mut [u8]) -> (r: Result<usize, CodecError>)
        ensures
            final(self).spec_config() == old(self).spec_config(),
    {
        self.comp.compress(src, dst)
    }
}

impl<C: CodecImpl> Decompressor for Codec<C> {
    fn decompress(&mut self, src: &[u8], dst: &mut [u8]) -> (r: Result<usize, CodecError>)
        ensures
            final(self).spec_config() == old(self).spec_config(),
    {
        self.decomp.decompress(src, dst)
    }
}

impl<C: CodecImpl> Clone for Codec<C> {
    /// A fresh codec with the same options.
    fn clone(&self) -> (r: Self)
        ensures
            r.spec_config() == self.spec_config(),
    {
        Self::with_config(self.config())
    }
}

/// The options of a codec that is built in.
#[derive(Debug, Copy, Clone, PartialEq, Eq, Structural)]
pub enum CodecConfig {
    Gzip(options::Gzip),
    Zstd(options::Zstd),
}

/// A codec of any algorithm that is built in.
pub enum AnyCodec {
    Gzip(Codec<gzip::Gzip>),
    Zstd(Codec<zstd::Zstd>),
}

impl AnyCodec {
    pub open spec fn spec_kind(self) -> Kind {
        match self {
            AnyCodec::Gzip(_) => Kind::ZLib,
            AnyCodec::Zstd(_) => Kind::Zstd,
        }
    }

    pub open spec fn spec_config(self) -> CodecConfig {
        match self {
            AnyCodec::Gzip(codec) => CodecConfig::Gzip(codec.spec_config()),
            AnyCodec::Zstd(codec) => CodecConfig::Zstd(codec.spec_config()),
        }
    }

    /// What `configured` returns for an algorithm and stored options.
    pub open spec fn spec_read_config(kind: Kind, data: Seq<u8>) -> Result<
        CodecConfig,
        OptionsError,
    > {
        if kind == Kind::ZLib {
            match gzip::Gzip::spec_read_config(data) {
                Ok(config) => Ok(CodecConfig::Gzip(config)),
                Err(e) => Err(e),
            }
        } else {
            match zstd::Zstd::spec_read_config(data) {
                Ok(config) => Ok(CodecConfig::Zstd(config)),
                Err(e) => Err(e),
            }
        }
    }

    /// The default options of the codec of `kind`.
    pub open spec fn spec_default_config(kind: Kind) -> CodecConfig {
        if kind == Kind::ZLib {
            CodecConfig::Gzip(gzip::Gzip::spec_default_config())
        } else {
            CodecConfig::Zstd(zstd::Zstd::spec_default_config())
        }
    }

    /// The codec of `kind` with its default options.
    pub fn new(kind: Kind) -> (r: AnyCodec)
        requires
            kind.spec_supported(),
        ensures
            r.spec_kind() == kind,
            r.spec_config() == AnyCodec::spec_default_config(kind),
    {
        match kind {
            Kind::ZLib => AnyCodec::Gzip(Codec::new()),
            _ => AnyCodec::Zstd(Codec::new()),
        }
    }

    /// The codec of `kind` with the stored options `data`.
    pub fn configured(kind: Kind, data: &[u8]) -> (r: Result<AnyCodec, OptionsError>)
        requires
            kind.spec_supported(),
        ensures
            match AnyCodec::spec_read_config(kind, data@) {
                Ok(config) => r is Ok && r.unwrap().spec_kind() == kind && r.unwrap().spec_config()
                    == config,
                Err(e) => r matches Err(f) && f == e,
            },
    {
        match kind {
            Kind::ZLib => match Codec::configured(data) {
                Ok(codec) => Ok(AnyCodec::Gzip(codec)),
                Err(e) => Err(e),
            },
            _ => match Codec::configured(data) {
                Ok(codec) => Ok(AnyCodec::Zstd(codec)),
                Err(e) => Err(e),
            },
        }
    }

    /// The options that the codec was made from.
    pub fn config(&self) -> (r: CodecConfig)
        ensures
            r == self.spec_config(),
    {
        match self {
            AnyCodec::Gzip(codec) => CodecConfig::Gzip(codec.config()),
            AnyCodec::Zstd(codec) => CodecConfig::Zstd(codec.config()),
        }
    }

    pub fn compress(&mut self, src: &[u8], dst: &mut [u8]) -> (r: Result<usize, CodecError>)
        ensures
            final(dst)@.len() == old(dst)@.len(),
            r matches Ok(n) ==> n <= old(dst)@.len(),
            r matches Err(e) ==> e == CodecError::ShortOutput,
            final(self).spec_kind() == old(self).spec_kind(),
            final(self).spec_config() == old(self).spec_config(),
    {
        match self {
            AnyCodec::Gzip(codec) => codec.compress(src, dst),
            AnyCodec::Zstd(codec) => codec.compress(src, dst),
        }
    }

    pub fn decompress(&mut self, src: &[u8], dst: &mut [u8]) -> (r: Result<usize, CodecError>)
        ensures
            final(dst)@.len() == old(dst)@.len(),
            r matches Ok(n) ==> n <= old(dst)@.len(),
            r matches Err(e) ==> e == CodecError::CorruptInput,
            final(self).spec_kind() == old(self).spec_kind(),
            final(self).spec_config() == old(self).spec_config(),
    {
        match self {
            AnyCodec::Gzip(codec) => codec.decompress(src, dst),
            AnyCodec::Zstd(codec) => codec.decompress(src, dst),
        }
    }

    pub fn kind(&self) -> (r: Kind)
        ensures
            r == self.spec_kind(),
    {
        match self {
            AnyCodec::Gzip(_) => Kind::ZLib,
            AnyCodec::Zstd(_) => Kind::Zstd,
        }
    }
}

impl Clone for AnyCodec {
    /// A fresh codec of the same algorithm with the same options.
    fn clone(&self) -> (r: Self)
        ensures
            r.spec_kind() == self.spec_kind(),
            r.spec_config() == self.spec_config(),
    {
        match self {
            AnyCodec::Gzip(codec) => AnyCodec::Gzip(codec.clone()),
            AnyCodec::Zstd(codec) => AnyCodec::Zstd(codec.clone()),
        }
    }
}

impl Compressor for AnyCodec {
    /// The forms of any of the algorithms.
    open spec fn spec_packs(src: Seq<u8>, out: Seq<u8>) -> bool {
        Codec::<gzip::Gzip>::spec_packs(src, out) || Codec::<zstd::Zstd>::spec_packs(src, out)
    }

    fn compress(&mut self, src: &[u8], dst: &mut [u8]) -> (r: Result<usize, CodecError>) {
        AnyCodec::compress(self, src, dst)
    }
}

impl Decompressor for AnyCodec {
    fn decompress(&mut self, src: &[u8], dst: &mut [u8]) -> (r: Result<usize, CodecError>) {
        AnyCodec::decompress(self, src, dst)
    }
}

} // verus!
