use sqfs::compression::gzip;
use sqfs::compression::parse_number;
use sqfs::compression::zstd;
use sqfs::compression::AnyCodec;
use sqfs::compression::CodecConfig;
use sqfs::compression::CodecImpl;
use sqfs::compression::Config;
use sqfs::compression::ConfigError;
use sqfs::compression::ConfigValue;
use sqfs::compression::Kind;
use sqfs::errors::OptionsError;
use sqfs::packed::PackedStruct;
use sqfs::repr::compression::options;
use sqfs::repr::compression::Id;

#[test]
fn kinds_by_id_and_name() {
    let all = [
        (Kind::ZLib, 1u16, "gzip"),
        (Kind::Lzma, 2, "lzma"),
        (Kind::Lzo, 3, "lzo"),
        (Kind::Xz, 4, "xz"),
        (Kind::Lz4, 5, "lz4"),
        (Kind::Zstd, 6, "zstd"),
    ];
    for (kind, id, name) in all {
        assert_eq!(kind.id(), id);
        assert_eq!(kind.name(), name);
        assert_eq!(Kind::from_id(Id(id)), kind);
        assert_eq!(Kind::from_name(name), kind);
    }
    assert_eq!(Kind::from_id(Id(0)), Kind::Unknown);
    assert_eq!(Kind::from_id(Id(7)), Kind::Unknown);
    assert_eq!(Kind::from_name("bzip2"), Kind::Unknown);
    assert_eq!(Kind::from_name(""), Kind::Unknown);
    assert_eq!(Kind::Unknown.id(), 0);
    assert_eq!(Kind::Unknown.name(), "unknown");
    assert_eq!(Kind::default(), Kind::ZLib);
    assert!(Kind::ZLib.supported());
    assert!(Kind::Zstd.supported());
    assert!(!Kind::Lzma.supported());
    assert!(!Kind::Lzo.supported());
    assert!(!Kind::Xz.supported());
    assert!(!Kind::Lz4.supported());
    assert!(!Kind::Unknown.supported());
}

#[test]
fn gzip_options_are_checked() {
    let good = options::Gzip { compression_level: 1, window_size: 9, strategies: Default::default() };
    assert_eq!(gzip::Gzip::read_config(&good.to_packed()), Ok(good));
    let best = options::Gzip::default();
    assert_eq!(best.compression_level, 9);
    assert_eq!(best.window_size, 15);
    assert_eq!(gzip::Gzip::read_config(&best.to_packed()), Ok(best));

    for level in [0u32, 10, u32::MAX] {
        let bad = options::Gzip { compression_level: level, ..good };
        assert_eq!(
            gzip::Gzip::read_config(&bad.to_packed()),
            Err(OptionsError::InvalidCompressionLevel(level))
        );
    }
    for window in [0u16, 8, 16] {
        let bad = options::Gzip { window_size: window, ..good };
        assert_eq!(
            gzip::Gzip::read_config(&bad.to_packed()),
            Err(OptionsError::InvalidWindowSize(window))
        );
    }
    assert_eq!(gzip::Gzip::read_config(&[1, 0, 0]), Err(OptionsError::UnexpectedEof));
}

#[test]
fn zstd_options_are_checked() {
    assert_eq!(options::Zstd::default().compression_level, 15);
    for level in [1u32, 15, 22] {
        let good = options::Zstd { compression_level: level };
        assert_eq!(zstd::Zstd::read_config(&good.to_packed()), Ok(good));
    }
    for level in [0u32, 23] {
        let bad = options::Zstd { compression_level: level };
        assert_eq!(
            zstd::Zstd::read_config(&bad.to_packed()),
            Err(OptionsError::InvalidCompressionLevel(level))
        );
    }
    assert_eq!(zstd::Zstd::read_config(&[]), Err(OptionsError::UnexpectedEof));
}

#[test]
fn any_codec_of_each_kind() {
    let codec = AnyCodec::new(Kind::ZLib);
    assert_eq!(codec.kind(), Kind::ZLib);
    assert_eq!(codec.config(), CodecConfig::Gzip(options::Gzip::default()));
    let codec = AnyCodec::new(Kind::Zstd);
    assert_eq!(codec.kind(), Kind::Zstd);
    assert_eq!(codec.config(), CodecConfig::Zstd(options::Zstd::default()));

    let stored = options::Zstd { compression_level: 3 };
    let codec = AnyCodec::configured(Kind::Zstd, &stored.to_packed()).ok().unwrap();
    assert_eq!(codec.config(), CodecConfig::Zstd(stored));
    let bad = options::Zstd { compression_level: 99 };
    assert_eq!(
        AnyCodec::configured(Kind::Zstd, &bad.to_packed()).err(),
        Some(OptionsError::InvalidCompressionLevel(99))
    );
    let stored = options::Gzip { compression_level: 4, window_size: 12, strategies: Default::default() };
    let codec = AnyCodec::configured(Kind::ZLib, &stored.to_packed()).ok().unwrap();
    assert_eq!(codec.config(), CodecConfig::Gzip(stored));
    assert_eq!(codec.clone().kind(), Kind::ZLib);
}

#[test]
fn any_codec_round_trip() {
    for kind in [Kind::ZLib, Kind::Zstd] {
        let mut codec = AnyCodec::new(kind);
        let src: Vec<u8> = (0..4000u32).map(|i| (i % 7) as u8).collect();
        let mut packed = vec![0u8; src.len() - 1];
        let n = codec.compress(&src, &mut packed).unwrap();
        assert!(n < src.len());
        // a second block goes through the same codec
        let src2 = vec![5u8; 1000];
        let mut packed2 = vec![0u8; 999];
        let n2 = codec.compress(&src2, &mut packed2).unwrap();
        let mut clear = vec![0u8; src.len()];
        assert_eq!(codec.decompress(&packed[..n], &mut clear), Ok(src.len()));
        assert_eq!(clear, src);
        let mut clear2 = vec![0u8; 1000];
        assert_eq!(codec.decompress(&packed2[..n2], &mut clear2), Ok(1000));
        assert_eq!(clear2, src2);
        assert!(codec.decompress(&[1, 2, 3], &mut clear2).is_err());
    }
}

#[test]
fn numbers_are_parsed() {
    assert_eq!(parse_number(b"0", 9), Some(0));
    assert_eq!(parse_number(b"9", 9), Some(9));
    assert_eq!(parse_number(b"10", 9), None);
    assert_eq!(parse_number(b"+15", 100), Some(15));
    assert_eq!(parse_number(b"007", 100), Some(7));
    assert_eq!(parse_number(b"4294967295", u32::MAX as u64), Some(4294967295));
    assert_eq!(parse_number(b"4294967296", u32::MAX as u64), None);
    assert_eq!(parse_number(b"99999999999999999999999", u64::MAX), None);
    assert_eq!(parse_number(b"", 9), None);
    assert_eq!(parse_number(b"+", 9), None);
    assert_eq!(parse_number(b"-1", 9), None);
    assert_eq!(parse_number(b"1a", 9), None);
    assert_eq!(parse_number(b" 1", 9), None);
}

#[test]
fn config_fields_are_set() {
    let mut gzip = options::Gzip::default();
    assert_eq!(gzip.set("compression_level", "3"), Ok(()));
    assert_eq!(gzip.set("window_size", "10"), Ok(()));
    assert_eq!(gzip.compression_level, 3);
    assert_eq!(gzip.window_size, 10);
    assert_eq!(gzip.set("window_size", "70000"), Err(ConfigError::InvalidValue));
    assert_eq!(gzip.set("compression_level", "x"), Err(ConfigError::InvalidValue));
    assert_eq!(gzip.set("strategy", "1"), Err(ConfigError::UnknownField));
    assert_eq!(gzip.window_size, 10);
    let values = gzip.key_values();
    assert_eq!(values.len(), 3);
    assert_eq!(values[0], ("compression_level", ConfigValue::Int(3)));
    assert_eq!(values[1], ("window_size", ConfigValue::Int(10)));
    assert_eq!(values[2], ("strategies", ConfigValue::String("DEFAULT".to_string())));

    let mut zstd = options::Zstd::default();
    assert_eq!(zstd.set("compression_level", "22"), Ok(()));
    assert_eq!(zstd.compression_level, 22);
    assert_eq!(zstd.set("window_size", "10"), Err(ConfigError::UnknownField));
    assert_eq!(zstd.key_values(), vec![("compression_level", ConfigValue::Int(22))]);
}

#[test]
fn strategies_are_shown_by_name() {
    let text = |bits: u16| options::GzipStrategies { bits }.to_text();
    assert_eq!(text(0), "(empty)");
    assert_eq!(text(1), "DEFAULT");
    assert_eq!(text(2), "FILTERED");
    assert_eq!(text(0x10), "FIXED");
    assert_eq!(text(0x0C), "HUFFMAN_ONLY | RUN_LENGTH_ENCODED");
    assert_eq!(
        text(0x1F),
        "DEFAULT | FILTERED | HUFFMAN_ONLY | RUN_LENGTH_ENCODED | FIXED"
    );
    // bits without a name are not shown
    assert_eq!(text(0x20), "(empty)");
}

#[test]
fn a_new_codec_has_the_default_options() {
    assert_eq!(
        AnyCodec::new(Kind::ZLib).config(),
        CodecConfig::Gzip(options::Gzip::default())
    );
    assert_eq!(
        AnyCodec::new(Kind::Zstd).config(),
        CodecConfig::Zstd(options::Zstd::default())
    );
    assert_eq!(options::Gzip::default().compression_level, 9);
    assert_eq!(options::Gzip::default().window_size, 15);
    assert_eq!(options::Zstd::default().compression_level, 15);
}
