use kafko::compression::{parse_codec_name, CodecSet, DECOMPRESS_MAX_SIZE, ZSTD_LEVEL};
use kafko::{Compression, KafkoError};

const NO_CODECS: CodecSet = CodecSet { lz4: false, zstd: false };

#[test]
fn lz4_decompress_rejects_oversized_size_prefix() {
    // The prefix claims close to 4 GiB.
    let payload = [0x55u8, 0xFF, 0xFF, 0xFF, 0x00];
    match Compression::Lz4.decompress(&payload) {
        Err(KafkoError::DecompressionFailed) => {}
        other => panic!("expected DecompressionFailed, got {:?}", other),
    }
}

#[test]
fn lz4_decompress_rejects_payload_shorter_than_size_prefix() {
    for len in 0..4 {
        let buf = vec![0u8; len];
        match Compression::Lz4.decompress(&buf) {
            Err(KafkoError::DecompressionFailed) => {}
            other => panic!("len={len}: expected DecompressionFailed, got {:?}", other),
        }
    }
}

#[test]
fn lz4_decompress_accepts_normally_sized_payload() {
    let raw = vec![0xABu8; 4096];
    let mut compressed = Vec::new();
    Compression::Lz4.compress(&raw, &mut compressed).unwrap();
    let decompressed = Compression::Lz4.decompress(&compressed).unwrap();
    assert_eq!(decompressed, raw);
}

#[test]
fn zstd_decompress_rejects_oversized_claim() {
    let raw = vec![0u8; DECOMPRESS_MAX_SIZE + 1];
    let mut c = zstd::bulk::Compressor::new(ZSTD_LEVEL).unwrap();
    let frame = c.compress(&raw).unwrap();
    match Compression::Zstd.decompress(&frame) {
        Err(KafkoError::DecompressionFailed) => {}
        other => panic!("expected DecompressionFailed, got {:?}", other),
    }
}

#[test]
fn lz4_calls_return_unavailable_when_feature_off() {
    let mut out = Vec::new();
    match Compression::Lz4.compress_in(NO_CODECS, b"hello", &mut out) {
        Err(KafkoError::CompressionUnavailable(Compression::Lz4)) => {}
        other => panic!("expected CompressionUnavailable(Lz4), got {:?}", other),
    }
    match Compression::Lz4.decompress_in(NO_CODECS, b"\x00\x00\x00\x00") {
        Err(KafkoError::CompressionUnavailable(Compression::Lz4)) => {}
        other => panic!("expected CompressionUnavailable(Lz4), got {:?}", other),
    }
}

#[test]
fn zstd_calls_return_unavailable_when_feature_off() {
    let mut out = Vec::new();
    match Compression::Zstd.compress_in(NO_CODECS, b"hello", &mut out) {
        Err(KafkoError::CompressionUnavailable(Compression::Zstd)) => {}
        other => panic!("expected CompressionUnavailable(Zstd), got {:?}", other),
    }
    match Compression::Zstd.decompress_in(NO_CODECS, b"\x00\x00\x00\x00") {
        Err(KafkoError::CompressionUnavailable(Compression::Zstd)) => {}
        other => panic!("expected CompressionUnavailable(Zstd), got {:?}", other),
    }
}

#[test]
fn is_available_reports_truth_about_this_build() {
    assert!(Compression::Uncompressed.is_available());
    assert_eq!(Compression::Lz4.is_available(), kafko::compression::LZ4_ENABLED);
    assert_eq!(Compression::Zstd.is_available(), kafko::compression::ZSTD_ENABLED);
    assert!(Compression::Uncompressed.is_available_in(NO_CODECS));
    assert!(!Compression::Lz4.is_available_in(NO_CODECS));
    assert!(!Compression::Zstd.is_available_in(NO_CODECS));
}

#[test]
fn a_disabled_codec_leaves_the_output_empty() {
    let mut out = vec![1, 2, 3];
    assert!(Compression::Lz4.compress_in(NO_CODECS, b"hello", &mut out).is_err());
    assert!(out.is_empty());
}

#[test]
fn uncompressed_values_are_copied_verbatim() {
    let mut out = vec![9u8; 100];
    Compression::Uncompressed.compress(b"hello", &mut out).unwrap();
    assert_eq!(out, b"hello");
    assert_eq!(Compression::Uncompressed.decompress(b"hello").unwrap(), b"hello");
}

#[test]
fn lz4_output_starts_with_the_size_little_endian() {
    let raw = vec![7u8; 0x0102];
    let mut out = Vec::new();
    Compression::Lz4.compress(&raw, &mut out).unwrap();
    assert_eq!(&out[..4], &[0x02, 0x01, 0x00, 0x00]);
    assert!(out.len() < raw.len());
    // What stands behind the size is a plain block.
    assert_eq!(lz4_flex::block::decompress(&out[4..], raw.len()).unwrap(), raw);
}

#[test]
fn empty_values_survive_every_codec() {
    for codec in [Compression::Uncompressed, Compression::Lz4, Compression::Zstd] {
        let mut out = Vec::new();
        codec.compress(b"", &mut out).unwrap();
        assert_eq!(codec.decompress(&out).unwrap(), b"");
    }
}

#[test]
fn incompressible_values_survive_every_codec() {
    let mut state = 0x2545_F491_4F6C_DD1Du64;
    let raw: Vec<u8> = (0..70_000)
        .map(|_| {
            state ^= state << 13;
            state ^= state >> 7;
            state ^= state << 17;
            state as u8
        })
        .collect();
    for codec in [Compression::Uncompressed, Compression::Lz4, Compression::Zstd] {
        let mut out = Vec::new();
        codec.compress(&raw, &mut out).unwrap();
        assert!(out.len() <= 2 * raw.len() + 64);
        assert_eq!(codec.decompress(&out).unwrap(), raw);
    }
}

#[test]
fn a_value_at_the_limit_decompresses_and_one_above_does_not() {
    for codec in [Compression::Lz4, Compression::Zstd] {
        let mut out = Vec::new();
        codec.compress(&vec![0u8; DECOMPRESS_MAX_SIZE], &mut out).unwrap();
        assert_eq!(codec.decompress(&out).unwrap().len(), DECOMPRESS_MAX_SIZE);
        codec.compress(&vec![0u8; DECOMPRESS_MAX_SIZE + 1], &mut out).unwrap();
        assert!(matches!(
            codec.decompress(&out),
            Err(KafkoError::DecompressionFailed)
        ));
    }
}

#[test]
fn garbage_does_not_decompress() {
    assert!(matches!(
        Compression::Lz4.decompress(&[4, 0, 0, 0, 0xF0]),
        Err(KafkoError::DecompressionFailed)
    ));
    assert!(matches!(
        Compression::Zstd.decompress(b"not a frame"),
        Err(KafkoError::DecompressionFailed)
    ));
}

#[test]
fn flags_name_the_codecs() {
    assert_eq!(Compression::Uncompressed.flag(), 0);
    assert_eq!(Compression::Lz4.flag(), 1);
    assert_eq!(Compression::Zstd.flag(), 2);
    for codec in [Compression::Uncompressed, Compression::Lz4, Compression::Zstd] {
        assert_eq!(Compression::from_flag(codec.flag()).unwrap(), codec);
    }
    assert!(matches!(
        Compression::from_flag(3),
        Err(KafkoError::UnknownCompression(3))
    ));
}

#[test]
fn the_default_codec_stores_values_as_they_are() {
    assert_eq!(Compression::default(), Compression::Uncompressed);
}

#[test]
fn codec_names_are_parsed() {
    assert_eq!(parse_codec_name("none"), Ok(Compression::Uncompressed));
    assert_eq!(parse_codec_name("lz4"), Ok(Compression::Lz4));
    assert_eq!(parse_codec_name("zstd"), Ok(Compression::Zstd));
    assert_eq!(
        parse_codec_name("gzip"),
        Err("unknown codec: 'gzip'. Expected 'none', 'lz4', or 'zstd'".to_string())
    );
    assert!(parse_codec_name("LZ4").is_err());
}
