use bytes::{Bytes, BytesMut};
use kafko::compression::CodecSet;
use kafko::{Compression, KafkoError, Record};

fn sample() -> Record {
    Record::new(
        1_700_000_000_000,
        Some(Bytes::from_static(b"key")),
        Bytes::from_static(b"value"),
    )
}

#[test]
fn getters_return_constructor_inputs() {
    let r = sample();
    assert_eq!(r.timestamp_ms(), 1_700_000_000_000);
    assert_eq!(r.key(), Some(&Bytes::from_static(b"key")));
    assert_eq!(r.value(), &Bytes::from_static(b"value"));
}

#[test]
fn roundtrip_with_key() {
    let r = sample();
    let expected = r.clone();
    let expected_size = r.wire_size();

    let mut buf = BytesMut::new();
    let written = r.encode(&mut buf);
    assert_eq!(buf.len(), expected_size);
    assert_eq!(written, expected_size);

    let mut slice: &[u8] = &buf;
    let decoded = Record::decode(&mut slice).unwrap();
    assert_eq!(decoded, expected);
    assert!(slice.is_empty());
}

#[test]
fn roundtrip_null_key() {
    let r = Record::new(0, None, Bytes::from_static(b"v"));
    let expected = r.clone();
    let mut buf = BytesMut::new();
    r.encode(&mut buf);
    let mut slice: &[u8] = &buf;
    let decoded = Record::decode(&mut slice).unwrap();
    assert_eq!(decoded, expected);
}

#[test]
fn empty_key_is_distinct_from_null_key() {
    let with_empty = Record::new(0, Some(Bytes::new()), Bytes::from_static(b"v"));
    let with_null = Record::new(0, None, Bytes::from_static(b"v"));

    let mut buf_a = BytesMut::new();
    let mut buf_b = BytesMut::new();
    with_empty.clone().encode(&mut buf_a);
    with_null.clone().encode(&mut buf_b);
    assert_ne!(buf_a, buf_b);

    let mut slice_a: &[u8] = &buf_a;
    let mut slice_b: &[u8] = &buf_b;
    assert_eq!(Record::decode(&mut slice_a).unwrap(), with_empty);
    assert_eq!(Record::decode(&mut slice_b).unwrap(), with_null);
}

#[test]
fn crc_tampering_detected() {
    let r = sample();
    let mut buf = BytesMut::new();
    r.encode(&mut buf);
    // flip a byte after [len][crc] in the payload
    buf[12] ^= 0xFF;
    let mut slice: &[u8] = &buf;
    match Record::decode(&mut slice) {
        Err(KafkoError::CrcMismatch { .. }) => {}
        other => panic!("expected CrcMismatch, got {:?}", other),
    }
}

#[test]
fn truncated_input_detected() {
    let r = sample();
    let mut buf = BytesMut::new();
    r.encode(&mut buf);
    let truncated = &buf[..buf.len() - 1];
    let mut slice: &[u8] = truncated;
    match Record::decode(&mut slice) {
        Err(KafkoError::Truncated { .. }) => {}
        other => panic!("expected Truncated, got {:?}", other),
    }
}

#[test]
fn empty_input_truncated() {
    let mut slice: &[u8] = &[];
    match Record::decode(&mut slice) {
        Err(KafkoError::Truncated { .. }) => {}
        other => panic!("expected Truncated, got {:?}", other),
    }
}

#[test]
fn encode_consumes_self() {
    // sample() = key 3 bytes + value 5 bytes, behind 25 bytes of overhead.
    let r = sample();
    let mut buf = BytesMut::new();
    r.encode(&mut buf);
    assert_eq!(buf.len(), 25 + 3 + 5);
}

#[test]
fn lz4_compression_roundtrip() {
    let payload = Bytes::from(vec![0xABu8; 1024]);
    let r = Record::new(
        1_700_000_000_000,
        Some(Bytes::from_static(b"k")),
        payload.clone(),
    );

    let mut buf = BytesMut::new();
    let actual_size = r.encode_with(&mut buf, Compression::Lz4).unwrap();
    assert!(
        actual_size < 1024,
        "expected compressed output to be smaller than 1024 bytes, got {}",
        actual_size
    );

    let mut slice: &[u8] = &buf;
    let decoded = Record::decode(&mut slice).unwrap();
    assert_eq!(decoded.value(), &payload);
    assert!(slice.is_empty());
}

#[test]
fn zstd_compression_roundtrip() {
    let payload = Bytes::from(vec![0xABu8; 1024]);
    let r = Record::new(
        1_700_000_000_000,
        Some(Bytes::from_static(b"k")),
        payload.clone(),
    );

    let mut buf = BytesMut::new();
    let actual_size = r.encode_with(&mut buf, Compression::Zstd).unwrap();
    assert!(
        actual_size < 1024,
        "expected zstd-compressed output to be smaller than 1024 bytes, got {}",
        actual_size
    );

    let mut slice: &[u8] = &buf;
    let decoded = Record::decode(&mut slice).unwrap();
    assert_eq!(decoded.value(), &payload);
    assert!(slice.is_empty());
}

#[test]
fn lz4_record_decodes_without_caller_knowing_compression() {
    let payload = Bytes::from(vec![0xFFu8; 2048]);
    let r = Record::new(42, None, payload.clone());

    let mut buf = BytesMut::new();
    r.encode_with(&mut buf, Compression::Lz4).unwrap();

    let mut slice: &[u8] = &buf;
    let decoded = Record::decode(&mut slice).unwrap();
    assert_eq!(decoded.value(), &payload);
}

/// A record whose checksum is right, with these bytes for its value.
fn framed(flag: u8, key_len: u32, value: &[u8]) -> Vec<u8> {
    let total_len = 4 + 1 + 8 + 4 + 4 + value.len();
    let mut wire = Vec::with_capacity(4 + total_len);
    wire.extend_from_slice(&(total_len as u32).to_be_bytes());
    wire.extend_from_slice(&[0u8; 4]);
    wire.push(flag);
    wire.extend_from_slice(&0i64.to_be_bytes());
    wire.extend_from_slice(&key_len.to_be_bytes());
    wire.extend_from_slice(&(value.len() as u32).to_be_bytes());
    wire.extend_from_slice(value);
    let crc = crc32fast::hash(&wire[8..]);
    wire[4..8].copy_from_slice(&crc.to_be_bytes());
    wire
}

#[test]
fn decode_rejects_lz4_record_with_oversized_decompressed_size_claim() {
    let hostile_lz4_payload: [u8; 5] = [0x55, 0xFF, 0xFF, 0xFF, 0x00];
    let wire = framed(Compression::Lz4.flag(), u32::MAX, &hostile_lz4_payload);
    let mut slice: &[u8] = &wire;
    match Record::decode(&mut slice) {
        Err(KafkoError::DecompressionFailed) => {}
        other => panic!("expected DecompressionFailed, got {:?}", other),
    }
}

#[test]
fn the_format_is_byte_for_byte_as_documented() {
    let r = Record::new(-2, Some(Bytes::from_static(b"ab")), Bytes::from_static(b"xyz"));
    let mut buf = BytesMut::new();
    buf.extend_from_slice(b"front");
    assert_eq!(r.encode(&mut buf), 30);

    let mut payload = vec![0u8];
    payload.extend_from_slice(&(-2i64).to_be_bytes());
    payload.extend_from_slice(&[0, 0, 0, 2, b'a', b'b', 0, 0, 0, 3, b'x', b'y', b'z']);
    let mut expected = b"front".to_vec();
    expected.extend_from_slice(&[0, 0, 0, 26]);
    expected.extend_from_slice(&crc32fast::hash(&payload).to_be_bytes());
    expected.extend_from_slice(&payload);
    assert_eq!(&buf[..], &expected[..]);
}

#[test]
fn a_null_key_is_all_ones() {
    let mut buf = BytesMut::new();
    Record::new(i64::MIN, None, Bytes::new()).encode(&mut buf);
    assert_eq!(buf.len(), 25);
    assert_eq!(&buf[17..21], &[0xFF, 0xFF, 0xFF, 0xFF]);
    let mut slice: &[u8] = &buf;
    assert_eq!(Record::decode(&mut slice).unwrap().timestamp_ms(), i64::MIN);
}

#[test]
fn decode_leaves_what_follows() {
    let mut buf = BytesMut::new();
    sample().encode(&mut buf);
    sample().encode_with(&mut buf, Compression::Zstd).unwrap();
    buf.extend_from_slice(b"rest");
    let mut slice: &[u8] = &buf;
    assert_eq!(Record::decode(&mut slice).unwrap(), sample());
    assert_eq!(Record::decode(&mut slice).unwrap(), sample());
    assert_eq!(slice, b"rest");
}

#[test]
fn every_cut_of_a_record_is_truncated() {
    let mut buf = BytesMut::new();
    sample().encode(&mut buf);
    for kept in 0..buf.len() {
        let mut slice: &[u8] = &buf[..kept];
        let expected = if kept < 4 { 4 - kept } else { buf.len() - kept };
        match Record::decode(&mut slice) {
            Err(KafkoError::Truncated { needed }) => assert_eq!(needed, expected),
            other => panic!("kept={kept}: expected Truncated, got {:?}", other),
        }
    }
}

#[test]
fn a_length_below_the_minimum_is_invalid() {
    let wire = [0, 0, 0, 20, 1, 2, 3];
    let mut slice: &[u8] = &wire;
    assert!(matches!(
        Record::decode(&mut slice),
        Err(KafkoError::InvalidLength(20))
    ));
    assert_eq!(slice.len(), 3);
}

#[test]
fn a_key_longer_than_the_input_is_invalid() {
    let wire = framed(0, 1000, b"");
    let mut slice: &[u8] = &wire;
    assert!(matches!(
        Record::decode(&mut slice),
        Err(KafkoError::InvalidLength(21))
    ));
}

#[test]
fn a_key_that_leaves_no_room_for_the_value_is_invalid() {
    let wire = framed(0, 4, b"");
    let mut slice: &[u8] = &wire;
    assert!(matches!(
        Record::decode(&mut slice),
        Err(KafkoError::InvalidLength(21))
    ));
    assert!(slice.is_empty());
}

#[test]
fn a_field_that_reaches_into_the_next_record_is_invalid() {
    let mut next = BytesMut::new();
    sample().encode(&mut next);

    let mut key_too_long = framed(0, 5, b"v");
    key_too_long.extend_from_slice(&next);
    let mut slice: &[u8] = &key_too_long;
    assert!(matches!(
        Record::decode(&mut slice),
        Err(KafkoError::InvalidLength(22))
    ));

    let mut value_too_long = framed(0, u32::MAX, b"v");
    value_too_long[24] = 2;
    let crc = crc32fast::hash(&value_too_long[8..]);
    value_too_long[4..8].copy_from_slice(&crc.to_be_bytes());
    value_too_long.extend_from_slice(&next);
    let mut slice: &[u8] = &value_too_long;
    assert!(matches!(
        Record::decode(&mut slice),
        Err(KafkoError::InvalidLength(22))
    ));
}

#[test]
fn the_size_of_a_record_is_that_of_its_encoded_form() {
    for key in [None, Some(Bytes::new()), Some(Bytes::from_static(b"key"))] {
        for len in [0usize, 1, 300] {
            let r = Record::new(5, key.clone(), Bytes::from(vec![3u8; len]));
            let size = r.wire_size();
            let mut buf = BytesMut::new();
            assert_eq!(r.encode(&mut buf), size);
            assert_eq!(buf.len(), size);
        }
    }
}

#[test]
fn an_unknown_flag_is_rejected() {
    let wire = framed(3, u32::MAX, b"v");
    let mut slice: &[u8] = &wire;
    assert!(matches!(
        Record::decode(&mut slice),
        Err(KafkoError::UnknownCompression(3))
    ));
}

#[test]
fn a_disabled_codec_is_reported_on_both_ways() {
    let none = CodecSet { lz4: false, zstd: false };
    let mut buf = BytesMut::new();
    assert!(matches!(
        sample().encode_with_in(none, &mut buf, Compression::Lz4),
        Err(KafkoError::CompressionUnavailable(Compression::Lz4))
    ));
    assert!(buf.is_empty());

    sample().encode_with(&mut buf, Compression::Zstd).unwrap();
    let mut slice: &[u8] = &buf;
    assert!(matches!(
        Record::decode_in(none, &mut slice),
        Err(KafkoError::CompressionUnavailable(Compression::Zstd))
    ));
}

/// Numbers without a pattern, the same on every run.
struct Numbers(u64);

impl Numbers {
    fn next(&mut self) -> u64 {
        self.0 = self.0.wrapping_mul(6364136223846793005).wrapping_add(1442695040888963407);
        self.0 >> 24
    }

    fn below(&mut self, limit: u64) -> u64 {
        self.next() % limit
    }

    fn bytes(&mut self, limit: u64) -> Vec<u8> {
        // Now and then a run of one byte, which codecs make short.
        let len = self.below(limit) as usize;
        if self.below(3) == 0 {
            vec![self.next() as u8; len]
        } else {
            (0..len).map(|_| self.next() as u8).collect()
        }
    }

    fn record(&mut self) -> Record {
        let timestamp_ms = (self.next() << 32 | self.next()) as i64;
        let key = if self.below(2) == 0 { None } else { Some(Bytes::from(self.bytes(1024))) };
        Record::new(timestamp_ms, key, Bytes::from(self.bytes(4096)))
    }
}

#[test]
fn record_roundtrips_any_input() {
    let mut numbers = Numbers(1);
    for _ in 0..256 {
        let record = numbers.record();
        let expected = record.clone();
        let expected_size = record.wire_size();

        let mut buf = BytesMut::new();
        record.encode(&mut buf);
        assert_eq!(buf.len(), expected_size);

        let mut slice: &[u8] = &buf;
        let decoded = Record::decode(&mut slice).expect("decode after encode must succeed");
        assert_eq!(decoded, expected);
        assert!(slice.is_empty());
    }
}

#[test]
fn record_roundtrips_under_any_compression() {
    let mut numbers = Numbers(2);
    for _ in 0..128 {
        for compression in [Compression::Uncompressed, Compression::Lz4, Compression::Zstd] {
            let record = numbers.record();
            let expected = record.clone();

            let mut buf = BytesMut::new();
            let on_wire = record.encode_with(&mut buf, compression).unwrap();
            assert_eq!(buf.len(), on_wire);

            let mut slice: &[u8] = &buf;
            let decoded = Record::decode(&mut slice).expect("decode after encode must succeed");
            assert_eq!(decoded, expected);
            assert!(slice.is_empty());
        }
    }
}

#[test]
fn sizes_that_can_be_counted_are() {
    let record = Record::new(0, Some(Bytes::from_static(b"key")), Bytes::from_static(b"value"));
    assert_eq!(record.checked_wire_size(), Some(33));
    assert_eq!(record.wire_size(), 33);
}
