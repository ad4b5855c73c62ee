use bytes::{Bytes, BytesMut};
use kafko::offset_store::{decode, encode, validate_group_name, OffsetStore};
use kafko::text::{
    discover_segment_offsets, index_file_name, parse_partition_name, parse_segment_name,
    segment_file_name,
};
use kafko::{KafkoError, Record, Segment, SparseIndex};

/// A file in memory, driven by the bookkeeping of a [`Segment`].
struct SegmentFile {
    segment: Segment,
    data: Vec<u8>,
    position: usize,
}

impl SegmentFile {
    fn create(base_offset: u64) -> Self {
        SegmentFile { segment: Segment::create(base_offset), data: Vec::new(), position: 0 }
    }

    fn open(base_offset: u64, data: Vec<u8>) -> Self {
        SegmentFile {
            segment: Segment::open(base_offset, data.len() as u64),
            data,
            position: 0,
        }
    }

    fn seek(&mut self, position: u64) {
        if self.segment.needs_seek(position) {
            self.position = position as usize;
            self.segment.seek_done(position);
        }
    }

    fn append(&mut self, bytes: &[u8]) -> u64 {
        self.seek(self.segment.size());
        self.data.truncate(self.position);
        self.data.extend_from_slice(bytes);
        self.position += bytes.len();
        self.segment.append(bytes.len())
    }

    fn read_at(&mut self, position: u64, into: &mut [u8]) -> usize {
        self.seek(position);
        let rest = self.data.get(self.position..).unwrap_or(&[]);
        let n = rest.len().min(into.len());
        into[..n].copy_from_slice(&rest[..n]);
        self.position += n;
        self.segment.read_at(position, n);
        n
    }
}

#[test]
fn segment_path_is_zero_padded_20_digits() {
    assert_eq!(segment_file_name(42), "00000000000000000042.log");
    assert_eq!(segment_file_name(0), "00000000000000000000.log");
    assert_eq!(segment_file_name(10_000_000), "00000000000010000000.log");
}

#[test]
fn index_path_is_zero_padded_20_digits() {
    assert_eq!(index_file_name(42), "00000000000000000042.index");
}

#[test]
fn the_largest_offset_fills_the_name() {
    assert_eq!(segment_file_name(u64::MAX), "18446744073709551615.log");
}

#[test]
fn segment_names_are_read_back() {
    for base in [0, 7, 42, 10_000_000, u64::MAX] {
        assert_eq!(parse_segment_name(&segment_file_name(base)), Some(base));
    }
    assert_eq!(parse_segment_name("7.log"), Some(7));
    assert_eq!(parse_segment_name("+7.log"), Some(7));
    assert_eq!(parse_segment_name("18446744073709551616.log"), None);
    for other in [
        "", ".log", "log", "x.log", "+.log", "-1.log", "1.index", "1.log.tmp", "1 .log", "é.log",
        "1.lo\u{67}é",
    ] {
        assert_eq!(parse_segment_name(other), None, "{other}");
    }
}

#[test]
fn segments_are_discovered_in_order_of_offset() {
    let names: Vec<String> = [
        "00000000000000000200.log",
        "00000000000000000200.index",
        "LOCK",
        "00000000000000000000.log",
        "notes.log",
        "00000000000000000031.log",
    ]
    .iter()
    .map(|s| s.to_string())
    .collect();
    assert_eq!(discover_segment_offsets(&names), vec![0, 31, 200]);
    assert!(discover_segment_offsets(&Vec::new()).is_empty());
}

#[test]
fn partition_names_are_numbers_of_32_bits() {
    assert_eq!(parse_partition_name("0"), Some(0));
    assert_eq!(parse_partition_name("007"), Some(7));
    assert_eq!(parse_partition_name("+3"), Some(3));
    assert_eq!(parse_partition_name("4294967295"), Some(u32::MAX));
    assert_eq!(parse_partition_name("4294967296"), None);
    assert_eq!(parse_partition_name("offsets"), None);
    assert_eq!(parse_partition_name(""), None);
}

#[test]
fn create_and_append_persists_bytes() {
    let mut seg = SegmentFile::create(0);
    let payload = b"hello world";
    let pos = seg.append(payload);
    assert_eq!(pos, 0);
    assert_eq!(seg.segment.size(), payload.len() as u64);

    let mut buf = vec![0u8; payload.len()];
    let n = seg.read_at(0, &mut buf[..]);
    assert_eq!(n, payload.len());
    assert_eq!(&buf[..], payload);
}

#[test]
fn multiple_appends_track_file_positions() {
    let mut seg = SegmentFile::create(0);
    let p1 = seg.append(b"aaaa");
    let p2 = seg.append(b"bbbb");
    let p3 = seg.append(b"cccc");
    assert_eq!(p1, 0);
    assert_eq!(p2, 4);
    assert_eq!(p3, 8);
    assert_eq!(seg.segment.size(), 12);

    let mut buf = [0u8; 4];
    seg.read_at(p1, &mut buf[..]);
    assert_eq!(&buf[..], b"aaaa");
    seg.read_at(p2, &mut buf[..]);
    assert_eq!(&buf[..], b"bbbb");
    seg.read_at(p3, &mut buf[..]);
    assert_eq!(&buf[..], b"cccc");
}

#[test]
fn open_existing_segment_loads_current_size() {
    let seg = Segment::open(100, 9);
    assert_eq!(seg.size(), 9);
    assert_eq!(seg.base_offset(), 100);
}

#[test]
fn reopen_and_append_extends_existing_data() {
    let mut seg = SegmentFile::open(0, b"first".to_vec());
    let pos = seg.append(b"second");
    assert_eq!(pos, 5);
    assert_eq!(seg.segment.size(), 11);

    let mut buf = [0u8; 11];
    seg.read_at(0, &mut buf[..]);
    assert_eq!(&buf[..], b"firstsecond");
}

#[test]
fn would_overflow_reflects_size_and_threshold() {
    let mut seg = SegmentFile::create(0);
    assert!(!seg.segment.would_overflow(100, 1000));

    seg.append(&vec![0u8; 500]);
    assert!(!seg.segment.would_overflow(400, 1000));
    assert!(!seg.segment.would_overflow(500, 1000));
    assert!(seg.segment.would_overflow(501, 1000));
}

#[test]
fn an_empty_segment_takes_a_record_of_any_size() {
    let seg = Segment::create(0);
    assert!(!seg.would_overflow(5000, 1000));
    let seg = Segment::open(0, u64::MAX);
    assert!(seg.would_overflow(usize::MAX, u64::MAX));
    assert!(!seg.would_overflow(0, u64::MAX));
}

#[test]
fn appends_and_reads_record_bytes() {
    let mut seg = SegmentFile::create(0);
    let record = Record::new(
        1_700_000_000_000,
        Some(Bytes::from_static(b"order-42")),
        Bytes::from_static(b"{\"qty\":10}"),
    );
    let expected = record.clone();
    let wire_size = record.wire_size();

    let mut encoded = BytesMut::with_capacity(wire_size);
    record.encode(&mut encoded);
    let file_pos = seg.append(&encoded);

    let mut read_buf = vec![0u8; wire_size];
    let n = seg.read_at(file_pos, &mut read_buf[..]);
    assert_eq!(n, wire_size);

    let mut slice: &[u8] = &read_buf;
    let decoded = Record::decode(&mut slice).unwrap();
    assert_eq!(decoded, expected);
}

#[test]
fn read_past_eof_returns_zero() {
    let mut seg = SegmentFile::create(0);
    seg.append(b"hi");
    let mut buf = [0u8; 10];
    let n = seg.read_at(100, &mut buf[..]);
    assert_eq!(n, 0);
}

#[test]
fn base_offset_preserved_through_create() {
    let seg = Segment::create(12_345);
    assert_eq!(seg.base_offset(), 12_345);
    assert_eq!(segment_file_name(seg.base_offset()), "00000000000000012345.log");
}

#[test]
fn the_file_is_moved_only_where_it_has_to_be() {
    let mut seg = Segment::create(0);
    assert!(!seg.needs_seek(0));
    assert_eq!(seg.append(10), 0);
    assert!(!seg.needs_seek(10));
    assert!(seg.needs_seek(0));
    seg.seek_done(0);
    seg.read_at(0, 4);
    assert!(!seg.needs_seek(4));
    assert!(seg.needs_seek(10));
    seg.truncate(5);
    assert_eq!(seg.size(), 5);
    assert!(seg.needs_seek(5));
    assert!(seg.needs_seek(4));
}

/// Tracks a record and keeps the index file.
fn track(idx: &mut SparseIndex, file: &mut Vec<u8>, offset: u64, position: u64, size: usize) {
    assert!(idx.can_track(offset, position));
    file.extend_from_slice(&idx.pending_entry(offset, position));
    idx.track_append(offset, position, size);
}

#[test]
fn create_starts_empty() {
    let idx = SparseIndex::create(0, 4096);
    assert_eq!(idx.len(), 0);
    assert!(idx.is_empty());
    assert_eq!(idx.lookup(0), (0, 0));
    assert_eq!(idx.lookup(100), (0, 0));
}

#[test]
fn first_append_always_creates_entry() {
    let mut idx = SparseIndex::create(0, 4096);
    idx.track_append(0, 0, 100);
    assert_eq!(idx.len(), 1);
    assert_eq!(idx.lookup(0), (0, 0));
}

#[test]
fn entries_added_at_interval_boundaries() {
    let mut idx = SparseIndex::create(0, 4096);
    let mut file_pos = 0u64;
    for offset in 0..10u64 {
        idx.track_append(offset, file_pos, 1024);
        file_pos += 1024;
    }
    assert_eq!(idx.len(), 3);
    assert_eq!(idx.lookup(0), (0, 0));
    assert_eq!(idx.lookup(3), (0, 0));
    assert_eq!(idx.lookup(4), (4096, 4));
    assert_eq!(idx.lookup(7), (4096, 4));
    assert_eq!(idx.lookup(8), (8192, 8));
    assert_eq!(idx.lookup(100), (8192, 8));
}

#[test]
fn open_reloads_entries_from_disk() {
    let mut file = Vec::new();
    {
        let mut idx = SparseIndex::create(1000, 100);
        track(&mut idx, &mut file, 1000, 0, 50);
        track(&mut idx, &mut file, 1001, 50, 60);
        track(&mut idx, &mut file, 1002, 110, 30);
    }
    assert_eq!(file, [0, 0, 0, 0, 0, 0, 0, 0, 0, 0, 0, 2, 0, 0, 0, 110]);
    let idx = SparseIndex::open(1000, 100, &file);
    assert_eq!(idx.base_offset(), 1000);
    assert_eq!(idx.interval(), 100);
    assert_eq!(idx.len(), 2);
    assert_eq!(idx.lookup(1000), (0, 1000));
    assert_eq!(idx.lookup(1001), (0, 1000));
    assert_eq!(idx.lookup(1002), (110, 1002));
}

#[test]
fn lookup_below_base_returns_zero() {
    let mut idx = SparseIndex::create(100, 4096);
    idx.track_append(100, 0, 50);
    assert_eq!(idx.lookup(0), (0, 100));
    assert_eq!(idx.lookup(99), (0, 100));
}

#[test]
fn lookup_past_last_entry_returns_last_entry_position() {
    let mut idx = SparseIndex::create(0, 100);
    idx.track_append(0, 0, 50);
    idx.track_append(1, 50, 60);
    idx.track_append(2, 110, 30);
    assert_eq!(idx.len(), 2);
    assert_eq!(idx.lookup(1000), (110, 2));
    assert_eq!(idx.lookup(u64::MAX), (110, 2));
}

#[test]
fn entries_continue_to_be_added_after_reopen() {
    let mut file = Vec::new();
    {
        let mut idx = SparseIndex::create(0, 100);
        track(&mut idx, &mut file, 0, 0, 50);
    }
    let mut idx = SparseIndex::open(0, 100, &file);
    assert_eq!(idx.len(), 1);

    track(&mut idx, &mut file, 5, 50, 200);
    track(&mut idx, &mut file, 6, 250, 50);

    assert_eq!(idx.len(), 2);
    assert_eq!(idx.lookup(0), (0, 0));
    assert_eq!(idx.lookup(5), (0, 0));
    assert_eq!(idx.lookup(6), (250, 6));
}

#[test]
fn a_torn_index_entry_is_passed_over() {
    let mut file = Vec::new();
    let mut idx = SparseIndex::create(0, 1);
    track(&mut idx, &mut file, 0, 0, 10);
    track(&mut idx, &mut file, 1, 10, 10);
    for torn in 1..8 {
        assert_eq!(SparseIndex::open(0, 1, &file[..8 + torn - 1]).len(), 1);
    }
    assert_eq!(SparseIndex::open(0, 1, &file).len(), 2);
}

#[test]
fn an_entry_that_does_not_fit_cannot_be_made() {
    let idx = SparseIndex::create(10, 4096);
    assert!(idx.can_track(10 + u32::MAX as u64, u32::MAX as u64));
    assert!(!idx.can_track(11 + u32::MAX as u64, 0));
    assert!(!idx.can_track(10, u32::MAX as u64 + 1));
    assert!(!idx.can_track(9, 0));

    let mut idx = SparseIndex::create(0, 4096);
    idx.track_append(0, 0, 1);
    assert!(idx.can_track(u64::MAX, u64::MAX), "no entry is due");
}

#[test]
fn entries_past_the_last_offset_are_noticed() {
    let file = [0, 0, 0, 6, 0, 0, 0, 0];
    assert!(SparseIndex::open(u64::MAX - 6, 1, &file).is_addressable());
    assert!(!SparseIndex::open(u64::MAX - 5, 1, &file).is_addressable());
}

#[test]
fn encode_decode_roundtrip() {
    let offsets = vec![3u64, 0, 17, 1_000_000];
    let decoded = decode(&encode(&offsets), 4);
    assert_eq!(decoded, offsets);
}

#[test]
fn decode_rejects_corrupt_and_short_inputs() {
    assert_eq!(decode(&[], 3), vec![0, 0, 0]);
    assert_eq!(decode(&[1, 2, 3], 3), vec![0, 0, 0]);
    // Valid frame with a flipped payload byte fails CRC -> zeros.
    let mut bad = encode(&[5, 6, 7]);
    let last = bad.len() - 1;
    bad[last] ^= 0xFF;
    assert_eq!(decode(&bad, 3), vec![0, 0, 0]);
    // Truncated entries (claims 3, only has 1) -> zeros.
    let full = encode(&[5, 6, 7]);
    let truncated = &full[..full.len() - 12];
    assert_eq!(decode(truncated, 3), vec![0, 0, 0]);
}

#[test]
fn decode_ignores_out_of_range_partitions() {
    // Encoded for 4 partitions, decoded expecting only 2 -- extra partitions dropped.
    let decoded = decode(&encode(&[1, 2, 3, 4]), 2);
    assert_eq!(decoded, vec![1, 2]);
}

#[test]
fn a_claim_of_more_entries_than_there_are_is_no_commit() {
    let mut body = 3u32.to_le_bytes().to_vec();
    body.extend_from_slice(&[0u8; 12]);
    let mut file = crc32fast::hash(&body).to_le_bytes().to_vec();
    file.extend_from_slice(&body);
    assert_eq!(decode(&file, 2), vec![0, 0]);
}

#[test]
fn the_offset_file_is_byte_for_byte_as_documented() {
    let mut body = vec![2, 0, 0, 0];
    body.extend_from_slice(&[0, 0, 0, 0, 0x2C, 0x01, 0, 0, 0, 0, 0, 0]);
    body.extend_from_slice(&[1, 0, 0, 0, 7, 0, 0, 0, 0, 0, 0, 0]);
    let mut expected = crc32fast::hash(&body).to_le_bytes().to_vec();
    expected.extend_from_slice(&body);
    assert_eq!(encode(&[300, 7]), expected);
}

#[test]
fn open_commit_reopen_resumes() {
    let mut store = OffsetStore::open("billing", 3, None).unwrap();
    assert_eq!(store.committed(), &[0, 0, 0]);
    let file = encode(&[7, 0, 42]);
    store.commit_done(&[7, 0, 42]);
    assert_eq!(store.committed(), &[7, 0, 42]);

    let store = OffsetStore::open("billing", 3, Some(&file)).unwrap();
    assert_eq!(store.committed(), &[7, 0, 42]);
    assert_eq!(store.group(), "billing");
}

#[test]
fn groups_are_independent() {
    let a = OffsetStore::open("a", 2, Some(&encode(&[1, 1]))).unwrap();
    let b = OffsetStore::open("b", 2, Some(&encode(&[9, 9]))).unwrap();
    assert_eq!(a.committed(), &[1, 1]);
    assert_eq!(b.committed(), &[9, 9]);
    assert_ne!(a.file_name(), b.file_name());
    assert_ne!(a.temp_file_name(), b.file_name());
    assert_eq!(a.file_name(), "a");
    assert_eq!(a.temp_file_name(), "a.tmp");
}

#[test]
fn corrupt_file_resumes_from_zero() {
    let store = OffsetStore::open("g", 2, Some(b"garbage")).unwrap();
    assert_eq!(store.committed(), &[0, 0]);
}

#[test]
fn invalid_group_names_rejected() {
    for bad in ["", ".", "..", "a/b", "a b", "grp:1", "grüppe", "日本"] {
        assert!(
            matches!(
                OffsetStore::open(bad, 1, None),
                Err(KafkoError::InvalidGroupName(_))
            ),
            "group name {bad:?} should be rejected"
        );
    }
}

#[test]
fn invalid_group_name_is_rejected() {
    for bad in ["", "a/b", ".."] {
        match validate_group_name(bad) {
            Err(KafkoError::InvalidGroupName(name)) => assert_eq!(name, bad),
            Err(other) => panic!("group {bad:?} should be InvalidGroupName, got {other:?}"),
            Ok(_) => panic!("group {bad:?} should be rejected, got Ok"),
        }
    }
    for good in ["g", "...", "a.b", ".a", "A-z_09", "-"] {
        assert!(validate_group_name(good).is_ok(), "{good}");
    }
}

#[test]
fn sparse_index_lookup_returns_largest_le_target() {
    for (base, interval, record_count, record_size) in [
        (0u64, 1u64, 0usize, 1usize),
        (0, 1, 5, 1),
        (7, 64, 100, 10),
        (1000, 255, 255, 511),
        (999_999, 100, 30, 33),
        (5, 3, 200, 2),
    ] {
        let mut idx = SparseIndex::create(base, interval);
        let mut entries = Vec::new();
        let mut file_pos = 0u64;
        for i in 0..record_count {
            let offset = base + i as u64;
            if !idx.pending_entry(offset, file_pos).is_empty() {
                entries.push((file_pos, offset));
            }
            idx.track_append(offset, file_pos, record_size);
            file_pos += record_size as u64;
        }
        assert_eq!(idx.len(), entries.len());

        let targets = (0..300u64)
            .map(|d| base.saturating_sub(5) + d)
            .chain([0, base, u64::MAX, u64::MAX - 1, base + (1 << 33)]);
        for target in targets {
            let expected =
                entries.iter().copied().filter(|e| e.1 <= target).last().unwrap_or((0, base));
            assert_eq!(idx.lookup(target), expected, "base={base} target={target}");
        }
    }
}

#[test]
fn a_commit_that_is_cut_off_is_in_another_file() {
    let store = OffsetStore::open("g", 1, None).unwrap();
    assert_eq!(store.file_name(), "g");
    assert_eq!(store.temp_file_name(), "g.tmp");
    // Should the cut file come to be read, it counts for nothing.
    let file = encode(&[7]);
    for cut in 0..file.len() {
        assert_eq!(decode(&file[..cut], 1), vec![0]);
    }
    assert_eq!(decode(&file, 1), vec![7]);
}
