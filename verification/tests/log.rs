use bytes::{Bytes, BytesMut};
use kafko::log::{Effect, IndexedSegment, Plan, SegmentExists};
use kafko::retention::{Sweep, SweepAction};
use kafko::scan::{find_record, scan_for_last_valid_position, RecoveryError};
use kafko::text::{index_file_name, segment_file_name};
use kafko::{
    Compression, Duration, KafkoError, Log, LogConfig, Partition, Record, Segment, SparseIndex,
};

/// The files of a segment, in memory.
#[derive(Clone)]
struct Files {
    base_offset: u64,
    data: Vec<u8>,
    index: Vec<u8>,
    position: usize,
}

/// A log and its files.
struct Store {
    log: Log,
    files: Vec<Files>,
}

impl Store {
    fn create(config: LogConfig) -> Self {
        let files = Files { base_offset: 0, data: Vec::new(), index: Vec::new(), position: 0 };
        Store { log: Log::create(&Vec::new(), config).unwrap(), files: vec![files] }
    }

    fn open(mut files: Vec<Files>, config: LogConfig) -> Result<Self, RecoveryError> {
        if files.is_empty() {
            return Ok(Store::create(config));
        }
        let mut active_files = files.pop().unwrap();
        let sealed = files
            .iter()
            .map(|f| {
                let index = SparseIndex::open(f.base_offset, config.index_interval, &f.index);
                assert!(index.is_addressable());
                IndexedSegment::new(Segment::open(f.base_offset, f.data.len() as u64), index)
            })
            .collect();
        let mut active = Segment::open(active_files.base_offset, active_files.data.len() as u64);
        let kept = scan_for_last_valid_position(&active_files.data)
            .map_err(RecoveryError::Record)?;
        if kept < active.size() {
            active_files.data.truncate(kept as usize);
            active.truncate(kept);
        }
        active_files.position = 0;
        active.seek_done(0);
        let (log, index) = Log::open(config, sealed, active, &active_files.data)?;
        active_files.index = index;
        files.push(active_files);
        for f in &mut files {
            f.position = 0;
        }
        Ok(Store { log, files })
    }

    fn reopen(self) -> Self {
        let config = *self.log.config();
        Store::open(self.files, config).unwrap()
    }

    /// Carries out one step on the files, and applies it to the log.
    fn perform(&mut self, effect: &Effect) {
        assert!(self.log.allows(effect));
        let active = self.files.last_mut().unwrap();
        match effect {
            Effect::SyncActive | Effect::Advance { .. } => {}
            Effect::Cut { data_size, index_size } => {
                active.data.truncate(*data_size as usize);
                active.index.truncate(*index_size as usize);
            }
            Effect::OpenSegment { base_offset } => self.files.push(Files {
                base_offset: *base_offset,
                data: Vec::new(),
                index: Vec::new(),
                position: 0,
            }),
            Effect::Seek { position } => active.position = *position as usize,
            Effect::Write { bytes } => {
                assert_eq!(active.position, active.data.len(), "a write lands at the end");
                active.data.extend_from_slice(bytes);
                active.position += bytes.len();
            }
            Effect::Track { offset, file_pos, .. } => {
                let entry = self.log.pending_index_entry(*offset, *file_pos);
                active.index.extend_from_slice(&entry);
            }
        }
        self.log.apply(effect);
    }

    /// Carries out a part of one step on the files, as far as it can be parted,
    /// and notes the failure.
    fn fail(&mut self, effect: &Effect, part: usize) {
        let active = self.files.last_mut().unwrap();
        match effect {
            Effect::SyncActive | Effect::Advance { .. } | Effect::OpenSegment { .. } => {}
            Effect::Cut { data_size, .. } => {
                let kept = (*data_size as usize + part).min(active.data.len());
                active.data.truncate(kept);
            }
            Effect::Seek { .. } => active.position = part,
            Effect::Write { bytes } => {
                assert_eq!(active.position, active.data.len(), "a write lands at the end");
                let n = part.min(bytes.len());
                active.data.extend_from_slice(&bytes[..n]);
                active.position += n;
            }
            Effect::Track { offset, file_pos, .. } => {
                let entry = self.log.pending_index_entry(*offset, *file_pos);
                let n = part.min(entry.len());
                active.index.extend_from_slice(&entry[..n]);
            }
        }
        self.log.append_failed();
    }

    fn run(&mut self, plan: Plan) -> Result<Vec<u64>, KafkoError> {
        for effect in &plan.effects {
            self.perform(effect);
        }
        plan.result
    }

    fn append(&mut self, record: Record) -> Result<u64, KafkoError> {
        let plan = self.log.append(record);
        Ok(self.run(plan)?[0])
    }

    fn append_batch(&mut self, records: Vec<Record>) -> Result<Vec<u64>, KafkoError> {
        assert!(self.log.accepts(&records));
        let plan = self.log.append_batch(records);
        self.run(plan)
    }

    fn read_record_at(&mut self, offset: u64) -> Result<Option<Record>, KafkoError> {
        let Some(plan) = self.log.read_record_at(offset) else {
            return Ok(None);
        };
        let files = &mut self.files[plan.segment];
        if self.log.segment(plan.segment).segment().needs_seek(plan.file_pos) {
            files.position = plan.file_pos as usize;
            self.log.seek_done(plan.segment, plan.file_pos);
        }
        let end = files.position + plan.len as usize;
        let read = files.data[files.position..end].to_vec();
        files.position = end;
        self.log.read_done(plan.segment, plan.file_pos, read.len());
        find_record(&read, plan.starting_offset, offset)
    }

    /// Runs retention with every sealed segment last written to at `modified`.
    fn apply_retention(&mut self, now: i64, modified: i64) -> u64 {
        let mut sweep = Sweep::new(now);
        let mut answer = None;
        loop {
            match sweep.next(&mut self.log, answer.take()) {
                SweepAction::ReadAge => answer = Some(modified),
                SweepAction::Delete { base_offset } => {
                    let files = self.files.remove(0);
                    assert_eq!(files.base_offset, base_offset);
                }
                SweepAction::Finish => return sweep.deleted(),
            }
        }
    }
}

fn record(marker: u64) -> Record {
    Record::new(
        marker as i64,
        Some(Bytes::from(format!("key-{marker}"))),
        Bytes::from(format!("value-{marker}")),
    )
}

fn small_segments(threshold: u64, interval: u64) -> LogConfig {
    LogConfig {
        segment_size_threshold: threshold,
        index_interval: interval,
        ..Default::default()
    }
}

fn filled(config: LogConfig, n: u64) -> Store {
    let mut store = Store::create(config);
    for i in 0..n {
        assert_eq!(store.append(record(i)).unwrap(), i);
    }
    store
}

#[test]
fn create_starts_at_offset_zero() {
    let log = Log::create(&Vec::new(), LogConfig::default()).unwrap();
    assert_eq!(log.next_offset(), 0);
    assert_eq!(log.segment_count(), 1);
    assert_eq!(log.total_size(), 0);
}

#[test]
fn create_fails_on_existing_log_dir() {
    let names: Vec<String> = vec![segment_file_name(0), index_file_name(0)];
    let result = Log::create(&names, LogConfig::default());
    assert!(result.is_err(), "expected error when creating Log over existing segments");
}

#[test]
fn creating_over_segments_names_the_oldest() {
    let names: Vec<String> =
        vec![segment_file_name(70), segment_file_name(7), "readme.txt".to_string()];
    let refused = Log::create(&names, LogConfig::default()).err();
    assert_eq!(refused, Some(SegmentExists { base_offset: 7 }));
    // What is no segment is in nobody's way.
    let names: Vec<String> = vec!["readme.txt".to_string(), index_file_name(0)];
    assert!(Log::create(&names, LogConfig::default()).is_ok());
}

#[test]
fn append_assigns_sequential_offsets() {
    let mut store = Store::create(LogConfig::default());
    assert_eq!(store.append(record(0)).unwrap(), 0);
    assert_eq!(store.append(record(1)).unwrap(), 1);
    assert_eq!(store.append(record(2)).unwrap(), 2);
    assert_eq!(store.log.next_offset(), 3);
}

#[test]
fn read_back_appended_records() {
    let mut store = filled(LogConfig::default(), 5);
    for i in 0..5 {
        assert_eq!(store.read_record_at(i).unwrap(), Some(record(i)));
    }
}

#[test]
fn read_offset_past_end_returns_none() {
    let mut store = filled(LogConfig::default(), 1);
    assert_eq!(store.read_record_at(100).unwrap(), None);
    assert_eq!(store.read_record_at(1).unwrap(), None);
}

#[test]
fn rotation_creates_new_segment_when_threshold_crossed() {
    let mut store = filled(small_segments(200, 100), 10);
    assert!(
        store.log.segment_count() > 1,
        "expected rotation but only {} segment(s)",
        store.log.segment_count()
    );
    assert_eq!(store.log.next_offset(), 10);
    for i in 0..10 {
        let r = store.read_record_at(i).unwrap();
        assert!(r.is_some(), "missing record at offset {}", i);
    }
}

#[test]
fn random_access_reads_across_many_segments() {
    let mut store = filled(small_segments(100, 50), 20);
    assert!(store.log.segment_count() > 5, "expected many segments");
    for i in [0u64, 5, 10, 15, 19] {
        assert_eq!(store.read_record_at(i).unwrap(), Some(record(i)), "offset {i}");
    }
}

#[test]
fn total_size_grows_with_appends() {
    let mut store = Store::create(LogConfig::default());
    assert_eq!(store.log.total_size(), 0);
    store.append(record(0)).unwrap();
    let size_after_one = store.log.total_size();
    assert!(size_after_one > 0);
    store.append(record(1)).unwrap();
    assert!(store.log.total_size() > size_after_one);
}

#[test]
fn config_default_is_one_gib_and_four_kib() {
    let cfg = LogConfig::default();
    assert_eq!(cfg.segment_size_threshold, 1 << 30);
    assert_eq!(cfg.index_interval, 4096);
    assert_eq!(cfg.max_segment_age, None);
    assert_eq!(cfg.max_partition_bytes, None);
    assert_eq!(cfg.retention_check_interval, Duration::from_secs(60));
    assert_eq!(cfg.batch_max_records, 1024);
    assert_eq!(cfg.batch_max_bytes, 64 * 1024);
    assert_eq!(cfg.compression, Compression::Uncompressed);
}

#[test]
fn append_batch_assigns_sequential_offsets() {
    let mut store = Store::create(LogConfig::default());
    let records: Vec<Record> = (0..10).map(record).collect();
    let offsets = store.append_batch(records.clone()).unwrap();
    assert_eq!(offsets, (0..10).collect::<Vec<u64>>());
    assert_eq!(store.log.next_offset(), 10);
    for (i, expected) in records.into_iter().enumerate() {
        assert_eq!(store.read_record_at(i as u64).unwrap(), Some(expected));
    }
}

#[test]
fn append_batch_empty_returns_empty() {
    let mut store = Store::create(LogConfig::default());
    let plan = store.log.append_batch(Vec::new());
    assert!(plan.effects.is_empty());
    let offsets = store.run(plan).unwrap();
    assert!(offsets.is_empty());
    assert_eq!(store.log.next_offset(), 0);
}

#[test]
fn log_with_lz4_compression_roundtrips() {
    let cfg = LogConfig { compression: Compression::Lz4, ..Default::default() };
    let mut store = Store::create(cfg);
    let r = Record::new(123, None, Bytes::from(vec![0xAAu8; 4096]));
    store.append(r.clone()).unwrap();
    assert_eq!(store.read_record_at(0).unwrap(), Some(r));
}

#[test]
fn log_with_lz4_uses_fewer_bytes_on_disk() {
    let payload = Bytes::from(vec![0xCDu8; 4096]);
    let mut log_u = Store::create(LogConfig::default());
    for _ in 0..10 {
        log_u.append(Record::new(0, None, payload.clone())).unwrap();
    }
    let cfg_c = LogConfig { compression: Compression::Lz4, ..Default::default() };
    let mut log_c = Store::create(cfg_c);
    for _ in 0..10 {
        log_c.append(Record::new(0, None, payload.clone())).unwrap();
    }
    assert!(
        log_c.log.total_size() * 4 < log_u.log.total_size(),
        "expected compressed (<{}) to be << uncompressed ({})",
        log_c.log.total_size(),
        log_u.log.total_size()
    );
}

#[test]
fn single_record_larger_than_threshold_on_empty_log_succeeds() {
    let mut store = Store::create(LogConfig { segment_size_threshold: 128, ..Default::default() });
    let r = Record::new(0, None, Bytes::from(vec![0u8; 1024]));
    let offset = store.append(r.clone()).unwrap();
    assert_eq!(offset, 0);
    assert_eq!(store.log.segment_count(), 1, "no premature rotation on empty segment");
    assert_eq!(store.read_record_at(0).unwrap(), Some(r));
}

#[test]
fn batch_larger_than_threshold_on_empty_log_succeeds() {
    let mut store = Store::create(LogConfig { segment_size_threshold: 128, ..Default::default() });
    let records: Vec<Record> = (0..32).map(record).collect();
    let offsets = store.append_batch(records.clone()).unwrap();
    assert_eq!(offsets, (0..32).collect::<Vec<u64>>());
    assert_eq!(store.log.segment_count(), 1);
    for (i, expected) in records.into_iter().enumerate() {
        assert_eq!(store.read_record_at(i as u64).unwrap(), Some(expected));
    }
}

#[test]
fn append_after_oversized_first_write_rotates_normally() {
    let mut store = Store::create(LogConfig { segment_size_threshold: 128, ..Default::default() });
    store.append(Record::new(0, None, Bytes::from(vec![0xAAu8; 1024]))).unwrap();
    assert_eq!(store.log.segment_count(), 1);
    store.append(Record::new(1, None, Bytes::from_static(b"small"))).unwrap();
    assert!(
        store.log.segment_count() >= 2,
        "expected rotation after oversized seg-0 + new append, got {} segment(s)",
        store.log.segment_count()
    );
    assert!(store.read_record_at(0).unwrap().is_some());
    assert!(store.read_record_at(1).unwrap().is_some());
}

#[test]
fn mid_life_rotation_mix_preserves_ordering() {
    let mut store = Store::create(LogConfig { segment_size_threshold: 256, ..Default::default() });
    let records = vec![
        Record::new(0, None, Bytes::from_static(b"small-0")),
        Record::new(1, None, Bytes::from_static(b"small-1")),
        Record::new(2, None, Bytes::from(vec![0u8; 4096])),
        Record::new(3, None, Bytes::from_static(b"small-3")),
        Record::new(4, None, Bytes::from_static(b"small-4")),
    ];
    for r in &records {
        store.append(r.clone()).unwrap();
    }
    for (i, expected) in records.iter().enumerate() {
        let actual = store.read_record_at(i as u64).unwrap();
        assert_eq!(actual.as_ref(), Some(expected), "mismatch at offset {i}");
    }
    assert_eq!(store.log.next_offset(), 5);
}

#[test]
fn append_at_exact_threshold_boundary_does_not_double_rotate() {
    let mut store = filled(LogConfig { segment_size_threshold: 200, ..Default::default() }, 5);
    let before = store.log.segment_count();
    store.append(record(99)).unwrap();
    let after = store.log.segment_count();
    assert!(
        after - before <= 1,
        "expected at most one rotation, segment_count went {before} -> {after}"
    );
}

#[test]
fn append_batch_continues_offsets_after_individual_appends() {
    let mut store = filled(LogConfig::default(), 2);
    let batch: Vec<Record> = (2..5).map(record).collect();
    let offsets = store.append_batch(batch).unwrap();
    assert_eq!(offsets, vec![2, 3, 4]);
    assert_eq!(store.log.next_offset(), 5);
    for i in 0..5 {
        assert!(store.read_record_at(i).unwrap().is_some());
    }
}

#[test]
fn appends_and_reads_in_turn_find_the_file_where_they_left_it() {
    let mut store = Store::create(small_segments(200, 20));
    for i in 0..30 {
        assert_eq!(store.append(record(i)).unwrap(), i);
        for j in [0, i / 2, i] {
            assert_eq!(store.read_record_at(j).unwrap(), Some(record(j)));
        }
    }
}

#[test]
fn rotation_comes_first_in_a_plan() {
    let mut store = filled(small_segments(100, 50), 2);
    let base = store.log.next_offset();
    let plan = store.log.append(Record::new(0, None, Bytes::from(vec![1u8; 100])));
    assert!(matches!(plan.effects[0], Effect::SyncActive));
    assert!(matches!(plan.effects[1], Effect::OpenSegment { base_offset } if base_offset == base));
    assert!(matches!(plan.effects[2], Effect::Write { .. }));
    assert!(matches!(
        plan.effects[3],
        Effect::Track { offset, file_pos: 0, size: 125 } if offset == base
    ));
    assert!(matches!(
        plan.effects[4],
        Effect::Advance { next_offset } if next_offset == base + 1
    ));
    assert_eq!(plan.effects.len(), 5);
    assert_eq!(store.run(plan).unwrap(), vec![base]);
}

#[test]
fn a_batch_that_is_cut_off_shows_nothing() {
    let records: Vec<Record> = (100..104).map(record).collect();
    let steps = filled(small_segments(300, 50), 9).log.append_batch(records.clone()).effects.len();
    for done in 0..steps {
        let mut store = filled(small_segments(300, 50), 9);
        let plan = store.log.append_batch(records.clone());
        for effect in &plan.effects[..done] {
            store.perform(effect);
        }
        assert_eq!(store.log.next_offset(), 9, "done={done}");
        for i in 0..9 {
            assert_eq!(store.read_record_at(i).unwrap(), Some(record(i)), "done={done}");
        }
        assert_eq!(store.read_record_at(9).unwrap(), None, "done={done}");
    }
}

#[test]
fn a_failed_append_can_be_tried_again() {
    let records: Vec<Record> = (100..104).map(record).collect();
    // With and without moving on to a new segment.
    for threshold in [300, 1_000_000] {
        let config = small_segments(threshold, 50);
        let steps = filled(config, 9).log.append_batch(records.clone()).effects.len();
        for failing in 0..steps {
            for part in [0, 1, 7, 30, 60, 10_000] {
                let mut store = filled(config, 9);
                // A read in between leaves the file elsewhere.
                store.read_record_at(8).unwrap();
                let plan = store.log.append_batch(records.clone());
                if failing >= plan.effects.len() {
                    continue;
                }
                for effect in &plan.effects[..failing] {
                    store.perform(effect);
                }
                store.fail(&plan.effects[failing], part);
                assert_eq!(store.log.next_offset(), 9);
                for i in 0..9 {
                    assert_eq!(store.read_record_at(i).unwrap(), Some(record(i)));
                }
                assert_eq!(store.read_record_at(9).unwrap(), None);

                // Even cutting off what is left may fail once.
                let plan = store.log.append_batch(records.clone());
                assert!(matches!(plan.effects[0], Effect::Cut { .. }));
                store.fail(&plan.effects[0], part);

                assert_eq!(store.append_batch(records.clone()).unwrap(), vec![9, 10, 11, 12]);
                let next = store.log.append(record(200)).effects;
                assert!(!matches!(next[0], Effect::Cut { .. }), "there is nothing left to cut");
                assert_eq!(store.append(record(200)).unwrap(), 13);
                let mut store = store.reopen();
                assert_eq!(store.log.next_offset(), 14);
                for i in 0..9 {
                    assert_eq!(store.read_record_at(i).unwrap(), Some(record(i)));
                }
                for i in 9..13 {
                    assert_eq!(store.read_record_at(i).unwrap(), Some(record(91 + i)));
                }
                assert_eq!(store.read_record_at(13).unwrap(), Some(record(200)));
            }
        }
    }
}

#[test]
fn a_log_with_a_failed_append_survives_a_crash() {
    let mut store = filled(LogConfig::default(), 3);
    let plan = store.log.append(record(3));
    let write = plan.effects.iter().position(|e| matches!(e, Effect::Write { .. })).unwrap();
    for effect in &plan.effects[..write] {
        store.perform(effect);
    }
    store.fail(&plan.effects[write], 10);
    let mut store = store.reopen();
    assert_eq!(store.log.next_offset(), 3);
    assert_eq!(store.append(record(3)).unwrap(), 3);
    for i in 0..4 {
        assert_eq!(store.read_record_at(i).unwrap(), Some(record(i)));
    }
}

#[test]
fn a_failed_append_is_cut_off_to_the_byte() {
    let mut store = filled(small_segments(1_000_000, 10), 4);
    let data_size = store.files[0].data.len() as u64;
    let index_size = store.files[0].index.len() as u64;
    assert_eq!(index_size, 32);
    let plan = store.log.append(record(4));
    for effect in &plan.effects[..plan.effects.len() - 1] {
        store.perform(effect);
    }
    assert!(store.files[0].index.len() as u64 > index_size);
    store.fail(&plan.effects[plan.effects.len() - 1], 0);
    let plan = store.log.append(record(4));
    assert!(matches!(
        plan.effects[0],
        Effect::Cut { data_size: d, index_size: i } if d == data_size && i == index_size
    ));
    store.perform(&plan.effects[0]);
    assert_eq!(store.files[0].data.len() as u64, data_size);
    assert_eq!(store.files[0].index.len() as u64, index_size);
}

#[test]
fn reading_changes_nothing_about_the_log() {
    let mut store = filled(small_segments(100, 50), 10);
    let before = (store.log.next_offset(), store.log.segment_count(), store.log.total_size());
    for i in (0..12).rev() {
        store.read_record_at(i).unwrap();
        let after = (store.log.next_offset(), store.log.segment_count(), store.log.total_size());
        assert_eq!(after, before);
    }
}

#[test]
fn opening_rubbish_twice_is_opening_it_once() {
    let mut rubbish = vec![filled(LogConfig::default(), 3).files[0].data.clone()];
    for cut in [1usize, 30, 47] {
        let mut data = rubbish[0].clone();
        data.truncate(data.len() - cut);
        data.extend_from_slice(&[0xA5; 9]);
        rubbish.push(data);
    }
    rubbish.push(vec![0xFF; 100]);
    for data in rubbish {
        let files = vec![Files { base_offset: 40, data, index: vec![1, 2, 3], position: 0 }];
        let Ok(first) = Store::open(files, LogConfig::default()) else {
            continue;
        };
        let seen = (first.log.next_offset(), first.log.total_size(), first.log.segment_count());
        let kept = first.files[0].clone();
        let mut second = first.reopen();
        assert_eq!(
            (second.log.next_offset(), second.log.total_size(), second.log.segment_count()),
            seen
        );
        assert_eq!(second.files[0].data, kept.data);
        assert_eq!(second.files[0].index, kept.index);
        for i in 40..second.log.next_offset() {
            assert!(second.read_record_at(i).unwrap().is_some());
        }
    }
}

#[test]
fn acknowledged_records_survive_a_crash_at_any_step() {
    let records: Vec<Record> = (100..104).map(record).collect();
    let steps = filled(small_segments(300, 50), 9).log.append_batch(records.clone()).effects.len();
    for done in 0..=steps {
        let mut store = filled(small_segments(300, 50), 9);
        let plan = store.log.append_batch(records.clone());
        for effect in &plan.effects[..done] {
            store.perform(effect);
        }
        let mut store = store.reopen();
        assert!(store.log.next_offset() >= 9);
        for i in 0..9 {
            assert_eq!(store.read_record_at(i).unwrap(), Some(record(i)), "done={done}");
        }
        for i in 9..store.log.next_offset() {
            assert_eq!(store.read_record_at(i).unwrap(), Some(record(91 + i)), "done={done}");
        }
    }
}

#[test]
fn open_empty_dir_creates_fresh_log() {
    let store = Store::open(Vec::new(), LogConfig::default()).unwrap();
    assert_eq!(store.log.next_offset(), 0);
    assert_eq!(store.log.segment_count(), 1);
    assert_eq!(store.log.total_size(), 0);
}

#[test]
fn open_clean_log_preserves_all_records() {
    let mut store = filled(LogConfig::default(), 5).reopen();
    assert_eq!(store.log.next_offset(), 5);
    assert_eq!(store.log.segment_count(), 1);
    for i in 0..5 {
        assert_eq!(store.read_record_at(i).unwrap(), Some(record(i)));
    }
}

#[test]
fn open_with_truncated_tail_recovers_to_last_valid_record() {
    let mut store = filled(LogConfig::default(), 5);
    let size = store.files[0].data.len();
    store.files[0].data.truncate(size - 3);

    let mut store = store.reopen();
    assert_eq!(store.log.next_offset(), 4);
    for i in 0..4 {
        assert!(store.read_record_at(i).unwrap().is_some());
    }
    assert_eq!(store.read_record_at(4).unwrap(), None);
}

#[test]
fn open_with_crc_corruption_truncates_corrupted_tail() {
    let mut store = filled(LogConfig::default(), 5);
    *store.files[0].data.last_mut().unwrap() ^= 0xFF;

    let mut store = store.reopen();
    assert_eq!(store.log.next_offset(), 4);
    for i in 0..4 {
        assert!(store.read_record_at(i).unwrap().is_some());
    }
}

#[test]
fn open_after_appends_can_resume_appending() {
    let mut store = filled(LogConfig::default(), 2).reopen();
    assert_eq!(store.log.next_offset(), 2);

    let new_offset = store.append(record(2)).unwrap();
    assert_eq!(new_offset, 2);
    assert_eq!(store.log.next_offset(), 3);

    assert_eq!(store.read_record_at(0).unwrap(), Some(record(0)));
    assert_eq!(store.read_record_at(1).unwrap(), Some(record(1)));
    assert_eq!(store.read_record_at(2).unwrap(), Some(record(2)));
}

#[test]
fn open_multi_segment_log_preserves_older_segments() {
    let mut store = filled(small_segments(100, 50), 10).reopen();
    assert!(store.log.segment_count() > 1, "expected multiple segments");
    assert_eq!(store.log.next_offset(), 10);
    for i in 0..10 {
        assert_eq!(store.read_record_at(i).unwrap(), Some(record(i)));
    }
}

#[test]
fn recovery_is_idempotent() {
    let mut store = filled(LogConfig::default(), 3);
    let size = store.files[0].data.len();
    store.files[0].data.truncate(size - 2);

    let store = store.reopen();
    let next_offset_first = store.log.next_offset();
    let total_size_first = store.log.total_size();
    let store = store.reopen();
    assert_eq!(store.log.next_offset(), next_offset_first);
    assert_eq!(store.log.total_size(), total_size_first);
}

#[test]
fn rotation_preserves_records_on_sealed_segments() {
    let cfg = LogConfig { segment_size_threshold: 256, ..LogConfig::default() };
    let record_count = 64u64;
    let store = filled(cfg, record_count);
    assert!(
        store.log.segment_count() > 1,
        "expected multiple segments to exercise rotation; got {}",
        store.log.segment_count()
    );
    let total_expected = store.log.total_size();

    let mut store = store.reopen();
    assert_eq!(store.log.next_offset(), record_count);
    assert_eq!(store.log.total_size(), total_expected);
    for i in 0..record_count {
        let r = store.read_record_at(i).unwrap().unwrap_or_else(|| {
            panic!("record at offset {i} missing after reopen -- rotation lost data")
        });
        let expected_value = format!("value-{i}");
        assert_eq!(
            r.value().as_ref(),
            expected_value.as_bytes(),
            "record {i} value differs after reopen -- corruption across rotation"
        );
    }
}

#[test]
fn recovery_keeps_whole_records_at_every_cut() {
    let clean = filled(LogConfig::default(), 4);
    let mut ends = vec![0usize];
    for i in 0..4 {
        ends.push(ends.last().unwrap() + record(i).wire_size());
    }
    for cut in 0..=clean.files[0].data.len() {
        let mut files = clean.files.clone();
        files[0].data.truncate(cut);
        files[0].index = b"rubbish".to_vec();
        let store = Store::open(files, LogConfig::default()).unwrap();
        let whole = ends.iter().filter(|&&end| end <= cut).count() - 1;
        assert_eq!(store.log.next_offset(), whole as u64, "cut={cut}");
        assert_eq!(store.log.total_size(), ends[whole] as u64, "cut={cut}");
    }
}

#[test]
fn recovery_stops_at_an_unknown_codec() {
    let mut store = filled(LogConfig::default(), 1);
    let data = &mut store.files[0].data;
    data[8] = 9;
    let crc = crc32fast::hash(&data[8..]);
    data[4..8].copy_from_slice(&crc.to_be_bytes());
    let files = store.files.clone();
    assert!(matches!(
        Store::open(files, LogConfig::default()),
        Err(RecoveryError::Record(KafkoError::UnknownCompression(9)))
    ));
    assert!(matches!(
        store.read_record_at(0),
        Err(KafkoError::UnknownCompression(9))
    ));
}

#[test]
fn an_unreadable_record_is_reported_when_it_is_read_past() {
    let mut store = filled(LogConfig::default(), 3);
    let first = record(0).wire_size();
    store.files[0].data[first + 12] ^= 0xFF;
    assert_eq!(store.read_record_at(0).unwrap(), Some(record(0)));
    assert!(matches!(
        store.read_record_at(2),
        Err(KafkoError::CrcMismatch { .. })
    ));
}

#[test]
fn a_search_ends_where_the_data_does() {
    let mut buf = BytesMut::new();
    record(0).encode(&mut buf);
    record(1).encode(&mut buf);
    let cut = &buf[..buf.len() - 1];
    assert_eq!(find_record(cut, 10, 10).unwrap(), Some(record(0)));
    assert_eq!(find_record(cut, 10, 11).unwrap(), None);
    assert_eq!(find_record(&buf, 10, 11).unwrap(), Some(record(1)));
    assert_eq!(find_record(&buf, 10, 12).unwrap(), None);
    assert_eq!(find_record(&buf, 10, 9).unwrap(), None);
    assert_eq!(find_record(&buf, u64::MAX, 0).unwrap(), None);
}

#[test]
fn a_batch_with_a_codec_goes_through_the_log() {
    for compression in [Compression::Lz4, Compression::Zstd] {
        let mut store = Store::create(LogConfig { compression, ..small_segments(400, 100) });
        let records: Vec<Record> =
            (0..32).map(|i| Record::new(i, None, Bytes::from(vec![i as u8; 1024]))).collect();
        store.append_batch(records[..16].to_vec()).unwrap();
        store.append_batch(records[16..].to_vec()).unwrap();
        let mut store = store.reopen();
        for (i, r) in records.iter().enumerate() {
            assert_eq!(store.read_record_at(i as u64).unwrap().as_ref(), Some(r));
        }
    }
}

#[test]
fn send_batch_larger_than_segment_threshold_still_round_trips() {
    let mut store = Store::create(LogConfig { segment_size_threshold: 512, ..Default::default() });
    let records: Vec<Record> = (0..64)
        .map(|i| Record::new(0, None, Bytes::from(format!("rec-{i:03}"))))
        .collect();
    assert_eq!(store.append_batch(records.clone()).unwrap().len(), 64);
    for (i, expected) in records.iter().enumerate() {
        assert_eq!(store.read_record_at(i as u64).unwrap().as_ref(), Some(expected));
    }
}

fn retention_record(marker: u64) -> Record {
    Record::new(
        marker as i64,
        Some(Bytes::from(format!("k-{marker}"))),
        Bytes::from(format!("v-{marker}")),
    )
}

fn retained(config: LogConfig, n: u64) -> Store {
    let mut store = Store::create(config);
    for i in 0..n {
        store.append(retention_record(i)).unwrap();
    }
    store
}

#[test]
fn apply_retention_without_config_is_noop() {
    let mut store = retained(small_segments(100, 50), 10);
    let initial_count = store.log.segment_count();
    let initial_size = store.log.total_size();
    assert_eq!(store.apply_retention(1_000, 0), 0);
    assert_eq!(store.log.segment_count(), initial_count);
    assert_eq!(store.log.total_size(), initial_size);
}

#[test]
fn apply_retention_never_deletes_active_segment() {
    let cfg = LogConfig { max_segment_age: Some(Duration::from_millis(0)), ..Default::default() };
    let mut store = retained(cfg, 1);
    assert_eq!(store.apply_retention(30, 0), 0);
    assert_eq!(store.log.segment_count(), 1);
}

#[test]
fn apply_retention_deletes_old_segments_by_age() {
    let cfg = LogConfig { max_segment_age: Some(Duration::from_millis(0)), ..small_segments(100, 50) };
    let mut store = retained(cfg, 10);
    let initial_count = store.log.segment_count();
    assert!(initial_count > 1, "expected multiple segments after rotation");
    let deleted = store.apply_retention(30, 0);
    assert!(deleted > 0);
    assert_eq!(deleted, initial_count as u64 - 1);
    assert_eq!(store.log.segment_count(), 1, "only active should remain");
}

#[test]
fn apply_retention_by_size_deletes_until_under_limit() {
    let cfg = LogConfig { max_partition_bytes: Some(500), ..small_segments(100, 50) };
    let mut store = retained(cfg, 20);
    let before = store.log.total_size();
    assert!(before > 500);
    store.apply_retention(0, 0);
    assert!(
        store.log.total_size() <= 500 || store.log.segment_count() == 1,
        "expected total_size <= 500 or only active segment, got size={} count={}",
        store.log.total_size(),
        store.log.segment_count()
    );
    // No more than needed goes.
    assert!(store.log.total_size() > 400);
}

#[test]
fn apply_retention_deletes_index_files_alongside_log_files() {
    let cfg = LogConfig { max_segment_age: Some(Duration::from_millis(0)), ..small_segments(100, 50) };
    let mut store = retained(cfg, 10);
    store.apply_retention(30, 0);
    assert_eq!(store.files.len(), 1);
    assert_eq!(
        store.files[0].base_offset,
        store.log.segment(0).segment().base_offset()
    );
}

#[test]
fn a_segment_of_just_the_limit_is_not_too_old() {
    let cfg = LogConfig { max_segment_age: Some(Duration::from_millis(100)), ..small_segments(100, 50) };
    let mut store = retained(cfg, 10);
    let count = store.log.segment_count();
    assert_eq!(store.apply_retention(1_100, 1_000), 0);
    assert_eq!(store.log.segment_count(), count);
    assert_eq!(store.apply_retention(1_101, 1_000), count as u64 - 1);
}

#[test]
fn a_pass_deletes_as_few_segments_as_it_must() {
    let cfg = LogConfig {
        max_segment_age: Some(Duration::from_millis(100)),
        max_partition_bytes: Some(200),
        ..small_segments(62, 50)
    };
    let mut store = retained(cfg, 8);
    let count = store.log.segment_count();
    assert_eq!(count, 4);
    let sizes: Vec<u64> = (0..count).map(|i| store.log.segment(i).segment().size()).collect();
    assert!(sizes.iter().all(|&size| size == 62), "{sizes:?}");

    // The second segment is not too old, so the third, which is, is not reached
    // by age; without the first the log is within its size.
    let modified = [899, 900, 0, 0];
    let mut sweep = Sweep::new(1_000);
    let mut answer = None;
    loop {
        match sweep.next(&mut store.log, answer.take()) {
            SweepAction::ReadAge => answer = Some(modified[sweep.deleted() as usize]),
            SweepAction::Delete { base_offset } => {
                assert_eq!(store.files.remove(0).base_offset, base_offset);
            }
            SweepAction::Finish => break,
        }
    }
    assert_eq!(sweep.deleted(), 1);
    assert_eq!(store.log.total_size(), 186);
    assert_eq!(store.log.next_offset(), 8);
    for i in 2..8 {
        assert_eq!(store.read_record_at(i).unwrap(), Some(retention_record(i)));
    }
}

#[test]
fn records_behind_deleted_segments_are_still_read() {
    let cfg = LogConfig { max_partition_bytes: Some(300), ..small_segments(100, 50) };
    let mut store = retained(cfg, 20);
    assert!(store.apply_retention(0, 0) > 0);
    let first = store.log.segment(0).segment().base_offset();
    assert!(first > 0);
    for i in 0..first {
        assert_eq!(store.read_record_at(i).unwrap(), None);
    }
    for i in first..20 {
        assert_eq!(store.read_record_at(i).unwrap(), Some(retention_record(i)));
    }
    assert_eq!(store.append(record(20)).unwrap(), 20);
}

#[test]
fn log_append_then_read_preserves_records() {
    for compression in [Compression::Uncompressed, Compression::Lz4, Compression::Zstd] {
        let mut store = Store::create(LogConfig { compression, ..Default::default() });
        let expected: Vec<Record> = (0..32usize)
            .map(|i| {
                let key = match i % 3 {
                    0 => None,
                    1 => Some(Bytes::new()),
                    _ => Some(Bytes::from(vec![i as u8; i * 2])),
                };
                let value: Vec<u8> = (0..i * 8).map(|j| (j * j * 31 + i) as u8).collect();
                Record::new(i as i64, key, Bytes::from(value))
            })
            .collect();
        for (i, r) in expected.iter().enumerate() {
            assert_eq!(store.append(r.clone()).unwrap(), i as u64);
        }
        for (i, r) in expected.iter().enumerate() {
            assert_eq!(store.read_record_at(i as u64).unwrap().as_ref(), Some(r));
        }
    }
}

#[test]
fn log_rotation_preserves_count_and_order() {
    for compression in [Compression::Uncompressed, Compression::Lz4, Compression::Zstd] {
        for segment_size_threshold in [64u64, 65, 100, 511, 1024, 2047] {
            let mut store = Store::create(LogConfig {
                segment_size_threshold,
                compression,
                ..Default::default()
            });
            let payloads: Vec<Bytes> =
                (0..47usize).map(|i| Bytes::from(vec![i as u8; 1 + (i * 89) % 511])).collect();
            for (i, value) in payloads.iter().enumerate() {
                let r = Record::new(i as i64, None, value.clone());
                assert_eq!(store.append(r).unwrap(), i as u64);
            }
            assert_eq!(store.log.next_offset(), payloads.len() as u64);
            for (i, expected) in payloads.iter().enumerate() {
                let actual = store.read_record_at(i as u64).unwrap();
                assert_eq!(actual.expect("missing record").value(), expected);
            }
        }
    }
}

#[test]
fn reopen_partition_recovers_hwm() {
    let mut store = filled(LogConfig::default(), 2).reopen();
    assert_eq!(Partition::open(store.log.next_offset()).high_water_mark(), 2);
    assert_eq!(store.read_record_at(0).unwrap(), Some(record(0)));
    assert_eq!(store.read_record_at(1).unwrap(), Some(record(1)));
}

#[test]
fn send_batch_is_durable_across_shutdown_and_reopen() {
    let payloads: Vec<Bytes> = (0..200).map(|i| Bytes::from(format!("rec-{i}"))).collect();
    let mut store = Store::create(LogConfig::default());
    let records = payloads.iter().map(|v| Record::new(0, None, v.clone())).collect();
    assert_eq!(store.append_batch(records).unwrap().len(), 200);

    let mut store = store.reopen();
    for (i, expected) in payloads.iter().enumerate() {
        let r = store.read_record_at(i as u64).unwrap();
        let r = r.unwrap_or_else(|| panic!("missing record at {i}"));
        assert_eq!(r.value(), expected, "wrong value at offset {i}");
    }
}

#[test]
fn lengths_of_time_are_kept_to_the_nanosecond() {
    let short = Duration::new(0, 250_000);
    assert_eq!((short.as_secs(), short.subsec_nanos(), short.as_millis()), (0, 250_000, 0));
    let long = Duration::new(2, 999_999_999);
    assert_eq!(long.as_millis(), 2_999);
    assert_eq!(Duration::from_millis(1_500), Duration::new(1, 500_000_000));
    assert_eq!(Duration::from_secs(u64::MAX).as_millis(), u64::MAX as u128 * 1_000);
    let config = LogConfig { retention_check_interval: short, ..Default::default() };
    assert_eq!(Store::create(config).log.config().retention_check_interval, short);
}
