use bytes::Bytes;
use kafko::log::Effect;
use kafko::offset_store::{encode, OffsetStore};
use kafko::partition::{replies, writer_death_error, Action, Coalesced, Command};
use kafko::producer::{check_partition, route, Batch};
use kafko::scan::find_record;
use kafko::topic::{fnv1a_64, partition_index};
use kafko::{
    Compression, Consumer, Kafko, KafkoError, Log, LogConfig, Partition, Record, RecordPosition,
    Topic,
};
use std::collections::{HashMap, HashSet};

/// A partition with its log, its files in memory.
struct Store {
    log: Log,
    writer: Partition,
    files: Vec<Vec<u8>>,
}

impl Store {
    fn new(config: LogConfig) -> Self {
        let log = Log::create(&Vec::new(), config).unwrap();
        Store { log, writer: Partition::open(0), files: vec![Vec::new()] }
    }

    fn write(&mut self, records: Vec<Record>) -> Result<Vec<u64>, KafkoError> {
        let plan = self.log.append_batch(records);
        for effect in &plan.effects {
            match effect {
                Effect::OpenSegment { .. } => self.files.push(Vec::new()),
                Effect::Write { bytes } => self.files.last_mut().unwrap().extend_from_slice(bytes),
                _ => {}
            }
            self.log.apply(effect);
        }
        self.writer.finish_append(&plan.result);
        plan.result
    }

    fn send(&mut self, command: Command) -> Result<Vec<u64>, KafkoError> {
        match self.writer.handle(command) {
            Action::Write(records) => self.write(records),
            Action::Refuse(e) => Err(e),
            other => panic!("not an append: {other:?}"),
        }
    }

    fn append(&mut self, record: Record) -> Result<u64, KafkoError> {
        Ok(self.send(Command::Append(record))?[0])
    }

    fn append_batch(&mut self, records: Vec<Record>) -> Result<Vec<u64>, KafkoError> {
        self.send(Command::AppendBatch(records))
    }

    fn read_record_at(&self, offset: u64) -> Option<Record> {
        let plan = self.log.read_record_at(offset)?;
        let data = &self.files[plan.segment][plan.file_pos as usize..];
        find_record(data, plan.starting_offset, offset).unwrap()
    }
}

/// A topic with its partitions.
struct Stream {
    topic: Topic,
    partitions: Vec<Store>,
}

impl Stream {
    fn with_config(partitions: u32, config: LogConfig) -> Self {
        let topic = Topic::create("t", partitions, config).unwrap();
        let partitions = (0..partitions).map(|_| Store::new(config)).collect();
        Stream { topic, partitions }
    }

    fn new(partitions: u32) -> Self {
        Stream::with_config(partitions, LogConfig::default())
    }

    fn send_record(&mut self, record: Record) -> RecordPosition {
        let partition = route(&mut self.topic, record.key().map(|k| k.as_ref()));
        let offset = self.partitions[partition as usize].append(record).unwrap();
        RecordPosition::new(partition, offset)
    }

    fn send(&mut self, key: Option<Bytes>, value: Bytes) -> RecordPosition {
        self.send_record(Record::new(0, key, value))
    }

    fn send_batch(&mut self, records: Vec<Record>) -> Vec<RecordPosition> {
        let mut batch = Batch::route(&mut self.topic, &records);
        loop {
            let p = batch.placed();
            let Some(bucket) = batch.next_bucket() else {
                return batch.finish();
            };
            let offsets = if bucket.records.is_empty() {
                Vec::new()
            } else {
                self.partitions[p].append_batch(bucket.records.clone()).unwrap()
            };
            batch.place(&offsets);
        }
    }

    fn high_water_marks(&self) -> Vec<u64> {
        self.partitions.iter().map(|p| p.writer.high_water_mark()).collect()
    }

    fn consumer(&self) -> Consumer {
        Consumer::from_topic(self.topic.partition_count())
    }

    fn group(&self, name: &str, file: Option<&[u8]>) -> Result<Consumer, KafkoError> {
        let store = OffsetStore::open(name, self.topic.partition_count(), file)?;
        Ok(Consumer::from_topic_with_group(&self.high_water_marks(), store))
    }

    fn next(&self, consumer: &mut Consumer) -> Option<(RecordPosition, Record)> {
        let mut asked = 0;
        while let Some((partition, offset)) = consumer.ask(asked) {
            let record = self.partitions[partition as usize].read_record_at(offset);
            if let Some(taken) = consumer.answer(asked, record) {
                return Some(taken);
            }
            asked += 1;
        }
        None
    }

    fn next_record(&self, consumer: &mut Consumer) -> Record {
        self.next(consumer).unwrap().1
    }
}

fn key(s: &str) -> Bytes {
    Bytes::from(s.to_string())
}

fn val(s: &str) -> Bytes {
    Bytes::from(s.to_string())
}

fn record(marker: u64) -> Record {
    Record::new(
        marker as i64,
        Some(Bytes::from(format!("key-{marker}"))),
        Bytes::from(format!("value-{marker}")),
    )
}

fn keyless(values: &[&str]) -> Vec<Record> {
    values.iter().map(|v| Record::new(0, None, val(v))).collect()
}

fn offsets(positions: &[RecordPosition]) -> Vec<u64> {
    positions.iter().map(|p| p.offset()).collect()
}

#[test]
fn partition_index_is_in_range_and_deterministic() {
    for count in [1u32, 2, 3, 7, 16] {
        for key in [b"".as_slice(), b"a", b"customer-42", b"\x00\xff\x10"] {
            let p = partition_index(key, count);
            assert!(p < count, "index {p} out of range for count {count}");
            assert_eq!(p, partition_index(key, count));
        }
    }
}

#[test]
fn partition_index_spreads_keys_across_partitions() {
    let count = 8u32;
    let mut seen = HashSet::new();
    for i in 0..1000u32 {
        let key = format!("key-{i}");
        seen.insert(partition_index(key.as_bytes(), count));
    }
    assert_eq!(seen.len(), count as usize);
}

#[test]
fn the_hash_is_fnv1a() {
    assert_eq!(fnv1a_64(b""), 0xcbf2_9ce4_8422_2325);
    assert_eq!(fnv1a_64(b"a"), 0xaf63_dc4c_8601_ec8c);
    assert_eq!(fnv1a_64(b"foobar"), 0x8594_4171_f739_67e8);
}

#[test]
fn same_key_routes_to_same_partition_keys_spread() {
    let mut stream = Stream::new(4);
    let a = stream.send(Some(key("user-1")), val("x"));
    let b = stream.send(Some(key("user-1")), val("y"));
    assert_eq!(a.partition(), b.partition());
    assert_eq!(b.offset(), a.offset() + 1);

    let mut partitions = HashSet::new();
    for i in 0..200 {
        let pos = stream.send(Some(key(&format!("k{i}"))), val("v"));
        partitions.insert(pos.partition());
    }
    assert!(
        partitions.len() > 1,
        "expected keys to spread across partitions, got {partitions:?}"
    );
    for &p in &partitions {
        assert!(p < 4);
    }
}

#[test]
fn per_key_order_is_preserved_through_merged_consume() {
    let mut stream = Stream::new(4);
    stream.send(Some(key("A")), val("a0"));
    stream.send(Some(key("B")), val("b0"));
    stream.send(Some(key("A")), val("a1"));
    stream.send(Some(key("B")), val("b1"));
    stream.send(Some(key("A")), val("a2"));

    let mut consumer = stream.consumer();
    let mut by_key: HashMap<Bytes, Vec<Bytes>> = HashMap::new();
    for _ in 0..5 {
        let record = stream.next_record(&mut consumer);
        by_key
            .entry(record.key().unwrap().clone())
            .or_default()
            .push(record.value().clone());
    }
    assert_eq!(by_key[&key("A")], vec![val("a0"), val("a1"), val("a2")]);
    assert_eq!(by_key[&key("B")], vec![val("b0"), val("b1")]);
    assert!(stream.next(&mut consumer).is_none());
}

#[test]
fn merged_consumer_drains_all_partitions() {
    let mut stream = Stream::new(8);
    let expected: HashSet<Bytes> = (0..100).map(|i| val(&format!("v{i}"))).collect();
    for v in &expected {
        stream.send(None, v.clone());
    }
    let mut consumer = stream.consumer();
    let mut got = HashSet::new();
    for _ in 0..100 {
        got.insert(stream.next_record(&mut consumer).value().clone());
    }
    assert_eq!(got, expected);
}

#[test]
fn records_without_a_key_take_turns() {
    let mut topic = Topic::create("t", 3, LogConfig::default()).unwrap();
    let turns: Vec<u32> = (0..7).map(|_| topic.next_round_robin()).collect();
    assert_eq!(turns, vec![0, 1, 2, 0, 1, 2, 0]);
    // A record with a key takes no turn.
    route(&mut topic, Some(b"k"));
    assert_eq!(route(&mut topic, None), 1);
}

#[test]
fn zero_partitions_is_rejected() {
    let broker = Kafko::new(LogConfig::default());
    match broker.check_create_topic("t", 0) {
        Err(KafkoError::InvalidPartitionCount(0)) => {}
        other => panic!("expected InvalidPartitionCount(0), got {other:?}"),
    }
    match Topic::create("t", 0, LogConfig::default()) {
        Err(KafkoError::InvalidPartitionCount(0)) => {}
        other => panic!("expected InvalidPartitionCount(0), got {other:?}"),
    }
    assert!(!broker.has_topic("t"));
}

fn directories(names: &[&str]) -> Vec<String> {
    names.iter().map(|s| s.to_string()).collect()
}

#[test]
fn legacy_flat_topic_layout_is_rejected() {
    match Topic::open("orders", &directories(&[]), LogConfig::default()) {
        Err(KafkoError::InvalidTopicLayout { topic, detail }) => {
            assert_eq!(topic, "orders");
            assert_eq!(
                detail,
                "no partition subdirectories found (a data directory written by kafko <= 0.2 is not compatible with the partitioned 0.3 layout)"
            );
        }
        Err(other) => panic!("expected InvalidTopicLayout, got {other:?}"),
        Ok(_) => panic!("expected InvalidTopicLayout, got Ok"),
    }
}

#[test]
fn topics_are_opened_from_their_directories() {
    let names = directories(&["2", "offsets", "0", "10", "1", "3", "9", "4", "8", "5", "7", "6"]);
    let topic = Topic::open("orders", &names, LogConfig::default()).unwrap();
    assert_eq!(topic.partition_count(), 11);
    assert_eq!(topic.name(), "orders");
    assert!(topic.has_partition(10));
    assert!(!topic.has_partition(11));

    for (names, detail) in [
        (
            directories(&["0", "2"]),
            "partition indices are not contiguous from 0 (expected 1, found 2)",
        ),
        (
            directories(&["17"]),
            "partition indices are not contiguous from 0 (expected 0, found 17)",
        ),
        (
            directories(&["0", "1", "01"]),
            "partition indices are not contiguous from 0 (expected 2, found 1)",
        ),
    ] {
        match Topic::open("orders", &names, LogConfig::default()) {
            Err(KafkoError::InvalidTopicLayout { detail: found, .. }) => assert_eq!(found, detail),
            other => panic!("expected InvalidTopicLayout, got {other:?}"),
        }
    }
}

#[test]
fn an_unknown_partition_is_refused() {
    let topic = Topic::create("t", 2, LogConfig::default()).unwrap();
    assert!(check_partition(&topic, 1).is_ok());
    assert!(matches!(
        check_partition(&topic, 2),
        Err(KafkoError::InvalidPartitionCount(2))
    ));
}

#[test]
fn send_returns_assigned_position() {
    let mut stream = Stream::new(1);

    let pos = stream.send(Some(Bytes::from_static(b"k")), Bytes::from_static(b"v"));
    assert_eq!(pos.partition(), 0);
    assert_eq!(pos.offset(), 0);

    let pos = stream.send(Some(Bytes::from_static(b"k")), Bytes::from_static(b"v"));
    assert_eq!(pos.offset(), 1);

    assert_eq!(stream.partitions[0].writer.high_water_mark(), 2);
}

#[test]
fn send_record_preserves_provided_timestamp() {
    let mut stream = Stream::new(1);
    stream.send_record(Record::new(1_700_000_000_123, None, val("v")));
    let mut consumer = stream.consumer();
    assert_eq!(stream.next_record(&mut consumer).timestamp_ms(), 1_700_000_000_123);
}

#[test]
fn send_batch_returns_sequential_offsets_starting_from_hwm() {
    let mut stream = Stream::new(1);
    assert_eq!(offsets(&stream.send_batch(keyless(&["a", "b", "c"]))), vec![0, 1, 2]);
    assert_eq!(offsets(&stream.send_batch(keyless(&["d", "e"]))), vec![3, 4]);
}

#[test]
fn send_batch_empty_input_returns_empty_vec_without_round_trip() {
    let mut stream = Stream::new(1);
    assert!(stream.send_batch(Vec::new()).is_empty());
    assert_eq!(stream.high_water_marks(), vec![0]);
    assert_eq!(stream.send(None, val("x")).offset(), 0);
    let mut consumer = stream.consumer();
    assert_eq!(stream.next_record(&mut consumer).value().as_ref(), b"x");
}

#[test]
fn send_batch_records_round_trip_through_consumer_in_order() {
    let mut stream = Stream::new(1);
    let payloads: Vec<Bytes> = (0..16).map(|i| Bytes::from(format!("rec-{i}"))).collect();
    let records = payloads.iter().map(|v| Record::new(0, None, v.clone())).collect();
    assert_eq!(offsets(&stream.send_batch(records)), (0..16).collect::<Vec<_>>());
    let mut consumer = stream.consumer();
    for expected in &payloads {
        assert_eq!(stream.next_record(&mut consumer).value(), expected);
    }
}

#[test]
fn send_batch_records_preserves_caller_supplied_timestamps() {
    let mut stream = Stream::new(1);
    let records = vec![
        Record::new(1_700_000_000_000, None, Bytes::from_static(b"r0")),
        Record::new(1_700_000_000_500, None, Bytes::from_static(b"r1")),
        Record::new(1_700_000_001_000, None, Bytes::from_static(b"r2")),
    ];
    assert_eq!(offsets(&stream.send_batch(records.clone())), vec![0, 1, 2]);
    let mut consumer = stream.consumer();
    for expected in &records {
        let r = stream.next_record(&mut consumer);
        assert_eq!(r.timestamp_ms(), expected.timestamp_ms());
        assert_eq!(r.value(), expected.value());
    }
}

#[test]
fn send_batch_advances_high_water_mark_by_batch_size() {
    let mut p = Store::new(LogConfig::default());
    assert_eq!(p.writer.high_water_mark(), 0);
    let records: Vec<Record> = (0..8)
        .map(|i| Record::new(i as i64, None, Bytes::from(format!("v{i}"))))
        .collect();
    let offsets = p.append_batch(records).unwrap();
    assert_eq!(offsets, (0..8).collect::<Vec<u64>>());
    assert_eq!(p.writer.high_water_mark(), 8);
}

#[test]
fn send_batch_propagates_io_error_to_caller() {
    let mut p = Store::new(LogConfig::default());
    let noted = p.writer.handle(Command::FailNextAppend(std::io::ErrorKind::StorageFull));
    assert!(matches!(noted, Action::Nothing));

    let records: Vec<Record> = (0..4)
        .map(|i| Record::new(0, None, Bytes::from(format!("v{i}"))))
        .collect();
    match p.append_batch(records) {
        Err(KafkoError::Io(e)) => {
            assert_eq!(e.kind, std::io::ErrorKind::StorageFull);
            assert_eq!(
                e.message,
                std::io::Error::from(std::io::ErrorKind::StorageFull).to_string()
            );
        }
        other => panic!("expected Io(StorageFull), got {:?}", other),
    }
    assert_eq!(p.writer.high_water_mark(), 0);

    // The failure is used up: the next batch succeeds.
    let r = Record::new(0, None, Bytes::from_static(b"v"));
    assert_eq!(p.append_batch(vec![r]).unwrap(), vec![0]);
}

fn send_batch_round_trip_with_compression(compression: Compression) {
    let mut stream =
        Stream::with_config(1, LogConfig { compression, ..Default::default() });
    let payloads: Vec<Bytes> = (0..32).map(|i| Bytes::from(vec![i as u8; 1024])).collect();
    let records = payloads.iter().map(|v| Record::new(0, None, v.clone())).collect();
    assert_eq!(stream.send_batch(records).len(), 32);
    let mut consumer = stream.consumer();
    for expected in &payloads {
        assert_eq!(stream.next_record(&mut consumer).value(), expected);
    }
}

#[test]
fn send_batch_lz4_compressed_round_trip() {
    send_batch_round_trip_with_compression(Compression::Lz4);
}

#[test]
fn send_batch_zstd_compressed_round_trip() {
    send_batch_round_trip_with_compression(Compression::Zstd);
}

#[test]
fn a_batch_over_several_partitions_reports_positions_in_input_order() {
    let mut stream = Stream::new(4);
    stream.send(None, val("first"));
    let records: Vec<Record> = (0..40)
        .map(|i| {
            let k = if i % 3 == 0 { None } else { Some(key(&format!("k{}", i % 5))) };
            Record::new(i, k, val(&format!("v{i}")))
        })
        .collect();
    let positions = stream.send_batch(records.clone());
    assert_eq!(positions.len(), 40);
    let mut turn = 1;
    for (record, position) in records.iter().zip(&positions) {
        let expected = match record.key() {
            Some(k) => partition_index(k, 4),
            None => {
                turn += 1;
                (turn - 1) % 4
            }
        };
        assert_eq!(position.partition(), expected);
        let stored = stream.partitions[expected as usize].read_record_at(position.offset());
        assert_eq!(stored.as_ref(), Some(record));
    }
    // Within a partition the batch's order is kept.
    for p in 0..4 {
        let there: Vec<u64> =
            positions.iter().filter(|x| x.partition() == p).map(|x| x.offset()).collect();
        assert!(there.windows(2).all(|w| w[0] < w[1]));
    }
}

#[test]
fn open_fresh_partition_starts_at_hwm_zero() {
    assert_eq!(Store::new(LogConfig::default()).writer.high_water_mark(), 0);
}

#[test]
fn append_returns_offset_and_advances_hwm() {
    let mut p = Store::new(LogConfig::default());
    assert_eq!(p.append(record(0)).unwrap(), 0);
    assert_eq!(p.writer.high_water_mark(), 1);
    assert_eq!(p.append(record(1)).unwrap(), 1);
    assert_eq!(p.writer.high_water_mark(), 2);
    assert_eq!(p.append(record(2)).unwrap(), 2);
    assert_eq!(p.writer.high_water_mark(), 3);
}

#[test]
fn read_back_appended_records_via_actor() {
    let mut p = Store::new(LogConfig::default());
    p.append(record(0)).unwrap();
    p.append(record(1)).unwrap();
    assert_eq!(p.read_record_at(0), Some(record(0)));
    assert_eq!(p.read_record_at(1), Some(record(1)));
    assert_eq!(p.read_record_at(2), None);
}

#[test]
fn commands_are_answered_in_kind() {
    let mut writer = Partition::open(5);
    assert_eq!(writer.high_water_mark(), 5);
    assert!(matches!(writer.handle(Command::ReadAt(3)), Action::Read(3)));
    assert!(matches!(writer.handle(Command::Sync), Action::Sync));
    assert!(matches!(writer.handle(Command::Poison), Action::Panic));
    match writer.handle(Command::Append(record(1))) {
        Action::Write(records) => assert_eq!(records, vec![record(1)]),
        other => panic!("expected Write, got {other:?}"),
    }
}

#[test]
fn appends_that_piled_up_are_written_together() {
    let config = LogConfig { batch_max_records: 3, ..Default::default() };
    let mut batch = Coalesced::start(record(0));
    assert!(batch.wants_more(&config));
    assert!(batch.absorb(Command::Append(record(1))).is_none());
    assert!(matches!(batch.absorb(Command::Sync), Some(Command::Sync)));
    assert!(batch.wants_more(&config));
    assert!(batch.absorb(Command::Append(record(2))).is_none());
    assert!(!batch.wants_more(&config), "the record limit is reached");
    assert_eq!(batch.len(), 3);

    let bytes = 2 * record(0).wire_size() as u64;
    let config = LogConfig { batch_max_bytes: bytes, ..Default::default() };
    let mut batch = Coalesced::start(record(0));
    assert!(batch.wants_more(&config));
    batch.absorb(Command::Append(record(1)));
    assert!(!batch.wants_more(&config), "the byte limit is reached");
    assert_eq!(batch.into_records(), vec![record(0), record(1)]);
}

#[test]
fn every_waiter_gets_its_own_reply() {
    let all = replies(Ok(vec![7, 8, 9]), 3);
    assert_eq!(all.iter().map(|r| *r.as_ref().unwrap()).collect::<Vec<_>>(), vec![7, 8, 9]);

    let all = replies(Err(KafkoError::UnknownCompression(9)), 2);
    assert_eq!(all.len(), 2);
    for reply in all {
        assert!(matches!(reply, Err(KafkoError::UnknownCompression(9))));
    }
}

#[test]
fn a_stopped_writer_says_why() {
    assert!(matches!(writer_death_error(None), KafkoError::Closed));
    match writer_death_error(Some("intentional panic".to_string())) {
        KafkoError::PartitionPanicked { payload } => assert_eq!(payload, "intentional panic"),
        other => panic!("expected PartitionPanicked, got {other:?}"),
    }
}

#[test]
fn consumer_reads_back_existing_records() {
    let mut stream = Stream::new(1);
    for i in 0..3 {
        stream.send_record(record(i));
    }
    let mut consumer = stream.consumer();
    for i in 0..3 {
        assert_eq!(stream.next_record(&mut consumer), record(i));
    }
}

#[test]
fn consumer_position_advances_after_each_read() {
    let mut stream = Stream::new(1);
    stream.send_record(record(0));
    stream.send_record(record(1));
    let mut consumer = stream.consumer();
    assert_eq!(consumer.position(0), 0);
    stream.next_record(&mut consumer);
    assert_eq!(consumer.position(0), 1);
    stream.next_record(&mut consumer);
    assert_eq!(consumer.position(0), 2);
    assert_eq!(consumer.position(1), 0);
}

#[test]
fn consumer_can_seek_to_offset() {
    let mut stream = Stream::new(1);
    for i in 0..5 {
        stream.send_record(record(i));
    }
    let mut consumer = stream.consumer();
    consumer.seek(0, 3);
    consumer.seek(7, 1);
    assert_eq!(stream.next_record(&mut consumer), record(3));
    assert_eq!(stream.next_record(&mut consumer), record(4));
    assert_eq!(consumer.position(0), 5);
    consumer.seek_all(1);
    assert_eq!(stream.next_record(&mut consumer), record(1));
}

#[test]
fn multiple_consumers_have_independent_cursors() {
    let mut stream = Stream::new(1);
    for i in 0..5 {
        stream.send_record(record(i));
    }
    let mut c1 = stream.consumer();
    let mut c2 = Consumer::from_topic_at(1, 2);
    assert_eq!(stream.next_record(&mut c1), record(0));
    assert_eq!(stream.next_record(&mut c2), record(2));
    assert_eq!(stream.next_record(&mut c1), record(1));
    assert_eq!(stream.next_record(&mut c2), record(3));
    assert_eq!(c1.position(0), 2);
    assert_eq!(c2.position(0), 4);
}

#[test]
fn consumer_at_start_offset_skips_earlier_records() {
    let mut stream = Stream::new(1);
    for i in 0..5 {
        stream.send_record(record(i));
    }
    let mut consumer = Consumer::from_topic_at(1, 3);
    assert_eq!(stream.next_record(&mut consumer), record(3));
    assert_eq!(stream.next_record(&mut consumer), record(4));
}

#[test]
fn a_busy_partition_does_not_starve_the_others() {
    let mut stream = Stream::new(3);
    for i in 0..10 {
        stream.partitions[0].append(record(i)).unwrap();
    }
    stream.partitions[2].append(record(100)).unwrap();
    let mut consumer = stream.consumer();
    let order: Vec<u32> =
        (0..4).map(|_| stream.next(&mut consumer).unwrap().0.partition()).collect();
    assert_eq!(order, vec![0, 2, 0, 0]);
    assert_eq!(consumer.ask(0).unwrap().0, 1);
    assert_eq!(consumer.ask(1).unwrap().0, 2);
    assert_eq!(consumer.ask(2).unwrap(), (0, 3));
    assert_eq!(consumer.ask(3), None);
}

#[test]
fn group_resumes_from_committed_offset_after_reopen() {
    let mut stream = Stream::new(1);
    for i in 0..10 {
        stream.send(None, val(&format!("v{i}")));
    }
    let mut c = stream.group("g", None).unwrap();
    for i in 0..4 {
        assert_eq!(stream.next_record(&mut c).value(), &val(&format!("v{i}")));
    }
    let file = c.commit_bytes().unwrap();
    assert_eq!(c.committed(0), Some(0));
    c.commit_done();
    assert_eq!(c.committed(0), Some(4));
    assert_eq!(c.group(), Some("g"));
    assert_eq!(c.store().unwrap().file_name(), "g");

    let mut c = stream.group("g", Some(&file)).unwrap();
    assert_eq!(c.committed(0), Some(4));
    assert_eq!(c.position(0), 4);
    for i in 4..10 {
        assert_eq!(stream.next_record(&mut c).value(), &val(&format!("v{i}")));
    }
}

#[test]
fn distinct_groups_keep_independent_positions() {
    let mut stream = Stream::new(1);
    for i in 0..10 {
        stream.send(None, val(&format!("v{i}")));
    }
    let mut a = stream.group("a", None).unwrap();
    for _ in 0..3 {
        stream.next_record(&mut a);
    }
    let mut b = stream.group("b", None).unwrap();
    for _ in 0..7 {
        stream.next_record(&mut b);
    }
    let (file_a, file_b) = (a.commit_bytes().unwrap(), b.commit_bytes().unwrap());
    assert_eq!(stream.group("a", Some(&file_a)).unwrap().committed(0), Some(3));
    assert_eq!(stream.group("b", Some(&file_b)).unwrap().committed(0), Some(7));
}

#[test]
fn anonymous_consumer_starts_at_zero_and_commit_is_noop() {
    let mut stream = Stream::new(1);
    for i in 0..3 {
        stream.send(None, val(&format!("v{i}")));
    }
    let mut c = stream.consumer();
    assert_eq!(c.group(), None);
    assert_eq!(c.committed(0), None);
    assert!(c.commit_bytes().is_none());
    c.commit_done();
    assert_eq!(c.committed(0), None);
    assert_eq!(stream.next_record(&mut c).value(), &val("v0"));
}

#[test]
fn group_resumes_per_partition_on_multi_partition_topic() {
    let mut stream = Stream::new(4);
    let all: HashSet<Bytes> = (0..20).map(|i| val(&format!("v{i}"))).collect();
    for i in 0..20 {
        stream.send(None, val(&format!("v{i}")));
    }
    let mut c = stream.group("g", None).unwrap();
    let mut first_half = HashSet::new();
    for _ in 0..8 {
        first_half.insert(stream.next_record(&mut c).value().clone());
    }
    let file = c.commit_bytes().unwrap();

    let mut c = stream.group("g", Some(&file)).unwrap();
    let mut second_half = HashSet::new();
    for _ in 0..12 {
        second_half.insert(stream.next_record(&mut c).value().clone());
    }
    assert_eq!(first_half.len(), 8);
    assert_eq!(second_half.len(), 12);
    assert!(first_half.is_disjoint(&second_half), "a record was read twice across resume");
    let union: HashSet<Bytes> = first_half.union(&second_half).cloned().collect();
    assert_eq!(union, all);
}

#[test]
fn corrupt_offset_file_resumes_from_zero() {
    let mut stream = Stream::new(1);
    for i in 0..5 {
        stream.send(None, val(&format!("v{i}")));
    }
    let mut c = stream.group("g", Some(b"garbage")).unwrap();
    assert_eq!(c.committed(0), Some(0));
    assert_eq!(stream.next_record(&mut c).value(), &val("v0"));
}

#[test]
fn a_commit_past_the_end_is_clamped() {
    let mut stream = Stream::new(2);
    stream.send(None, val("v0"));
    let file = encode(&[9, 9]);
    let c = stream.group("g", Some(&file)).unwrap();
    assert_eq!(c.committed(0), Some(9));
    assert_eq!(c.position(0), 1);
    assert_eq!(c.position(1), 0);
}

fn create(broker: &mut Kafko, name: &str, partitions: u32) -> Result<(), KafkoError> {
    broker.check_create_topic(name, partitions)?;
    let topic = Topic::create(name, partitions, *broker.default_log_config())?;
    broker.create_topic(topic)
}

#[test]
fn open_empty_kafko_has_no_topics() {
    assert!(Kafko::new(LogConfig::default()).list_topics().is_empty());
}

#[test]
fn create_topic_appears_in_list() {
    let mut broker = Kafko::new(LogConfig::default());
    create(&mut broker, "orders", 1).unwrap();
    assert_eq!(broker.list_topics(), vec!["orders".to_string()]);
    assert!(broker.has_topic("orders"));
    assert_eq!(broker.partition_count("orders"), Some(1));
    assert_eq!(broker.partition_count("ghost"), None);
}

#[test]
fn create_existing_topic_returns_error() {
    let mut broker = Kafko::new(LogConfig::default());
    create(&mut broker, "orders", 1).unwrap();
    match create(&mut broker, "orders", 1) {
        Err(KafkoError::TopicAlreadyExists(name)) => assert_eq!(name, "orders"),
        other => panic!("expected TopicAlreadyExists, got {:?}", other),
    }
    // Also where another caller was first.
    let topic = Topic::create("orders", 4, LogConfig::default()).unwrap();
    match broker.create_topic(topic) {
        Err(KafkoError::TopicAlreadyExists(name)) => assert_eq!(name, "orders"),
        other => panic!("expected TopicAlreadyExists, got {:?}", other),
    }
    assert_eq!(broker.partition_count("orders"), Some(1));
}

#[test]
fn multiple_topics_appear_sorted_in_list() {
    let mut broker = Kafko::new(LogConfig::default());
    for name in ["orders", "events", "audit"] {
        create(&mut broker, name, 1).unwrap();
    }
    assert_eq!(
        broker.list_topics(),
        vec!["audit".to_string(), "events".to_string(), "orders".to_string()]
    );
    for name in ["order", "ordersx", "Zeta", "über", "a"] {
        create(&mut broker, name, 1).unwrap();
    }
    let mut sorted = broker.list_topics();
    sorted.sort();
    assert_eq!(broker.list_topics(), sorted);
    assert_eq!(sorted.len(), 8);
}

#[test]
fn delete_nonexistent_topic_returns_error() {
    let mut broker = Kafko::new(LogConfig::default());
    match broker.delete_topic("ghost") {
        Err(KafkoError::TopicNotFound(name)) => assert_eq!(name, "ghost"),
        other => panic!("expected TopicNotFound, got {:?}", other),
    }
}

#[test]
fn delete_then_recreate_works() {
    let mut broker = Kafko::new(LogConfig::default());
    create(&mut broker, "orders", 1).unwrap();
    broker.delete_topic("orders").unwrap();
    assert!(broker.list_topics().is_empty());
    create(&mut broker, "orders", 1).unwrap();
    assert_eq!(broker.list_topics(), vec!["orders".to_string()]);
}

#[test]
fn delete_topic_in_use_returns_error_and_preserves_state() {
    let mut broker = Kafko::new(LogConfig::default());
    create(&mut broker, "orders", 3).unwrap();
    create(&mut broker, "events", 1).unwrap();
    let topic = broker.delete_topic("orders").unwrap();
    match broker.restore_topic(topic) {
        KafkoError::TopicInUse(name) => assert_eq!(name, "orders"),
        other => panic!("expected TopicInUse, got {:?}", other),
    }
    assert!(broker.has_topic("orders"));
    assert_eq!(broker.partition_count("orders"), Some(3));
    assert_eq!(broker.list_topics().len(), 2);
}

#[test]
fn producer_for_nonexistent_topic_returns_error() {
    let broker = Kafko::new(LogConfig::default());
    match broker.require_topic("ghost") {
        Err(KafkoError::TopicNotFound(name)) => assert_eq!(name, "ghost"),
        other => panic!("expected TopicNotFound, got {:?}", other),
    }
    assert!(broker.topic("ghost").is_none());
}

#[test]
fn has_topic_reflects_create_and_delete() {
    let mut broker = Kafko::new(LogConfig::default());
    assert!(!broker.has_topic("orders"));
    create(&mut broker, "orders", 1).unwrap();
    assert!(broker.has_topic("orders"));
    broker.delete_topic("orders").unwrap();
    assert!(!broker.has_topic("orders"));
}

#[test]
fn topics_have_independent_offset_streams() {
    let mut broker = Kafko::new(LogConfig::default());
    create(&mut broker, "orders", 1).unwrap();
    create(&mut broker, "events", 1).unwrap();

    let mut p_orders = Stream::new(broker.partition_count("orders").unwrap());
    let mut p_events = Stream::new(broker.partition_count("events").unwrap());
    assert_eq!(p_orders.send(None, Bytes::from_static(b"o0")).offset(), 0);
    assert_eq!(p_orders.send(None, Bytes::from_static(b"o1")).offset(), 1);
    assert_eq!(p_events.send(None, Bytes::from_static(b"e0")).offset(), 0);

    // Both topics start their own offset count at 0
    assert_eq!(p_orders.send(None, Bytes::from_static(b"o2")).offset(), 2);
    assert_eq!(p_events.send(None, Bytes::from_static(b"e1")).offset(), 1);
}

#[test]
fn positions_hold_a_partition_and_an_offset() {
    let position = RecordPosition::new(3, 17);
    assert_eq!(position.partition(), 3);
    assert_eq!(position.offset(), 17);
    assert_ne!(position, RecordPosition::new(3, 18));
    assert_ne!(position, RecordPosition::new(4, 17));
}

#[test]
fn a_consumer_takes_the_record_at_its_cursor() {
    let mut stream = Stream::new(2);
    for i in 0..6 {
        stream.send(None, val(&format!("v{i}")));
    }
    let mut consumer = stream.consumer();
    // An empty answer changes nothing.
    assert!(consumer.answer(0, None).is_none());
    assert_eq!((consumer.position(0), consumer.position(1)), (0, 0));
    for i in 0..6 {
        let before = [consumer.position(0), consumer.position(1)];
        let (position, record) = stream.next(&mut consumer).unwrap();
        let p = position.partition() as usize;
        assert_eq!(position.offset(), before[p]);
        assert_eq!(consumer.position(p as u32), before[p] + 1);
        assert_eq!(consumer.position(1 - p as u32), before[1 - p]);
        assert_eq!(record.value(), &val(&format!("v{i}")));
        assert_eq!(
            stream.partitions[p].read_record_at(position.offset()).as_ref(),
            Some(&record)
        );
    }
    assert!(stream.next(&mut consumer).is_none());
}
