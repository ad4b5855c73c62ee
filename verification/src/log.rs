//! The segmented log of one partition.
//!
//! A [`Log`] does no I/O. To append, it plans a list of [`Effect`]s; a driver
//! carries each out and then applies it to the log, and stops at the first
//! that fails. Offsets are handed out by the last effect of a plan, so a plan
//! that was not carried out to its end has used up none. Where a step failed,
//! [`Log::append_failed`] takes the log back to where it was before the append,
//! and the next append starts by cutting off what the failed one left behind.
use bytes::BytesMut;
use vstd::prelude::*;

use crate::compression;
use crate::compression::{CodecSet, Compression};
use crate::duration::Duration;
use crate::error::KafkoError;
use crate::outside;
use crate::record;
use crate::record::Record;
use crate::scan;
use crate::scan::RecoveryError;
use crate::segment;
use crate::segment::Segment;
use crate::sparse_index;
use crate::sparse_index::SparseIndex;
use crate::text;
use crate::wire;

verus! {

broadcast use wire::group_lengths;

/// The settings of a partition's log.
#[derive(Clone, Copy, Debug)]
pub struct LogConfig {
    /// The size a segment may grow to before the log moves on to a new one.
    pub segment_size_threshold: u64,
    /// After how many bytes of records an index entry is due.
    pub index_interval: u64,
    /// The age past which a sealed segment is deleted.
    pub max_segment_age: Option<Duration>,
    /// The total size past which the oldest sealed segments are deleted.
    pub max_partition_bytes: Option<u64>,
    /// How often old segments are looked for.
    pub retention_check_interval: Duration,
    /// The most records that one flush takes.
    pub batch_max_records: usize,
    /// The number of bytes past which a flush takes no more records.
    pub batch_max_bytes: u64,
    /// How values are stored.
    pub compression: Compression,
}

impl Default for LogConfig {
    fn default() -> (config: Self)
        ensures
            config.segment_size_threshold == 0x4000_0000,
            config.index_interval == 4096,
            config.max_segment_age is None,
            config.max_partition_bytes is None,
            config.retention_check_interval.spec_secs() == 60,
            config.retention_check_interval.spec_nanos() == 0,
            config.batch_max_records == 1024,
            config.batch_max_bytes == 65_536,
            config.compression == Compression::Uncompressed,
    {
        LogConfig {
            segment_size_threshold: 0x4000_0000,
            index_interval: 4 * 1024,
            max_segment_age: None,
            max_partition_bytes: None,
            retention_check_interval: Duration::from_secs(60),
            batch_max_records: 1024,
            batch_max_bytes: 64 * 1024,
            compression: Compression::Uncompressed,
        }
    }
}

/// A segment with its index.
#[derive(Debug)]
pub struct IndexedSegment {
    segment: Segment,
    index: SparseIndex,
}

/// A segment with its index, as a value.
#[verifier::ext_equal]
pub struct IndexedView {
    /// The segment.
    pub segment: segment::SegmentView,
    /// Its index.
    pub index: sparse_index::IndexView,
}

impl View for IndexedSegment {
    type V = IndexedView;

    closed spec fn view(&self) -> IndexedView {
        IndexedView { segment: self.segment@, index: self.index@ }
    }
}

impl IndexedSegment {
    /// Puts a segment and its index together.
    pub fn new(segment: Segment, index: SparseIndex) -> (pair: Self)
        ensures
            pair@ == (IndexedView { segment: segment@, index: index@ }),
    {
        IndexedSegment { segment, index }
    }

    /// The segment.
    pub fn segment(&self) -> (segment: &Segment)
        ensures
            segment@ == self@.segment,
    {
        &self.segment
    }

    /// The segment's index.
    pub fn index(&self) -> (index: &SparseIndex)
        ensures
            index@ == self@.index,
    {
        &self.index
    }
}

impl IndexedView {
    /// A new segment and its index.
    pub open spec fn fresh(base_offset: u64, interval: u64) -> Self {
        IndexedView {
            segment: segment::SegmentView { base_offset, size: 0, cursor: Some(0) },
            index: sparse_index::IndexView {
                base_offset,
                entries: Seq::empty(),
                bytes_since_last_entry: 0,
                interval,
            },
        }
    }

    /// How far the two have come.
    pub open spec fn mark(self) -> MarkView {
        MarkView {
            size: self.segment.size,
            entries: self.index.entries.len(),
            bytes_since_last_entry: self.index.bytes_since_last_entry,
        }
    }

    /// Whether the two belong together.
    pub open spec fn wf(self) -> bool {
        self.index.base_offset == self.segment.base_offset && self.index.addressable()
    }
}

/// How far the active segment had come when an append was last done.
#[derive(Clone, Copy, Debug)]
struct Mark {
    size: u64,
    entries: usize,
    bytes_since_last_entry: u64,
}

/// How far the active segment had come, as a value.
pub struct MarkView {
    /// The size of the segment.
    pub size: u64,
    /// The number of entries in its index.
    pub entries: nat,
    /// How many bytes of records came since the last entry.
    pub bytes_since_last_entry: u64,
}

/// The log of one partition: its segments in order of offset, the last of them
/// the one that is written to.
#[derive(Debug)]
pub struct Log {
    config: LogConfig,
    segments: Vec<IndexedSegment>,
    next_offset: u64,
    mark: Mark,
    torn: bool,
}

/// A log as a value.
#[verifier::ext_equal]
pub struct LogView {
    /// The settings.
    pub config: LogConfig,
    /// The segments, oldest first.
    pub segments: Seq<IndexedView>,
    /// The offset that the next record gets.
    pub next_offset: u64,
    /// How far the active segment had come when an append was last done.
    pub mark: MarkView,
    /// Whether an append failed since: the files of the active segment may hold
    /// more than the log knows of.
    pub torn: bool,
}

/// The segments' views.
pub open spec fn segment_views(segments: Seq<IndexedSegment>) -> Seq<IndexedView> {
    Seq::new(segments.len(), |i: int| segments[i]@)
}

impl View for Log {
    type V = LogView;

    closed spec fn view(&self) -> LogView {
        LogView {
            config: self.config,
            segments: segment_views(self.segments@),
            next_offset: self.next_offset,
            mark: MarkView {
                size: self.mark.size,
                entries: self.mark.entries as nat,
                bytes_since_last_entry: self.mark.bytes_since_last_entry,
            },
            torn: self.torn,
        }
    }
}

/// Why a log cannot be created: there is a segment already.
#[derive(Clone, Copy, Debug, PartialEq, Eq, Structural)]
pub struct SegmentExists {
    /// The base offset of the oldest segment.
    pub base_offset: u64,
}

/// One step of an append, to be carried out on disk and then applied to the
/// log.
#[derive(Debug)]
pub enum Effect {
    /// Cut off what a failed append left in the active segment's files.
    Cut {
        /// The size that the segment's file is cut to.
        data_size: u64,
        /// The size that its index file is cut to.
        index_size: u64,
    },
    /// Flush the active segment and its index to disk.
    SyncActive,
    /// Create the files of a new segment, which becomes the active one.
    OpenSegment {
        /// The offset of its first record.
        base_offset: u64,
    },
    /// Move the active segment's file to a position.
    Seek {
        /// The position.
        position: u64,
    },
    /// Write to the active segment's file.
    Write {
        /// What to write.
        bytes: BytesMut,
    },
    /// Append to the active segment's index file what
    /// [`Log::pending_index_entry`] gives.
    Track {
        /// The record's offset.
        offset: u64,
        /// Where the record starts in the segment's file.
        file_pos: u64,
        /// How many bytes the record takes up.
        size: usize,
    },
    /// Nothing on disk: the records are in the log.
    Advance {
        /// The offset that the next record gets.
        next_offset: u64,
    },
}

/// A step as a value.
pub enum EffectView {
    /// See [`Effect::Cut`].
    Cut {
        /// The size that the segment's file is cut to.
        data_size: u64,
        /// The size that its index file is cut to.
        index_size: nat,
    },
    /// See [`Effect::SyncActive`].
    SyncActive,
    /// See [`Effect::OpenSegment`].
    OpenSegment {
        /// The offset of its first record.
        base_offset: u64,
    },
    /// See [`Effect::Seek`].
    Seek {
        /// The position.
        position: u64,
    },
    /// See [`Effect::Write`].
    Write {
        /// What to write.
        bytes: Seq<u8>,
    },
    /// See [`Effect::Track`].
    Track {
        /// The record's offset.
        offset: u64,
        /// Where the record starts in the segment's file.
        file_pos: u64,
        /// How many bytes the record takes up.
        size: usize,
    },
    /// See [`Effect::Advance`].
    Advance {
        /// The offset that the next record gets.
        next_offset: u64,
    },
}

impl View for Effect {
    type V = EffectView;

    open spec fn view(&self) -> EffectView {
        match *self {
            Effect::Cut { data_size, index_size } => EffectView::Cut {
                data_size,
                index_size: index_size as nat,
            },
            Effect::SyncActive => EffectView::SyncActive,
            Effect::OpenSegment { base_offset } => EffectView::OpenSegment { base_offset },
            Effect::Seek { position } => EffectView::Seek { position },
            Effect::Write { bytes } => EffectView::Write { bytes: outside::buffer_view(bytes) },
            Effect::Track { offset, file_pos, size } => EffectView::Track {
                offset,
                file_pos,
                size,
            },
            Effect::Advance { next_offset } => EffectView::Advance { next_offset },
        }
    }
}

/// The steps of an append, and what it comes to once they are done.
#[derive(Debug)]
pub struct Plan {
    /// The steps.
    pub effects: Vec<Effect>,
    /// The offsets of the records, in order; or why they cannot be appended.
    pub result: Result<Vec<u64>, KafkoError>,
}

/// The steps' views.
pub open spec fn effect_views(effects: Seq<Effect>) -> Seq<EffectView> {
    Seq::new(effects.len(), |i: int| effects[i]@)
}

/// The records' views.
pub open spec fn record_views(records: Seq<Record>) -> Seq<record::RecordView> {
    Seq::new(records.len(), |i: int| records[i]@)
}

/// What some records take up on disk, uncompressed.
pub open spec fn total_wire_len(records: Seq<record::RecordView>) -> nat
    decreases records.len(),
{
    if records.len() == 0 {
        0
    } else {
        total_wire_len(records.drop_last()) + record::wire_len(records.last())
    }
}

/// The most that some records can take up on disk.
pub open spec fn total_bound(codec: Compression, records: Seq<record::RecordView>) -> nat
    decreases records.len(),
{
    if records.len() == 0 {
        0
    } else {
        total_bound(codec, records.drop_last()) + record::encoded_bound(codec, records.last())
    }
}

/// Encoded records, one behind the other.
pub open spec fn concat(frames: Seq<Seq<u8>>) -> Seq<u8>
    decreases frames.len(),
{
    if frames.len() == 0 {
        Seq::empty()
    } else {
        concat(frames.drop_last()) + frames.last()
    }
}

/// Whether `frames` are encoded forms of the records, in order.
pub open spec fn encodes_all(
    codec: Compression,
    records: Seq<record::RecordView>,
    frames: Seq<Seq<u8>>,
) -> bool {
    &&& frames.len() == records.len()
    &&& forall|i: int|
        0 <= i < frames.len() ==> {
            &&& record::encodes(codec, records[i], #[trigger] frames[i])
            &&& frames[i].len() <= record::encoded_bound(codec, records[i])
        }
}

/// The steps that track encoded records written at `file_pos`.
pub open spec fn track_effects(
    next_offset: u64,
    file_pos: u64,
    frames: Seq<Seq<u8>>,
) -> Seq<EffectView> {
    Seq::new(
        frames.len(),
        |i: int|
            EffectView::Track {
                offset: (next_offset + i) as u64,
                file_pos: (file_pos + concat(frames.take(i)).len()) as u64,
                size: frames[i].len() as usize,
            },
    )
}

impl LogView {
    /// A log without records, its first segment just created.
    pub open spec fn new(config: LogConfig) -> Self {
        let first = IndexedView::fresh(0, config.index_interval);
        LogView { config, segments: seq![first], next_offset: 0, mark: first.mark(), torn: false }
    }

    /// A log that was opened: the sealed segments, the active one as its index
    /// was rebuilt, and the number of records in it.
    pub open spec fn opened(
        config: LogConfig,
        sealed: Seq<IndexedView>,
        active: IndexedView,
        records: nat,
    ) -> Self {
        LogView {
            config,
            segments: sealed.push(active),
            next_offset: (active.segment.base_offset + records) as u64,
            mark: active.mark(),
            torn: false,
        }
    }

    /// What every log keeps to.
    pub open spec fn wf(self) -> bool {
        &&& 1 <= self.segments.len() <= usize::MAX
        &&& forall|i: int| 0 <= i < self.segments.len() ==> (#[trigger] self.segments[i]).wf()
        &&& forall|i: int, j: int|
            0 <= i < j < self.segments.len() ==> self.segments[i].segment.base_offset
                <= self.segments[j].segment.base_offset
        &&& self.active().segment.base_offset <= self.next_offset
        &&& self.mark.size <= self.active().segment.size
        &&& self.mark.entries <= self.active().index.entries.len()
    }

    /// The segment that is written to.
    pub open spec fn active(self) -> IndexedView {
        self.segments.last()
    }

    /// The log with another active segment.
    pub open spec fn with_active(self, active: IndexedView) -> Self {
        LogView { segments: self.segments.update(self.segments.len() - 1, active), ..self }
    }

    /// The size of all segments together.
    pub open spec fn total_size(self) -> nat {
        total_size(self.segments)
    }

    /// Whether the log moves on to a new segment before it writes records that
    /// take up `additional` bytes.
    pub open spec fn rotates(self, additional: nat) -> bool {
        self.active().segment.would_overflow(additional, self.config.segment_size_threshold)
    }

    /// Whether these records can be appended at all: they can be encoded into
    /// one buffer, the file can grow by as much, and there are offsets for
    /// them.
    pub open spec fn accepts(self, records: Seq<record::RecordView>) -> bool {
        let codec = self.config.compression;
        &&& self.next_offset + records.len() <= u64::MAX
        &&& total_bound(codec, records) <= isize::MAX
        &&& self.active().segment.size + total_bound(codec, records) <= u64::MAX
        &&& 8 * self.active().index.entries.len() <= u64::MAX
        &&& codec != Compression::Uncompressed ==> forall|i: int|
            0 <= i < records.len() ==> compression::codec_input_fits(
                (#[trigger] records[i]).value.len(),
            )
    }

    /// The step in front of all others: where an append failed, what it left
    /// behind is cut off.
    pub open spec fn lead(self) -> Seq<EffectView> {
        if self.torn {
            seq![
                EffectView::Cut {
                    data_size: self.active().segment.size,
                    index_size: 8 * self.active().index.entries.len(),
                },
            ]
        } else {
            Seq::empty()
        }
    }

    /// The log once what a failed append left behind has been cut off.
    pub open spec fn ready(self) -> Self {
        if self.torn {
            self.after(self.lead()[0])
        } else {
            self
        }
    }

    /// The log once an append has failed: back where it was before it, but for
    /// a segment that was opened, with the files to be cut.
    pub open spec fn failed(self) -> Self {
        let active = self.active();
        LogView {
            torn: true,
            ..self.with_active(
                IndexedView {
                    segment: active.segment.after_truncate(self.mark.size),
                    index: active.index.after_truncate(
                        self.mark.entries,
                        self.mark.bytes_since_last_entry,
                    ),
                },
            )
        }
    }

    /// The steps before the write: moving on to a new segment where the active
    /// one is full, and moving its file to its end where it stands elsewhere.
    pub open spec fn approach(self, additional: nat) -> Seq<EffectView> {
        if self.rotates(additional) {
            seq![
                EffectView::SyncActive,
                EffectView::OpenSegment { base_offset: self.next_offset },
            ]
        } else {
            Seq::empty()
        }
    }

    /// Where the write starts.
    pub open spec fn write_position(self, additional: nat) -> u64 {
        if self.rotates(additional) {
            0
        } else {
            self.active().segment.size
        }
    }

    /// The seek in front of the write, where one is needed.
    pub open spec fn seek_effects(self, additional: nat) -> Seq<EffectView> {
        let active = self.active().segment;
        if !self.rotates(additional) && active.needs_seek(active.size) {
            seq![EffectView::Seek { position: active.size }]
        } else {
            Seq::empty()
        }
    }

    /// The steps that append these encoded records, which take up `additional`
    /// bytes uncompressed.
    #[verifier::opaque]
    pub open spec fn append_effects(self, additional: nat, frames: Seq<Seq<u8>>) -> Seq<
        EffectView,
    > {
        self.approach(additional) + self.seek_effects(additional) + seq![
            EffectView::Write { bytes: concat(frames) },
        ] + track_effects(self.next_offset, self.write_position(additional), frames) + seq![
            EffectView::Advance { next_offset: (self.next_offset + frames.len()) as u64 },
        ]
    }

    /// What [`Log::append_batch`] plans. The only error is that the codec is not
    /// part of the build.
    pub open spec fn plans(
        self,
        records: Seq<record::RecordView>,
        effects: Seq<EffectView>,
        result: Result<Vec<u64>, KafkoError>,
    ) -> bool {
        if records.len() == 0 {
            effects == Seq::<EffectView>::empty() && (result matches Ok(offsets) && offsets@.len()
                == 0)
        } else {
            let lead = self.lead();
            &&& lead.len() <= effects.len()
            &&& effects.take(lead.len() as int) == lead
            &&& self.ready().plans_ready(records, effects.skip(lead.len() as int), result)
        }
    }

    /// What is planned behind the step in front, for at least one record.
    pub open spec fn plans_ready(
        self,
        records: Seq<record::RecordView>,
        effects: Seq<EffectView>,
        result: Result<Vec<u64>, KafkoError>,
    ) -> bool {
        let codec = self.config.compression;
        let additional = total_wire_len(records);
        match result {
            Ok(offsets) => {
                &&& CodecSet::of_this_build().supports(codec)
                &&& offsets@ == Seq::new(
                    records.len(),
                    |i: int| (self.next_offset + i) as u64,
                )
                &&& exists|frames: Seq<Seq<u8>>|
                    encodes_all(codec, records, frames) && effects
                        == #[trigger] self.append_effects(additional, frames)
            },
            Err(e) => {
                &&& effects == self.approach(additional)
                &&& !CodecSet::of_this_build().supports(codec)
                &&& e == KafkoError::CompressionUnavailable(codec)
            },
        }
    }

    /// Whether a step can be applied: the numbers that it leads to fit.
    pub open spec fn allows(self, effect: EffectView) -> bool {
        match effect {
            EffectView::Cut { data_size, index_size } => {
                &&& data_size == self.active().segment.size
                &&& index_size == 8 * self.active().index.entries.len()
            },
            EffectView::SyncActive => true,
            EffectView::OpenSegment { base_offset } => {
                &&& self.active().segment.base_offset <= base_offset <= self.next_offset
                &&& self.segments.len() < usize::MAX
            },
            EffectView::Seek { .. } => true,
            EffectView::Write { bytes } => self.active().segment.size + bytes.len() <= u64::MAX,
            EffectView::Track { offset, file_pos, size } => {
                &&& self.active().index.can_track(offset, file_pos)
                &&& self.active().index.bytes_since_last_entry + size <= u64::MAX
            },
            EffectView::Advance { next_offset } => self.active().segment.base_offset
                <= next_offset,
        }
    }

    /// The log after a step.
    pub open spec fn after(self, effect: EffectView) -> Self {
        let active = self.active();
        match effect {
            EffectView::Cut { data_size, .. } => LogView {
                torn: false,
                ..self.with_active(
                    IndexedView {
                        segment: active.segment.after_truncate(data_size),
                        index: active.index,
                    },
                )
            },
            EffectView::SyncActive => self,
            EffectView::OpenSegment { base_offset } => LogView {
                segments: self.segments.push(
                    IndexedView::fresh(base_offset, self.config.index_interval),
                ),
                mark: IndexedView::fresh(base_offset, self.config.index_interval).mark(),
                ..self
            },
            EffectView::Seek { position } => self.with_active(
                IndexedView { segment: active.segment.after_seek(position), index: active.index },
            ),
            EffectView::Write { bytes } => self.with_active(
                IndexedView {
                    segment: active.segment.after_append(bytes.len()),
                    index: active.index,
                },
            ),
            EffectView::Track { offset, file_pos, size } => self.with_active(
                IndexedView {
                    segment: active.segment,
                    index: active.index.after_track(offset, file_pos, size as nat),
                },
            ),
            EffectView::Advance { next_offset } => LogView {
                next_offset,
                mark: active.mark(),
                ..self
            },
        }
    }
}

/// Which part of which segment to read to find a record.
#[derive(Clone, Copy, Debug, PartialEq, Eq, Structural)]
pub struct ReadPlan {
    /// The segment, counted from the oldest.
    pub segment: usize,
    /// Where in the segment's file to start.
    pub file_pos: u64,
    /// How many bytes to read: all that follow.
    pub len: u64,
    /// The offset of the record that the bytes start with.
    pub starting_offset: u64,
}

impl LogView {
    /// Whether `i` is the segment that holds the offset: the last that starts
    /// at or before it, or the oldest where none does.
    pub open spec fn holds(self, offset: u64, i: int) -> bool {
        &&& 0 <= i < self.segments.len()
        &&& i == 0 || self.segments[i].segment.base_offset <= offset
        &&& forall|j: int|
            i < j < self.segments.len() ==> (#[trigger] self.segments[j]).segment.base_offset
                > offset
    }

    /// What to read of segment `i` for a search that starts at `start`:
    /// nothing where the segment ends before that.
    pub open spec fn read_plan(self, i: int, start: (u64, u64)) -> Option<ReadPlan> {
        let size = self.segments[i].segment.size;
        if size <= start.0 {
            None
        } else {
            Some(
                ReadPlan {
                    segment: i as usize,
                    file_pos: start.0,
                    len: (size - start.0) as u64,
                    starting_offset: start.1,
                },
            )
        }
    }

    /// Whether `plan` is how to read the record with this offset. There is
    /// nothing to read at the end of the log and past it.
    pub open spec fn locates(self, offset: u64, plan: Option<ReadPlan>) -> bool {
        if offset >= self.next_offset {
            plan is None
        } else {
            exists|i: int, start: (u64, u64)|
                #![trigger self.holds(offset, i), self.read_plan(i, start)]
                self.holds(offset, i) && self.segments[i].index.search_start(offset, start) && plan
                    == self.read_plan(i, start)
        }
    }

    /// The log with another segment `i`.
    pub open spec fn with_segment(self, i: int, segment: segment::SegmentView) -> Self {
        LogView {
            segments: self.segments.update(
                i,
                IndexedView { segment, index: self.segments[i].index },
            ),
            ..self
        }
    }

    /// The log without its oldest segment.
    pub open spec fn without_oldest(self) -> Self {
        LogView { segments: self.segments.skip(1), ..self }
    }

    /// Whether the oldest segment, last written to at `modified_ms`, is too old
    /// at `now_ms`. The active segment never is.
    pub open spec fn aged_out(self, now_ms: i64, modified_ms: i64) -> bool {
        self.segments.len() > 1 && (self.config.max_segment_age matches Some(max_age)
            && modified_ms < age_cutoff(now_ms, max_age.spec_millis() as i64))
    }

    /// Whether the log is too big. A log of the active segment alone never is.
    pub open spec fn over_budget(self) -> bool {
        self.segments.len() > 1 && (self.config.max_partition_bytes matches Some(max_bytes)
            && self.total_size() > max_bytes)
    }
}

/// The time before which a segment is too old; the subtraction stops at the
/// ends of the range.
pub open spec fn age_cutoff(now_ms: i64, max_age_ms: i64) -> int {
    if now_ms - max_age_ms < i64::MIN {
        i64::MIN as int
    } else if now_ms - max_age_ms > i64::MAX {
        i64::MAX as int
    } else {
        now_ms - max_age_ms
    }
}

/// The size of some segments together.
pub open spec fn total_size(segments: Seq<IndexedView>) -> nat
    decreases segments.len(),
{
    if segments.len() == 0 {
        0
    } else {
        total_size(segments.drop_last()) + segments.last().segment.size as nat
    }
}

impl Log {
    /// What every log keeps to.
    pub open spec fn wf(&self) -> bool {
        self@.wf()
    }

    /// A new log, whose first segment is to be created in a directory that
    /// holds files of these names. There must be no segment among them.
    pub fn create(names: &Vec<String>, config: LogConfig) -> (log: Result<Self, SegmentExists>)
        ensures
            match log {
                Ok(l) => {
                    &&& text::segment_bases(names@).len() == 0
                    &&& l.wf()
                    &&& l@ == LogView::new(config)
                },
                Err(e) => {
                    &&& text::segment_bases(names@).contains(e.base_offset)
                    &&& forall|i: int|
                        0 <= i < text::segment_bases(names@).len() ==> e.base_offset
                            <= #[trigger] text::segment_bases(names@)[i]
                },
            },
    {
        let existing: Vec<u64> = text::discover_segment_offsets(names);
        let ghost bases = text::segment_bases(names@);
        proof {
            broadcast use vstd::seq_lib::group_to_multiset_ensures;

            assert(existing@.to_multiset().len() == existing@.len());
            assert(bases.to_multiset().len() == bases.len());
            assert forall|i: int| 0 <= i < bases.len() implies existing@.contains(
                #[trigger] bases[i],
            ) by {
                assert(bases.contains(bases[i]));
                assert(bases.to_multiset().count(bases[i]) > 0);
                assert(existing@.to_multiset().count(bases[i]) > 0);
            }
        }
        if existing.len() > 0 {
            proof {
                broadcast use vstd::seq_lib::group_to_multiset_ensures;

                assert(existing@.contains(existing@[0]));
                assert(existing@.to_multiset().count(existing@[0]) > 0);
                assert(bases.to_multiset().count(existing@[0]) > 0);
                assert forall|i: int| 0 <= i < bases.len() implies existing@[0]
                    <= #[trigger] bases[i] by {
                    let j = choose|j: int| 0 <= j < existing@.len() && existing@[j] == bases[i];
                    assert(existing@[0] <= existing@[j]);
                }
            }
            return Err(SegmentExists { base_offset: existing[0] });
        }
        let segment: Segment = Segment::create(0);
        let index: SparseIndex = SparseIndex::create(0, config.index_interval);
        let mut segments: Vec<IndexedSegment> = Vec::new();
        segments.push(IndexedSegment { segment, index });
        let log = Log {
            config,
            segments,
            next_offset: 0,
            mark: Mark { size: 0, entries: 0, bytes_since_last_entry: 0 },
            torn: false,
        };
        assert(log@.segments =~= seq![IndexedView::fresh(0, config.index_interval)]);
        Ok(log)
    }

    /// Plans the append of one record.
    pub fn append(&self, record: Record) -> (plan: Plan)
        requires
            self.wf(),
            self@.accepts(seq![record@]),
        ensures
            self@.plans(seq![record@], effect_views(plan.effects@), plan.result),
    {
        let mut records: Vec<Record> = Vec::new();
        records.push(record);
        assert(record_views(records@) =~= seq![record@]);
        self.append_batch(records)
    }

    /// Plans the append of some records with one write.
    pub fn append_batch(&self, records: Vec<Record>) -> (plan: Plan)
        requires
            self.wf(),
            self@.accepts(record_views(records@)),
        ensures
            self@.plans(record_views(records@), effect_views(plan.effects@), plan.result),
    {
        if records.len() == 0 {
            let effects: Vec<Effect> = Vec::new();
            assert(effect_views(effects@) =~= Seq::<EffectView>::empty());
            return Plan { effects, result: Ok(Vec::new()) };
        }
        let ghost lead = self@.lead();
        let mut plan: Plan = self.plan_ready(records);
        let ghost planned = effect_views(plan.effects@);
        if self.torn {
            let active: &IndexedSegment = &self.segments[self.segments.len() - 1];
            assert(active@ == self@.active());
            let cut = Effect::Cut {
                data_size: active.segment.size(),
                index_size: 8 * active.index.len() as u64,
            };
            plan.effects.insert(0, cut);
            assert(effect_views(plan.effects@) =~= lead + planned);
        }
        assert(effect_views(plan.effects@) =~= lead + planned);
        assert((lead + planned).take(lead.len() as int) =~= lead);
        assert((lead + planned).skip(lead.len() as int) =~= planned);
        plan
    }

    /// Plans the append of at least one record, behind the step in front.
    fn plan_ready(&self, records: Vec<Record>) -> (plan: Plan)
        requires
            self.wf(),
            self@.accepts(record_views(records@)),
            records@.len() > 0,
        ensures
            self@.ready().plans_ready(
                record_views(records@),
                effect_views(plan.effects@),
                plan.result,
            ),
    {
        let ghost views = record_views(records@);
        let ghost codec = self.config.compression;
        let ghost ready = self@.ready();
        let mut effects: Vec<Effect> = Vec::new();
        let total: usize = total_wire_size(&records, Ghost(codec));
        let active: &IndexedSegment = &self.segments[self.segments.len() - 1];
        assert(active@ == self@.active());
        let rotates: bool = active.segment.would_overflow(
            total,
            self.config.segment_size_threshold,
        );
        if rotates {
            effects.push(Effect::SyncActive);
            effects.push(Effect::OpenSegment { base_offset: self.next_offset });
        }
        assert(effect_views(effects@) =~= ready.approach(total as nat));

        let mut buffer: BytesMut = outside::buffer_new();
        let ghost mut frames: Seq<Seq<u8>> = Seq::empty();
        let mut sizes: Vec<usize> = Vec::new();
        let mut offsets: Vec<u64> = Vec::new();
        let mut i: usize = 0;
        while i < records.len()
            invariant
                i <= records@.len(),
                views == record_views(records@),
                codec == self.config.compression,
                self@.accepts(views),
                self.next_offset == self@.next_offset,
                frames.len() == i,
                sizes@.len() == i,
                encodes_all(codec, views.take(i as int), frames),
                forall|j: int| 0 <= j < i ==> sizes@[j] == (#[trigger] frames[j]).len(),
                outside::buffer_view(buffer) == concat(frames),
                concat(frames).len() <= total_bound(codec, views.take(i as int)),
                offsets@ == Seq::new(i as nat, |j: int| (self.next_offset + j) as u64),
                i > 0 ==> CodecSet::of_this_build().supports(codec),
                effect_views(effects@) == ready.approach(total as nat),
                total == total_wire_len(views),
                self@.config == self.config,
                ready == self@.ready(),
            decreases records@.len() - i,
        {
            proof {
                lemma_total_bound_step(codec, views, i as int);
            }
            let ghost before = outside::buffer_view(buffer);
            offsets.push(self.next_offset + i as u64);
            match records[i].append_to(
                CodecSet::built_in(),
                &mut buffer,
                self.config.compression,
            ) {
                Ok(size) => {
                    proof {
                        let after = outside::buffer_view(buffer);
                        let frame = after.skip(before.len() as int);
                        let grown = frames.push(frame);
                        assert(grown.drop_last() =~= frames);
                        assert(after =~= before + frame);
                        assert forall|j: int| 0 <= j < grown.len() implies {
                            &&& record::encodes(codec, views.take(i + 1)[j], #[trigger] grown[j])
                            &&& grown[j].len() <= record::encoded_bound(
                                codec,
                                views.take(i + 1)[j],
                            )
                        } by {
                            if j < i {
                                assert(grown[j] == frames[j]);
                                assert(views.take(i as int)[j] == views[j]);
                            }
                        }
                        frames = grown;
                    }
                    sizes.push(size);
                },
                Err(e) => {
                    return Plan { effects, result: Err(e) };
                },
            }
            i = i + 1;
        }
        assert(views.take(i as int) =~= views);

        let ghost approach = effect_views(effects@);
        let file_pos: u64 = if rotates {
            0
        } else {
            active.segment.size()
        };
        if !rotates && (self.torn || active.segment.needs_seek(file_pos)) {
            effects.push(Effect::Seek { position: file_pos });
        }
        let ghost moved = approach + ready.seek_effects(total as nat);
        assert(effect_views(effects@) =~= moved);
        effects.push(Effect::Write { bytes: buffer });
        let ghost written = moved.push(EffectView::Write { bytes: concat(frames) });
        assert(effect_views(effects@) =~= written);
        let ghost tracks = track_effects(self@.next_offset, file_pos, frames);
        assert(frames.take(0) =~= Seq::<Seq<u8>>::empty());
        let mut at: u64 = file_pos;
        let mut i: usize = 0;
        while i < sizes.len()
            invariant
                i <= sizes@.len(),
                sizes@.len() == frames.len(),
                offsets@.len() == frames.len(),
                forall|j: int| 0 <= j < frames.len() ==> sizes@[j] == (#[trigger] frames[j]).len(),
                offsets@ == Seq::new(frames.len(), |j: int| (self.next_offset + j) as u64),
                self.next_offset == self@.next_offset,
                at == file_pos + concat(frames.take(i as int)).len(),
                file_pos + concat(frames).len() <= u64::MAX,
                tracks == track_effects(self@.next_offset, file_pos, frames),
                effect_views(effects@) == written + tracks.take(i as int),
            decreases sizes@.len() - i,
        {
            let ghost so_far = effects@;
            effects.push(Effect::Track { offset: offsets[i], file_pos: at, size: sizes[i] });
            proof {
                lemma_concat_step(frames, i as int);
                assert(tracks.take(i + 1) =~= tracks.take(i as int).push(tracks[i as int]));
                assert(effects@.last()@ == tracks[i as int]);
                assert(effect_views(effects@) =~= effect_views(so_far).push(tracks[i as int]));
                assert(effect_views(effects@) =~= written + tracks.take(i + 1));
                lemma_concat_take_len(frames, i + 1);
            }
            at = at + sizes[i] as u64;
            i = i + 1;
        }
        assert(tracks.take(i as int) =~= tracks);
        let ghost so_far = effects@;
        let next_offset: u64 = self.next_offset + records.len() as u64;
        effects.push(Effect::Advance { next_offset });
        proof {
            assert(effect_views(effects@) =~= effect_views(so_far).push(
                EffectView::Advance { next_offset },
            ));
            assert(written =~= ready.approach(total as nat) + ready.seek_effects(total as nat)
                + seq![EffectView::Write { bytes: concat(frames) }]);
            reveal(LogView::append_effects);
            assert(effect_views(effects@) =~= ready.append_effects(total as nat, frames));
        }
        Plan { effects, result: Ok(offsets) }
    }
}

impl Log {
    /// The log over segments that are on disk already: the sealed ones, oldest
    /// first, and the active one, which holds `data`. Returns the log, and what
    /// the active segment's index file is to hold.
    ///
    /// The active segment's records are counted and its index is built from
    /// them; the sealed segments are trusted.
    pub fn open(
        config: LogConfig,
        sealed: Vec<IndexedSegment>,
        active: Segment,
        data: &[u8],
    ) -> (opened: Result<(Log, Vec<u8>), RecoveryError>)
        requires
            forall|i: int|
                0 <= i < sealed@.len() ==> {
                    &&& (#[trigger] sealed@[i])@.wf()
                    &&& sealed@[i]@.segment.base_offset <= active@.base_offset
                },
            forall|i: int, j: int|
                0 <= i < j < sealed@.len() ==> sealed@[i]@.segment.base_offset
                    <= sealed@[j]@.segment.base_offset,
            sealed@.len() < usize::MAX,
            active@.size == data@.len(),
            active@.base_offset + data@.len() <= u64::MAX,
        ensures
            match scan::replay(
                CodecSet::of_this_build(),
                data@,
                IndexedView::fresh(active@.base_offset, config.index_interval).index,
                0,
                0,
            ) {
                scan::Replay::Done(index, records) => {
                    &&& opened matches Ok((log, index_file))
                    &&& log.wf()
                    &&& log@ == LogView::opened(
                        config,
                        segment_views(sealed@),
                        IndexedView { segment: active@, index },
                        records,
                    )
                    &&& index_file@ == sparse_index::entries_bytes(index.entries)
                },
                scan::Replay::Failed(e) => opened == Err::<(Log, Vec<u8>), RecoveryError>(
                    RecoveryError::Record(e),
                ),
                scan::Replay::IndexOverflow => opened == Err::<(Log, Vec<u8>), RecoveryError>(
                    RecoveryError::IndexOverflow,
                ),
            },
    {
        let active_base: u64 = active.base_offset();
        let mut index: SparseIndex = SparseIndex::create(active_base, config.index_interval);
        proof {
            scan::lemma_replay_bounds(CodecSet::of_this_build(), data@, index@, 0, 0);
        }
        match scan::replay_records_to_index(data, &mut index) {
            Err(e) => Err(e),
            Ok((records, index_file)) => {
                let ghost rebuilt = index@;
                let mark = Mark {
                    size: active.size(),
                    entries: index.len(),
                    bytes_since_last_entry: index.bytes_since_last_entry(),
                };
                let mut segments: Vec<IndexedSegment> = sealed;
                segments.push(IndexedSegment { segment: active, index });
                let log = Log {
                    config,
                    segments,
                    next_offset: active_base + records,
                    mark,
                    torn: false,
                };
                proof {
                    assert(log@.segments =~= segment_views(sealed@).push(
                        IndexedView { segment: active@, index: rebuilt },
                    ));
                    assert forall|i: int| 0 <= i < log@.segments.len() implies (
                    #[trigger] log@.segments[i]).wf() by {
                        if i < sealed@.len() {
                            assert(sealed@[i]@.wf());
                        }
                    }
                }
                Ok((log, index_file))
            },
        }
    }

    /// The settings the log was made with.
    pub fn config(&self) -> (config: &LogConfig)
        ensures
            *config == self@.config,
    {
        &self.config
    }

    /// The offset that the next record gets.
    pub fn next_offset(&self) -> (next_offset: u64)
        ensures
            next_offset == self@.next_offset,
    {
        self.next_offset
    }

    /// The number of segments, the active one among them.
    pub fn segment_count(&self) -> (count: usize)
        ensures
            count == self@.segments.len(),
    {
        self.segments.len()
    }

    /// The `i`th segment, counted from the oldest.
    pub fn segment(&self, i: usize) -> (segment: &IndexedSegment)
        requires
            i < self@.segments.len(),
        ensures
            segment@ == self@.segments[i as int],
    {
        &self.segments[i]
    }

    /// The size of all segments together.
    pub fn total_size(&self) -> (size: u64)
        requires
            self@.total_size() <= u64::MAX,
        ensures
            size == self@.total_size(),
    {
        let ghost views = self@.segments;
        let mut size: u64 = 0;
        let mut i: usize = 0;
        while i < self.segments.len()
            invariant
                i <= self.segments@.len(),
                views == segment_views(self.segments@),
                total_size(views) <= u64::MAX,
                size == total_size(views.take(i as int)),
            decreases self.segments@.len() - i,
        {
            proof {
                lemma_total_size_step(views, i as int);
            }
            size = size + self.segments[i].segment.size();
            i = i + 1;
        }
        assert(views.take(i as int) =~= views);
        size
    }

    /// Whether these records can be appended at all: where not, they are more
    /// than memory, the file or the offsets can hold.
    pub fn accepts(&self, records: &Vec<Record>) -> (accepted: bool)
        requires
            self.wf(),
        ensures
            accepted == self@.accepts(record_views(records@)),
    {
        let ghost views = record_views(records@);
        let codec: Compression = self.config.compression;
        let active: &IndexedSegment = &self.segments[self.segments.len() - 1];
        assert(active@ == self@.active());
        let size: u64 = active.segment.size();
        if records.len() as u64 > u64::MAX - self.next_offset {
            return false;
        }
        if active.index.len() as u64 > u64::MAX / 8 {
            return false;
        }
        let mut bound: u128 = 0;
        let mut i: usize = 0;
        while i < records.len()
            invariant
                i <= records@.len(),
                views == record_views(records@),
                codec == self@.config.compression,
                size == self@.active().segment.size,
                8 * self@.active().index.entries.len() <= u64::MAX,
                bound == total_bound(codec, views.take(i as int)),
                bound <= isize::MAX,
                size + bound <= u64::MAX,
                codec != Compression::Uncompressed ==> forall|j: int|
                    0 <= j < i ==> compression::codec_input_fits(
                        (#[trigger] views[j]).value.len(),
                    ),
            decreases records@.len() - i,
        {
            proof {
                lemma_total_bound_step(codec, views, i as int);
            }
            let key_len: usize = match records[i].key() {
                None => 0,
                Some(k) => outside::bytes_slice(k).len(),
            };
            let value_len: usize = outside::bytes_slice(records[i].value()).len();
            let mut needed: u128 = 25 + key_len as u128 + value_len as u128;
            match codec {
                Compression::Uncompressed => {},
                Compression::Lz4 | Compression::Zstd => {
                    needed = needed + value_len as u128 + 64;
                    if 110 * (value_len as u128) > u64::MAX as u128 || 2 * (value_len as u128) + 64
                        > isize::MAX as u128 {
                        assert(!compression::codec_input_fits(views[i as int].value.len()));
                        return false;
                    }
                },
            }
            assert(needed == record::encoded_bound(codec, views[i as int]));
            bound = bound + needed;
            if bound > isize::MAX as u128 || size as u128 + bound > u64::MAX as u128 {
                return false;
            }
            i = i + 1;
        }
        assert(views.take(i as int) =~= views);
        true
    }

    /// Whether a step can be applied. Where not, an offset or a position does
    /// not fit where it has to be written.
    pub fn allows(&self, effect: &Effect) -> (allowed: bool)
        requires
            self.wf(),
        ensures
            allowed == self@.allows(effect@),
    {
        let active: &IndexedSegment = &self.segments[self.segments.len() - 1];
        assert(active@ == self@.active());
        match effect {
            Effect::Cut { data_size, index_size } => {
                let entries: usize = active.index.len();
                *data_size == active.segment.size() && *index_size as u128 == 8 * entries as u128
            },
            Effect::SyncActive => true,
            Effect::OpenSegment { base_offset } => active.segment.base_offset() <= *base_offset
                && *base_offset <= self.next_offset && self.segments.len() < usize::MAX,
            Effect::Seek { .. } => true,
            Effect::Write { bytes } => {
                let n: usize = outside::buffer_slice(bytes).len();
                active.segment.size() <= u64::MAX - n as u64
            },
            Effect::Track { offset, file_pos, size } => active.index.can_track(*offset, *file_pos)
                && active.index.bytes_since_last_entry() <= u64::MAX - *size as u64,
            Effect::Advance { next_offset } => active.segment.base_offset() <= *next_offset,
        }
    }

    /// What to append to the active segment's index file for a record: one
    /// entry, or nothing.
    pub fn pending_index_entry(&self, offset: u64, file_pos: u64) -> (bytes: Vec<u8>)
        requires
            self.wf(),
            self@.active().index.can_track(offset, file_pos),
        ensures
            bytes@ == self@.active().index.pending_bytes(offset, file_pos),
    {
        let active: &IndexedSegment = &self.segments[self.segments.len() - 1];
        assert(active@ == self@.active());
        active.index.pending_entry(offset, file_pos)
    }

    /// Applies a step that has been carried out.
    pub fn apply(&mut self, effect: &Effect)
        requires
            old(self).wf(),
            old(self)@.allows(effect@),
        ensures
            final(self).wf(),
            final(self)@ == old(self)@.after(effect@),
    {
        let ghost before = self@;
        let last: usize = self.segments.len() - 1;
        assert(self.segments@[last as int]@ == before.active());
        match effect {
            Effect::Cut { data_size, .. } => {
                self.segments[last].segment.truncate(*data_size);
                self.torn = false;
            },
            Effect::SyncActive => {},
            Effect::OpenSegment { base_offset } => {
                let segment: Segment = Segment::create(*base_offset);
                let index: SparseIndex = SparseIndex::create(
                    *base_offset,
                    self.config.index_interval,
                );
                self.segments.push(IndexedSegment { segment, index });
                self.mark = Mark { size: 0, entries: 0, bytes_since_last_entry: 0 };
            },
            Effect::Seek { position } => {
                self.segments[last].segment.seek_done(*position);
            },
            Effect::Write { bytes } => {
                let n: usize = outside::buffer_slice(bytes).len();
                let _: u64 = self.segments[last].segment.append(n);
            },
            Effect::Track { offset, file_pos, size } => {
                self.segments[last].index.track_append(*offset, *file_pos, *size);
            },
            Effect::Advance { next_offset } => {
                self.next_offset = *next_offset;
                self.mark = Mark {
                    size: self.segments[last].segment.size(),
                    entries: self.segments[last].index.len(),
                    bytes_since_last_entry: self.segments[last].index.bytes_since_last_entry(),
                };
            },
        }
        proof {
            assert(self@.segments =~= before.after(effect@).segments);
            lemma_after_keeps_wf(before, effect@);
        }
    }

    /// Notes that a step of an append failed, whichever it was: the log is back
    /// where it was before the append.
    pub fn append_failed(&mut self)
        requires
            old(self).wf(),
        ensures
            final(self).wf(),
            final(self)@ == old(self)@.failed(),
    {
        let ghost before = self@;
        let last: usize = self.segments.len() - 1;
        assert(self.segments@[last as int]@ == before.active());
        self.segments[last].segment.truncate(self.mark.size);
        self.segments[last].index.truncate(self.mark.entries, self.mark.bytes_since_last_entry);
        self.torn = true;
        proof {
            assert(self@.segments =~= before.failed().segments);
            lemma_failed_keeps_wf(before);
        }
    }

    /// The segment that holds an offset.
    fn find_segment_index(&self, offset: u64) -> (i: usize)
        requires
            self.wf(),
        ensures
            self@.holds(offset, i as int),
    {
        let mut low: usize = 0;
        let mut high: usize = self.segments.len();
        while low < high
            invariant
                low <= high <= self.segments@.len(),
                self@.wf(),
                self@.segments == segment_views(self.segments@),
                low > 0 ==> self@.segments[low - 1].segment.base_offset <= offset,
                forall|j: int|
                    high <= j < self@.segments.len() ==> (#[trigger] self@.segments[j]).segment.base_offset
                        > offset,
            decreases high - low,
        {
            let middle: usize = low + (high - low) / 2;
            assert(self.segments@[middle as int]@ == self@.segments[middle as int]);
            if self.segments[middle].segment.base_offset() <= offset {
                low = middle + 1;
            } else {
                high = middle;
            }
        }
        if low == 0 {
            0
        } else {
            low - 1
        }
    }

    /// How to read the record with this offset, if the log may hold it: the
    /// bytes go to [`crate::scan::find_record`].
    pub fn read_record_at(&self, offset: u64) -> (plan: Option<ReadPlan>)
        requires
            self.wf(),
        ensures
            self@.locates(offset, plan),
    {
        if offset >= self.next_offset {
            return None;
        }
        let i: usize = self.find_segment_index(offset);
        let pair: &IndexedSegment = &self.segments[i];
        assert(pair@ == self@.segments[i as int]);
        let start: (u64, u64) = pair.index.lookup(offset);
        let size: u64 = pair.segment.size();
        let plan: Option<ReadPlan> = if size <= start.0 {
            None
        } else {
            Some(
                ReadPlan {
                    segment: i,
                    file_pos: start.0,
                    len: size - start.0,
                    starting_offset: start.1,
                },
            )
        };
        assert(plan == self@.read_plan(i as int, start));
        plan
    }

    /// Notes that the file of segment `i` was moved.
    pub fn seek_done(&mut self, i: usize, position: u64)
        requires
            old(self).wf(),
            i < old(self)@.segments.len(),
        ensures
            final(self).wf(),
            final(self)@ == old(self)@.with_segment(
                i as int,
                old(self)@.segments[i as int].segment.after_seek(position),
            ),
    {
        let ghost before = self@;
        self.segments[i].segment.seek_done(position);
        proof {
            assert(self@.segments =~= before.with_segment(
                i as int,
                before.segments[i as int].segment.after_seek(position),
            ).segments);
            assert forall|j: int| 0 <= j < self@.segments.len() implies (
            #[trigger] self@.segments[j]).wf() by {
                assert(before.segments[j].wf());
            }
        }
    }

    /// Notes that `n` bytes of segment `i` were read.
    pub fn read_done(&mut self, i: usize, position: u64, n: usize)
        requires
            old(self).wf(),
            i < old(self)@.segments.len(),
            position + n <= u64::MAX,
        ensures
            final(self).wf(),
            final(self)@ == old(self)@.with_segment(
                i as int,
                old(self)@.segments[i as int].segment.after_read(position, n as nat),
            ),
    {
        let ghost before = self@;
        self.segments[i].segment.read_at(position, n);
        proof {
            assert(self@.segments =~= before.with_segment(
                i as int,
                before.segments[i as int].segment.after_read(position, n as nat),
            ).segments);
            assert forall|j: int| 0 <= j < self@.segments.len() implies (
            #[trigger] self@.segments[j]).wf() by {
                assert(before.segments[j].wf());
            }
        }
    }

    /// Whether the age of the oldest segment matters: segments age, and there
    /// is one besides the active.
    pub fn checks_age(&self) -> (checks: bool)
        ensures
            checks == (self@.config.max_segment_age is Some && self@.segments.len() > 1),
    {
        self.config.max_segment_age.is_some() && self.segments.len() > 1
    }

    /// Whether the oldest segment, last written to at `modified_ms`, is too old
    /// at `now_ms`.
    pub fn oldest_aged_out(&self, now_ms: i64, modified_ms: i64) -> (aged: bool)
        ensures
            aged == self@.aged_out(now_ms, modified_ms),
    {
        match self.config.max_segment_age {
            None => false,
            Some(max_age) => {
                let max_age_ms: i64 = #[verifier::truncate]
                (max_age.as_millis() as i64);
                let difference: i128 = now_ms as i128 - max_age_ms as i128;
                let cutoff: i128 = if difference < i64::MIN as i128 {
                    i64::MIN as i128
                } else if difference > i64::MAX as i128 {
                    i64::MAX as i128
                } else {
                    difference
                };
                self.segments.len() > 1 && (modified_ms as i128) < cutoff
            },
        }
    }

    /// Whether the log is too big.
    pub fn over_budget(&self) -> (over: bool)
        requires
            self@.total_size() <= u64::MAX,
        ensures
            over == self@.over_budget(),
    {
        match self.config.max_partition_bytes {
            None => false,
            Some(max_bytes) => self.segments.len() > 1 && self.total_size() > max_bytes,
        }
    }

    /// Takes the oldest segment out of the log, and returns its base offset,
    /// by which its files are found. The active segment cannot be taken out.
    pub fn remove_oldest(&mut self) -> (base_offset: u64)
        requires
            old(self).wf(),
            old(self)@.segments.len() > 1,
        ensures
            final(self).wf(),
            base_offset == old(self)@.segments[0].segment.base_offset,
            final(self)@ == old(self)@.without_oldest(),
    {
        let ghost before = self@;
        let oldest: IndexedSegment = self.segments.remove(0);
        proof {
            assert(self@.segments =~= before.segments.skip(1));
            assert forall|j: int| 0 <= j < self@.segments.len() implies (
            #[trigger] self@.segments[j]).wf() by {
                assert(before.segments[j + 1].wf());
            }
        }
        oldest.segment.base_offset()
    }
}

/// Steps keep the log in order.
pub proof fn lemma_after_keeps_wf(log: LogView, effect: EffectView)
    requires
        log.wf(),
        log.allows(effect),
    ensures
        log.after(effect).wf(),
{
    let after = log.after(effect);
    assert forall|i: int| 0 <= i < after.segments.len() implies (
    #[trigger] after.segments[i]).wf() by {
        if i < log.segments.len() {
            assert(log.segments[i].wf());
        }
    }
}

/// Taking a failed append back keeps the log in order.
pub proof fn lemma_failed_keeps_wf(log: LogView)
    requires
        log.wf(),
    ensures
        log.failed().wf(),
{
    let later = log.failed();
    assert forall|i: int| 0 <= i < later.segments.len() implies (
    #[trigger] later.segments[i]).wf() by {
        assert(log.segments[i].wf());
        if i == log.segments.len() - 1 {
            let index = later.segments[i].index;
            assert forall|j: int| 0 <= j < index.entries.len() implies index.base_offset
                + #[trigger] index.entries[j].relative_offset <= u64::MAX by {
                assert(index.entries[j] == log.segments[i].index.entries[j]);
            }
        }
    }
}

proof fn lemma_total_size_step(segments: Seq<IndexedView>, i: int)
    requires
        0 <= i < segments.len(),
    ensures
        total_size(segments.take(i + 1)) == total_size(segments.take(i))
            + segments[i].segment.size,
        total_size(segments.take(i + 1)) <= total_size(segments),
    decreases segments.len() - i,
{
    assert(segments.take(i + 1).drop_last() =~= segments.take(i));
    if i + 1 < segments.len() {
        lemma_total_size_step(segments, i + 1);
    } else {
        assert(segments.take(i + 1) =~= segments);
    }
}

/// The bytes that records take up on disk, uncompressed.
fn total_wire_size(records: &Vec<Record>, Ghost(codec): Ghost<Compression>) -> (total: usize)
    requires
        total_bound(codec, record_views(records@)) <= isize::MAX,
    ensures
        total == total_wire_len(record_views(records@)),
{
    let ghost views = record_views(records@);
    let mut total: usize = 0;
    let mut i: usize = 0;
    while i < records.len()
        invariant
            i <= records@.len(),
            views == record_views(records@),
            total_bound(codec, views) <= isize::MAX,
            total == total_wire_len(views.take(i as int)),
            total <= total_bound(codec, views.take(i as int)),
        decreases records@.len() - i,
    {
        proof {
            lemma_total_bound_step(codec, views, i as int);
            assert(views.take(i + 1).drop_last() =~= views.take(i as int));
        }
        total = total + records[i].wire_size();
        i = i + 1;
    }
    assert(views.take(i as int) =~= views);
    total
}

proof fn lemma_total_bound_step(codec: Compression, records: Seq<record::RecordView>, i: int)
    requires
        0 <= i < records.len(),
    ensures
        total_bound(codec, records.take(i + 1)) == total_bound(codec, records.take(i))
            + record::encoded_bound(codec, records[i]),
        total_bound(codec, records.take(i + 1)) <= total_bound(codec, records),
    decreases records.len() - i,
{
    assert(records.take(i + 1).drop_last() =~= records.take(i));
    if i + 1 < records.len() {
        lemma_total_bound_step(codec, records, i + 1);
    } else {
        assert(records.take(i + 1) =~= records);
    }
}

/// One more record takes up its own bytes.
pub proof fn lemma_concat_step(frames: Seq<Seq<u8>>, i: int)
    requires
        0 <= i < frames.len(),
    ensures
        concat(frames.take(i + 1)) == concat(frames.take(i)) + frames[i],
{
    assert(frames.take(i + 1).drop_last() =~= frames.take(i));
}

/// Some of the records take up no more than all of them.
pub proof fn lemma_concat_take_len(frames: Seq<Seq<u8>>, i: int)
    requires
        0 <= i <= frames.len(),
    ensures
        concat(frames.take(i)).len() <= concat(frames).len(),
    decreases frames.len() - i,
{
    if i < frames.len() {
        lemma_concat_step(frames, i);
        lemma_concat_take_len(frames, i + 1);
    } else {
        assert(frames.take(i) =~= frames);
    }
}

/// Encoded records take up no more than the most that they can.
pub proof fn lemma_concat_bound(
    codec: Compression,
    records: Seq<record::RecordView>,
    frames: Seq<Seq<u8>>,
)
    requires
        encodes_all(codec, records, frames),
    ensures
        concat(frames).len() <= total_bound(codec, records),
    decreases frames.len(),
{
    if frames.len() > 0 {
        let n = frames.len() - 1;
        let init = frames.drop_last();
        let init_records = records.drop_last();
        assert forall|i: int| 0 <= i < init.len() implies {
            &&& record::encodes(codec, init_records[i], #[trigger] init[i])
            &&& init[i].len() <= record::encoded_bound(codec, init_records[i])
        } by {
            assert(init[i] == frames[i]);
        }
        lemma_concat_bound(codec, init_records, init);
        assert(frames[n].len() <= record::encoded_bound(codec, records[n]));
    }
}

/// A sealed segment is too old if and only if it was last written to longer ago
/// than the limit says, in milliseconds: one that is no older than the limit
/// never is, and without a limit none is. A limit that reaches back before the
/// first time there is makes none too old.
pub proof fn law_segment_is_too_old_past_the_limit(
    log: LogView,
    now_ms: i64,
    modified_ms: i64,
    limit: Duration,
)
    ensures
        log.config.max_segment_age is None ==> !log.aged_out(now_ms, modified_ms),
        log.segments.len() <= 1 ==> !log.aged_out(now_ms, modified_ms),
        log.config.max_segment_age == Some(limit) && log.segments.len() > 1 ==> ({
            let limit_ms = 1000 * limit.spec_secs() + limit.spec_nanos() / 1_000_000;
            &&& limit_ms <= i64::MAX && now_ms - limit_ms >= i64::MIN ==> (log.aged_out(
                now_ms,
                modified_ms,
            ) <==> now_ms - modified_ms > limit_ms)
            &&& limit_ms <= i64::MAX && now_ms - limit_ms < i64::MIN ==> !log.aged_out(
                now_ms,
                modified_ms,
            )
        }),
{
}

/// A log is too big if and only if it has sealed segments and all segments
/// together are larger than the limit.
pub proof fn law_log_is_too_big_past_the_limit(log: LogView, max_bytes: u64)
    ensures
        log.config.max_partition_bytes is None ==> !log.over_budget(),
        log.config.max_partition_bytes == Some(max_bytes) ==> (log.over_budget()
            <==> log.segments.len() > 1 && total_size(log.segments) > max_bytes),
        log.total_size() == total_size(log.segments),
{
}

/// The size of segments is what each of them takes up, added up.
pub proof fn law_sizes_add_up(segments: Seq<IndexedView>, another: IndexedView)
    ensures
        total_size(Seq::empty()) == 0,
        total_size(segments.push(another)) == total_size(segments) + another.segment.size,
{
    assert(segments.push(another).drop_last() =~= segments);
}

/// What records take up on disk is what each of them takes up, added up.
pub proof fn law_record_sizes_add_up(
    codec: Compression,
    records: Seq<record::RecordView>,
    another: record::RecordView,
)
    ensures
        total_wire_len(Seq::empty()) == 0,
        total_wire_len(records.push(another)) == total_wire_len(records) + record::wire_len(
            another,
        ),
        total_bound(codec, Seq::empty()) == 0,
        total_bound(codec, records.push(another)) == total_bound(codec, records)
            + record::wire_len(another) + if codec == Compression::Uncompressed {
            0
        } else {
            another.value.len() + 64
        },
{
    assert(records.push(another).drop_last() =~= records);
}

/// Encoded records are written one behind the other, each in full.
pub proof fn law_frames_follow_one_another(frames: Seq<Seq<u8>>, another: Seq<u8>)
    ensures
        concat(Seq::empty()) == Seq::<u8>::empty(),
        concat(frames.push(another)) == concat(frames) + another,
{
    assert(frames.push(another).drop_last() =~= frames);
}

/// Records are refused only where there are no offsets for them, where their
/// encoded form cannot be allocated, where the file or its index would be longer
/// than can be counted, or where a value does not fit its codec.
pub proof fn law_records_that_a_log_takes(log: LogView, records: Seq<record::RecordView>)
    ensures
        ({
            let codec = log.config.compression;
            let bound = total_bound(codec, records);
            log.accepts(records) <==> {
                &&& log.next_offset + records.len() <= u64::MAX
                &&& bound <= isize::MAX
                &&& log.active().segment.size + bound <= u64::MAX
                &&& 8 * log.active().index.entries.len() <= u64::MAX
                &&& codec == Compression::Uncompressed || forall|i: int|
                    0 <= i < records.len() ==> 110 * (#[trigger] records[i]).value.len()
                        <= u64::MAX && 2 * records[i].value.len() + 64 <= isize::MAX
            }
        }),
{
    if log.accepts(records) && log.config.compression != Compression::Uncompressed {
        assert forall|i: int| 0 <= i < records.len() implies 110 * (
        #[trigger] records[i]).value.len() <= u64::MAX && 2 * records[i].value.len() + 64
            <= isize::MAX by {
            assert(compression::codec_input_fits(records[i].value.len()));
        }
    }
}

/// A new log is one empty segment at offset 0, with the settings it was made
/// with.
pub proof fn law_new_log_starts_at_zero(config: LogConfig)
    ensures
        ({
            let log = LogView::new(config);
            &&& log.config == config
            &&& log.next_offset == 0
            &&& log.segments.len() == 1
            &&& log.segments[0].segment.base_offset == 0
            &&& log.segments[0].segment.size == 0
            &&& log.segments[0].index.entries.len() == 0
            &&& log.segments[0].index.interval == config.index_interval
            &&& log.total_size() == 0
            &&& !log.torn
        }),
{
    reveal_with_fuel(total_size, 2);
}

/// A step of an append can be applied unless it leads to a number that does not
/// fit: a new segment in front of its first record, more bytes than a file can
/// have, or an entry that the index cannot hold.
pub proof fn law_steps_that_can_be_applied(
    log: LogView,
    base_offset: u64,
    position: u64,
    bytes: Seq<u8>,
    offset: u64,
    size: usize,
)
    ensures
        log.allows(EffectView::SyncActive),
        log.allows(EffectView::Seek { position }),
        log.allows(EffectView::OpenSegment { base_offset }) <==> (
        log.active().segment.base_offset <= base_offset && base_offset <= log.next_offset
            && log.segments.len() < usize::MAX),
        log.allows(EffectView::Write { bytes }) <==> log.active().segment.size + bytes.len()
            <= u64::MAX,
        log.allows(EffectView::Track { offset, file_pos: position, size }) <==> (
        log.active().index.can_track(offset, position)
            && log.active().index.bytes_since_last_entry + size <= u64::MAX),
        log.allows(EffectView::Advance { next_offset: offset }) <==> log.active().segment.base_offset
            <= offset,
{
}

/// A read looks into the last segment that starts at or before the offset, up
/// to that segment's end; there is nothing to look for from the end of the log
/// on.
pub proof fn law_reads_look_into_the_right_segment(
    log: LogView,
    offset: u64,
    plan: Option<ReadPlan>,
    j: int,
)
    requires
        log.wf(),
        log.locates(offset, plan),
    ensures
        offset >= log.next_offset ==> plan is None,
        plan matches Some(p) ==> {
            &&& p.segment < log.segments.len()
            &&& p.file_pos + p.len == log.segments[p.segment as int].segment.size
            &&& p.len > 0
            &&& p.segment == 0 || log.segments[p.segment as int].segment.base_offset <= offset
            &&& p.segment < j < log.segments.len() ==> log.segments[j].segment.base_offset
                > offset
        },
{
    if offset < log.next_offset {
        let (i, start) = choose|i: int, start: (u64, u64)|
            #![trigger log.holds(offset, i), log.read_plan(i, start)]
            log.holds(offset, i) && log.segments[i].index.search_start(offset, start) && plan
                == log.read_plan(i, start);
        assert(log.holds(offset, i));
        if i < j < log.segments.len() {
            assert(log.segments[j].segment.base_offset > offset);
        }
    }
}

/// Taking out the oldest segment takes out that one and nothing else.
pub proof fn law_oldest_is_the_first(log: LogView, i: int)
    requires
        log.segments.len() > 1,
    ensures
        log.without_oldest().segments.len() == log.segments.len() - 1,
        0 <= i < log.segments.len() - 1 ==> log.without_oldest().segments[i] == log.segments[i
            + 1],
        log.without_oldest().next_offset == log.next_offset,
        log.without_oldest().config == log.config,
        log.without_oldest().mark == log.mark,
        log.without_oldest().torn == log.torn,
{
}

} // verus!
