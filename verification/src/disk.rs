//! The log and its files together.
//!
//! Nothing here runs. A disk is modelled by the contents of each segment's two
//! files, and the steps of a [`crate::log::Plan`] by what they do to them. What
//! the log promises about them stands in [`crate::durability`].
use vstd::prelude::*;

use crate::compression;
use crate::compression::{CodecSet, Compression};
use crate::error::KafkoError;
use crate::log;
use crate::log::{EffectView, IndexedView, LogView, ReadPlan};
use crate::record;
use crate::record::RecordView;
use crate::scan;
use crate::segment;
use crate::segment::OpenFile;
use crate::sparse_index;

verus! {

/// The files of one segment.
#[verifier::ext_equal]
pub struct SegmentFiles {
    /// The contents of the segment's file.
    pub data: Seq<u8>,
    /// Where the segment's open file stands.
    pub position: nat,
    /// The contents of its index file, which is only ever appended to.
    pub index: Seq<u8>,
}

impl SegmentFiles {
    /// The files of a segment that was just created.
    pub open spec fn fresh() -> Self {
        SegmentFiles { data: Seq::empty(), position: 0, index: Seq::empty() }
    }

    /// The segment's file.
    pub open spec fn file(self) -> OpenFile {
        OpenFile { data: self.data, position: self.position }
    }

    /// The files, cut to these sizes.
    pub open spec fn cut(self, data_size: int, index_size: int) -> Self {
        SegmentFiles {
            data: self.data.take(data_size),
            position: self.position,
            index: self.index.take(index_size),
        }
    }

    /// The files with another file of the segment.
    pub open spec fn with_file(self, file: OpenFile) -> Self {
        SegmentFiles { data: file.data, position: file.position, index: self.index }
    }
}

/// The codecs of this build.
pub open spec fn codecs() -> CodecSet {
    CodecSet::of_this_build()
}

/// The offset behind the last record of segment `i` that the log knows of.
pub open spec fn end_offset(log: LogView, i: int) -> u64 {
    if i + 1 < log.segments.len() {
        log.segments[i + 1].segment.base_offset
    } else {
        log.next_offset
    }
}

/// Whether the files of one segment hold what the log says of it.
pub open spec fn segment_stored(pair: IndexedView, files: SegmentFiles, end: u64) -> bool {
    let records = scan::count(codecs(), files.data);
    &&& pair.segment.describes(files.file())
    &&& scan::whole(codecs(), files.data)
    &&& files.index == sparse_index::entries_bytes(pair.index.entries)
    &&& scan::index_sound(codecs(), files.data, pair.index, records)
    &&& pair.index.bytes_since_last_entry <= pair.segment.size
    &&& end - pair.segment.base_offset <= records
}

/// Whether the files hold what the log says: every record it knows of, and
/// possibly more behind them that were never acknowledged.
#[verifier::opaque]
pub open spec fn stored(log: LogView, disk: Seq<SegmentFiles>) -> bool {
    &&& log.wf()
    &&& !log.torn
    &&& disk.len() == log.segments.len()
    &&& forall|i: int|
        0 <= i < disk.len() ==> segment_stored(
            log.segments[i],
            #[trigger] disk[i],
            end_offset(log, i),
        )
}

/// Whether, besides, the active segment holds no record that the log does not
/// know of.
#[verifier::opaque]
pub open spec fn settled(log: LogView, disk: Seq<SegmentFiles>) -> bool {
    &&& stored(log, disk)
    &&& log.mark == log.active().mark()
    &&& log.next_offset - log.active().segment.base_offset == scan::count(
        codecs(),
        disk.last().data,
    )
}

/// The files once what a failed append left behind has been cut off.
pub open spec fn trimmed(log: LogView, disk: Seq<SegmentFiles>) -> Seq<SegmentFiles> {
    if log.torn {
        disk_after(log, disk, log.lead()[0])
    } else {
        disk
    }
}

/// Whether there are files for all that the log knows of, and the active
/// segment's file stands where the log says, if it says so.
pub open spec fn covers(log: LogView, disk: Seq<SegmentFiles>) -> bool {
    &&& log.wf()
    &&& disk.len() == log.segments.len()
    &&& log.active().segment.size <= disk.last().data.len()
    &&& 8 * log.active().index.entries.len() <= disk.last().index.len()
    &&& log.active().segment.cursor matches Some(at) ==> at == disk.last().position
}

/// Whether the files hold every record that the log knows of; see [`stored`].
/// Behind them may stand what a failed append left.
pub open spec fn intact(log: LogView, disk: Seq<SegmentFiles>) -> bool {
    covers(log, disk) && stored(log.ready(), trimmed(log, disk))
}

/// Whether, besides, the next append can start: behind the known records there
/// is at most what is cut off before it; see [`settled`].
pub open spec fn usable(log: LogView, disk: Seq<SegmentFiles>) -> bool {
    covers(log, disk) && settled(log.ready(), trimmed(log, disk))
}

/// What reading by a plan gives: a search through the part that the plan names.
pub open spec fn read_by(
    disk: Seq<SegmentFiles>,
    plan: Option<ReadPlan>,
    offset: u64,
) -> Result<Option<RecordView>, KafkoError> {
    match plan {
        None => Ok(None),
        Some(p) => scan::find(
            codecs(),
            disk[p.segment as int].data.subrange(p.file_pos as int, p.file_pos + p.len),
            p.starting_offset as int,
            offset as int,
        ),
    }
}

/// Whether there is something to read where a plan says.
pub open spec fn readable_by(disk: Seq<SegmentFiles>, plan: Option<ReadPlan>) -> bool {
    plan matches Some(p) ==> p.segment < disk.len() && p.file_pos + p.len
        <= disk[p.segment as int].data.len()
}

/// Whether a read of this offset gives this result, by whatever plan the log
/// makes.
pub open spec fn reads_as(
    log: LogView,
    disk: Seq<SegmentFiles>,
    offset: u64,
    result: Result<Option<RecordView>, KafkoError>,
) -> bool {
    forall|plan: Option<ReadPlan>| #[trigger]
        log.locates(offset, plan) ==> readable_by(disk, plan) && read_by(disk, plan, offset)
            == result
}

/// The offset of the oldest record.
pub open spec fn first_offset(log: LogView) -> u64 {
    log.segments[0].segment.base_offset
}

/// Whether the log knows of a record with this offset.
pub open spec fn known(log: LogView, offset: u64) -> bool {
    first_offset(log) <= offset < log.next_offset
}

/// The segment that holds an offset.
pub open spec fn segment_of(log: LogView, offset: u64) -> int {
    choose|i: int| log.holds(offset, i)
}

/// The record with this offset.
pub open spec fn record_of(log: LogView, disk: Seq<SegmentFiles>, offset: u64) -> RecordView {
    let i = segment_of(log, offset);
    scan::record_at(
        codecs(),
        disk[i].data,
        (offset - log.segments[i].segment.base_offset) as nat,
    )
}

/// Whether every record that the one log knows of, the other knows of too, and
/// as the same, and none before them.
pub open spec fn keeps_records(
    log: LogView,
    disk: Seq<SegmentFiles>,
    later: LogView,
    later_disk: Seq<SegmentFiles>,
) -> bool {
    &&& first_offset(later) == first_offset(log)
    &&& forall|offset: u64|
        known(log, offset) ==> known(later, offset) && #[trigger] record_of(
            later,
            later_disk,
            offset,
        ) == record_of(log, disk, offset)
}

/// The disk after a step.
pub open spec fn disk_after(
    log: LogView,
    disk: Seq<SegmentFiles>,
    effect: EffectView,
) -> Seq<SegmentFiles> {
    let active = disk.last();
    match effect {
        EffectView::Cut { data_size, index_size } => disk.update(
            disk.len() - 1,
            active.cut(data_size as int, index_size as int),
        ),
        EffectView::OpenSegment { .. } => disk.push(SegmentFiles::fresh()),
        EffectView::Seek { position } => disk.update(
            disk.len() - 1,
            active.with_file(active.file().seek(position as nat)),
        ),
        EffectView::Write { bytes } => disk.update(
            disk.len() - 1,
            active.with_file(active.file().write(bytes)),
        ),
        EffectView::Track { offset, file_pos, .. } => disk.update(
            disk.len() - 1,
            SegmentFiles {
                index: active.index + log.active().index.pending_bytes(offset, file_pos),
                ..active
            },
        ),
        _ => disk,
    }
}

/// The log after some steps.
#[verifier::opaque]
pub open spec fn run_log(log: LogView, effects: Seq<EffectView>) -> LogView
    decreases effects.len(),
{
    if effects.len() == 0 {
        log
    } else {
        run_log(log, effects.drop_last()).after(effects.last())
    }
}

/// The disk after some steps.
#[verifier::opaque]
pub open spec fn run_disk(
    log: LogView,
    disk: Seq<SegmentFiles>,
    effects: Seq<EffectView>,
) -> Seq<SegmentFiles>
    decreases effects.len(),
{
    if effects.len() == 0 {
        disk
    } else {
        disk_after(
            run_log(log, effects.drop_last()),
            run_disk(log, disk, effects.drop_last()),
            effects.last(),
        )
    }
}

/// Whether each of the first `n` steps can be applied when its turn comes.
pub open spec fn runnable_to(log: LogView, effects: Seq<EffectView>, n: int) -> bool {
    forall|k: int|
        0 <= k < n ==> run_log(log, effects.take(k)).allows(#[trigger] effects[k])
}

/// Whether each step can be applied when its turn comes.
pub open spec fn runnable(log: LogView, effects: Seq<EffectView>) -> bool {
    runnable_to(log, effects, effects.len() as int)
}

/// Whether the records that a plan writes can be read back: each takes up no
/// more bytes than the format has room for, and a compressed value is within
/// the decompression limit.
pub open spec fn storable(
    codec: Compression,
    records: Seq<RecordView>,
    effects: Seq<EffectView>,
) -> bool {
    &&& forall|k: int|
        0 <= k < effects.len() ==> (#[trigger] effects[k] matches EffectView::Track { size, .. }
            ==> size - 4 <= u32::MAX)
    &&& codec == Compression::Uncompressed || forall|i: int|
        0 <= i < records.len() ==> (#[trigger] records[i]).value.len()
            <= compression::DECOMPRESS_MAX_SIZE
}

/// Whether the records can be read back out of these encoded forms.
pub open spec fn all_readable(
    codec: Compression,
    records: Seq<RecordView>,
    frames: Seq<Seq<u8>>,
) -> bool {
    forall|i: int|
        0 <= i < frames.len() ==> record::readable(codec, records[i], #[trigger] frames[i])
}

/// The records of a plan can be read back out of what it writes.
pub proof fn lemma_storable_frames(
    log: LogView,
    records: Seq<RecordView>,
    additional: nat,
    frames: Seq<Seq<u8>>,
)
    requires
        log.accepts(records),
        log::encodes_all(log.config.compression, records, frames),
        storable(
            log.config.compression,
            records,
            log.append_effects(additional, frames),
        ),
    ensures
        all_readable(log.config.compression, records, frames),
{
    let codec = log.config.compression;
    let effects = log.append_effects(additional, frames);
    let a = steps_before_write(log, additional);
    log::lemma_concat_bound(codec, records, frames);
    assert forall|i: int| 0 <= i < frames.len() implies record::readable(
        codec,
        records[i],
        #[trigger] frames[i],
    ) by {
        log::lemma_concat_step(frames, i);
        log::lemma_concat_take_len(frames, i + 1);
        lemma_append_effects_by_number(log, additional, frames, i);
        let track = effects[a + 1 + i];
        assert(track matches EffectView::Track { size, .. } && size == frames[i].len());
    }
}

/// The segment that holds an offset is the only one that does.
pub proof fn lemma_segment_of(log: LogView, offset: u64, i: int)
    requires
        log.wf(),
        log.holds(offset, i),
    ensures
        segment_of(log, offset) == i,
{
    let chosen = segment_of(log, offset);
    assert(log.holds(offset, chosen));
    if chosen < i {
        assert(log.segments[i].segment.base_offset > offset);
    } else if i < chosen {
        assert(log.segments[chosen].segment.base_offset > offset);
    }
}

/// Every offset has a segment.
pub proof fn lemma_holds_exists(log: LogView, offset: u64, n: int)
    requires
        1 <= n <= log.segments.len(),
        forall|j: int|
            n <= j < log.segments.len() ==> (#[trigger] log.segments[j]).segment.base_offset
                > offset,
    ensures
        exists|i: int| 0 <= i < n && log.holds(offset, i),
    decreases n,
{
    if n == 1 || log.segments[n - 1].segment.base_offset <= offset {
        assert(log.holds(offset, n - 1));
    } else {
        lemma_holds_exists(log, offset, n - 1);
    }
}

/// A known offset is within its segment's records.
pub proof fn lemma_known_within(log: LogView, disk: Seq<SegmentFiles>, offset: u64)
    requires
        stored(log, disk),
        known(log, offset),
    ensures
        ({
            let i = segment_of(log, offset);
            let base = log.segments[i].segment.base_offset;
            &&& log.holds(offset, i)
            &&& base <= offset < end_offset(log, i)
            &&& offset - base < scan::count(codecs(), disk[i].data)
        }),
{
    reveal(stored);
    lemma_holds_exists(log, offset, log.segments.len() as int);
    let i = segment_of(log, offset);
    assert(log.holds(offset, i));
    assert(segment_stored(log.segments[i], disk[i], end_offset(log, i)));
}

/// A record that the log knows of can be read: the part of the segment that
/// the log says to read holds it, and the search through that part finds it.
pub proof fn lemma_known_is_readable(
    log: LogView,
    disk: Seq<SegmentFiles>,
    offset: u64,
    plan: Option<ReadPlan>,
)
    requires
        stored(log, disk),
        known(log, offset),
        log.locates(offset, plan),
    ensures
        plan matches Some(p) && p.segment < disk.len() && p.file_pos + p.len
            == disk[p.segment as int].data.len() && scan::find(
            codecs(),
            disk[p.segment as int].data.skip(p.file_pos as int),
            p.starting_offset as int,
            offset as int,
        ) == Ok::<Option<RecordView>, KafkoError>(Some(record_of(log, disk, offset))),
{
    reveal(stored);
    lemma_known_within(log, disk, offset);
    let (i, start) = choose|i: int, start: (u64, u64)|
        #![trigger log.holds(offset, i), log.read_plan(i, start)]
        log.holds(offset, i) && log.segments[i].index.search_start(offset, start) && plan
            == log.read_plan(i, start);
    lemma_segment_of(log, offset, i);
    let pair = log.segments[i];
    let data = disk[i].data;
    let base = pair.segment.base_offset;
    assert(segment_stored(pair, disk[i], end_offset(log, i)));
    assert(pair.wf());
    let n = choose|n: int|
        #[trigger] pair.index.entries_up_to(offset, n) && start == pair.index.start_behind(n);
    let target = (offset - base) as nat;
    let from: nat = if n == 0 {
        0
    } else {
        pair.index.entries[n - 1].relative_offset as nat
    };
    if n > 0 {
        let entry = pair.index.entries[n - 1];
        assert(entry.file_position == scan::position(codecs(), data, from));
    }
    assert(start.0 == scan::position(codecs(), data, from));
    assert(start.1 == base + from);
    scan::law_find_reaches_record(codecs(), data, base as int, from, target);
    scan::lemma_split(codecs(), data, from, 1);
    scan::lemma_position_bounds(codecs(), data, from + 1);
    scan::lemma_position_bounds(codecs(), data, from);
    scan::lemma_split(codecs(), data, from, 0);
    let rest = data.skip(start.0 as int);
    record::law_parse_within_input(codecs(), rest);
    assert(scan::position(codecs(), rest, 1) == record::parse(codecs(), rest).consumed
        + scan::position(codecs(), rest.skip(record::parse(codecs(), rest).consumed), 0));
}

/// A read before the oldest record, as after retention, finds nothing and is
/// no error.
pub proof fn lemma_nothing_before_start(
    log: LogView,
    disk: Seq<SegmentFiles>,
    offset: u64,
    plan: Option<ReadPlan>,
)
    requires
        stored(log, disk),
        offset < first_offset(log),
        log.locates(offset, plan),
    ensures
        plan matches Some(p) ==> scan::find(
            codecs(),
            disk[p.segment as int].data.skip(p.file_pos as int),
            p.starting_offset as int,
            offset as int,
        ) == Ok::<Option<RecordView>, KafkoError>(None),
{
    reveal(stored);
    if offset < log.next_offset {
        let (i, start) = choose|i: int, start: (u64, u64)|
            #![trigger log.holds(offset, i), log.read_plan(i, start)]
            log.holds(offset, i) && log.segments[i].index.search_start(offset, start) && plan
                == log.read_plan(i, start);
        let pair = log.segments[i];
        assert(segment_stored(pair, disk[i], end_offset(log, i)));
        assert(i == 0);
        let n = choose|n: int|
            #[trigger] pair.index.entries_up_to(offset, n) && start == pair.index.start_behind(n);
        if n > 0 {
            assert(pair.index.base_offset + pair.index.entries[n - 1].relative_offset <= offset);
        }
        assert(disk[i].data.skip(0) =~= disk[i].data);
        scan::law_find_nothing_before_start(
            codecs(),
            disk[i].data,
            start.1 as int,
            offset as int,
        );
    }
}

/// Reading a segment, from a position that its file is moved to where it
/// stands elsewhere, takes nothing from the log: the file's position stays
/// known, and the same records are there.
pub proof fn lemma_reading(
    log: LogView,
    disk: Seq<SegmentFiles>,
    i: int,
    position: u64,
    n: nat,
)
    requires
        stored(log, disk),
        0 <= i < disk.len(),
        position + n <= disk[i].data.len(),
    ensures
        ({
            let segment = log.segments[i].segment;
            let file = segment.sought(disk[i].file(), position);
            let later = log.with_segment(i, segment.after_read(position, n));
            let later_disk = disk.update(i, disk[i].with_file(file.read(n)));
            &&& file.position == position
            &&& stored(later, later_disk)
            &&& settled(log, disk) ==> settled(later, later_disk)
            &&& keeps_records(log, disk, later, later_disk)
            &&& later.next_offset == log.next_offset
        }),
{
    reveal(stored);
    reveal(settled);
    let segment = log.segments[i].segment;
    let file = segment.sought(disk[i].file(), position);
    let later = log.with_segment(i, segment.after_read(position, n));
    let later_disk = disk.update(i, disk[i].with_file(file.read(n)));
    assert(segment_stored(log.segments[i], disk[i], end_offset(log, i)));
    segment::law_read_starts_at_position(segment, disk[i].file(), position, n);
    assert forall|j: int| 0 <= j < later.segments.len() implies (
    #[trigger] later.segments[j]).wf() by {
        assert(log.segments[j].wf());
    }
    assert forall|j: int| 0 <= j < later_disk.len() implies segment_stored(
        later.segments[j],
        #[trigger] later_disk[j],
        end_offset(later, j),
    ) by {
        assert(segment_stored(log.segments[j], disk[j], end_offset(log, j)));
    }
    reveal(grown);
    assert forall|j: int| 0 <= j < log.segments.len() implies {
        &&& (#[trigger] later.segments[j]).segment.base_offset
            == log.segments[j].segment.base_offset
        &&& disk[j].data.len() <= later_disk[j].data.len()
        &&& later_disk[j].data.take(disk[j].data.len() as int) == disk[j].data
    } by {
        assert(disk[j].data.take(disk[j].data.len() as int) =~= disk[j].data);
    }
    lemma_grown_keeps_records(log, disk, later, later_disk);
}

/// Whether a log and its disk came out of others by growing: segments were
/// added behind the known records, and files were appended to.
#[verifier::opaque]
pub open spec fn grown(
    log: LogView,
    disk: Seq<SegmentFiles>,
    later: LogView,
    later_disk: Seq<SegmentFiles>,
) -> bool {
    &&& disk.len() == log.segments.len() <= later.segments.len() == later_disk.len()
    &&& log.next_offset <= later.next_offset
    &&& forall|i: int|
        0 <= i < log.segments.len() ==> {
            &&& (#[trigger] later.segments[i]).segment.base_offset
                == log.segments[i].segment.base_offset
            &&& disk[i].data.len() <= later_disk[i].data.len()
            &&& later_disk[i].data.take(disk[i].data.len() as int) == disk[i].data
        }
    &&& forall|i: int|
        log.segments.len() <= i < later.segments.len() ==> (
        #[trigger] later.segments[i]).segment.base_offset >= log.next_offset
}

/// Growing keeps every record.
pub proof fn lemma_grown_keeps_records(
    log: LogView,
    disk: Seq<SegmentFiles>,
    later: LogView,
    later_disk: Seq<SegmentFiles>,
)
    requires
        stored(log, disk),
        later.wf(),
        grown(log, disk, later, later_disk),
    ensures
        keeps_records(log, disk, later, later_disk),
{
    reveal(stored);
    reveal(grown);
    assert(later.segments[0].segment.base_offset == log.segments[0].segment.base_offset);
    assert forall|offset: u64| known(log, offset) implies known(later, offset)
        && #[trigger] record_of(later, later_disk, offset) == record_of(log, disk, offset) by {
        lemma_known_within(log, disk, offset);
        let i = segment_of(log, offset);
        assert(later.segments[i].segment.base_offset == log.segments[i].segment.base_offset);
        assert forall|j: int| i < j < later.segments.len() implies (
        #[trigger] later.segments[j]).segment.base_offset > offset by {
            if j < log.segments.len() {
                assert(log.segments[j].segment.base_offset > offset);
            }
        }
        assert(later.holds(offset, i));
        lemma_segment_of(later, offset, i);
        let data = disk[i].data;
        let more = later_disk[i].data.skip(data.len() as int);
        assert(later_disk[i].data =~= data + more);
        assert(segment_stored(log.segments[i], disk[i], end_offset(log, i)));
        scan::lemma_extend_keeps_record(
            codecs(),
            data,
            more,
            (offset - log.segments[i].segment.base_offset) as nat,
        );
    }
}

/// Growing by nothing is growing.
pub proof fn lemma_grown_reflexive(log: LogView, disk: Seq<SegmentFiles>)
    requires
        settled(log, disk),
    ensures
        grown(log, disk, log, disk),
{
    reveal(settled);
    reveal(stored);
    reveal(grown);
    assert forall|i: int| 0 <= i < log.segments.len() implies {
        &&& (#[trigger] log.segments[i]).segment.base_offset
            == log.segments[i].segment.base_offset
        &&& disk[i].data.len() <= disk[i].data.len()
        &&& disk[i].data.take(disk[i].data.len() as int) == disk[i].data
    } by {
        assert(disk[i].data.take(disk[i].data.len() as int) =~= disk[i].data);
    }
}

/// Growing twice is growing.
pub proof fn lemma_grown_transitive(
    a: LogView,
    a_disk: Seq<SegmentFiles>,
    b: LogView,
    b_disk: Seq<SegmentFiles>,
    c: LogView,
    c_disk: Seq<SegmentFiles>,
)
    requires
        grown(a, a_disk, b, b_disk),
        grown(b, b_disk, c, c_disk),
    ensures
        grown(a, a_disk, c, c_disk),
{
    reveal(grown);
    assert forall|i: int| 0 <= i < a.segments.len() implies {
        &&& (#[trigger] c.segments[i]).segment.base_offset == a.segments[i].segment.base_offset
        &&& a_disk[i].data.len() <= c_disk[i].data.len()
        &&& c_disk[i].data.take(a_disk[i].data.len() as int) == a_disk[i].data
    } by {
        assert(b.segments[i].segment.base_offset == a.segments[i].segment.base_offset);
        let n = a_disk[i].data.len() as int;
        assert(c_disk[i].data.take(n) =~= b_disk[i].data.take(n));
    }
    assert forall|i: int| a.segments.len() <= i < c.segments.len() implies (
    #[trigger] c.segments[i]).segment.base_offset >= a.next_offset by {
        if i < b.segments.len() {
            assert(b.segments[i].segment.base_offset >= a.next_offset);
        }
    }
}

/// What a settled log is, besides.
pub proof fn lemma_settled_is_stored(log: LogView, disk: Seq<SegmentFiles>)
    requires
        settled(log, disk),
    ensures
        stored(log, disk),
        log.wf(),
        disk.len() == log.segments.len(),
{
    reveal(settled);
    reveal(stored);
}

/// Whether a step comes before the write: it moves on to a new segment, or
/// moves a file.
pub open spec fn prepares(log: LogView, effect: EffectView) -> bool {
    match effect {
        EffectView::SyncActive => true,
        EffectView::OpenSegment { base_offset } => base_offset == log.next_offset,
        EffectView::Seek { .. } => true,
        _ => false,
    }
}

/// A step that comes before the write changes no record.
pub proof fn lemma_prepare_step(log: LogView, disk: Seq<SegmentFiles>, effect: EffectView)
    requires
        settled(log, disk),
        log.allows(effect),
        prepares(log, effect),
    ensures
        settled(log.after(effect), disk_after(log, disk, effect)),
        grown(log, disk, log.after(effect), disk_after(log, disk, effect)),
        log.after(effect).next_offset == log.next_offset,
{
    reveal(stored);
    reveal(settled);
    reveal(grown);
    let later = log.after(effect);
    let later_disk = disk_after(log, disk, effect);
    let last = log.segments.len() - 1;
    log::lemma_after_keeps_wf(log, effect);
    assert forall|i: int| 0 <= i < later_disk.len() implies segment_stored(
        later.segments[i],
        #[trigger] later_disk[i],
        end_offset(later, i),
    ) by {
        if i < disk.len() {
            assert(segment_stored(log.segments[i], disk[i], end_offset(log, i)));
        }
    }
    assert forall|i: int| 0 <= i < log.segments.len() implies {
        &&& (#[trigger] later.segments[i]).segment.base_offset
            == log.segments[i].segment.base_offset
        &&& disk[i].data.len() <= later_disk[i].data.len()
        &&& later_disk[i].data.take(disk[i].data.len() as int) == disk[i].data
    } by {
        assert(disk[i].data.take(disk[i].data.len() as int) =~= disk[i].data);
    }
}

/// Running no step.
pub proof fn lemma_run_nothing(log: LogView, disk: Seq<SegmentFiles>, effects: Seq<EffectView>)
    ensures
        run_log(log, effects.take(0)) == log,
        run_disk(log, disk, effects.take(0)) == disk,
{
    reveal(run_log);
    reveal(run_disk);
    assert(effects.take(0) =~= Seq::<EffectView>::empty());
}

/// Running one more step.
pub proof fn lemma_run_step(log: LogView, disk: Seq<SegmentFiles>, effects: Seq<EffectView>, k: int)
    requires
        0 <= k < effects.len(),
    ensures
        run_log(log, effects.take(k + 1)) == run_log(log, effects.take(k)).after(effects[k]),
        run_disk(log, disk, effects.take(k + 1)) == disk_after(
            run_log(log, effects.take(k)),
            run_disk(log, disk, effects.take(k)),
            effects[k],
        ),
{
    reveal(run_log);
    reveal(run_disk);
    assert(effects.take(k + 1).drop_last() =~= effects.take(k));
}

/// The steps that come before the write change no record.
pub proof fn lemma_prepare_run(
    log: LogView,
    disk: Seq<SegmentFiles>,
    effects: Seq<EffectView>,
    k: int,
)
    requires
        settled(log, disk),
        runnable_to(log, effects, k),
        0 <= k <= effects.len(),
        forall|j: int| 0 <= j < k ==> prepares(log, #[trigger] effects[j]),
    ensures
        settled(run_log(log, effects.take(k)), run_disk(log, disk, effects.take(k))),
        grown(log, disk, run_log(log, effects.take(k)), run_disk(log, disk, effects.take(k))),
        run_log(log, effects.take(k)).next_offset == log.next_offset,
    decreases k,
{
    if k == 0 {
        lemma_grown_reflexive(log, disk);
        lemma_run_nothing(log, disk, effects);
    } else {
        lemma_prepare_run(log, disk, effects, k - 1);
        lemma_run_step(log, disk, effects, k - 1);
        let before = run_log(log, effects.take(k - 1));
        let before_disk = run_disk(log, disk, effects.take(k - 1));
        assert(prepares(log, effects[k - 1]));
        lemma_prepare_step(before, before_disk, effects[k - 1]);
        lemma_grown_transitive(
            log,
            disk,
            before,
            before_disk,
            run_log(log, effects.take(k)),
            run_disk(log, disk, effects.take(k)),
        );
    }
}

/// Encoded records behind one another are whole records: the same ones, each
/// where the ones before it end.
pub proof fn lemma_frames_are_whole(
    codec: Compression,
    records: Seq<RecordView>,
    frames: Seq<Seq<u8>>,
    j: int,
)
    requires
        codecs().supports(codec),
        log::encodes_all(codec, records, frames),
        all_readable(codec, records, frames),
        0 <= j < frames.len(),
    ensures
        scan::whole(codecs(), log::concat(frames)),
        scan::count(codecs(), log::concat(frames)) == frames.len(),
        scan::position(codecs(), log::concat(frames), j as nat) == log::concat(
            frames.take(j),
        ).len(),
        scan::record_at(codecs(), log::concat(frames), j as nat) == records[j],
    decreases frames.len(),
{
    let n = frames.len() - 1;
    let init = frames.drop_last();
    let last = frames[n];
    let front = log::concat(init);
    assert(record::encodes(codec, records[n], frames[n]));
    assert(record::readable(codec, records[n], frames[n]));
    scan::lemma_encoded_record_is_whole(codecs(), codec, records[n], last);
    assert(log::encodes_all(codec, records.take(n), init)) by {
        assert forall|i: int| 0 <= i < init.len() implies {
            &&& record::encodes(codec, records.take(n)[i], #[trigger] init[i])
            &&& init[i].len() <= record::encoded_bound(codec, records.take(n)[i])
        } by {
            assert(init[i] == frames[i]);
        }
    }
    assert forall|i: int| 0 <= i < init.len() implies record::readable(
        codec,
        records.take(n)[i],
        #[trigger] init[i],
    ) by {
        assert(init[i] == frames[i]);
    }
    if n == 0 {
        assert(front.len() == 0);
        assert(front + last =~= last);
        assert(frames.take(0).len() == 0);
    } else {
        let k = if j < n {
            j
        } else {
            0
        };
        lemma_frames_are_whole(codec, records.take(n), init, k);
        scan::lemma_extend(codecs(), front, last);
        if j < n {
            scan::lemma_extend_keeps_record(codecs(), front, last, j as nat);
            assert(init.take(j) =~= frames.take(j));
        } else {
            scan::lemma_extend_appends_record(codecs(), front, last, 0);
            assert(frames.take(j) =~= init);
        }
    }
}

/// The state behind the write, with `j` records tracked.
#[verifier::opaque]
pub open spec fn written(
    log: LogView,
    disk: Seq<SegmentFiles>,
    frames: Seq<Seq<u8>>,
    later: LogView,
    later_disk: Seq<SegmentFiles>,
    j: int,
) -> bool {
    let before = scan::count(codecs(), disk.last().data);
    &&& stored(later, later_disk)
    &&& grown(log, disk, later, later_disk)
    &&& later.segments.len() == log.segments.len()
    &&& later.next_offset == log.next_offset
    &&& later_disk.last().data == disk.last().data + log::concat(frames)
    &&& later.active().index.bytes_since_last_entry <= disk.last().data.len() + log::concat(
        frames.take(j),
    ).len()
    &&& scan::index_sound(
        codecs(),
        later_disk.last().data,
        later.active().index,
        (before + j) as nat,
    )
}

/// The write keeps every record and makes no new one known.
pub proof fn lemma_write_step(
    log: LogView,
    disk: Seq<SegmentFiles>,
    codec: Compression,
    records: Seq<RecordView>,
    frames: Seq<Seq<u8>>,
)
    requires
        settled(log, disk),
        codecs().supports(codec),
        log::encodes_all(codec, records, frames),
        all_readable(codec, records, frames),
        frames.len() > 0,
        log.allows(EffectView::Write { bytes: log::concat(frames) }),
        !log.active().segment.needs_seek(log.active().segment.size),
    ensures
        ({
            let effect = EffectView::Write { bytes: log::concat(frames) };
            written(log, disk, frames, log.after(effect), disk_after(log, disk, effect), 0)
        }),
{
    reveal(stored);
    reveal(settled);
    reveal(grown);
    reveal(written);
    let effect = EffectView::Write { bytes: log::concat(frames) };
    let later = log.after(effect);
    let later_disk = disk_after(log, disk, effect);
    let last = log.segments.len() - 1;
    let data = disk[last].data;
    let more = log::concat(frames);
    log::lemma_after_keeps_wf(log, effect);
    lemma_frames_are_whole(codec, records, frames, 0);
    assert(segment_stored(log.segments[last], disk[last], end_offset(log, last)));
    scan::lemma_extend(codecs(), data, more);
    let before = scan::count(codecs(), data);
    scan::lemma_extend_keeps_sound(codecs(), data, more, log.segments[last].index, before);
    segment::law_append_extends_file(log.segments[last].segment, disk[last].file(), more);
    assert forall|i: int| 0 <= i < later_disk.len() implies segment_stored(
        later.segments[i],
        #[trigger] later_disk[i],
        end_offset(later, i),
    ) by {
        assert(segment_stored(log.segments[i], disk[i], end_offset(log, i)));
    }
    assert forall|i: int| 0 <= i < log.segments.len() implies {
        &&& (#[trigger] later.segments[i]).segment.base_offset
            == log.segments[i].segment.base_offset
        &&& disk[i].data.len() <= later_disk[i].data.len()
        &&& later_disk[i].data.take(disk[i].data.len() as int) == disk[i].data
    } by {
        assert(later_disk[i].data.take(disk[i].data.len() as int) =~= disk[i].data);
    }
}

/// Tracking a record keeps every record and makes no new one known.
pub proof fn lemma_track_step(
    log: LogView,
    disk: Seq<SegmentFiles>,
    codec: Compression,
    records: Seq<RecordView>,
    frames: Seq<Seq<u8>>,
    at: LogView,
    at_disk: Seq<SegmentFiles>,
    j: int,
)
    requires
        settled(log, disk),
        codecs().supports(codec),
        log::encodes_all(codec, records, frames),
        all_readable(codec, records, frames),
        0 <= j < frames.len(),
        written(log, disk, frames, at, at_disk, j),
        log.next_offset + frames.len() <= u64::MAX,
        at.allows(
            log::track_effects(log.next_offset, log.active().segment.size, frames)[j],
        ),
    ensures
        ({
            let effect = log::track_effects(
                log.next_offset,
                log.active().segment.size,
                frames,
            )[j];
            written(log, disk, frames, at.after(effect), disk_after(at, at_disk, effect), j + 1)
        }),
{
    reveal(stored);
    reveal(settled);
    reveal(grown);
    reveal(written);
    let effect = log::track_effects(log.next_offset, log.active().segment.size, frames)[j];
    let later = at.after(effect);
    let later_disk = disk_after(at, at_disk, effect);
    let last = log.segments.len() - 1;
    let data = disk[last].data;
    let more = log::concat(frames);
    let all = at_disk[last].data;
    let before = scan::count(codecs(), data);
    let base = log.segments[last].segment.base_offset;
    log::lemma_after_keeps_wf(at, effect);
    lemma_frames_are_whole(codec, records, frames, j);
    assert(segment_stored(log.segments[last], disk[last], end_offset(log, last)));
    assert(segment_stored(at.segments[last], at_disk[last], end_offset(at, last)));
    assert(at.segments[last].segment.base_offset == base);
    assert(at.segments[last].wf());
    scan::lemma_extend(codecs(), data, more);
    scan::lemma_extend_appends_record(codecs(), data, more, j as nat);
    scan::lemma_position_bounds(codecs(), all, (before + j) as nat);
    log::lemma_concat_step(frames, j);
    log::lemma_concat_take_len(frames, j + 1);
    let index = at.active().index;
    let offset = (log.next_offset + j) as u64;
    let file_pos = scan::position(codecs(), all, (before + j) as nat);
    let size = frames[j].len() as usize;
    assert(effect == (EffectView::Track { offset, file_pos: file_pos as u64, size }));
    scan::lemma_track_keeps_sound(codecs(), all, index, (before + j) as nat, size as nat);
    sparse_index::law_track_matches_file(index, offset, file_pos as u64, size as nat);
    assert forall|i: int| 0 <= i < later_disk.len() implies segment_stored(
        later.segments[i],
        #[trigger] later_disk[i],
        end_offset(later, i),
    ) by {
        assert(segment_stored(at.segments[i], at_disk[i], end_offset(at, i)));
    }
    assert forall|i: int| 0 <= i < log.segments.len() implies {
        &&& (#[trigger] later.segments[i]).segment.base_offset
            == log.segments[i].segment.base_offset
        &&& disk[i].data.len() <= later_disk[i].data.len()
        &&& later_disk[i].data.take(disk[i].data.len() as int) == disk[i].data
    } by {
        assert(at.segments[i].segment.base_offset == log.segments[i].segment.base_offset);
    }
}

/// What the state behind the write is, besides.
pub proof fn lemma_written_is_stored(
    log: LogView,
    disk: Seq<SegmentFiles>,
    frames: Seq<Seq<u8>>,
    later: LogView,
    later_disk: Seq<SegmentFiles>,
    j: int,
)
    requires
        written(log, disk, frames, later, later_disk, j),
    ensures
        stored(later, later_disk),
        later.wf(),
        grown(log, disk, later, later_disk),
        later.next_offset == log.next_offset,
        later.segments.len() == log.segments.len(),
{
    reveal(written);
    reveal(stored);
}

/// The last step leaves nothing that the log does not know of.
pub proof fn lemma_advance_step(
    log: LogView,
    disk: Seq<SegmentFiles>,
    codec: Compression,
    records: Seq<RecordView>,
    frames: Seq<Seq<u8>>,
    at: LogView,
    at_disk: Seq<SegmentFiles>,
)
    requires
        settled(log, disk),
        codecs().supports(codec),
        log::encodes_all(codec, records, frames),
        all_readable(codec, records, frames),
        frames.len() > 0,
        written(log, disk, frames, at, at_disk, frames.len() as int),
        log.next_offset + frames.len() <= u64::MAX,
        at.allows(EffectView::Advance { next_offset: (log.next_offset + frames.len()) as u64 }),
    ensures
        ({
            let effect = EffectView::Advance {
                next_offset: (log.next_offset + frames.len()) as u64,
            };
            let later = at.after(effect);
            &&& settled(later, at_disk)
            &&& grown(log, disk, later, at_disk)
        }),
{
    reveal(settled);
    reveal(stored);
    reveal(grown);
    reveal(written);
    let effect = EffectView::Advance { next_offset: (log.next_offset + frames.len()) as u64 };
    let later = at.after(effect);
    let last = log.segments.len() - 1;
    let data = disk[last].data;
    let more = log::concat(frames);
    log::lemma_after_keeps_wf(at, effect);
    assert(at.segments[last].segment.base_offset == log.segments[last].segment.base_offset);
    lemma_frames_are_whole(codec, records, frames, 0);
    assert(segment_stored(log.segments[last], disk[last], end_offset(log, last)));
    scan::lemma_extend(codecs(), data, more);
    assert forall|i: int| 0 <= i < at_disk.len() implies segment_stored(
        later.segments[i],
        #[trigger] at_disk[i],
        end_offset(later, i),
    ) by {
        assert(segment_stored(at.segments[i], at_disk[i], end_offset(at, i)));
    }
}

/// The last step makes the records known.
pub proof fn lemma_advance_adds_record(
    log: LogView,
    disk: Seq<SegmentFiles>,
    codec: Compression,
    records: Seq<RecordView>,
    frames: Seq<Seq<u8>>,
    at: LogView,
    at_disk: Seq<SegmentFiles>,
    i: int,
)
    requires
        settled(log, disk),
        codecs().supports(codec),
        log::encodes_all(codec, records, frames),
        all_readable(codec, records, frames),
        0 <= i < records.len(),
        written(log, disk, frames, at, at_disk, frames.len() as int),
        log.next_offset + frames.len() <= u64::MAX,
        at.allows(EffectView::Advance { next_offset: (log.next_offset + frames.len()) as u64 }),
    ensures
        ({
            let effect = EffectView::Advance {
                next_offset: (log.next_offset + frames.len()) as u64,
            };
            let later = at.after(effect);
            let offset = (log.next_offset + i) as u64;
            &&& known(later, offset)
            &&& record_of(later, at_disk, offset) == records[i]
        }),
{
    reveal(settled);
    reveal(stored);
    reveal(grown);
    reveal(written);
    let effect = EffectView::Advance { next_offset: (log.next_offset + frames.len()) as u64 };
    let later = at.after(effect);
    let last = log.segments.len() - 1;
    let data = disk[last].data;
    let more = log::concat(frames);
    let base = log.segments[last].segment.base_offset;
    let offset = (log.next_offset + i) as u64;
    log::lemma_after_keeps_wf(at, effect);
    assert(at.segments[last].segment.base_offset == base);
    assert(segment_stored(log.segments[last], disk[last], end_offset(log, last)));
    assert(later.segments[0].segment.base_offset <= base);
    assert(later.holds(offset, last));
    lemma_segment_of(later, offset, last);
    lemma_frames_are_whole(codec, records, frames, i);
    scan::lemma_extend_appends_record(codecs(), data, more, i as nat);
}

/// How many steps come before the write.
pub open spec fn steps_before_write(log: LogView, additional: nat) -> int {
    (log.approach(additional) + log.seek_effects(additional)).len() as int
}

/// What the steps of an append are, by number.
pub proof fn lemma_append_effects_by_number(
    log: LogView,
    additional: nat,
    frames: Seq<Seq<u8>>,
    j: int,
)
    ensures
        ({
            let effects = log.append_effects(additional, frames);
            let a = steps_before_write(log, additional);
            &&& effects.len() == a + 1 + frames.len() + 1
            &&& 0 <= j < a ==> effects[j] == (log.approach(additional) + log.seek_effects(
                additional,
            ))[j] && prepares(log, effects[j])
            &&& effects[a] == (EffectView::Write { bytes: log::concat(frames) })
            &&& 0 <= j < frames.len() ==> effects[a + 1 + j] == log::track_effects(
                log.next_offset,
                log.write_position(additional),
                frames,
            )[j]
            &&& effects[a + 1 + frames.len()] == (EffectView::Advance {
                next_offset: (log.next_offset + frames.len()) as u64,
            })
        }),
{
    reveal(LogView::append_effects);
}

/// Behind the steps before the write, the active segment ends where the write
/// is to start, and its file stands there.
pub proof fn lemma_write_position(
    log: LogView,
    disk: Seq<SegmentFiles>,
    additional: nat,
    frames: Seq<Seq<u8>>,
)
    requires
        log.segments.len() >= 1,
    ensures
        ({
            let effects = log.append_effects(additional, frames);
            let a = steps_before_write(log, additional);
            let active = run_log(log, effects.take(a)).active().segment;
            &&& active.size == log.write_position(additional)
            &&& !active.needs_seek(active.size)
            &&& run_log(log, effects.take(a)).segments.len() == log.segments.len() + (
            if log.rotates(additional) {
                1int
            } else {
                0
            })
        }),
{
    let effects = log.append_effects(additional, frames);
    let a = steps_before_write(log, additional);
    lemma_append_effects_by_number(log, additional, frames, 0);
    lemma_append_effects_by_number(log, additional, frames, 1);
    lemma_run_nothing(log, disk, effects);
    if log.rotates(additional) {
        lemma_run_step(log, disk, effects, 0);
        lemma_run_step(log, disk, effects, 1);
        assert(effects[0] == EffectView::SyncActive);
        assert(effects[1] == (EffectView::OpenSegment { base_offset: log.next_offset }));
    } else if a == 1 {
        lemma_run_step(log, disk, effects, 0);
        assert(effects[0] is Seek);
    }
}

/// The state behind the write and `j` tracked records.
pub proof fn lemma_track_run(
    log: LogView,
    disk: Seq<SegmentFiles>,
    codec: Compression,
    records: Seq<RecordView>,
    additional: nat,
    frames: Seq<Seq<u8>>,
    j: int,
)
    requires
        settled(log, disk),
        codecs().supports(codec),
        log::encodes_all(codec, records, frames),
        all_readable(codec, records, frames),
        0 <= j <= frames.len(),
        frames.len() > 0,
        log.next_offset + frames.len() <= u64::MAX,
        runnable_to(
            log,
            log.append_effects(additional, frames),
            steps_before_write(log, additional) + 1 + j,
        ),
    ensures
        ({
            let effects = log.append_effects(additional, frames);
            let a = steps_before_write(log, additional);
            &&& settled(run_log(log, effects.take(a)), run_disk(log, disk, effects.take(a)))
            &&& grown(
                log,
                disk,
                run_log(log, effects.take(a)),
                run_disk(log, disk, effects.take(a)),
            )
            &&& run_log(log, effects.take(a)).next_offset == log.next_offset
            &&& written(
                run_log(log, effects.take(a)),
                run_disk(log, disk, effects.take(a)),
                frames,
                run_log(log, effects.take(a + 1 + j)),
                run_disk(log, disk, effects.take(a + 1 + j)),
                j,
            )
        }),
    decreases j,
{
    let effects = log.append_effects(additional, frames);
    let a = steps_before_write(log, additional);
    assert forall|k: int| 0 <= k < a implies prepares(log, #[trigger] effects[k]) by {
        lemma_append_effects_by_number(log, additional, frames, k);
    }
    lemma_append_effects_by_number(log, additional, frames, j - 1);
    lemma_settled_is_stored(log, disk);
    lemma_prepare_run(log, disk, effects, a);
    lemma_write_position(log, disk, additional, frames);
    let ready = run_log(log, effects.take(a));
    let ready_disk = run_disk(log, disk, effects.take(a));
    if j == 0 {
        lemma_run_step(log, disk, effects, a);
        assert(run_log(log, effects.take(a)).allows(effects[a]));
        lemma_write_step(ready, ready_disk, codec, records, frames);
    } else {
        lemma_track_run(log, disk, codec, records, additional, frames, j - 1);
        let k = a + 1 + (j - 1);
        lemma_run_step(log, disk, effects, k);
        assert(run_log(log, effects.take(k)).allows(effects[k]));
        lemma_track_step(
            ready,
            ready_disk,
            codec,
            records,
            frames,
            run_log(log, effects.take(k)),
            run_disk(log, disk, effects.take(k)),
            j - 1,
        );
    }
}

/// An append that stops before its last step, wherever that is, has changed no
/// record and made none known: what was there can still be read, no offset is
/// used up, and of a batch nothing shows.
pub proof fn lemma_unfinished_append(
    log: LogView,
    disk: Seq<SegmentFiles>,
    records: Seq<RecordView>,
    effects: Seq<EffectView>,
    result: Result<Vec<u64>, KafkoError>,
    k: int,
)
    requires
        settled(log, disk),
        records.len() > 0,
        log.accepts(records),
        log.plans_ready(records, effects, result),
        storable(log.config.compression, records, effects),
        runnable_to(log, effects, k),
        0 <= k <= effects.len(),
        result is Ok ==> k < effects.len(),
    ensures
        stored(run_log(log, effects.take(k)), run_disk(log, disk, effects.take(k))),
        keeps_records(
            log,
            disk,
            run_log(log, effects.take(k)),
            run_disk(log, disk, effects.take(k)),
        ),
        run_log(log, effects.take(k)).next_offset == log.next_offset,
        (forall|j: int| 0 <= j < k ==> !(#[trigger] effects[j] is Write)) ==> settled(
            run_log(log, effects.take(k)),
            run_disk(log, disk, effects.take(k)),
        ),
{
    let codec = log.config.compression;
    let additional = log::total_wire_len(records);
    let later = run_log(log, effects.take(k));
    let later_disk = run_disk(log, disk, effects.take(k));
    lemma_settled_is_stored(log, disk);
    if result is Err {
        assert forall|j: int| 0 <= j < k implies prepares(log, #[trigger] effects[j]) by {}
        lemma_prepare_run(log, disk, effects, k);
        lemma_settled_is_stored(later, later_disk);
    } else {
        let frames = choose|frames: Seq<Seq<u8>>|
            log::encodes_all(codec, records, frames) && effects == #[trigger] log.append_effects(
                additional,
                frames,
            );
        let a = steps_before_write(log, additional);
        lemma_storable_frames(log, records, additional, frames);
        lemma_append_effects_by_number(log, additional, frames, 0);
        if k <= a {
            assert forall|j: int| 0 <= j < k implies prepares(log, #[trigger] effects[j]) by {
                lemma_append_effects_by_number(log, additional, frames, j);
            }
            lemma_prepare_run(log, disk, effects, k);
            lemma_settled_is_stored(later, later_disk);
        } else {
            assert(effects[a] is Write);
            lemma_track_run(log, disk, codec, records, additional, frames, k - a - 1);
            lemma_written_is_stored(
                run_log(log, effects.take(a)),
                run_disk(log, disk, effects.take(a)),
                frames,
                later,
                later_disk,
                k - a - 1,
            );
            lemma_grown_transitive(
                log,
                disk,
                run_log(log, effects.take(a)),
                run_disk(log, disk, effects.take(a)),
                later,
                later_disk,
            );
        }
    }
    lemma_grown_keeps_records(log, disk, later, later_disk);
}

/// An append that was carried out to its end keeps every record, and its own
/// records are in the log at the offsets it gave for them, which follow one
/// another from the end of the log.
pub proof fn lemma_append(
    log: LogView,
    disk: Seq<SegmentFiles>,
    records: Seq<RecordView>,
    effects: Seq<EffectView>,
    offsets: Vec<u64>,
)
    requires
        settled(log, disk),
        records.len() > 0,
        log.accepts(records),
        log.plans_ready(records, effects, Ok(offsets)),
        storable(log.config.compression, records, effects),
        runnable(log, effects),
    ensures
        ({
            let later = run_log(log, effects);
            let later_disk = run_disk(log, disk, effects);
            &&& settled(later, later_disk)
            &&& keeps_records(log, disk, later, later_disk)
            &&& later.next_offset == log.next_offset + records.len()
            &&& later.segments.len() == log.segments.len() + (if log.rotates(
                log::total_wire_len(records),
            ) {
                1int
            } else {
                0
            })
            &&& offsets@.len() == records.len()
            &&& forall|i: int|
                0 <= i < records.len() ==> {
                    &&& #[trigger] offsets@[i] == log.next_offset + i
                    &&& known(later, offsets@[i])
                    &&& record_of(later, later_disk, offsets@[i]) == records[i]
                }
        }),
{
    let codec = log.config.compression;
    let additional = log::total_wire_len(records);
    let later = run_log(log, effects);
    let later_disk = run_disk(log, disk, effects);
    assert(effects.take(effects.len() as int) =~= effects);
    let frames = choose|frames: Seq<Seq<u8>>|
        log::encodes_all(codec, records, frames) && effects == #[trigger] log.append_effects(
            additional,
            frames,
        );
    let n = frames.len() as int;
    let a = steps_before_write(log, additional);
    let k = a + 1 + n;
    lemma_storable_frames(log, records, additional, frames);
    lemma_append_effects_by_number(log, additional, frames, 0);
    lemma_track_run(log, disk, codec, records, additional, frames, n);
    lemma_run_step(log, disk, effects, k);
    let ready = run_log(log, effects.take(a));
    let ready_disk = run_disk(log, disk, effects.take(a));
    let at = run_log(log, effects.take(k));
    let at_disk = run_disk(log, disk, effects.take(k));
    assert(later == at.after(effects[k]));
    assert(at.allows(effects[k]));
    lemma_settled_is_stored(log, disk);
    lemma_write_position(log, disk, additional, frames);
    lemma_written_is_stored(ready, ready_disk, frames, at, at_disk, n);
    lemma_advance_step(ready, ready_disk, codec, records, frames, at, at_disk);
    lemma_grown_transitive(log, disk, ready, ready_disk, later, later_disk);
    lemma_settled_is_stored(later, later_disk);
    lemma_grown_keeps_records(log, disk, later, later_disk);
    assert forall|i: int| 0 <= i < records.len() implies {
        &&& #[trigger] offsets@[i] == log.next_offset + i
        &&& known(later, offsets@[i])
        &&& record_of(later, later_disk, offsets@[i]) == records[i]
    } by {
        lemma_advance_adds_record(
            ready,
            ready_disk,
            codec,
            records,
            frames,
            at,
            at_disk,
            i,
        );
    }
}

/// Taking out the oldest segment keeps every record from the next segment on.
pub proof fn lemma_without_oldest(log: LogView, disk: Seq<SegmentFiles>)
    requires
        stored(log, disk),
        log.segments.len() > 1,
    ensures
        stored(log.without_oldest(), disk.skip(1)),
        settled(log, disk) ==> settled(log.without_oldest(), disk.skip(1)),
        forall|offset: u64|
            known(log.without_oldest(), offset) ==> known(log, offset) && #[trigger] record_of(
                log.without_oldest(),
                disk.skip(1),
                offset,
            ) == record_of(log, disk, offset),
{
    reveal(stored);
    reveal(settled);
    let later = log.without_oldest();
    let later_disk = disk.skip(1);
    assert forall|i: int| 0 <= i < later.segments.len() implies (
    #[trigger] later.segments[i]).wf() by {
        assert(log.segments[i + 1].wf());
    }
    assert forall|i: int| 0 <= i < later_disk.len() implies segment_stored(
        later.segments[i],
        #[trigger] later_disk[i],
        end_offset(later, i),
    ) by {
        assert(segment_stored(log.segments[i + 1], disk[i + 1], end_offset(log, i + 1)));
    }
    assert forall|offset: u64| known(later, offset) implies known(log, offset)
        && #[trigger] record_of(later, later_disk, offset) == record_of(log, disk, offset) by {
        lemma_known_within(log, disk, offset);
        let i = segment_of(log, offset);
        assert(log.segments[1].segment.base_offset <= offset);
        assert(i >= 1);
        assert forall|j: int| i - 1 < j < later.segments.len() implies (
        #[trigger] later.segments[j]).segment.base_offset > offset by {
            assert(log.segments[j + 1].segment.base_offset > offset);
        }
        assert(later.holds(offset, i - 1));
        lemma_segment_of(later, offset, i - 1);
    }
}

} // verus!
