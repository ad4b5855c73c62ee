//! What the log promises about its records.
//!
//! What was appended can be read, an append that failed at any step loses
//! nothing and shows nothing and does not keep the next one from being done,
//! and opening the log again after a crash gives back every record in it.
//! Nothing here runs; see [`crate::disk`] for the model.
use vstd::prelude::*;

use crate::compression::Compression;
use crate::disk;
use crate::disk::SegmentFiles;
use crate::error::KafkoError;
use crate::log;
use crate::log::{EffectView, IndexedView, LogConfig, LogView, ReadPlan};
use crate::record;
use crate::record::RecordView;
use crate::scan;
use crate::segment;
use crate::sparse_index;

verus! {

/// A new log holds nothing, and its files are empty.
pub proof fn law_new_log_is_usable(config: log::LogConfig)
    ensures
        disk::usable(
            LogView::new(config),
            seq![SegmentFiles::fresh()],
        ),
{
    reveal(disk::stored);
    reveal(disk::settled);
    let log = LogView::new(config);
    assert(log.segments[0].wf());
}

/// Keeping records twice is keeping them.
pub proof fn lemma_keeps_transitive(
    a: LogView,
    a_disk: Seq<SegmentFiles>,
    b: LogView,
    b_disk: Seq<SegmentFiles>,
    c: LogView,
    c_disk: Seq<SegmentFiles>,
)
    requires
        disk::keeps_records(a, a_disk, b, b_disk),
        disk::keeps_records(b, b_disk, c, c_disk),
    ensures
        disk::keeps_records(a, a_disk, c, c_disk),
{
    assert forall|offset: u64| disk::known(a, offset) implies disk::known(c, offset)
        && #[trigger] disk::record_of(c, c_disk, offset) == disk::record_of(
        a,
        a_disk,
        offset,
    ) by {
        assert(disk::record_of(b, b_disk, offset) == disk::record_of(a, a_disk, offset));
    }
}

/// What a failed append left behind makes no difference to the records.
pub proof fn lemma_trim(log: LogView, files: Seq<SegmentFiles>)
    requires
        disk::intact(log, files),
    ensures
        disk::keeps_records(log, files, log.ready(), disk::trimmed(log, files)),
        disk::keeps_records(log.ready(), disk::trimmed(log, files), log, files),
        forall|offset: u64, plan: Option<ReadPlan>|
            log.locates(offset, plan) == #[trigger] log.ready().locates(offset, plan),
{
    reveal(disk::stored);
    let ready = log.ready();
    let kept = disk::trimmed(log, files);
    let last = log.segments.len() - 1;
    assert forall|i: int| 0 <= i < log.segments.len() implies {
        &&& (#[trigger] ready.segments[i]).index == log.segments[i].index
        &&& ready.segments[i].segment.base_offset == log.segments[i].segment.base_offset
        &&& ready.segments[i].segment.size == log.segments[i].segment.size
    } by {}
    assert forall|offset: u64, i: int| log.holds(offset, i) == #[trigger] ready.holds(
        offset,
        i,
    ) by {
        if ready.holds(offset, i) {
            assert forall|j: int| i < j < log.segments.len() implies (
            #[trigger] log.segments[j]).segment.base_offset > offset by {
                assert(ready.segments[j].segment.base_offset > offset);
            }
            assert(ready.segments[i].segment.base_offset == log.segments[i].segment.base_offset);
        }
        if log.holds(offset, i) {
            assert forall|j: int| i < j < ready.segments.len() implies (
            #[trigger] ready.segments[j]).segment.base_offset > offset by {
                assert(log.segments[j].segment.base_offset > offset);
            }
            assert(ready.segments[i].segment.base_offset == log.segments[i].segment.base_offset);
        }
    }
    assert forall|offset: u64, plan: Option<ReadPlan>|
        log.locates(offset, plan) == #[trigger] ready.locates(offset, plan) by {
        if offset < log.next_offset {
            if log.locates(offset, plan) {
                let (i, start) = choose|i: int, start: (u64, u64)|
                    #![trigger log.holds(offset, i), log.read_plan(i, start)]
                    log.holds(offset, i) && log.segments[i].index.search_start(offset, start)
                        && plan == log.read_plan(i, start);
                assert(ready.holds(offset, i));
                assert(ready.read_plan(i, start) == plan);
            }
            if ready.locates(offset, plan) {
                let (i, start) = choose|i: int, start: (u64, u64)|
                    #![trigger ready.holds(offset, i), ready.read_plan(i, start)]
                    ready.holds(offset, i) && ready.segments[i].index.search_start(offset, start)
                        && plan == ready.read_plan(i, start);
                assert(log.holds(offset, i));
                assert(log.read_plan(i, start) == plan);
            }
        }
    }
    assert(ready.segments[0].segment.base_offset == log.segments[0].segment.base_offset);
    assert forall|offset: u64| disk::known(log, offset) || disk::known(ready, offset) implies {
        &&& disk::known(ready, offset)
        &&& disk::known(log, offset)
        &&& #[trigger] disk::record_of(ready, kept, offset) == disk::record_of(log, files, offset)
    } by {
        disk::lemma_known_within(ready, kept, offset);
        let i = disk::segment_of(ready, offset);
        assert(ready.holds(offset, i));
        disk::lemma_segment_of(log, offset, i);
        if i == last {
            let data = kept[i].data;
            let more = files[i].data.skip(data.len() as int);
            assert(disk::segment_stored(ready.segments[i], kept[i], disk::end_offset(ready, i)));
            assert(files[i].data =~= data + more);
            scan::lemma_extend_keeps_record(
                disk::codecs(),
                data,
                more,
                (offset - log.segments[i].segment.base_offset) as nat,
            );
        }
    }
    assert forall|offset: u64| disk::known(ready, offset) implies disk::known(log, offset)
        && #[trigger] disk::record_of(log, files, offset) == disk::record_of(
        ready,
        kept,
        offset,
    ) by {
        assert(disk::record_of(ready, kept, offset) == disk::record_of(log, files, offset));
    }
}

/// A log that can be appended to holds its records.
pub proof fn lemma_usable_is_intact(log: LogView, files: Seq<SegmentFiles>)
    requires
        disk::usable(log, files),
    ensures
        disk::intact(log, files),
{
    disk::lemma_settled_is_stored(log.ready(), disk::trimmed(log, files));
}

/// Reading by a plan gives the same whether or not what a failed append left
/// behind was cut off.
proof fn lemma_trim_keeps_reads(
    log: LogView,
    files: Seq<SegmentFiles>,
    offset: u64,
    plan: Option<ReadPlan>,
)
    requires
        disk::intact(log, files),
        log.locates(offset, plan),
    ensures
        disk::readable_by(files, plan),
        disk::readable_by(disk::trimmed(log, files), plan),
        disk::read_by(files, plan, offset) == disk::read_by(
            disk::trimmed(log, files),
            plan,
            offset,
        ),
        plan matches Some(p) ==> p.segment < log.segments.len() && p.file_pos + p.len
            == disk::trimmed(log, files)[p.segment as int].data.len(),
{
    reveal(disk::stored);
    let ready = log.ready();
    let kept = disk::trimmed(log, files);
    if let Some(p) = plan {
        let (i, start) = choose|i: int, start: (u64, u64)|
            #![trigger log.holds(offset, i), log.read_plan(i, start)]
            log.holds(offset, i) && log.segments[i].index.search_start(offset, start) && plan
                == log.read_plan(i, start);
        assert(i == p.segment);
        assert(disk::segment_stored(ready.segments[i], kept[i], disk::end_offset(ready, i)));
        assert(ready.segments[i].segment.size == log.segments[i].segment.size);
        assert(kept[i].data.subrange(p.file_pos as int, p.file_pos + p.len)
            =~= files[i].data.subrange(p.file_pos as int, p.file_pos + p.len));
    }
}

/// A record that the log knows of can be read.
pub proof fn law_known_record_is_readable(log: LogView, files: Seq<SegmentFiles>, offset: u64)
    requires
        disk::intact(log, files),
        disk::known(log, offset),
    ensures
        disk::reads_as(log, files, offset, Ok(Some(disk::record_of(log, files, offset)))),
{
    let ready = log.ready();
    let kept = disk::trimmed(log, files);
    lemma_trim(log, files);
    assert(disk::record_of(ready, kept, offset) == disk::record_of(log, files, offset));
    assert forall|plan: Option<ReadPlan>| #[trigger] log.locates(offset, plan) implies {
        &&& disk::readable_by(files, plan)
        &&& disk::read_by(files, plan, offset) == Ok::<Option<RecordView>, KafkoError>(
            Some(disk::record_of(log, files, offset)),
        )
    } by {
        assert(ready.locates(offset, plan));
        disk::lemma_known_is_readable(ready, kept, offset, plan);
        lemma_trim_keeps_reads(log, files, offset, plan);
        if let Some(p) = plan {
            let data = kept[p.segment as int].data;
            assert(data.subrange(p.file_pos as int, p.file_pos + p.len) =~= data.skip(
                p.file_pos as int,
            ));
        }
    }
}

/// Nothing is read at the end of the log or past it.
pub proof fn law_nothing_past_the_end(log: LogView, files: Seq<SegmentFiles>, offset: u64)
    requires
        offset >= log.next_offset,
    ensures
        disk::reads_as(log, files, offset, Ok(None)),
{
}

/// A read before the oldest record, as after retention, finds nothing and is
/// no error.
pub proof fn law_nothing_before_the_start(log: LogView, files: Seq<SegmentFiles>, offset: u64)
    requires
        disk::intact(log, files),
        offset < disk::first_offset(log),
    ensures
        disk::reads_as(log, files, offset, Ok(None)),
{
    let ready = log.ready();
    let kept = disk::trimmed(log, files);
    lemma_trim(log, files);
    assert(ready.segments[0].segment.base_offset == log.segments[0].segment.base_offset);
    assert forall|plan: Option<ReadPlan>| #[trigger] log.locates(offset, plan) implies {
        &&& disk::readable_by(files, plan)
        &&& disk::read_by(files, plan, offset) == Ok::<Option<RecordView>, KafkoError>(None)
    } by {
        assert(ready.locates(offset, plan));
        disk::lemma_nothing_before_start(ready, kept, offset, plan);
        lemma_trim_keeps_reads(log, files, offset, plan);
        if let Some(p) = plan {
            let data = kept[p.segment as int].data;
            assert(data.subrange(p.file_pos as int, p.file_pos + p.len) =~= data.skip(
                p.file_pos as int,
            ));
        }
    }
}

proof fn lemma_flushed_before_the_next_opens(
    ready: LogView,
    records: Seq<RecordView>,
    effects: Seq<EffectView>,
    result: Result<Vec<u64>, KafkoError>,
    i: int,
)
    requires
        ready.plans_ready(records, effects, result),
        0 <= i < effects.len(),
        effects[i] is OpenSegment,
    ensures
        i >= 1,
        effects[i - 1] == EffectView::SyncActive,
        forall|j: int|
            0 <= j < i ==> !(#[trigger] effects[j] is Write) && !(effects[j] is Track),
{
    if result is Ok {
        let additional = log::total_wire_len(records);
        let frames = choose|frames: Seq<Seq<u8>>|
            log::encodes_all(ready.config.compression, records, frames) && effects
                == #[trigger] ready.append_effects(additional, frames);
        let a = disk::steps_before_write(ready, additional);
        disk::lemma_append_effects_by_number(ready, additional, frames, i);
        if i >= a + 1 {
            disk::lemma_append_effects_by_number(ready, additional, frames, i - (a + 1));
        }
        disk::lemma_append_effects_by_number(ready, additional, frames, 0);
    }
}

/// A segment and its index are flushed before the next segment is opened, with
/// nothing written in between: recovery looks at the last segment only, and
/// trusts the others.
pub proof fn law_segment_is_flushed_before_the_next_opens(
    log: LogView,
    records: Seq<RecordView>,
    effects: Seq<EffectView>,
    result: Result<Vec<u64>, KafkoError>,
    i: int,
)
    requires
        log.plans(records, effects, result),
        0 <= i < effects.len(),
        effects[i] is OpenSegment,
    ensures
        i >= 1,
        effects[i - 1] == EffectView::SyncActive,
        forall|j: int|
            0 <= j < i ==> !(#[trigger] effects[j] is Write) && !(effects[j] is Track),
{
    let n = log.lead().len() as int;
    let rest = effects.skip(n);
    assert(effects =~= log.lead() + rest);
    assert(rest[i - n] == effects[i]);
    lemma_flushed_before_the_next_opens(log.ready(), records, rest, result, i - n);
    assert(rest[i - n - 1] == effects[i - 1]);
    assert forall|j: int| 0 <= j < i implies !(#[trigger] effects[j] is Write) && !(
    effects[j] is Track) by {
        if j < n {
            assert(effects[j] == log.lead()[j]);
        } else {
            assert(effects[j] == rest[j - n]);
        }
    }
}

/// A log whose files hold what it says, and no more, holds its records.
pub proof fn lemma_stored_is_intact(log: LogView, files: Seq<SegmentFiles>)
    requires
        disk::stored(log, files),
    ensures
        disk::intact(log, files),
{
    reveal(disk::stored);
    let last = log.segments.len() - 1;
    assert(disk::segment_stored(log.segments[last], files[last], disk::end_offset(log, last)));
    sparse_index::law_parse_inverts_write(log.segments[last].index.entries, Seq::empty());
}

/// A log whose files hold what it says, and no more, can be appended to.
pub proof fn lemma_settled_is_usable(log: LogView, files: Seq<SegmentFiles>)
    requires
        disk::settled(log, files),
    ensures
        disk::usable(log, files),
        !log.torn,
{
    disk::lemma_settled_is_stored(log, files);
    lemma_stored_is_intact(log, files);
    reveal(disk::stored);
}

/// Running the step in front is getting ready.
proof fn lemma_run_behind_lead(
    log: LogView,
    files: Seq<SegmentFiles>,
    effects: Seq<EffectView>,
    k: int,
)
    requires
        log.lead().len() <= k <= effects.len(),
        effects.take(log.lead().len() as int) == log.lead(),
    ensures
        ({
            let n = log.lead().len() as int;
            let rest = effects.skip(n);
            &&& disk::run_log(log, effects.take(k)) == disk::run_log(
                log.ready(),
                rest.take(k - n),
            )
            &&& disk::run_disk(log, files, effects.take(k)) == disk::run_disk(
                log.ready(),
                disk::trimmed(log, files),
                rest.take(k - n),
            )
        }),
    decreases k,
{
    let n = log.lead().len() as int;
    let rest = effects.skip(n);
    if !log.torn {
        assert(rest =~= effects);
    } else if k == n {
        disk::lemma_run_nothing(log, files, effects);
        disk::lemma_run_step(log, files, effects, 0);
        assert(effects[0] == effects.take(n)[0]);
        disk::lemma_run_nothing(log.ready(), disk::trimmed(log, files), rest);
    } else {
        lemma_run_behind_lead(log, files, effects, k - 1);
        disk::lemma_run_step(log, files, effects, k - 1);
        disk::lemma_run_step(log.ready(), disk::trimmed(log, files), rest, k - 1 - n);
        assert(rest[k - 1 - n] == effects[k - 1]);
    }
}

/// What can be carried out can be carried out behind the step in front.
proof fn lemma_runnable_behind_lead(
    log: LogView,
    files: Seq<SegmentFiles>,
    effects: Seq<EffectView>,
)
    requires
        log.lead().len() <= effects.len(),
        effects.take(log.lead().len() as int) == log.lead(),
        disk::runnable(log, effects),
    ensures
        disk::runnable(log.ready(), effects.skip(log.lead().len() as int)),
{
    let n = log.lead().len() as int;
    let rest = effects.skip(n);
    assert forall|k: int| 0 <= k < rest.len() implies disk::run_log(
        log.ready(),
        rest.take(k),
    ).allows(#[trigger] rest[k]) by {
        lemma_run_behind_lead(log, files, effects, k + n);
        assert(effects[k + n] == rest[k]);
    }
}

/// An append that was carried out to its end keeps every record, and its own
/// records are in the log at the offsets it gave for them, which follow one
/// another from the end of the log. Each can be read, and all that could be
/// read before reads as before. At most one segment was added. An append of no
/// records changes nothing.
///
/// A record whose encoded form is longer than the format has room for is left
/// out, and so is a compressed value above the decompression limit.
pub proof fn law_append_adds_records(
    log: LogView,
    files: Seq<SegmentFiles>,
    records: Seq<RecordView>,
    effects: Seq<EffectView>,
    offsets: Vec<u64>,
)
    requires
        disk::usable(log, files),
        log.accepts(records),
        log.plans(records, effects, Ok(offsets)),
        disk::storable(log.config.compression, records, effects),
        disk::runnable(log, effects),
    ensures
        ({
            let later = disk::run_log(log, effects);
            let later_files = disk::run_disk(log, files, effects);
            &&& disk::usable(later, later_files)
            &&& disk::keeps_records(log, files, later, later_files)
            &&& later.next_offset == log.next_offset + records.len()
            &&& log.segments.len() <= later.segments.len() <= log.segments.len() + 1
            &&& offsets@.len() == records.len()
            &&& forall|i: int|
                0 <= i < records.len() ==> {
                    &&& #[trigger] offsets@[i] == log.next_offset + i
                    &&& disk::known(later, offsets@[i])
                    &&& disk::record_of(later, later_files, offsets@[i]) == records[i]
                    &&& disk::reads_as(later, later_files, offsets@[i], Ok(Some(records[i])))
                }
            &&& forall|offset: u64|
                disk::known(log, offset) ==> #[trigger] disk::reads_as(
                    later,
                    later_files,
                    offset,
                    Ok(Some(disk::record_of(log, files, offset))),
                )
            &&& forall|offset: u64|
                offset < disk::first_offset(log) ==> #[trigger] disk::reads_as(
                    later,
                    later_files,
                    offset,
                    Ok(None),
                )
            &&& records.len() == 0 ==> later == log && later_files == files
        }),
{
    let later = disk::run_log(log, effects);
    let later_files = disk::run_disk(log, files, effects);
    assert(effects.take(effects.len() as int) =~= effects);
    lemma_usable_is_intact(log, files);
    if records.len() == 0 {
        disk::lemma_run_nothing(log, files, effects);
        assert(effects.take(0) =~= effects);
    } else {
        let n = log.lead().len() as int;
        let rest = effects.skip(n);
        let ready = log.ready();
        let kept = disk::trimmed(log, files);
        lemma_run_behind_lead(log, files, effects, effects.len() as int);
        assert(rest.take(rest.len() as int) =~= rest);
        lemma_runnable_behind_lead(log, files, effects);
        disk::lemma_append(ready, kept, records, rest, offsets);
        lemma_settled_is_usable(later, later_files);
        lemma_trim(log, files);
        lemma_keeps_transitive(log, files, ready, kept, later, later_files);
    }
    lemma_usable_is_intact(later, later_files);
    assert forall|i: int| 0 <= i < records.len() implies {
        &&& #[trigger] offsets@[i] == log.next_offset + i
        &&& disk::known(later, offsets@[i])
        &&& disk::record_of(later, later_files, offsets@[i]) == records[i]
        &&& disk::reads_as(later, later_files, offsets@[i], Ok(Some(records[i])))
    } by {
        law_known_record_is_readable(later, later_files, offsets@[i]);
    }
    lemma_kept_is_read(log, files, later, later_files);
    assert forall|offset: u64| offset < disk::first_offset(log) implies
        #[trigger] disk::reads_as(later, later_files, offset, Ok(None)) by {
        law_nothing_before_the_start(later, later_files, offset);
    }
}

/// An append of one record, carried out to its end, adds that record at the end
/// of the log; see [`law_append_adds_records`].
pub proof fn law_append_adds_one_record(
    log: LogView,
    files: Seq<SegmentFiles>,
    r: RecordView,
    effects: Seq<EffectView>,
    offsets: Vec<u64>,
)
    requires
        disk::usable(log, files),
        log.accepts(seq![r]),
        log.plans(seq![r], effects, Ok(offsets)),
        disk::storable(log.config.compression, seq![r], effects),
        disk::runnable(log, effects),
    ensures
        ({
            let later = disk::run_log(log, effects);
            let later_files = disk::run_disk(log, files, effects);
            &&& offsets@ == seq![log.next_offset]
            &&& disk::usable(later, later_files)
            &&& later.next_offset == log.next_offset + 1
            &&& log.segments.len() <= later.segments.len() <= log.segments.len() + 1
            &&& disk::reads_as(later, later_files, log.next_offset, Ok(Some(r)))
            &&& forall|offset: u64|
                disk::known(log, offset) ==> #[trigger] disk::reads_as(
                    later,
                    later_files,
                    offset,
                    Ok(Some(disk::record_of(log, files, offset))),
                )
        }),
{
    law_append_adds_records(log, files, seq![r], effects, offsets);
    assert(offsets@[0] == log.next_offset);
    assert(offsets@ =~= seq![log.next_offset]);
}

/// Replacing a segment by one of the same size leaves the size of all the same.
proof fn lemma_total_size_same(a: Seq<IndexedView>, b: Seq<IndexedView>)
    requires
        a.len() == b.len(),
        forall|i: int|
            0 <= i < a.len() ==> (#[trigger] a[i]).segment.size == b[i].segment.size,
    ensures
        log::total_size(a) == log::total_size(b),
    decreases a.len(),
{
    if a.len() > 0 {
        assert forall|i: int| 0 <= i < a.drop_last().len() implies (
        #[trigger] a.drop_last()[i]).segment.size == b.drop_last()[i].segment.size by {
            assert(a[i].segment.size == b[i].segment.size);
        }
        lemma_total_size_same(a.drop_last(), b.drop_last());
        assert(a[a.len() - 1].segment.size == b[a.len() - 1].segment.size);
    }
}

/// Moving the active segment's file makes no difference where the log does not
/// say where it stands.
proof fn lemma_unknown_position(log: LogView, files: Seq<SegmentFiles>, position: nat)
    requires
        disk::stored(log, files),
        log.active().segment.cursor is None,
    ensures
        ({
            let moved = files.update(
                files.len() - 1,
                SegmentFiles { position, ..files.last() },
            );
            &&& disk::stored(log, moved)
            &&& disk::settled(log, files) ==> disk::settled(log, moved)
            &&& disk::keeps_records(log, files, log, moved)
        }),
{
    reveal(disk::stored);
    reveal(disk::settled);
    let moved = files.update(files.len() - 1, SegmentFiles { position, ..files.last() });
    assert forall|i: int| 0 <= i < moved.len() implies disk::segment_stored(
        log.segments[i],
        #[trigger] moved[i],
        disk::end_offset(log, i),
    ) by {
        assert(disk::segment_stored(log.segments[i], files[i], disk::end_offset(log, i)));
    }
    assert forall|offset: u64| disk::known(log, offset) implies #[trigger] disk::record_of(
        log,
        moved,
        offset,
    ) == disk::record_of(log, files, offset) by {
        disk::lemma_known_within(log, files, offset);
    }
}

/// Reading a segment, from a position that its file is moved to where it
/// stands elsewhere, takes nothing from the log: the bytes read are those at
/// the position, and the same records are there. The offset of the next
/// record, the number of segments and their size stay what they were.
pub proof fn law_reading_keeps_log(
    log: LogView,
    files: Seq<SegmentFiles>,
    i: int,
    position: u64,
    n: nat,
)
    requires
        disk::intact(log, files),
        0 <= i < files.len(),
        position + n <= log.segments[i].segment.size,
    ensures
        ({
            let segment = log.segments[i].segment;
            let file = segment.sought(files[i].file(), position);
            let later = log.with_segment(i, segment.after_read(position, n));
            let later_files = files.update(i, files[i].with_file(file.read(n)));
            &&& file.position == position
            &&& disk::intact(later, later_files)
            &&& disk::usable(log, files) ==> disk::usable(later, later_files)
            &&& disk::keeps_records(log, files, later, later_files)
            &&& later.next_offset == log.next_offset
            &&& later.segments.len() == log.segments.len()
            &&& later.total_size() == log.total_size()
        }),
{
    let segment = log.segments[i].segment;
    let file = segment.sought(files[i].file(), position);
    let later = log.with_segment(i, segment.after_read(position, n));
    let later_files = files.update(i, files[i].with_file(file.read(n)));
    let ready = log.ready();
    let kept = disk::trimmed(log, files);
    let last = log.segments.len() - 1;
    assert(segment.describes(files[i].file()) || i == last) by {
        reveal(disk::stored);
        assert(disk::segment_stored(ready.segments[i], kept[i], disk::end_offset(ready, i)));
    }
    assert forall|j: int| 0 <= j < later.segments.len() implies (
    #[trigger] later.segments[j]).wf() by {
        assert(log.segments[j].wf());
    }
    assert forall|j: int| 0 <= j < log.segments.len() implies (
    #[trigger] log.segments[j]).segment.size == later.segments[j].segment.size by {}
    lemma_total_size_same(log.segments, later.segments);
    assert(kept[i].data.len() == segment.size) by {
        reveal(disk::stored);
        assert(disk::segment_stored(ready.segments[i], kept[i], disk::end_offset(ready, i)));
    }
    if log.torn && i == last {
        assert(later.ready().segments =~= ready.segments);
        assert(later.ready() == ready);
        let moved = kept.update(
            kept.len() - 1,
            SegmentFiles { position: file.read(n).position, ..kept.last() },
        );
        assert(disk::trimmed(later, later_files) =~= moved);
        lemma_unknown_position(ready, kept, file.read(n).position);
    } else {
        disk::lemma_reading(ready, kept, i, position, n);
        assert(later.ready().segments =~= ready.with_segment(
            i,
            segment.after_read(position, n),
        ).segments);
        assert(disk::trimmed(later, later_files) =~= kept.update(
            i,
            kept[i].with_file(file.read(n)),
        ));
    }
    lemma_trim(log, files);
    let later_kept = disk::trimmed(later, later_files);
    lemma_keeps_transitive(log, files, ready, kept, later.ready(), later_kept);
    lemma_trim(later, later_files);
    lemma_keeps_transitive(log, files, later.ready(), later_kept, later, later_files);
}

/// An append that stops before its last step, wherever that is, has changed no
/// record and made none known: what was there can still be read, no offset is
/// used up, and of a batch nothing shows. Where it stops before it has written
/// anything, as one does that fails because the codec is not part of the build,
/// the log is as good as before.
pub proof fn law_unfinished_append_shows_nothing(
    log: LogView,
    files: Seq<SegmentFiles>,
    records: Seq<RecordView>,
    effects: Seq<EffectView>,
    result: Result<Vec<u64>, KafkoError>,
    k: int,
)
    requires
        disk::usable(log, files),
        log.accepts(records),
        log.plans(records, effects, result),
        disk::storable(log.config.compression, records, effects),
        disk::runnable_to(log, effects, k),
        0 <= k <= effects.len(),
        result is Ok ==> k < effects.len(),
    ensures
        ({
            let later = disk::run_log(log, effects.take(k));
            let later_files = disk::run_disk(log, files, effects.take(k));
            &&& disk::intact(later, later_files)
            &&& disk::keeps_records(log, files, later, later_files)
            &&& later.next_offset == log.next_offset
            &&& (forall|j: int| 0 <= j < k ==> !(#[trigger] effects[j] is Write))
                ==> disk::usable(later, later_files)
            &&& result is Err ==> disk::usable(later, later_files)
            &&& forall|offset: u64|
                disk::known(log, offset) ==> #[trigger] disk::reads_as(
                    later,
                    later_files,
                    offset,
                    Ok(Some(disk::record_of(log, files, offset))),
                )
        }),
{
    let later = disk::run_log(log, effects.take(k));
    let later_files = disk::run_disk(log, files, effects.take(k));
    let n = log.lead().len() as int;
    lemma_usable_is_intact(log, files);
    lemma_trim(log, files);
    if let Err(error) = result {
        lemma_refused_plan_writes_nothing(log, records, effects, error);
    }
    if k < n {
        disk::lemma_run_nothing(log, files, effects);
        assert(disk::keeps_records(log, files, later, later_files));
    } else {
        let rest = effects.skip(n);
        let ready = log.ready();
        let kept = disk::trimmed(log, files);
        lemma_run_behind_lead(log, files, effects, k);
        assert forall|j: int| 0 <= j < k - n implies disk::run_log(ready, rest.take(j)).allows(
            #[trigger] rest[j],
        ) by {
            lemma_run_behind_lead(log, files, effects, j + n);
            assert(effects[j + n] == rest[j]);
        }
        disk::lemma_unfinished_append(ready, kept, records, rest, result, k - n);
        lemma_stored_is_intact(later, later_files);
        lemma_keeps_transitive(log, files, ready, kept, later, later_files);
        if forall|j: int| 0 <= j < k ==> !(#[trigger] effects[j] is Write) {
            assert forall|j: int| 0 <= j < k - n implies !(#[trigger] rest[j] is Write) by {
                assert(rest[j] == effects[j + n]);
            }
            lemma_settled_is_usable(later, later_files);
        }
    }
    lemma_kept_is_read(log, files, later, later_files);
}

/// What is kept reads as before.
proof fn lemma_kept_is_read(
    log: LogView,
    files: Seq<SegmentFiles>,
    later: LogView,
    later_files: Seq<SegmentFiles>,
)
    requires
        disk::keeps_records(log, files, later, later_files),
        disk::intact(later, later_files),
    ensures
        forall|offset: u64|
            disk::known(log, offset) ==> #[trigger] disk::reads_as(
                later,
                later_files,
                offset,
                Ok(Some(disk::record_of(log, files, offset))),
            ),
{
    assert forall|offset: u64| disk::known(log, offset) implies #[trigger] disk::reads_as(
        later,
        later_files,
        offset,
        Ok(Some(disk::record_of(log, files, offset))),
    ) by {
        assert(disk::record_of(later, later_files, offset) == disk::record_of(
            log,
            files,
            offset,
        ));
        law_known_record_is_readable(later, later_files, offset);
    }
}

/// What a step that failed may have left of it: nothing, or some of what it was
/// to do. Where the segment's file then stands is not known. A segment whose
/// files could not both be created is not there.
pub open spec fn partly(
    log: LogView,
    files: Seq<SegmentFiles>,
    effect: EffectView,
    left: Seq<SegmentFiles>,
) -> bool {
    let before = files.last();
    let after = left.last();
    ||| left == files
    ||| {
        &&& left == files.update(files.len() - 1, after)
        &&& match effect {
            EffectView::Cut { data_size, index_size } => {
                &&& data_size <= after.data.len() <= before.data.len()
                &&& after.data == before.data.take(after.data.len() as int)
                &&& index_size <= after.index.len() <= before.index.len()
                &&& after.index == before.index.take(after.index.len() as int)
            },
            EffectView::Seek { .. } => after.data == before.data && after.index == before.index,
            EffectView::Write { bytes } => {
                &&& exists|m: int|
                    0 <= m <= bytes.len() && after.data == (
                    #[trigger] before.file().write(bytes.take(m))).data
                &&& after.index == before.index
            },
            EffectView::Track { offset, file_pos, .. } => {
                let entry = log.active().index.pending_bytes(offset, file_pos);
                &&& after.data == before.data
                &&& exists|m: int|
                    0 <= m <= entry.len() && after.index == before.index + #[trigger] entry.take(m)
            },
            _ => false,
        }
    }
}

/// Whether a log and its files are another log and its files and possibly more:
/// what a failed append makes of them.
#[verifier::opaque]
spec fn beyond(
    start: LogView,
    start_files: Seq<SegmentFiles>,
    at: LogView,
    at_files: Seq<SegmentFiles>,
) -> bool {
    let last = start.segments.len() - 1;
    let from = start.segments[last];
    let to = at.segments[last];
    let known = from.index.entries.len() as int;
    &&& at.wf()
    &&& at.config == start.config
    &&& at.next_offset == start.next_offset
    &&& at.mark == start.mark
    &&& at.segments.len() == start.segments.len() == start_files.len() == at_files.len()
    &&& forall|i: int|
        0 <= i < last ==> (#[trigger] at.segments[i]) == start.segments[i] && at_files[i]
            == start_files[i]
    &&& to.segment.base_offset == from.segment.base_offset
    &&& to.index.base_offset == from.index.base_offset
    &&& to.index.interval == from.index.interval
    &&& known <= to.index.entries.len()
    &&& to.index.entries.take(known) == from.index.entries
    &&& start_files[last].data.len() <= at_files[last].data.len()
    &&& at_files[last].data.take(start_files[last].data.len() as int) == start_files[last].data
    &&& start_files[last].index.len() <= at_files[last].index.len()
    &&& at_files[last].index.take(start_files[last].index.len() as int)
        == start_files[last].index
}

/// A log has not gone beyond itself.
proof fn lemma_not_beyond(start: LogView, start_files: Seq<SegmentFiles>)
    requires
        disk::settled(start, start_files),
    ensures
        beyond(start, start_files, start, start_files),
{
    reveal(beyond);
    disk::lemma_settled_is_stored(start, start_files);
    let last = start.segments.len() - 1;
    let files = start_files[last];
    assert(files.data.take(files.data.len() as int) =~= files.data);
    assert(files.index.take(files.index.len() as int) =~= files.index);
    let entries = start.segments[last].index.entries;
    assert(entries.take(entries.len() as int) =~= entries);
}

/// Where an append failed, the log is where the append started.
proof fn lemma_rollback(
    start: LogView,
    start_files: Seq<SegmentFiles>,
    at: LogView,
    at_files: Seq<SegmentFiles>,
)
    requires
        disk::settled(start, start_files),
        beyond(start, start_files, at, at_files),
    ensures
        disk::usable(at.failed(), at_files),
        disk::keeps_records(start, start_files, at.failed(), at_files),
        at.failed().next_offset == start.next_offset,
        at.failed().segments.len() == start.segments.len(),
{
    reveal(beyond);
    reveal(disk::stored);
    reveal(disk::settled);
    let later = at.failed();
    let ready = later.ready();
    let kept = disk::trimmed(later, at_files);
    let last = start.segments.len() - 1;
    log::lemma_failed_keeps_wf(at);
    assert(disk::segment_stored(
        start.segments[last],
        start_files[last],
        disk::end_offset(start, last),
    ));
    sparse_index::law_parse_inverts_write(start.segments[last].index.entries, Seq::empty());
    assert(ready.segments[last].index.entries =~= start.segments[last].index.entries);
    assert(kept[last].data =~= start_files[last].data);
    assert(kept[last].index =~= start_files[last].index);
    assert forall|i: int| 0 <= i < ready.segments.len() implies (
    #[trigger] ready.segments[i]).wf() by {
        assert(later.segments[i].wf());
    }
    assert forall|i: int| 0 <= i < kept.len() implies disk::segment_stored(
        ready.segments[i],
        #[trigger] kept[i],
        disk::end_offset(ready, i),
    ) by {
        assert(disk::segment_stored(
            start.segments[i],
            start_files[i],
            disk::end_offset(start, i),
        ));
        if i < last {
            assert(at.segments[i] == start.segments[i]);
            assert(ready.segments[i] == start.segments[i]);
            if i + 1 < last {
                assert(at.segments[i + 1] == start.segments[i + 1]);
            }
        }
    }
    assert(disk::stored(ready, kept));
    reveal(disk::grown);
    assert forall|i: int| 0 <= i < start.segments.len() implies {
        &&& (#[trigger] ready.segments[i]).segment.base_offset
            == start.segments[i].segment.base_offset
        &&& start_files[i].data.len() <= kept[i].data.len()
        &&& kept[i].data.take(start_files[i].data.len() as int) == start_files[i].data
    } by {
        if i < last {
            assert(at.segments[i] == start.segments[i]);
        }
        assert(kept[i].data.take(start_files[i].data.len() as int) =~= start_files[i].data);
    }
    disk::lemma_grown_keeps_records(start, start_files, ready, kept);
    lemma_usable_is_intact(later, at_files);
    lemma_trim(later, at_files);
    lemma_keeps_transitive(start, start_files, ready, kept, later, at_files);
}

/// A step of an append, or what is left of it where it fails, goes no further
/// back than where the append started.
proof fn lemma_beyond_step(
    start: LogView,
    start_files: Seq<SegmentFiles>,
    at: LogView,
    at_files: Seq<SegmentFiles>,
    effect: EffectView,
    left: Seq<SegmentFiles>,
)
    requires
        disk::settled(start, start_files),
        beyond(start, start_files, at, at_files),
        partly(at, at_files, effect, left),
        effect is Write ==> start_files.last().data.len() <= at_files.last().position
            <= at_files.last().data.len(),
        effect matches EffectView::Cut { data_size, index_size } ==> start_files.last().data.len()
            <= data_size && start_files.last().index.len() <= index_size,
    ensures
        beyond(start, start_files, at, left),
{
    reveal(beyond);
    let last = start.segments.len() - 1;
    let from = start_files[last];
    let before = at_files[last];
    let after = left[last];
    disk::lemma_settled_is_stored(start, start_files);
    if left != at_files {
        assert(left[last] == left.last());
        match effect {
            EffectView::Write { bytes } => {
                let m = choose|m: int|
                    0 <= m <= bytes.len() && after.data == (
                    #[trigger] before.file().write(bytes.take(m))).data;
                assert(after.data.take(from.data.len() as int) =~= before.data.take(
                    from.data.len() as int,
                ));
            },
            EffectView::Track { offset, file_pos, .. } => {
                let entry = at.active().index.pending_bytes(offset, file_pos);
                let m = choose|m: int|
                    0 <= m <= entry.len() && after.index == before.index + #[trigger] entry.take(
                        m,
                    );
                assert(after.index.take(from.index.len() as int) =~= before.index.take(
                    from.index.len() as int,
                ));
            },
            _ => {
                assert(after.data.take(from.data.len() as int) =~= before.data.take(
                    from.data.len() as int,
                ));
                assert(after.index.take(from.index.len() as int) =~= before.index.take(
                    from.index.len() as int,
                ));
            },
        }
    }
}

/// Writing, and tracking what was written, goes on from where the append
/// started.
proof fn lemma_beyond_done(
    start: LogView,
    start_files: Seq<SegmentFiles>,
    at: LogView,
    at_files: Seq<SegmentFiles>,
    effect: EffectView,
)
    requires
        disk::settled(start, start_files),
        beyond(start, start_files, at, at_files),
        at.allows(effect),
        effect is Write || effect is Track,
        effect is Write ==> start_files.last().data.len() <= at_files.last().position
            <= at_files.last().data.len(),
    ensures
        beyond(
            start,
            start_files,
            at.after(effect),
            disk::disk_after(at, at_files, effect),
        ),
{
    let left = disk::disk_after(at, at_files, effect);
    let later = at.after(effect);
    assert(partly(at, at_files, effect, left)) by {
        reveal(beyond);
        disk::lemma_settled_is_stored(start, start_files);
        let before = at_files.last();
        assert(left =~= at_files.update(at_files.len() - 1, left.last()));
        match effect {
            EffectView::Write { bytes } => {
                assert(bytes.take(bytes.len() as int) =~= bytes);
                let whole = before.file().write(bytes.take(bytes.len() as int));
                assert(left.last().data == whole.data);
            },
            EffectView::Track { offset, file_pos, .. } => {
                let entry = at.active().index.pending_bytes(offset, file_pos);
                assert(entry.take(entry.len() as int) =~= entry);
                assert(left.last().index == before.index + entry.take(entry.len() as int));
            },
            _ => {},
        }
    }
    lemma_beyond_step(start, start_files, at, at_files, effect, left);
    reveal(beyond);
    disk::lemma_settled_is_stored(start, start_files);
    log::lemma_after_keeps_wf(at, effect);
    let last = start.segments.len() - 1;
    let known = start.segments[last].index.entries.len() as int;
    assert forall|i: int| 0 <= i < last implies (#[trigger] later.segments[i])
        == start.segments[i] by {
        assert(at.segments[i] == start.segments[i]);
    }
    assert(later.segments[last].index.entries.take(known)
        =~= at.segments[last].index.entries.take(known));
}

/// Behind the write, an append has gone on from where it stood before it.
proof fn lemma_beyond_run(
    log: LogView,
    files: Seq<SegmentFiles>,
    codec: Compression,
    records: Seq<RecordView>,
    additional: nat,
    frames: Seq<Seq<u8>>,
    j: int,
)
    requires
        disk::settled(log, files),
        disk::codecs().supports(codec),
        log::encodes_all(codec, records, frames),
        disk::all_readable(codec, records, frames),
        0 <= j <= frames.len(),
        frames.len() > 0,
        log.next_offset + frames.len() <= u64::MAX,
        disk::runnable_to(
            log,
            log.append_effects(additional, frames),
            disk::steps_before_write(log, additional) + 1 + j,
        ),
    ensures
        ({
            let effects = log.append_effects(additional, frames);
            let a = disk::steps_before_write(log, additional);
            beyond(
                disk::run_log(log, effects.take(a)),
                disk::run_disk(log, files, effects.take(a)),
                disk::run_log(log, effects.take(a + 1 + j)),
                disk::run_disk(log, files, effects.take(a + 1 + j)),
            )
        }),
    decreases j,
{
    let effects = log.append_effects(additional, frames);
    let a = disk::steps_before_write(log, additional);
    let start = disk::run_log(log, effects.take(a));
    let start_files = disk::run_disk(log, files, effects.take(a));
    disk::lemma_append_effects_by_number(log, additional, frames, j - 1);
    disk::lemma_track_run(log, files, codec, records, additional, frames, j);
    let k = a + j;
    disk::lemma_run_step(log, files, effects, k);
    assert(disk::run_log(log, effects.take(k)).allows(effects[k]));
    if j == 0 {
        disk::lemma_settled_is_stored(log, files);
        lemma_not_beyond(start, start_files);
        lemma_file_stands_at_end(log, files, additional, frames);
    } else {
        lemma_beyond_run(log, files, codec, records, additional, frames, j - 1);
    }
    lemma_beyond_done(
        start,
        start_files,
        disk::run_log(log, effects.take(k)),
        disk::run_disk(log, files, effects.take(k)),
        effects[k],
    );
}

/// Before the write, the file stands at its end.
proof fn lemma_file_stands_at_end(
    log: LogView,
    files: Seq<SegmentFiles>,
    additional: nat,
    frames: Seq<Seq<u8>>,
)
    requires
        log.segments.len() >= 1,
        ({
            let effects = log.append_effects(additional, frames);
            let a = disk::steps_before_write(log, additional);
            disk::settled(
                disk::run_log(log, effects.take(a)),
                disk::run_disk(log, files, effects.take(a)),
            )
        }),
    ensures
        ({
            let effects = log.append_effects(additional, frames);
            let a = disk::steps_before_write(log, additional);
            let active = disk::run_disk(log, files, effects.take(a)).last();
            active.position == active.data.len()
        }),
{
    let effects = log.append_effects(additional, frames);
    let a = disk::steps_before_write(log, additional);
    let start = disk::run_log(log, effects.take(a));
    let start_files = disk::run_disk(log, files, effects.take(a));
    disk::lemma_write_position(log, files, additional, frames);
    reveal(disk::settled);
    reveal(disk::stored);
    let last = start.segments.len() - 1;
    assert(disk::segment_stored(
        start.segments[last],
        start_files[last],
        disk::end_offset(start, last),
    ));
}

/// An append on a ready log that fails at step `k` leaves it where it was, but
/// for a segment that was opened.
proof fn lemma_failed_append(
    log: LogView,
    files: Seq<SegmentFiles>,
    records: Seq<RecordView>,
    effects: Seq<EffectView>,
    result: Result<Vec<u64>, KafkoError>,
    k: int,
    left: Seq<SegmentFiles>,
)
    requires
        disk::settled(log, files),
        records.len() > 0,
        log.accepts(records),
        log.plans_ready(records, effects, result),
        disk::storable(log.config.compression, records, effects),
        disk::runnable_to(log, effects, k),
        0 <= k < effects.len(),
        partly(
            disk::run_log(log, effects.take(k)),
            disk::run_disk(log, files, effects.take(k)),
            effects[k],
            left,
        ),
    ensures
        ({
            let later = disk::run_log(log, effects.take(k)).failed();
            &&& disk::usable(later, left)
            &&& disk::keeps_records(log, files, later, left)
            &&& later.next_offset == log.next_offset
            &&& log.segments.len() <= later.segments.len() <= log.segments.len() + 1
        }),
{
    let codec = log.config.compression;
    let additional = log::total_wire_len(records);
    let at = disk::run_log(log, effects.take(k));
    let at_files = disk::run_disk(log, files, effects.take(k));
    disk::lemma_settled_is_stored(log, files);
    disk::lemma_unfinished_append(log, files, records, effects, result, k);
    let frames = if result is Ok {
        choose|frames: Seq<Seq<u8>>|
            log::encodes_all(codec, records, frames) && effects == #[trigger] log.append_effects(
                additional,
                frames,
            )
    } else {
        Seq::empty()
    };
    let a = if result is Ok {
        disk::steps_before_write(log, additional)
    } else {
        effects.len() as int
    };
    let before_write = log.approach(additional) + log.seek_effects(additional);
    assert forall|j: int| 0 <= j < a implies #[trigger] effects[j] == before_write[j] by {
        disk::lemma_append_effects_by_number(log, additional, frames, j);
    }
    assert forall|j: int| 0 <= j < a implies !(#[trigger] effects[j] is Write) && !(
    effects[j] is Cut) by {
        assert(effects[j] == before_write[j]);
    }
    let (start, start_files) = if k <= a {
        (at, at_files)
    } else {
        (disk::run_log(log, effects.take(a)), disk::run_disk(log, files, effects.take(a)))
    };
    if result is Ok {
        disk::lemma_append_effects_by_number(log, additional, frames, k - a - 1);
    }
    if k <= a {
        lemma_segments_before_write(log, files, effects, additional, k);
        lemma_not_beyond(start, start_files);
        if result is Ok && k == a {
            lemma_file_stands_at_end(log, files, additional, frames);
        }
    } else {
        disk::lemma_storable_frames(log, records, additional, frames);
        disk::lemma_track_run(log, files, codec, records, additional, frames, k - a - 1);
        lemma_beyond_run(log, files, codec, records, additional, frames, k - a - 1);
        disk::lemma_unfinished_append(log, files, records, effects, result, a);
        lemma_segments_before_write(log, files, effects, additional, a);
    }
    lemma_beyond_step(start, start_files, at, at_files, effects[k], left);
    lemma_rollback(start, start_files, at, left);
    lemma_keeps_transitive(log, files, start, start_files, at.failed(), left);
}

/// The steps before the write open one segment at most.
proof fn lemma_segments_before_write(
    log: LogView,
    files: Seq<SegmentFiles>,
    effects: Seq<EffectView>,
    additional: nat,
    k: int,
)
    requires
        log.segments.len() >= 1,
        0 <= k <= disk::steps_before_write(log, additional),
        k <= effects.len(),
        forall|j: int|
            0 <= j < k ==> #[trigger] effects[j] == (log.approach(additional) + log.seek_effects(
                additional,
            ))[j],
    ensures
        log.segments.len() <= disk::run_log(log, effects.take(k)).segments.len()
            <= log.segments.len() + 1,
{
    disk::lemma_run_nothing(log, files, effects);
    if k >= 1 {
        disk::lemma_run_step(log, files, effects, 0);
        assert(effects[0] is SyncActive || effects[0] is Seek);
    }
    if k >= 2 {
        disk::lemma_run_step(log, files, effects, 1);
        assert(effects[1] is OpenSegment);
    }
}

/// The log before any append, with its files, has gone on from where it is once
/// what a failed append left behind has been cut off.
proof fn lemma_torn_is_beyond(log: LogView, files: Seq<SegmentFiles>)
    requires
        disk::usable(log, files),
    ensures
        beyond(log.ready(), disk::trimmed(log, files), log, files),
        log.torn ==> disk::trimmed(log, files).last().data.len() == log.active().segment.size,
        log.torn ==> disk::trimmed(log, files).last().index.len() == 8
            * log.active().index.entries.len(),
{
    let ready = log.ready();
    let kept = disk::trimmed(log, files);
    if log.torn {
        reveal(beyond);
        disk::lemma_settled_is_stored(ready, kept);
        let last = log.segments.len() - 1;
        let entries = log.segments[last].index.entries;
        assert(entries.take(entries.len() as int) =~= entries);
    } else {
        lemma_not_beyond(log, files);
    }
}

/// An append that fails at any step keeps every record and shows nothing, and
/// the log can be appended to again, whatever the failing step left behind. No
/// offset is used up, and one segment at most has been added.
pub proof fn law_failed_append_keeps_log(
    log: LogView,
    files: Seq<SegmentFiles>,
    records: Seq<RecordView>,
    effects: Seq<EffectView>,
    result: Result<Vec<u64>, KafkoError>,
    k: int,
    left: Seq<SegmentFiles>,
)
    requires
        disk::usable(log, files),
        log.accepts(records),
        log.plans(records, effects, result),
        disk::storable(log.config.compression, records, effects),
        disk::runnable_to(log, effects, k),
        0 <= k < effects.len(),
        partly(
            disk::run_log(log, effects.take(k)),
            disk::run_disk(log, files, effects.take(k)),
            effects[k],
            left,
        ),
    ensures
        ({
            let later = disk::run_log(log, effects.take(k)).failed();
            &&& disk::usable(later, left)
            &&& disk::keeps_records(log, files, later, left)
            &&& later.next_offset == log.next_offset
            &&& log.segments.len() <= later.segments.len() <= log.segments.len() + 1
            &&& forall|offset: u64|
                disk::known(log, offset) ==> #[trigger] disk::reads_as(
                    later,
                    left,
                    offset,
                    Ok(Some(disk::record_of(log, files, offset))),
                )
        }),
{
    let at = disk::run_log(log, effects.take(k));
    let at_files = disk::run_disk(log, files, effects.take(k));
    let n = log.lead().len() as int;
    let ready = log.ready();
    let kept = disk::trimmed(log, files);
    lemma_usable_is_intact(log, files);
    lemma_trim(log, files);
    if k < n {
        disk::lemma_run_nothing(log, files, effects);
        lemma_torn_is_beyond(log, files);
        assert(effects[0] == effects.take(n)[0]);
        lemma_beyond_step(ready, kept, at, at_files, effects[k], left);
        lemma_rollback(ready, kept, at, left);
    } else {
        let rest = effects.skip(n);
        lemma_run_behind_lead(log, files, effects, k);
        assert forall|j: int| 0 <= j < k - n implies disk::run_log(ready, rest.take(j)).allows(
            #[trigger] rest[j],
        ) by {
            lemma_run_behind_lead(log, files, effects, j + n);
            assert(effects[j + n] == rest[j]);
        }
        assert(rest[k - n] == effects[k]);
        lemma_failed_append(ready, kept, records, rest, result, k - n, left);
    }
    lemma_keeps_transitive(log, files, ready, kept, at.failed(), left);
    lemma_usable_is_intact(at.failed(), left);
    lemma_kept_is_read(log, files, at.failed(), left);
}

/// A record that was just written to a segment within the reach of its index
/// can be tracked.
proof fn lemma_track_is_allowed(
    log: LogView,
    files: Seq<SegmentFiles>,
    codec: Compression,
    records: Seq<RecordView>,
    frames: Seq<Seq<u8>>,
    at: LogView,
    at_files: Seq<SegmentFiles>,
    j: int,
)
    requires
        disk::settled(log, files),
        disk::codecs().supports(codec),
        log::encodes_all(codec, records, frames),
        disk::all_readable(codec, records, frames),
        0 <= j < frames.len(),
        disk::written(log, files, frames, at, at_files, j),
        log.next_offset + frames.len() <= u64::MAX,
        log::concat(frames).len() <= isize::MAX,
        log.active().segment.size + log::concat(frames).len() <= scan::INDEX_REACH,
    ensures
        at.allows(log::track_effects(log.next_offset, log.active().segment.size, frames)[j]),
{
    reveal(disk::stored);
    reveal(disk::settled);
    reveal(disk::grown);
    reveal(disk::written);
    let last = log.segments.len() - 1;
    let data = files[last].data;
    let all = at_files[last].data;
    let before = scan::count(disk::codecs(), data);
    disk::lemma_frames_are_whole(codec, records, frames, j);
    assert(disk::segment_stored(log.segments[last], files[last], disk::end_offset(log, last)));
    assert(at.segments[last].segment.base_offset == log.segments[last].segment.base_offset);
    assert(at.segments[last].wf());
    scan::lemma_extend(disk::codecs(), data, log::concat(frames));
    scan::lemma_position_bounds(disk::codecs(), all, (before + j) as nat);
    log::lemma_concat_step(frames, j);
    log::lemma_concat_take_len(frames, j + 1);
    assert(record::encodes(codec, records[j], frames[j]));
    scan::lemma_encoded_record_is_whole(disk::codecs(), codec, records[j], frames[j]);
    scan::lemma_position_bounds(disk::codecs(), frames[j], 1);
}

/// The steps of an append on a ready log can be carried out; see
/// [`law_append_can_be_carried_out`].
proof fn lemma_runnable(
    log: LogView,
    files: Seq<SegmentFiles>,
    codec: Compression,
    records: Seq<RecordView>,
    frames: Seq<Seq<u8>>,
    k: int,
)
    requires
        disk::settled(log, files),
        disk::codecs().supports(codec),
        log.config.compression == codec,
        log::encodes_all(codec, records, frames),
        disk::all_readable(codec, records, frames),
        frames.len() > 0,
        log.accepts(records),
        log.segments.len() < usize::MAX,
        log.write_position(log::total_wire_len(records)) + log::concat(frames).len()
            <= scan::INDEX_REACH,
        0 <= k <= log.append_effects(log::total_wire_len(records), frames).len(),
    ensures
        disk::runnable_to(log, log.append_effects(log::total_wire_len(records), frames), k),
    decreases k,
{
    let additional = log::total_wire_len(records);
    let effects = log.append_effects(additional, frames);
    let a = disk::steps_before_write(log, additional);
    if k > 0 {
        lemma_runnable(log, files, codec, records, frames, k - 1);
        disk::lemma_settled_is_stored(log, files);
        log::lemma_concat_bound(codec, records, frames);
        let at = disk::run_log(log, effects.take(k - 1));
        let at_files = disk::run_disk(log, files, effects.take(k - 1));
        disk::lemma_write_position(log, files, additional, frames);
        if k - 1 < a {
            disk::lemma_append_effects_by_number(log, additional, frames, k - 1);
            disk::lemma_run_nothing(log, files, effects);
            if k - 1 == 1 {
                disk::lemma_append_effects_by_number(log, additional, frames, 0);
                disk::lemma_run_step(log, files, effects, 0);
            }
        } else if k - 1 == a {
            disk::lemma_append_effects_by_number(log, additional, frames, 0);
        } else {
            let j = k - 1 - a - 1;
            disk::lemma_append_effects_by_number(log, additional, frames, j);
            disk::lemma_track_run(log, files, codec, records, additional, frames, j);
            let start = disk::run_log(log, effects.take(a));
            let start_files = disk::run_disk(log, files, effects.take(a));
            if j < frames.len() {
                lemma_track_is_allowed(
                    start,
                    start_files,
                    codec,
                    records,
                    frames,
                    at,
                    at_files,
                    j,
                );
            } else {
                disk::lemma_written_is_stored(start, start_files, frames, at, at_files, j);
            }
        }
        assert(at.allows(effects[k - 1]));
    }
}

/// An append can be carried out: no step of it leads to a number that does not
/// fit, as long as the segment that is written to stays within the reach of its
/// index, of four gibibytes.
pub proof fn law_append_can_be_carried_out(
    log: LogView,
    files: Seq<SegmentFiles>,
    records: Seq<RecordView>,
    effects: Seq<EffectView>,
    result: Result<Vec<u64>, KafkoError>,
)
    requires
        disk::usable(log, files),
        log.accepts(records),
        log.plans(records, effects, result),
        disk::storable(log.config.compression, records, effects),
        log.segments.len() < usize::MAX,
        forall|k: int|
            0 <= k < effects.len() ==> (#[trigger] effects[k] matches EffectView::Write { bytes }
                ==> log.write_position(log::total_wire_len(records)) + bytes.len()
                <= scan::INDEX_REACH),
    ensures
        disk::runnable(log, effects),
{
    let n = log.lead().len() as int;
    let ready = log.ready();
    let kept = disk::trimmed(log, files);
    if records.len() > 0 {
        let rest = effects.skip(n);
        let additional = log::total_wire_len(records);
        assert(disk::runnable(ready, rest)) by {
            disk::lemma_settled_is_stored(ready, kept);
            if result is Ok {
                let frames = choose|frames: Seq<Seq<u8>>|
                    log::encodes_all(ready.config.compression, records, frames) && rest
                        == #[trigger] ready.append_effects(additional, frames);
                disk::lemma_storable_frames(ready, records, additional, frames);
                let a = disk::steps_before_write(ready, additional);
                disk::lemma_append_effects_by_number(ready, additional, frames, 0);
                assert(rest[a] == effects[a + n]);
                lemma_runnable(
                    ready,
                    kept,
                    log.config.compression,
                    records,
                    frames,
                    rest.len() as int,
                );
            } else {
                disk::lemma_run_nothing(ready, kept, rest);
                if rest.len() > 0 {
                    disk::lemma_run_step(ready, kept, rest, 0);
                }
            }
        }
        assert forall|k: int| 0 <= k < effects.len() implies disk::run_log(
            log,
            effects.take(k),
        ).allows(#[trigger] effects[k]) by {
            if k < n {
                disk::lemma_run_nothing(log, files, effects);
                assert(effects[k] == effects.take(n)[k]);
            } else {
                lemma_run_behind_lead(log, files, effects, k);
                assert(rest[k - n] == effects[k]);
            }
        }
    }
}

/// The oldest segment can be taken out, with its files: every record from the
/// next segment on stays, and can be read.
pub proof fn law_oldest_segment_can_go(log: LogView, files: Seq<SegmentFiles>)
    requires
        disk::intact(log, files),
        log.segments.len() > 1,
    ensures
        ({
            let later = log.without_oldest();
            let later_files = files.skip(1);
            &&& disk::intact(later, later_files)
            &&& disk::usable(log, files) ==> disk::usable(later, later_files)
            &&& disk::first_offset(log) <= disk::first_offset(later)
            &&& forall|offset: u64|
                disk::known(later, offset) ==> {
                    &&& disk::known(log, offset)
                    &&& #[trigger] disk::record_of(later, later_files, offset)
                        == disk::record_of(log, files, offset)
                    &&& disk::reads_as(
                        later,
                        later_files,
                        offset,
                        Ok(Some(disk::record_of(log, files, offset))),
                    )
                }
        }),
{
    let later = log.without_oldest();
    let later_files = files.skip(1);
    let ready = log.ready();
    let kept = disk::trimmed(log, files);
    assert forall|i: int| 0 <= i < later.segments.len() implies (
    #[trigger] later.segments[i]).wf() by {
        assert(log.segments[i + 1].wf());
    }
    disk::lemma_without_oldest(ready, kept);
    assert(later.ready().segments =~= ready.without_oldest().segments);
    assert(disk::trimmed(later, later_files) =~= kept.skip(1));
    assert(disk::intact(later, later_files));
    lemma_trim(log, files);
    lemma_trim(later, later_files);
    assert forall|offset: u64| disk::known(later, offset) implies {
        &&& disk::known(log, offset)
        &&& #[trigger] disk::record_of(later, later_files, offset) == disk::record_of(
            log,
            files,
            offset,
        )
        &&& disk::reads_as(
            later,
            later_files,
            offset,
            Ok(Some(disk::record_of(log, files, offset))),
        )
    } by {
        assert(disk::record_of(ready.without_oldest(), kept.skip(1), offset) == disk::record_of(
            later,
            later_files,
            offset,
        ));
        assert(disk::record_of(log, files, offset) == disk::record_of(ready, kept, offset));
        law_known_record_is_readable(later, later_files, offset);
    }
}

/// A log and its files.
pub struct State {
    /// The log.
    pub log: LogView,
    /// The files of its segments.
    pub files: Seq<SegmentFiles>,
}

/// What may happen to a log.
pub enum Event {
    /// Records were appended.
    Append {
        /// The records.
        records: Seq<RecordView>,
        /// The steps, all of them carried out.
        effects: Seq<EffectView>,
        /// The offsets that the records got.
        offsets: Vec<u64>,
    },
    /// Records were not appended: the codec is not part of the build.
    Refuse {
        /// The records.
        records: Seq<RecordView>,
        /// The steps, all of them carried out.
        effects: Seq<EffectView>,
        /// The error.
        error: KafkoError,
    },
    /// An append failed at one of its steps.
    Fail {
        /// The records.
        records: Seq<RecordView>,
        /// The steps.
        effects: Seq<EffectView>,
        /// The plan's result, which was not reached.
        result: Result<Vec<u64>, KafkoError>,
        /// The step that failed.
        step: int,
        /// What that left.
        left: Seq<SegmentFiles>,
    },
    /// A part of a segment was read.
    Read {
        /// The segment.
        segment: int,
        /// Where the read started.
        position: u64,
        /// How many bytes were read.
        len: nat,
    },
    /// The oldest segment was deleted.
    DropOldest,
    /// The log was opened again; see [`opening`].
    Reopen {
        /// The files that were found, as after a crash.
        found: Seq<SegmentFiles>,
        /// The settings it was opened with.
        config: LogConfig,
        /// What the log knows of where the active segment's file stands.
        cursor: Option<u64>,
        /// Where it stands.
        stands_at: nat,
    },
}

/// Whether records can be appended by these steps.
pub open spec fn appendable(
    state: State,
    records: Seq<RecordView>,
    effects: Seq<EffectView>,
    result: Result<Vec<u64>, KafkoError>,
) -> bool {
    &&& state.log.accepts(records)
    &&& state.log.plans(records, effects, result)
    &&& disk::storable(state.log.config.compression, records, effects)
}

impl State {
    /// A new log.
    pub open spec fn new(config: LogConfig) -> Self {
        State { log: LogView::new(config), files: seq![SegmentFiles::fresh()] }
    }

    /// Whether this can happen now.
    pub open spec fn admits(self, event: Event) -> bool {
        match event {
            Event::Append { records, effects, offsets } => {
                &&& appendable(self, records, effects, Ok(offsets))
                &&& disk::runnable(self.log, effects)
            },
            Event::Refuse { records, effects, error } => {
                &&& appendable(self, records, effects, Err(error))
                &&& disk::runnable(self.log, effects)
            },
            Event::Fail { records, effects, result, step, left } => {
                &&& appendable(self, records, effects, result)
                &&& disk::runnable_to(self.log, effects, step)
                &&& 0 <= step < effects.len()
                &&& partly(
                    disk::run_log(self.log, effects.take(step)),
                    disk::run_disk(self.log, self.files, effects.take(step)),
                    effects[step],
                    left,
                )
            },
            Event::Read { segment, position, len } => {
                &&& 0 <= segment < self.files.len()
                &&& position + len <= self.log.segments[segment].segment.size
            },
            Event::DropOldest => self.log.segments.len() > 1,
            Event::Reopen { found, config, cursor, stands_at } => {
                let tail = rest(self.log, self.files, found);
                &&& survives(self.log, self.files, found)
                &&& record::parse(disk::codecs(), tail).outcome matches Err(e)
                &&& scan::is_torn(e)
                &&& cursor matches Some(at) ==> at == stands_at
                &&& self.log.active().segment.base_offset + found.last().data.len() <= u64::MAX
                &&& opening(config, bases(self.log), found, cursor, stands_at) is Some
            },
        }
    }

    /// What the log and its files are once this has happened.
    pub open spec fn after(self, event: Event) -> Self {
        match event {
            Event::Append { effects, .. } | Event::Refuse { effects, .. } => State {
                log: disk::run_log(self.log, effects),
                files: disk::run_disk(self.log, self.files, effects),
            },
            Event::Fail { effects, step, left, .. } => State {
                log: disk::run_log(self.log, effects.take(step)).failed(),
                files: left,
            },
            Event::Read { segment, position, len } => {
                let read = self.log.segments[segment].segment;
                let file = read.sought(self.files[segment].file(), position);
                State {
                    log: self.log.with_segment(segment, read.after_read(position, len)),
                    files: self.files.update(
                        segment,
                        self.files[segment].with_file(file.read(len)),
                    ),
                }
            },
            Event::DropOldest => State {
                log: self.log.without_oldest(),
                files: self.files.skip(1),
            },
            Event::Reopen { found, config, cursor, stands_at } => opening(
                config,
                bases(self.log),
                found,
                cursor,
                stands_at,
            )->0,
        }
    }

    /// Whether all this can happen, one after the other.
    pub open spec fn admits_all(self, events: Seq<Event>) -> bool
        decreases events.len(),
    {
        events.len() == 0 || {
            &&& self.admits_all(events.drop_last())
            &&& self.after_all(events.drop_last()).admits(events.last())
        }
    }

    /// What the log and its files are once all this has happened.
    pub open spec fn after_all(self, events: Seq<Event>) -> Self
        decreases events.len(),
    {
        if events.len() == 0 {
            self
        } else {
            self.after_all(events.drop_last()).after(events.last())
        }
    }
}

/// The records that were appended, in order.
pub open spec fn appended(events: Seq<Event>) -> Seq<RecordView>
    decreases events.len(),
{
    if events.len() == 0 {
        Seq::empty()
    } else {
        match events.last() {
            Event::Append { records, .. } => appended(events.drop_last()) + records,
            _ => appended(events.drop_last()),
        }
    }
}

/// Whether a log holds these records, from the first that was not deleted on.
spec fn holds_records(state: State, records: Seq<RecordView>) -> bool {
    &&& disk::usable(state.log, state.files)
    &&& disk::first_offset(state.log) <= state.log.next_offset == records.len()
    &&& forall|offset: u64|
        disk::known(state.log, offset) ==> #[trigger] disk::record_of(
            state.log,
            state.files,
            offset,
        ) == records[offset as int]
}

proof fn lemma_event_keeps_records(state: State, records: Seq<RecordView>, event: Event)
    requires
        holds_records(state, records),
        state.admits(event),
    ensures
        holds_records(
            state.after(event),
            match event {
                Event::Append { records: more, .. } => records + more,
                _ => records,
            },
        ),
        !(event is DropOldest) ==> disk::first_offset(state.after(event).log)
            == disk::first_offset(state.log),
{
    let log = state.log;
    let files = state.files;
    let later = state.after(event);
    lemma_usable_is_intact(log, files);
    match event {
        Event::Append { records: more, effects, offsets } => {
            law_append_adds_records(log, files, more, effects, offsets);
            assert forall|offset: u64| disk::known(later.log, offset) implies
                #[trigger] disk::record_of(later.log, later.files, offset) == (records
                + more)[offset as int] by {
                if disk::known(log, offset) {
                    assert(disk::record_of(log, files, offset) == records[offset as int]);
                } else {
                    let i = offset - log.next_offset;
                    assert(offsets@[i] == offset);
                }
            }
        },
        Event::Refuse { records: more, effects, error } => {
            assert(effects.take(effects.len() as int) =~= effects);
            law_unfinished_append_shows_nothing(
                log,
                files,
                more,
                effects,
                Err(error),
                effects.len() as int,
            );
        },
        Event::Fail { records: more, effects, result, step, left } => {
            law_failed_append_keeps_log(log, files, more, effects, result, step, left);
        },
        Event::Read { segment, position, len } => {
            law_reading_keeps_log(log, files, segment, position, len);
        },
        Event::DropOldest => {
            law_oldest_segment_can_go(log, files);
        },
        Event::Reopen { found, config, cursor, stands_at } => {
            law_reopening_recovers_records(log, files, found, config, cursor, stands_at);
        },
    }
}

/// Where the codec is not part of the build, nothing is written.
proof fn lemma_refused_plan_writes_nothing(
    log: LogView,
    records: Seq<RecordView>,
    effects: Seq<EffectView>,
    error: KafkoError,
)
    requires
        log.plans(records, effects, Err(error)),
    ensures
        forall|j: int| 0 <= j < effects.len() ==> !(#[trigger] effects[j] is Write),
{
    let n = log.lead().len() as int;
    let rest = effects.skip(n);
    assert forall|j: int| 0 <= j < effects.len() implies !(#[trigger] effects[j] is Write) by {
        if j < n {
            assert(effects[j] == effects.take(n)[j]);
        } else {
            assert(effects[j] == rest[j - n]);
        }
    }
}

proof fn lemma_events_keep_records(config: LogConfig, events: Seq<Event>)
    requires
        State::new(config).admits_all(events),
    ensures
        holds_records(State::new(config).after_all(events), appended(events)),
    decreases events.len(),
{
    if events.len() == 0 {
        law_new_log_is_usable(config);
    } else {
        lemma_events_keep_records(config, events.drop_last());
        lemma_event_keeps_records(
            State::new(config).after_all(events.drop_last()),
            appended(events.drop_last()),
            events.last(),
        );
    }
}

/// Whatever happened to a log since it was created, in whatever order: the
/// records that were appended are in it one behind the other from offset zero,
/// each can be read at its offset and comes out as it went in, across however
/// many segments, and at every other offset nothing is read, without an error.
/// Only the records of deleted segments, which are the oldest, are no longer
/// there. The log can be appended to.
pub proof fn law_log_gives_back_what_was_appended(
    config: LogConfig,
    events: Seq<Event>,
    offset: u64,
)
    requires
        State::new(config).admits_all(events),
    ensures
        ({
            let state = State::new(config).after_all(events);
            let records = appended(events);
            &&& disk::usable(state.log, state.files)
            &&& state.log.next_offset == records.len()
            &&& (forall|i: int| 0 <= i < events.len() ==> !(#[trigger] events[i] is DropOldest))
                ==> disk::first_offset(state.log) == 0
            &&& disk::reads_as(
                state.log,
                state.files,
                offset,
                if disk::first_offset(state.log) <= offset < records.len() {
                    Ok(Some(records[offset as int]))
                } else {
                    Ok(None)
                },
            )
        }),
{
    let state = State::new(config).after_all(events);
    lemma_events_keep_records(config, events);
    lemma_usable_is_intact(state.log, state.files);
    if forall|i: int| 0 <= i < events.len() ==> !(#[trigger] events[i] is DropOldest) {
        lemma_nothing_dropped(config, events);
    }
    if offset >= state.log.next_offset {
        law_nothing_past_the_end(state.log, state.files, offset);
    } else if offset < disk::first_offset(state.log) {
        law_nothing_before_the_start(state.log, state.files, offset);
    } else {
        law_known_record_is_readable(state.log, state.files, offset);
    }
}

proof fn lemma_nothing_dropped(config: LogConfig, events: Seq<Event>)
    requires
        State::new(config).admits_all(events),
        forall|i: int| 0 <= i < events.len() ==> !(#[trigger] events[i] is DropOldest),
    ensures
        disk::first_offset(State::new(config).after_all(events).log) == 0,
    decreases events.len(),
{
    if events.len() > 0 {
        let before = events.drop_last();
        assert forall|i: int| 0 <= i < before.len() implies !(#[trigger] before[i]
            is DropOldest) by {
            assert(before[i] == events[i]);
        }
        lemma_nothing_dropped(config, before);
        lemma_events_keep_records(config, before);
        assert(!(events[events.len() - 1] is DropOldest));
        lemma_event_keeps_records(
            State::new(config).after_all(before),
            appended(before),
            events.last(),
        );
    }
}

/// A sealed segment as it is opened again: with the entries its index file
/// holds.
pub open spec fn reopened(base_offset: u64, files: SegmentFiles, interval: u64) -> IndexedView {
    IndexedView {
        segment: segment::SegmentView {
            base_offset,
            size: files.data.len() as u64,
            cursor: Some(0),
        },
        index: sparse_index::IndexView {
            base_offset,
            entries: sparse_index::parse_entries(files.index),
            bytes_since_last_entry: 0,
            interval,
        },
    }
}

/// What opening a log makes of the files it finds, for segments with these base
/// offsets: the active segment is cut where its records end and gets a new
/// index file, the others stay. `None` where the active segment cannot be
/// recovered. The active segment's file then stands at `position`, of which the
/// log knows as much as `cursor` says.
///
/// Opening is what [`log::Log::open`] does with what
/// [`scan::scan_for_last_valid_position`] kept of the active segment.
pub open spec fn opening(
    config: LogConfig,
    bases: Seq<u64>,
    found: Seq<SegmentFiles>,
    cursor: Option<u64>,
    position: nat,
) -> Option<State> {
    let base = bases.last();
    let interval = config.index_interval;
    match scan::valid_prefix(disk::codecs(), found.last().data) {
        Err(_) => None,
        Ok(len) => {
            let data = found.last().data.take(len);
            let empty = IndexedView::fresh(base, interval).index;
            match scan::replay(disk::codecs(), data, empty, 0, 0) {
                scan::Replay::Done(index, records) => {
                    let segment = segment::SegmentView {
                        base_offset: base,
                        size: data.len() as u64,
                        cursor,
                    };
                    let sealed = Seq::new(
                        (found.len() - 1) as nat,
                        |i: int| reopened(bases[i], found[i], interval),
                    );
                    let files = Seq::new(
                        (found.len() - 1) as nat,
                        |i: int| SegmentFiles { position: 0, ..found[i] },
                    );
                    Some(
                        State {
                            log: LogView::opened(
                                config,
                                sealed,
                                IndexedView { segment, index },
                                records,
                            ),
                            files: files.push(
                                SegmentFiles {
                                    data,
                                    position,
                                    index: sparse_index::entries_bytes(index.entries),
                                },
                            ),
                        },
                    )
                },
                _ => None,
            }
        },
    }
}

/// The base offsets of a log's segments.
pub open spec fn bases(log: LogView) -> Seq<u64> {
    Seq::new(log.segments.len(), |i: int| log.segments[i].segment.base_offset)
}

/// Whether a crash may have left these files: the sealed segments are as they
/// were, the active segment's file holds every record that the log knew of and
/// possibly more, and nothing is known of its index file.
pub open spec fn survives(
    log: LogView,
    files: Seq<SegmentFiles>,
    found: Seq<SegmentFiles>,
) -> bool {
    let kept = disk::trimmed(log, files);
    let last = files.len() - 1;
    &&& found.len() == files.len()
    &&& forall|i: int|
        0 <= i < last ==> (#[trigger] found[i]).data == kept[i].data && found[i].index
            == kept[i].index
    &&& kept[last].data.len() <= found[last].data.len()
    &&& found[last].data.take(kept[last].data.len() as int) == kept[last].data
}

/// What a crash left behind the known records.
pub open spec fn rest(
    log: LogView,
    files: Seq<SegmentFiles>,
    found: Seq<SegmentFiles>,
) -> Seq<u8> {
    found.last().data.skip(disk::trimmed(log, files).last().data.len() as int)
}

/// Opening the log again after a crash gives back every record that it knew of.
/// It succeeds wherever behind those there is nothing but a rest that does not
/// make up a record, which is cut off, and then no other record shows up;
/// records that were written but not acknowledged become known. Only a segment
/// larger than the reach of its index cannot be opened.
pub proof fn law_reopening_recovers_records(
    log: LogView,
    files: Seq<SegmentFiles>,
    found: Seq<SegmentFiles>,
    config: LogConfig,
    cursor: Option<u64>,
    position: nat,
)
    requires
        disk::intact(log, files),
        survives(log, files, found),
        cursor matches Some(at) ==> at == position,
        log.active().segment.base_offset + found.last().data.len() <= u64::MAX,
    ensures
        ({
            let kept = disk::trimmed(log, files).last().data;
            let tail = rest(log, files, found);
            let opened = opening(config, bases(log), found, cursor, position);
            &&& opened matches Some(state) ==> {
                &&& disk::usable(state.log, state.files)
                &&& disk::keeps_records(log, files, state.log, state.files)
                &&& state.log.segments.len() == log.segments.len()
            }
            &&& (record::parse(disk::codecs(), tail).outcome matches Err(e) && scan::is_torn(e))
                ==> {
                &&& opened is None ==> kept.len() > scan::INDEX_REACH
                &&& opened matches Some(state) ==> {
                    &&& state.files.last().data == kept
                    &&& disk::usable(log, files) ==> state.log.next_offset == log.next_offset
                }
            }
        }),
{
    let ready = log.ready();
    let kept_files = disk::trimmed(log, files);
    let last = files.len() - 1;
    let base = bases(log).last();
    let kept = kept_files.last().data;
    let tail = rest(log, files, found);
    assert(found.last().data =~= kept + tail);
    lemma_trim(log, files);
    assert(scan::whole(disk::codecs(), kept)) by {
        reveal(disk::stored);
        assert(disk::segment_stored(
            ready.segments[last],
            kept_files[last],
            disk::end_offset(ready, last),
        ));
    }
    scan::lemma_recovery_goes_on(disk::codecs(), kept, tail);
    scan::lemma_valid_prefix_bounds(disk::codecs(), tail);
    let opened = opening(config, bases(log), found, cursor, position);
    if let Some(state) = opened {
        let len = scan::valid_prefix(disk::codecs(), found.last().data)->Ok_0;
        let data = found.last().data.take(len);
        let empty = IndexedView::fresh(base, config.index_interval).index;
        scan::lemma_replay_means_whole(disk::codecs(), data, empty, 0, 0);
        scan::law_replay_rebuilds_index(disk::codecs(), data, base, config.index_interval);
        assert(bases(ready) =~= bases(log));
        lemma_opened_is_settled(ready, kept_files, found, config, cursor, position, state);
        lemma_settled_is_usable(state.log, state.files);
        lemma_keeps_transitive(log, files, ready, kept_files, state.log, state.files);
    }
    if record::parse(disk::codecs(), tail).outcome matches Err(e) && scan::is_torn(e) {
        assert(found.last().data.take(kept.len() as int) =~= kept);
        scan::law_replay_rebuilds_index(disk::codecs(), kept, base, config.index_interval);
        if disk::usable(log, files) {
            reveal(disk::settled);
        }
    }
}

proof fn lemma_opened_is_settled(
    log: LogView,
    files: Seq<SegmentFiles>,
    found: Seq<SegmentFiles>,
    config: LogConfig,
    cursor: Option<u64>,
    position: nat,
    state: State,
)
    requires
        disk::stored(log, files),
        survives(log, files, found),
        cursor matches Some(at) ==> at == position,
        log.active().segment.base_offset + found.last().data.len() <= u64::MAX,
        opening(config, bases(log), found, cursor, position) == Some(state),
        scan::whole(disk::codecs(), state.files.last().data),
        files.last().data.len() <= state.files.last().data.len() <= found.last().data.len(),
        state.files.last().data == found.last().data.take(
            state.files.last().data.len() as int,
        ),
    ensures
        disk::settled(state.log, state.files),
        disk::keeps_records(log, files, state.log, state.files),
{
    reveal(disk::stored);
    reveal(disk::settled);
    reveal(disk::grown);
    let later = state.log;
    let later_files = state.files;
    let last = files.len() - 1;
    let base = bases(log).last();
    let data = later_files.last().data;
    assert(base == log.active().segment.base_offset);
    scan::law_replay_rebuilds_index(disk::codecs(), data, base, config.index_interval);
    let records = scan::count(disk::codecs(), data);
    scan::lemma_position_bounds(disk::codecs(), data, records);
    assert(disk::segment_stored(log.segments[last], files[last], disk::end_offset(log, last)));
    assert(data.take(files[last].data.len() as int) =~= files[last].data);
    let more = data.skip(files[last].data.len() as int);
    assert(data =~= files[last].data + more);
    scan::lemma_extend(disk::codecs(), files[last].data, more);
    assert forall|i: int| 0 <= i < later_files.len() implies disk::segment_stored(
        later.segments[i],
        #[trigger] later_files[i],
        disk::end_offset(later, i),
    ) && later.segments[i].wf() && later.segments[i].segment.base_offset
        == log.segments[i].segment.base_offset by {
        assert(disk::segment_stored(log.segments[i], files[i], disk::end_offset(log, i)));
        assert(log.segments[i].wf());
        if i < last {
            let entries = log.segments[i].index.entries;
            sparse_index::law_parse_inverts_write(entries, Seq::empty());
            assert(files[i].index + Seq::<u8>::empty() =~= files[i].index);
            assert(found[i].data == files[i].data);
            assert(later.segments[i].index.entries == entries);
        }
    }
    assert forall|i: int| 0 <= i < later.segments.len() implies (
    #[trigger] later.segments[i]).wf() && later.segments[i].segment.base_offset
        == log.segments[i].segment.base_offset by {
        let of = later_files[i];
    }
    assert forall|i: int| 0 <= i < log.segments.len() implies {
        &&& (#[trigger] later.segments[i]).segment.base_offset
            == log.segments[i].segment.base_offset
        &&& files[i].data.len() <= later_files[i].data.len()
        &&& later_files[i].data.take(files[i].data.len() as int) == files[i].data
    } by {
        if i < last {
            assert(found[i].data == files[i].data);
            assert(files[i].data.take(files[i].data.len() as int) =~= files[i].data);
        }
    }
    assert(disk::stored(later, later_files));
    disk::lemma_grown_keeps_records(log, files, later, later_files);
}

/// Opening a log twice is opening it once, whatever its files held: the second
/// time nothing is cut off, the files stay as they are, and the log has as many
/// segments, of the same size, and gives the next record the same offset.
pub proof fn law_second_opening_changes_nothing(
    config: LogConfig,
    bases: Seq<u64>,
    found: Seq<SegmentFiles>,
    cursor: Option<u64>,
    position: nat,
    second_cursor: Option<u64>,
    second_position: nat,
    state: State,
)
    requires
        found.len() >= 1,
        bases.len() == found.len(),
        opening(config, bases, found, cursor, position) == Some(state),
    ensures
        opening(config, bases, state.files, second_cursor, second_position) matches Some(again)
            && {
            &&& again.log.next_offset == state.log.next_offset
            &&& again.log.segments.len() == state.log.segments.len() == found.len()
            &&& again.log.total_size() == state.log.total_size()
            &&& again.files.len() == state.files.len()
            &&& forall|i: int|
                0 <= i < found.len() ==> {
                    &&& (#[trigger] again.files[i]).data == state.files[i].data
                    &&& again.files[i].index == state.files[i].index
                }
        },
{
    let last = found.len() - 1;
    let data = found.last().data;
    let len = scan::valid_prefix(disk::codecs(), data)->Ok_0;
    let empty = IndexedView::fresh(bases.last(), config.index_interval).index;
    scan::law_second_recovery_removes_nothing(disk::codecs(), data, len, empty);
    assert(state.files.last().data == data.take(len));
    assert(data.take(len).take(len) =~= data.take(len));
    let again = opening(config, bases, state.files, second_cursor, second_position)->0;
    assert forall|i: int| 0 <= i < found.len() implies (
    #[trigger] again.log.segments[i]).segment.size == state.log.segments[i].segment.size by {
        if i < last {
            assert(state.files[i].data == found[i].data);
        }
    }
    lemma_total_size_same(again.log.segments, state.log.segments);
}

/// A new log that is opened again, with nothing appended, is still one segment
/// without records.
pub proof fn law_new_log_opens_empty(
    config: LogConfig,
    second_config: LogConfig,
    cursor: Option<u64>,
    position: nat,
)
    requires
        cursor matches Some(at) ==> at == position,
    ensures
        ({
            let created = State::new(config);
            opening(second_config, bases(created.log), created.files, cursor, position) matches Some(
                state,
            ) && {
                &&& disk::usable(state.log, state.files)
                &&& state.log.next_offset == created.log.next_offset == 0
                &&& state.log.segments.len() == created.log.segments.len() == 1
                &&& state.log.total_size() == created.log.total_size() == 0
            }
        }),
{
    let created = State::new(config);
    let log = created.log;
    let files = created.files;
    law_new_log_is_usable(config);
    lemma_usable_is_intact(log, files);
    assert(files.last().data.take(0) =~= files.last().data);
    assert(survives(log, files, files));
    law_reopening_recovers_records(log, files, files, second_config, cursor, position);
    let state = opening(second_config, bases(log), files, cursor, position)->0;
    assert(log::total_size(Seq::<IndexedView>::empty()) == 0);
    assert(log.segments.drop_last() =~= Seq::<IndexedView>::empty());
    assert(state.log.segments.drop_last() =~= Seq::<IndexedView>::empty());
}

/// A log of one segment that could be opened, whatever bytes its file held, can
/// be read at every offset and appended to.
pub proof fn law_opened_log_is_usable(
    config: LogConfig,
    base: u64,
    found: SegmentFiles,
    cursor: Option<u64>,
    position: nat,
    state: State,
)
    requires
        cursor matches Some(at) ==> at == position,
        base + found.data.len() <= u64::MAX,
        opening(config, seq![base], seq![found], cursor, position) == Some(state),
    ensures
        disk::usable(state.log, state.files),
        disk::first_offset(state.log) == base,
        forall|offset: u64|
            #[trigger] disk::known(state.log, offset) ==> disk::reads_as(
                state.log,
                state.files,
                offset,
                Ok(Some(disk::record_of(state.log, state.files, offset))),
            ),
{
    let first = IndexedView::fresh(base, config.index_interval);
    let log = LogView {
        config,
        segments: seq![first],
        next_offset: base,
        mark: first.mark(),
        torn: false,
    };
    let files = seq![SegmentFiles::fresh()];
    assert(disk::intact(log, files)) by {
        reveal(disk::stored);
        assert(log.segments[0].wf());
    }
    assert(bases(log) =~= seq![base]);
    assert(found.data.take(0) =~= Seq::<u8>::empty());
    assert(survives(log, files, seq![found]));
    law_reopening_recovers_records(log, files, seq![found], config, cursor, position);
    lemma_usable_is_intact(state.log, state.files);
    assert forall|offset: u64| #[trigger] disk::known(state.log, offset) implies disk::reads_as(
        state.log,
        state.files,
        offset,
        Ok(Some(disk::record_of(state.log, state.files, offset))),
    ) by {
        law_known_record_is_readable(state.log, state.files, offset);
    }
}

/// What a read gives, by any plan that the log makes for it: nothing where
/// there is no plan, and otherwise what a search for the offset finds in those
/// bytes of that segment's file.
pub proof fn law_read_is_a_search_where_the_log_says(
    log: LogView,
    files: Seq<SegmentFiles>,
    offset: u64,
    result: Result<Option<RecordView>, KafkoError>,
    plan: Option<ReadPlan>,
)
    requires
        disk::reads_as(log, files, offset, result),
        log.locates(offset, plan),
    ensures
        plan is None ==> result == Ok::<Option<RecordView>, KafkoError>(None),
        plan matches Some(p) ==> {
            &&& p.segment < files.len()
            &&& p.file_pos + p.len <= files[p.segment as int].data.len()
            &&& result == scan::find(
                crate::compression::CodecSet::of_this_build(),
                files[p.segment as int].data.subrange(p.file_pos as int, p.file_pos + p.len),
                p.starting_offset as int,
                offset as int,
            )
        },
{
}

/// A log knows of the records from the start of its first segment to the end,
/// all of them; and where records are kept, it knows of the same ones, with the
/// same contents.
pub proof fn law_kept_records_are_the_same(
    log: LogView,
    files: Seq<SegmentFiles>,
    later: LogView,
    later_files: Seq<SegmentFiles>,
    offset: u64,
)
    ensures
        disk::known(log, offset) <==> log.segments[0].segment.base_offset <= offset
            < log.next_offset,
        disk::keeps_records(log, files, later, later_files) && disk::known(log, offset) ==> {
            &&& disk::known(later, offset)
            &&& disk::record_of(later, later_files, offset) == disk::record_of(log, files, offset)
        },
        disk::keeps_records(log, files, later, later_files) ==> later.segments[0].segment.base_offset
            == log.segments[0].segment.base_offset,
{
}

/// Which plans write what can be read back: those that write no record longer
/// than 4 GiB and compress no value longer than 16 MiB.
pub proof fn law_plans_that_can_be_read_back(
    codec: Compression,
    records: Seq<RecordView>,
    effects: Seq<EffectView>,
)
    requires
        forall|k: int|
            0 <= k < effects.len() ==> (#[trigger] effects[k] matches EffectView::Track {
                size,
                ..
            } ==> size <= 0x1_0000_0003),
        codec == Compression::Uncompressed || forall|i: int|
            0 <= i < records.len() ==> (#[trigger] records[i]).value.len() <= 16 * 1024 * 1024,
    ensures
        disk::storable(codec, records, effects),
{
}

/// An append is planned for any records unless the codec is not part of the
/// build, and that is then the error. Their offsets count up from the end of
/// the log.
pub proof fn law_append_is_planned_unless_the_codec_is_missing(
    log: LogView,
    records: Seq<RecordView>,
    effects: Seq<EffectView>,
    result: Result<Vec<u64>, KafkoError>,
    i: int,
)
    requires
        log.plans(records, effects, result),
        log.next_offset + records.len() <= u64::MAX,
    ensures
        ({
            let codec = log.config.compression;
            let codecs = crate::compression::CodecSet::of_this_build();
            let missing = codec == Compression::Lz4 && !codecs.lz4 || codec == Compression::Zstd
                && !codecs.zstd;
            &&& result is Err <==> records.len() > 0 && missing
            &&& result matches Err(e) ==> e == KafkoError::CompressionUnavailable(codec)
            &&& result matches Ok(offsets) ==> {
                &&& offsets@.len() == records.len()
                &&& 0 <= i < records.len() ==> offsets@[i] == log.next_offset + i
            }
            &&& records.len() == 0 ==> effects.len() == 0
        }),
{
}

proof fn lemma_opens_where_full(
    ready: LogView,
    records: Seq<RecordView>,
    effects: Seq<EffectView>,
    result: Result<Vec<u64>, KafkoError>,
    k: int,
)
    requires
        ready.plans_ready(records, effects, result),
        0 <= k < effects.len(),
    ensures
        effects[k] is OpenSegment <==> k == 1 && ready.rotates(log::total_wire_len(records)),
        effects[k] matches EffectView::OpenSegment { base_offset } ==> base_offset
            == ready.next_offset,
        ready.rotates(log::total_wire_len(records)) ==> effects.len() >= 2,
{
    if result is Ok {
        let additional = log::total_wire_len(records);
        let frames = choose|frames: Seq<Seq<u8>>|
            log::encodes_all(ready.config.compression, records, frames) && effects
                == #[trigger] ready.append_effects(additional, frames);
        let a = disk::steps_before_write(ready, additional);
        disk::lemma_append_effects_by_number(ready, additional, frames, k);
        disk::lemma_append_effects_by_number(ready, additional, frames, k - (a + 1));
    }
}

/// A log moves on to a new segment if and only if the active one holds something
/// and would be longer than the threshold with the records, which count as if
/// they were not compressed. It opens one then, and it starts at the first of
/// them.
pub proof fn law_new_segment_only_where_the_last_is_full(
    log: LogView,
    records: Seq<RecordView>,
    effects: Seq<EffectView>,
    result: Result<Vec<u64>, KafkoError>,
    k: int,
    l: int,
)
    requires
        log.segments.len() >= 1,
        records.len() > 0,
        log.plans(records, effects, result),
        0 <= k < effects.len(),
        0 <= l < effects.len(),
    ensures
        ({
            let size = log.active().segment.size;
            let full = size > 0 && size + log::total_wire_len(records)
                > log.config.segment_size_threshold;
            &&& effects[k] is OpenSegment ==> full
            &&& full ==> exists|at: int|
                0 <= at < effects.len() && #[trigger] effects[at] is OpenSegment
            &&& effects[k] matches EffectView::OpenSegment { base_offset } ==> base_offset
                == log.next_offset
            &&& effects[k] is OpenSegment && effects[l] is OpenSegment ==> k == l
        }),
{
    let n = log.lead().len() as int;
    let rest = effects.skip(n);
    let ready = log.ready();
    let additional = log::total_wire_len(records);
    assert(effects =~= log.lead() + rest);
    assert(ready.active().segment.size == log.active().segment.size);
    if n <= k {
        lemma_opens_where_full(ready, records, rest, result, k - n);
        assert(rest[k - n] == effects[k]);
    } else {
        assert(effects[k] == log.lead()[k]);
    }
    if n <= l {
        lemma_opens_where_full(ready, records, rest, result, l - n);
        assert(rest[l - n] == effects[l]);
    } else {
        assert(effects[l] == log.lead()[l]);
    }
    if ready.rotates(additional) {
        assert(rest.len() >= 2) by {
            if result is Ok {
                let frames = choose|frames: Seq<Seq<u8>>|
                    log::encodes_all(ready.config.compression, records, frames) && rest
                        == #[trigger] ready.append_effects(additional, frames);
                disk::lemma_append_effects_by_number(ready, additional, frames, 0);
            }
        }
        lemma_opens_where_full(ready, records, rest, result, 1);
        assert(effects[n + 1] == rest[1]);
        assert(effects[n + 1] is OpenSegment);
    }
}

/// A plan that is carried out writes once: the encoded forms of the records, in
/// order, one behind the other.
pub proof fn law_plan_writes_the_records_once(
    log: LogView,
    records: Seq<RecordView>,
    effects: Seq<EffectView>,
    offsets: Vec<u64>,
) -> (written: (int, Seq<Seq<u8>>))
    requires
        records.len() > 0,
        log.plans(records, effects, Ok(offsets)),
    ensures
        ({
            let (at, frames) = written;
            &&& 0 <= at < effects.len()
            &&& effects[at] == (EffectView::Write { bytes: log::concat(frames) })
            &&& frames.len() == records.len()
            &&& forall|i: int|
                0 <= i < frames.len() ==> record::encodes(
                    log.config.compression,
                    records[i],
                    #[trigger] frames[i],
                )
            &&& forall|k: int|
                0 <= k < effects.len() && #[trigger] effects[k] is Write ==> k == at
        }),
{
    let n = log.lead().len() as int;
    let rest = effects.skip(n);
    let ready = log.ready();
    let additional = log::total_wire_len(records);
    assert(effects =~= log.lead() + rest);
    let frames = choose|frames: Seq<Seq<u8>>|
        log::encodes_all(ready.config.compression, records, frames) && rest
            == #[trigger] ready.append_effects(additional, frames);
    let a = disk::steps_before_write(ready, additional);
    disk::lemma_append_effects_by_number(ready, additional, frames, 0);
    assert(effects[n + a] == rest[a]);
    assert forall|k: int| 0 <= k < effects.len() && #[trigger] effects[k] is Write implies k == n
        + a by {
        if k < n {
            assert(effects[k] == log.lead()[k]);
        } else {
            disk::lemma_append_effects_by_number(ready, additional, frames, k - n);
            disk::lemma_append_effects_by_number(ready, additional, frames, k - n - (a + 1));
            assert(effects[k] == rest[k - n]);
        }
    }
    (n + a, frames)
}

/// What was appended to a log is what each append brought, in order; nothing
/// else that happens adds to it.
pub proof fn law_appended_records_add_up(events: Seq<Event>, next: Event)
    ensures
        appended(Seq::empty()) == Seq::<RecordView>::empty(),
        appended(events.push(next)) == (match next {
            Event::Append { records, .. } => appended(events) + records,
            _ => appended(events),
        }),
{
    assert(events.push(next).drop_last() =~= events);
}

} // verus!
