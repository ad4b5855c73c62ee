//! Deleting old segments.
//!
//! A [`Sweep`] goes over a log once: first it deletes the oldest segments for
//! as long as they are too old, then for as long as the log is too big. The
//! active segment stays. The driver says when the oldest segment was last
//! written to, and deletes the files of the segments that the sweep takes out
//! of the log.
use vstd::prelude::*;

use crate::disk;
use crate::durability;
use crate::log;
use crate::log::{Log, LogView};

verus! {

/// One pass over a log.
#[derive(Debug)]
pub struct Sweep {
    now_ms: i64,
    by_age: bool,
    deleted: u64,
}

/// A pass as a value.
pub struct SweepView {
    /// The time the pass started at.
    pub now_ms: i64,
    /// Whether the pass still looks for segments that are too old.
    pub by_age: bool,
    /// How many segments the pass has taken out of the log.
    pub deleted: u64,
}

impl View for Sweep {
    type V = SweepView;

    closed spec fn view(&self) -> SweepView {
        SweepView { now_ms: self.now_ms, by_age: self.by_age, deleted: self.deleted }
    }
}

/// What a pass asks of its driver.
#[derive(Clone, Copy, Debug, PartialEq, Eq, Structural)]
pub enum SweepAction {
    /// Find out when the oldest segment was last written to.
    ReadAge,
    /// Delete the files of the segment, which is no longer in the log.
    Delete {
        /// The segment's base offset.
        base_offset: u64,
    },
    /// Nothing: the pass is over.
    Finish,
}

/// What a pass does next, and what becomes of it and of the log.
pub open spec fn sweep_step(
    sweep: SweepView,
    log: LogView,
    modified_ms: Option<i64>,
) -> (SweepAction, SweepView, LogView) {
    let checks_age = sweep.by_age && log.config.max_segment_age is Some && log.segments.len()
        > 1;
    let delete = (
        SweepAction::Delete { base_offset: log.segments[0].segment.base_offset },
        SweepView { deleted: (sweep.deleted + 1) as u64, ..sweep },
        log.without_oldest(),
    );
    let sized = SweepView { by_age: false, ..sweep };
    if checks_age && modified_ms is None {
        (SweepAction::ReadAge, sweep, log)
    } else if checks_age && log.aged_out(sweep.now_ms, modified_ms->Some_0) {
        delete
    } else if log.over_budget() {
        (delete.0, SweepView { by_age: false, ..delete.1 }, delete.2)
    } else {
        (SweepAction::Finish, sized, log)
    }
}

impl Sweep {
    /// Starts a pass at this time.
    pub fn new(now_ms: i64) -> (sweep: Self)
        ensures
            sweep@ == (SweepView { now_ms, by_age: true, deleted: 0 }),
    {
        Sweep { now_ms, by_age: true, deleted: 0 }
    }

    /// How many segments the pass has taken out of the log.
    pub fn deleted(&self) -> (deleted: u64)
        ensures
            deleted == self@.deleted,
    {
        self.deleted
    }

    /// Goes on with the pass. `modified_ms` is the answer to a
    /// [`SweepAction::ReadAge`] just before.
    pub fn next(&mut self, log: &mut Log, modified_ms: Option<i64>) -> (action: SweepAction)
        requires
            old(log).wf(),
            old(log)@.total_size() <= u64::MAX,
            old(self)@.deleted < u64::MAX,
        ensures
            final(log).wf(),
            (action, final(self)@, final(log)@) == sweep_step(old(self)@, old(log)@, modified_ms),
    {
        if self.by_age && log.checks_age() {
            match modified_ms {
                None => {
                    return SweepAction::ReadAge;
                },
                Some(modified) => {
                    if log.oldest_aged_out(self.now_ms, modified) {
                        self.deleted = self.deleted + 1;
                        return SweepAction::Delete { base_offset: log.remove_oldest() };
                    }
                },
            }
        }
        self.by_age = false;
        if log.over_budget() {
            self.deleted = self.deleted + 1;
            return SweepAction::Delete { base_offset: log.remove_oldest() };
        }
        SweepAction::Finish
    }
}

/// No step of a pass touches the active segment, or the offset that the next
/// record gets.
pub proof fn law_sweep_keeps_active_segment(
    sweep: SweepView,
    log: LogView,
    modified_ms: Option<i64>,
)
    requires
        log.wf(),
    ensures
        ({
            let later = sweep_step(sweep, log, modified_ms).2;
            &&& later.segments.len() >= 1
            &&& later.active() == log.active()
            &&& later.next_offset == log.next_offset
        }),
{
}

/// Where the settings limit neither age nor size, a pass is over at once.
pub proof fn law_unlimited_log_is_never_swept(
    sweep: SweepView,
    log: LogView,
    modified_ms: Option<i64>,
)
    requires
        log.config.max_segment_age is None,
        log.config.max_partition_bytes is None,
    ensures
        sweep_step(sweep, log, modified_ms).0 == SweepAction::Finish,
        sweep_step(sweep, log, modified_ms).2 == log,
{
}

/// A pass that is over leaves a log within its limit, or the active segment
/// alone.
pub proof fn law_finished_sweep_is_within_budget(
    sweep: SweepView,
    log: LogView,
    modified_ms: Option<i64>,
    max_bytes: u64,
)
    requires
        log.config.max_partition_bytes == Some(max_bytes),
        sweep_step(sweep, log, modified_ms).0 == SweepAction::Finish,
    ensures
        ({
            let later = sweep_step(sweep, log, modified_ms).2;
            later.total_size() <= max_bytes || later.segments.len() <= 1
        }),
{
}

/// Every step but a question either takes a segment out of the log or is the
/// last, and a question is answered once per segment, so a pass comes to an
/// end.
pub proof fn law_sweep_makes_progress(sweep: SweepView, log: LogView, modified_ms: Option<i64>)
    ensures
        ({
            let (action, _, later) = sweep_step(sweep, log, modified_ms);
            match action {
                SweepAction::ReadAge => modified_ms is None && later == log,
                SweepAction::Delete { .. } => log.segments.len() > 1 && later.segments.len()
                    == log.segments.len() - 1,
                SweepAction::Finish => later == log,
            }
        }),
{
}

/// A pass keeps every record but those of the segments that it deletes: the
/// others can still be read, and for the offsets before them nothing is found,
/// without an error. The log can be appended to as before.
pub proof fn law_sweep_keeps_later_records(
    sweep: SweepView,
    log: LogView,
    files: Seq<disk::SegmentFiles>,
    modified_ms: Option<i64>,
    offset: u64,
)
    requires
        disk::intact(log, files),
    ensures
        ({
            let (action, _, later) = sweep_step(sweep, log, modified_ms);
            let later_files = if action is Delete {
                files.skip(1)
            } else {
                files
            };
            &&& disk::intact(later, later_files)
            &&& disk::usable(log, files) ==> disk::usable(later, later_files)
            &&& action matches SweepAction::Delete { base_offset } ==> base_offset
                == disk::first_offset(log)
            &&& disk::first_offset(log) <= disk::first_offset(later)
            &&& offset < disk::first_offset(later) ==> disk::reads_as(
                later,
                later_files,
                offset,
                Ok(None),
            )
            &&& disk::known(later, offset) ==> disk::known(log, offset) && disk::reads_as(
                later,
                later_files,
                offset,
                Ok(Some(disk::record_of(log, files, offset))),
            )
        }),
{
    let (action, _, later) = sweep_step(sweep, log, modified_ms);
    if action is Delete {
        durability::law_oldest_segment_can_go(log, files);
        assert(disk::known(later, offset) ==> disk::record_of(later, files.skip(1), offset)
            == disk::record_of(log, files, offset));
    } else if disk::known(log, offset) {
        durability::law_known_record_is_readable(log, files, offset);
    }
    let later_files = if action is Delete {
        files.skip(1)
    } else {
        files
    };
    if offset < disk::first_offset(later) {
        durability::law_nothing_before_the_start(later, later_files, offset);
    }
}

/// A log without its `n` oldest segments.
pub open spec fn without_oldest(log: LogView, n: int) -> LogView {
    LogView { segments: log.segments.skip(n), ..log }
}

/// What a pass, from here to its end, leaves of it and of the log, where the
/// segments were last written to at these times. A question is answered for the
/// segment that is then the oldest.
pub open spec fn sweep_rest(
    sweep: SweepView,
    log: LogView,
    modified_ms: Seq<i64>,
) -> (SweepView, LogView)
    decreases log.segments.len(),
{
    let asked = sweep_step(sweep, log, None);
    let (action, later_sweep, later) = if asked.0 is ReadAge {
        sweep_step(asked.1, asked.2, Some(modified_ms[0]))
    } else {
        asked
    };
    if action is Delete && later.segments.len() < log.segments.len() {
        sweep_rest(later_sweep, later, modified_ms.skip(1))
    } else {
        (later_sweep, later)
    }
}

/// Whether `n` of the oldest segments are too old and the next is not. The active
/// segment never is.
pub open spec fn aged_segments(log: LogView, now_ms: i64, modified_ms: Seq<i64>, n: int) -> bool {
    &&& 0 <= n < log.segments.len()
    &&& forall|i: int|
        0 <= i < n ==> without_oldest(log, i).aged_out(now_ms, #[trigger] modified_ms[i])
    &&& !without_oldest(log, n).aged_out(now_ms, modified_ms[n])
}

/// Whether `n` is the fewest of the oldest segments whose deletion brings a log
/// within its size, or leaves the active segment alone.
pub open spec fn surplus_segments(log: LogView, n: int) -> bool {
    &&& 0 <= n < log.segments.len()
    &&& forall|i: int| 0 <= i < n ==> #[trigger] without_oldest(log, i).over_budget()
    &&& !without_oldest(log, n).over_budget()
}

/// Where a log is too big, its oldest segment is one of those to be deleted.
proof fn lemma_one_more(log: LogView, n: int)
    requires
        log.over_budget(),
        surplus_segments(log.without_oldest(), n),
    ensures
        surplus_segments(log, n + 1),
        without_oldest(log.without_oldest(), n) == without_oldest(log, n + 1),
{
    let later = log.without_oldest();
    assert(without_oldest(log, 0).segments =~= log.segments);
    assert(without_oldest(log, 0) == log);
    assert forall|i: int| 0 <= i <= n implies #[trigger] without_oldest(later, i)
        == without_oldest(log, i + 1) by {
        assert(later.segments.skip(i) =~= log.segments.skip(i + 1));
    }
    assert forall|i: int| 0 <= i < n + 1 implies #[trigger] without_oldest(
        log,
        i,
    ).over_budget() by {
        if i > 0 {
            assert(without_oldest(later, i - 1).over_budget());
        }
    }
    assert(without_oldest(later, n) == without_oldest(log, n + 1));
}

/// What a pass does once it is done with the segments that are too old.
proof fn lemma_sized_rest(sweep: SweepView, log: LogView, modified_ms: Seq<i64>) -> (surplus: int)
    requires
        log.segments.len() >= 1,
        modified_ms.len() == log.segments.len(),
        sweep.by_age ==> !log.aged_out(sweep.now_ms, modified_ms[0]),
        sweep.deleted + log.segments.len() <= u64::MAX,
    ensures
        surplus_segments(log, surplus),
        sweep_rest(sweep, log, modified_ms).1 == without_oldest(log, surplus),
        sweep_rest(sweep, log, modified_ms).0.deleted == sweep.deleted + surplus,
    decreases log.segments.len(),
{
    assert(without_oldest(log, 0).segments =~= log.segments);
    assert(without_oldest(log, 0) == log);
    if log.over_budget() {
        let (_, later_sweep, later) = sweep_step(sweep, log, Some(modified_ms[0]));
        let n = lemma_sized_rest(later_sweep, later, modified_ms.skip(1));
        lemma_one_more(log, n);
        n + 1
    } else {
        0
    }
}

/// A whole pass deletes the oldest segments and no others, and of those as few
/// as the settings ask: first all up to the first that is not too old, and then
/// as many more as bring the log within its size. Returns how many for either
/// reason. The active segment always stays, and so does everything else about
/// the log.
pub proof fn law_pass_deletes_only_what_it_must(
    sweep: SweepView,
    log: LogView,
    modified_ms: Seq<i64>,
) -> (split: (int, int))
    requires
        log.segments.len() >= 1,
        modified_ms.len() == log.segments.len(),
        sweep.by_age,
        sweep.deleted + log.segments.len() <= u64::MAX,
    ensures
        ({
            let (aged, surplus) = split;
            let (later_sweep, later) = sweep_rest(sweep, log, modified_ms);
            &&& aged_segments(log, sweep.now_ms, modified_ms, aged)
            &&& surplus_segments(without_oldest(log, aged), surplus)
            &&& later == without_oldest(log, aged + surplus)
            &&& later_sweep.deleted == sweep.deleted + aged + surplus
            &&& aged + surplus < log.segments.len()
            &&& later.active() == log.active()
        }),
    decreases log.segments.len(),
{
    assert(without_oldest(log, 0).segments =~= log.segments);
    assert(without_oldest(log, 0) == log);
    if log.aged_out(sweep.now_ms, modified_ms[0]) {
        let (_, later_sweep, later) = sweep_step(sweep, log, Some(modified_ms[0]));
        let rest = modified_ms.skip(1);
        let (aged, surplus) = law_pass_deletes_only_what_it_must(later_sweep, later, rest);
        assert forall|i: int| 0 <= i < log.segments.len() implies #[trigger] without_oldest(
            later,
            i,
        ) == without_oldest(log, i + 1) by {
            assert(later.segments.skip(i) =~= log.segments.skip(i + 1));
        }
        assert forall|i: int| 0 <= i < aged + 1 implies without_oldest(log, i).aged_out(
            sweep.now_ms,
            #[trigger] modified_ms[i],
        ) by {
            if i > 0 {
                assert(rest[i - 1] == modified_ms[i]);
                assert(without_oldest(later, i - 1) == without_oldest(log, i));
            }
        }
        assert(without_oldest(later, aged) == without_oldest(log, aged + 1));
        assert(without_oldest(later, aged + surplus) == without_oldest(log, aged + 1 + surplus));
        (aged + 1, surplus)
    } else {
        (0, lemma_sized_rest(sweep, log, modified_ms))
    }
}

/// Deleting some of the oldest segments keeps every record of the others.
proof fn lemma_dropping_keeps_records(
    log: LogView,
    files: Seq<disk::SegmentFiles>,
    n: int,
    offset: u64,
)
    requires
        disk::intact(log, files),
        0 <= n < log.segments.len(),
    ensures
        ({
            let later = without_oldest(log, n);
            let later_files = files.skip(n);
            &&& disk::intact(later, later_files)
            &&& disk::usable(log, files) ==> disk::usable(later, later_files)
            &&& disk::known(later, offset) ==> {
                &&& disk::known(log, offset)
                &&& disk::record_of(later, later_files, offset) == disk::record_of(
                    log,
                    files,
                    offset,
                )
            }
        }),
    decreases n,
{
    if n == 0 {
        assert(log.segments.skip(0) =~= log.segments);
        assert(files.skip(0) =~= files);
    } else {
        lemma_dropping_keeps_records(log, files, n - 1, offset);
        let before = without_oldest(log, n - 1);
        let before_files = files.skip(n - 1);
        durability::law_oldest_segment_can_go(before, before_files);
        assert(before.without_oldest().segments =~= log.segments.skip(n));
        assert(before_files.skip(1) =~= files.skip(n));
    }
}

/// A whole pass keeps every record but those of the segments that it deletes:
/// the others can still be read, and for the offsets before them nothing is
/// found, without an error. The log can be appended to as before.
pub proof fn law_pass_keeps_later_records(
    sweep: SweepView,
    log: LogView,
    files: Seq<disk::SegmentFiles>,
    modified_ms: Seq<i64>,
    offset: u64,
)
    requires
        disk::intact(log, files),
        modified_ms.len() == log.segments.len(),
        sweep.by_age,
        sweep.deleted + log.segments.len() <= u64::MAX,
    ensures
        ({
            let (later_sweep, later) = sweep_rest(sweep, log, modified_ms);
            let later_files = files.skip(later_sweep.deleted - sweep.deleted);
            &&& disk::intact(later, later_files)
            &&& disk::usable(log, files) ==> disk::usable(later, later_files)
            &&& offset < disk::first_offset(later) ==> disk::reads_as(
                later,
                later_files,
                offset,
                Ok(None),
            )
            &&& disk::known(later, offset) ==> disk::known(log, offset) && disk::reads_as(
                later,
                later_files,
                offset,
                Ok(Some(disk::record_of(log, files, offset))),
            )
        }),
{
    let (later_sweep, later) = sweep_rest(sweep, log, modified_ms);
    let (aged, surplus) = law_pass_deletes_only_what_it_must(sweep, log, modified_ms);
    let later_files = files.skip(aged + surplus);
    lemma_dropping_keeps_records(log, files, aged + surplus, offset);
    if offset < disk::first_offset(later) {
        durability::law_nothing_before_the_start(later, later_files, offset);
    }
    if disk::known(later, offset) {
        durability::law_known_record_is_readable(later, later_files, offset);
    }
}

/// Nothing is deleted of a log that is within its size while its oldest segment
/// is within its age, and no question is asked of a log without an age limit.
pub proof fn law_segments_within_the_limits_stay(
    sweep: SweepView,
    log: LogView,
    modified_ms: i64,
    limit: crate::duration::Duration,
    max_bytes: u64,
)
    requires
        log.config.max_segment_age == Some(limit),
        log.config.max_partition_bytes == Some(max_bytes),
        sweep.now_ms - modified_ms <= 1000 * limit.spec_secs() + limit.spec_nanos() / 1_000_000
            <= i64::MAX,
        log.total_size() <= max_bytes,
    ensures
        sweep_step(sweep, log, Some(modified_ms)).0 == SweepAction::Finish,
        sweep_step(sweep, log, Some(modified_ms)).2 == log,
{
    log::law_segment_is_too_old_past_the_limit(log, sweep.now_ms, modified_ms, limit);
}

/// What a whole pass leaves, in numbers: with an age limit and a size limit, the
/// segments that go are the oldest; those that go for their age were last
/// written to before the limit, up to the first that was not; and those that go
/// for the log's size go while it is larger than allowed, and no longer.
pub proof fn law_pass_in_numbers(
    sweep: SweepView,
    log: LogView,
    modified_ms: Seq<i64>,
    limit: crate::duration::Duration,
    max_bytes: u64,
) -> (split: (int, int))
    requires
        log.segments.len() >= 1,
        modified_ms.len() == log.segments.len(),
        sweep.by_age,
        sweep.deleted + log.segments.len() <= u64::MAX,
        log.config.max_segment_age == Some(limit),
        log.config.max_partition_bytes == Some(max_bytes),
        1000 * limit.spec_secs() + limit.spec_nanos() / 1_000_000 <= i64::MAX,
        sweep.now_ms - (1000 * limit.spec_secs() + limit.spec_nanos() / 1_000_000) >= i64::MIN,
    ensures
        ({
            let (aged, surplus) = split;
            let gone = aged + surplus;
            let last = log.segments.len() - 1;
            let limit_ms = 1000 * limit.spec_secs() + limit.spec_nanos() / 1_000_000;
            let (later_sweep, later) = sweep_rest(sweep, log, modified_ms);
            &&& 0 <= aged <= gone <= last
            &&& later.segments == log.segments.skip(gone)
            &&& later.next_offset == log.next_offset
            &&& later_sweep.deleted == sweep.deleted + gone
            &&& forall|i: int|
                0 <= i < aged ==> sweep.now_ms - #[trigger] modified_ms[i] > limit_ms
            &&& aged == last || sweep.now_ms - modified_ms[aged] <= limit_ms
            &&& forall|i: int|
                aged <= i < gone ==> log::total_size(#[trigger] log.segments.skip(i)) > max_bytes
            &&& gone == last || log::total_size(log.segments.skip(gone)) <= max_bytes
        }),
{
    let (aged, surplus) = law_pass_deletes_only_what_it_must(sweep, log, modified_ms);
    let last = log.segments.len() - 1;
    let limit_ms = 1000 * limit.spec_secs() + limit.spec_nanos() / 1_000_000;
    assert forall|i: int| 0 <= i < aged implies sweep.now_ms - #[trigger] modified_ms[i]
        > limit_ms by {
        let left = without_oldest(log, i);
        assert(left.aged_out(sweep.now_ms, modified_ms[i]));
        log::law_segment_is_too_old_past_the_limit(left, sweep.now_ms, modified_ms[i], limit);
    }
    if aged < last {
        log::law_segment_is_too_old_past_the_limit(
            without_oldest(log, aged),
            sweep.now_ms,
            modified_ms[aged],
            limit,
        );
    }
    let young = without_oldest(log, aged);
    assert forall|i: int| aged <= i < aged + surplus implies log::total_size(
        #[trigger] log.segments.skip(i),
    ) > max_bytes by {
        assert(without_oldest(young, i - aged).over_budget());
        assert(young.segments.skip(i - aged) =~= log.segments.skip(i));
    }
    assert(young.segments.skip(surplus) =~= log.segments.skip(aged + surplus));
    (aged, surplus)
}

} // verus!
