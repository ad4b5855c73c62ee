//! A partition, as its writer sees it.
//!
//! One writer owns a partition's log and works off the commands of producers
//! and consumers one after the other. Appends that have piled up are written
//! together. What to do with each command is decided here; the driver receives
//! the commands, does the work, and sends the replies.
use vstd::prelude::*;

use crate::error::KafkoError;
use crate::log;
use crate::log::LogConfig;
use crate::outside;
use crate::record;
use crate::record::Record;

verus! {

/// What a partition can be asked for.
#[derive(Debug)]
pub enum Command {
    /// Append a record.
    Append(Record),
    /// Append some records as one.
    AppendBatch(Vec<Record>),
    /// Read the record with this offset.
    ReadAt(u64),
    /// Flush the log to disk.
    Sync,
    /// Panic. For tests of what a panic does.
    Poison,
    /// Let the next append fail with an error of this kind. For tests.
    FailNextAppend(std::io::ErrorKind),
}

/// What a writer is to do.
#[derive(Debug)]
pub enum Action {
    /// Append these records, and reply with what came of it.
    Write(Vec<Record>),
    /// Reply with this error.
    Refuse(KafkoError),
    /// Read the record with this offset, and reply with it.
    Read(u64),
    /// Flush the log to disk, and reply.
    Sync,
    /// Panic.
    Panic,
    /// Nothing, and no reply.
    Nothing,
}

/// A partition, besides its log.
#[derive(Debug)]
pub struct Partition {
    high_water_mark: u64,
    fail_next: Option<std::io::ErrorKind>,
}

/// A partition as a value.
pub struct PartitionView {
    /// The offset behind the last record that readers may see.
    pub high_water_mark: u64,
    /// The kind of error that the next append fails with, if it is to fail.
    pub fail_next: Option<std::io::ErrorKind>,
}

impl View for Partition {
    type V = PartitionView;

    closed spec fn view(&self) -> PartitionView {
        PartitionView { high_water_mark: self.high_water_mark, fail_next: self.fail_next }
    }
}

/// Whether an error is the I/O error of this kind, with the kind's description
/// for its message.
pub open spec fn is_io_error(e: KafkoError, kind: std::io::ErrorKind) -> bool {
    e matches KafkoError::Io(io) && io.kind == kind && io.message@ == outside::io_kind_text(kind)
}

impl PartitionView {
    /// The partition once an injected failure has been used up.
    pub open spec fn after_failure(self) -> Self {
        PartitionView { fail_next: None, ..self }
    }

    /// The partition after an append that gave these offsets, or none.
    pub open spec fn after_append(self, result: Result<Vec<u64>, KafkoError>) -> Self {
        match result {
            Ok(offsets) => if offsets@.len() > 0 {
                PartitionView { high_water_mark: (offsets@.last() + 1) as u64, ..self }
            } else {
                self
            },
            Err(_) => self,
        }
    }

    /// Whether `action` is what becomes of appending records: they are written,
    /// unless the append was to fail.
    pub open spec fn appends(self, records: Seq<record::RecordView>, action: Action) -> bool {
        match self.fail_next {
            Some(kind) => action matches Action::Refuse(e) && is_io_error(e, kind),
            None => action matches Action::Write(written) && log::record_views(written@)
                == records,
        }
    }
}

impl Partition {
    /// The partition of a log whose next record gets this offset.
    pub fn open(next_offset: u64) -> (partition: Self)
        ensures
            partition@ == (PartitionView { high_water_mark: next_offset, fail_next: None }),
    {
        Partition { high_water_mark: next_offset, fail_next: None }
    }

    /// The offset behind the last record that readers may see.
    pub fn high_water_mark(&self) -> (mark: u64)
        ensures
            mark == self@.high_water_mark,
    {
        self.high_water_mark
    }

    /// What to do about an append of these records: a failure that was to
    /// happen happens now, and is used up.
    pub fn begin_append(&mut self, records: Vec<Record>) -> (action: Action)
        ensures
            old(self)@.appends(log::record_views(records@), action),
            final(self)@ == old(self)@.after_failure(),
    {
        match self.fail_next.take() {
            Some(kind) => Action::Refuse(KafkoError::Io(outside::io_error_of_kind(kind))),
            None => Action::Write(records),
        }
    }

    /// What to do about a command on its own.
    pub fn handle(&mut self, command: Command) -> (action: Action)
        ensures
            match command {
                Command::Append(r) => old(self)@.appends(seq![r@], action) && final(self)@
                    == old(self)@.after_failure(),
                Command::AppendBatch(rs) => old(self)@.appends(
                    log::record_views(rs@),
                    action,
                ) && final(self)@ == old(self)@.after_failure(),
                Command::ReadAt(offset) => action == Action::Read(offset) && final(self)@ == old(self)@,
                Command::Sync => action == Action::Sync && final(self)@ == old(self)@,
                Command::Poison => action == Action::Panic && final(self)@ == old(self)@,
                Command::FailNextAppend(kind) => action == Action::Nothing && final(self)@
                    == (PartitionView { fail_next: Some(kind), ..old(self)@ }),
            },
    {
        match command {
            Command::Append(r) => {
                let mut records: Vec<Record> = Vec::new();
                records.push(r);
                assert(log::record_views(records@) =~= seq![r@]);
                self.begin_append(records)
            },
            Command::AppendBatch(records) => self.begin_append(records),
            Command::ReadAt(offset) => Action::Read(offset),
            Command::Sync => Action::Sync,
            Command::Poison => Action::Panic,
            Command::FailNextAppend(kind) => {
                self.fail_next = Some(kind);
                Action::Nothing
            },
        }
    }

    /// Notes what came of an append: once it is done, readers may see its
    /// records, all at the same time.
    pub fn finish_append(&mut self, result: &Result<Vec<u64>, KafkoError>)
        requires
            result matches Ok(offsets) ==> (offsets@.len() > 0 ==> offsets@.last() < u64::MAX),
        ensures
            final(self)@ == old(self)@.after_append(*result),
    {
        match result {
            Ok(offsets) => {
                if offsets.len() > 0 {
                    self.high_water_mark = offsets[offsets.len() - 1] + 1;
                }
            },
            Err(_) => {},
        }
    }
}

/// Appends that are written together.
#[derive(Debug)]
pub struct Coalesced {
    records: Vec<Record>,
    bytes: u64,
}

/// Appends that are written together, as a value.
#[verifier::ext_equal]
pub struct CoalescedView {
    /// The records.
    pub records: Seq<record::RecordView>,
    /// What they take up on disk, uncompressed.
    pub bytes: nat,
}

impl View for Coalesced {
    type V = CoalescedView;

    closed spec fn view(&self) -> CoalescedView {
        CoalescedView { records: log::record_views(self.records@), bytes: self.bytes as nat }
    }
}

impl CoalescedView {
    /// Whether another record may join: neither limit has been reached.
    pub open spec fn wants_more(self, config: LogConfig) -> bool {
        self.records.len() < config.batch_max_records && self.bytes < config.batch_max_bytes
    }

    /// What every value keeps to.
    pub open spec fn wf(self) -> bool {
        self.records.len() > 0 && self.bytes == log::total_wire_len(self.records)
    }
}

impl Coalesced {
    /// Starts with one append.
    pub fn start(record: Record) -> (batch: Self)
        requires
            record::wire_len(record@) <= usize::MAX,
        ensures
            batch@.wf(),
            batch@.records == seq![record@],
    {
        let bytes: u64 = record.wire_size() as u64;
        let mut records: Vec<Record> = Vec::new();
        records.push(record);
        let batch = Coalesced { records, bytes };
        proof {
            assert(batch@.records =~= seq![record@]);
            reveal_with_fuel(log::total_wire_len, 2);
        }
        batch
    }

    /// Whether another append may join.
    pub fn wants_more(&self, config: &LogConfig) -> (more: bool)
        ensures
            more == self@.wants_more(*config),
    {
        self.records.len() < config.batch_max_records && self.bytes < config.batch_max_bytes
    }

    /// Lets a waiting command join, if it is an append; any other is handed
    /// back, to be worked off behind these appends.
    pub fn absorb(&mut self, command: Command) -> (other: Option<Command>)
        requires
            old(self)@.wf(),
            command matches Command::Append(r) ==> old(self)@.bytes + record::wire_len(r@)
                <= usize::MAX,
        ensures
            final(self)@.wf(),
            match command {
                Command::Append(r) => other is None && final(self)@.records == old(self)@.records.push(r@),
                _ => other == Some(command) && final(self)@ == old(self)@,
            },
    {
        match command {
            Command::Append(r) => {
                let ghost before = self@.records;
                let size: usize = r.wire_size();
                self.bytes = self.bytes + size as u64;
                self.records.push(r);
                proof {
                    assert(self@.records =~= before.push(r@));
                    assert(self@.records.drop_last() =~= before);
                }
                None
            },
            other => Some(other),
        }
    }

    /// The number of appends, each of which gets a reply.
    pub fn len(&self) -> (len: usize)
        ensures
            len == self@.records.len(),
    {
        self.records.len()
    }

    /// The records, to be appended as one.
    pub fn into_records(self) -> (records: Vec<Record>)
        ensures
            log::record_views(records@) == self@.records,
    {
        self.records
    }
}

/// The replies to appends that were written together: to each its own offset,
/// or to each the same error.
pub fn replies(result: Result<Vec<u64>, KafkoError>, waiting: usize) -> (replies: Vec<
    Result<u64, KafkoError>,
>)
    requires
        result matches Ok(offsets) ==> offsets@.len() == waiting,
    ensures
        replies@.len() == waiting,
        forall|i: int|
            0 <= i < waiting ==> #[trigger] replies@[i] == match result {
                Ok(offsets) => Ok::<u64, KafkoError>(offsets@[i]),
                Err(e) => Err(e),
            },
{
    let mut replies: Vec<Result<u64, KafkoError>> = Vec::new();
    let mut i: usize = 0;
    while i < waiting
        invariant
            i <= waiting,
            replies@.len() == i,
            result matches Ok(offsets) ==> offsets@.len() == waiting,
            forall|j: int|
                0 <= j < i ==> #[trigger] replies@[j] == match result {
                    Ok(offsets) => Ok::<u64, KafkoError>(offsets@[j]),
                    Err(e) => Err(e),
                },
        decreases waiting - i,
    {
        match &result {
            Ok(offsets) => replies.push(Ok(offsets[i])),
            Err(e) => replies.push(Err(e.clone())),
        }
        i = i + 1;
    }
    replies
}

/// The error that callers get once the writer has stopped: the panic that
/// stopped it, if one did.
pub fn writer_death_error(panic: Option<String>) -> (e: KafkoError)
    ensures
        e == match panic {
            Some(payload) => KafkoError::PartitionPanicked { payload },
            None => KafkoError::Closed,
        },
{
    match panic {
        Some(payload) => KafkoError::PartitionPanicked { payload },
        None => KafkoError::Closed,
    }
}

/// Readers see the records of the log and no others: where they saw up to the
/// end of the log before an append, they do after it.
pub proof fn law_readers_see_the_log(
    writer: PartitionView,
    log: log::LogView,
    records: Seq<record::RecordView>,
    effects: Seq<log::EffectView>,
    result: Result<Vec<u64>, KafkoError>,
)
    requires
        writer.high_water_mark == log.next_offset,
        log.accepts(records),
        log.plans(records, effects, result),
    ensures
        writer.after_append(result).high_water_mark == match result {
            Ok(_) => log.next_offset + records.len(),
            Err(_) => log.next_offset as int,
        },
{
}

/// An injected failure happens once: the append behind it is written.
pub proof fn law_injected_failure_happens_once(
    writer: PartitionView,
    records: Seq<record::RecordView>,
    action: Action,
)
    requires
        writer.after_failure().appends(records, action),
    ensures
        action matches Action::Write(written) && log::record_views(written@) == records,
{
}

/// Another append joins those that wait if and only if they are fewer than the
/// settings allow and take up fewer bytes than the settings allow.
pub proof fn law_appends_join_up_to_the_limits(batch: CoalescedView, config: LogConfig)
    requires
        batch.wf(),
    ensures
        batch.wants_more(config) <==> batch.records.len() < config.batch_max_records
            && log::total_wire_len(batch.records) < config.batch_max_bytes,
        batch.records.len() >= 1,
{
}

/// Once an append is done readers see up to behind its last record; one that
/// gave no offset, or failed, changes nothing for them.
pub proof fn law_high_water_mark_is_behind_the_last_record(
    writer: PartitionView,
    result: Result<Vec<u64>, KafkoError>,
)
    requires
        result matches Ok(offsets) ==> (offsets@.len() > 0 ==> offsets@.last() < u64::MAX),
    ensures
        result is Err ==> writer.after_append(result) == writer,
        result matches Ok(offsets) ==> {
            &&& offsets@.len() == 0 ==> writer.after_append(result) == writer
            &&& offsets@.len() > 0 ==> writer.after_append(result).high_water_mark
                == offsets@[offsets@.len() - 1] + 1
            &&& writer.after_append(result).fail_next == writer.fail_next
        },
{
}

/// An append is written as it is, every record of it in order, unless it was to
/// fail; it is refused only then, with an error of the kind that was asked for.
pub proof fn law_append_is_written_unless_it_was_to_fail(
    writer: PartitionView,
    records: Seq<record::RecordView>,
    action: Action,
)
    requires
        writer.appends(records, action),
    ensures
        writer.fail_next is None ==> (action matches Action::Write(written) && written@.len()
            == records.len() && forall|i: int|
            0 <= i < records.len() ==> (#[trigger] written@[i])@ == records[i]),
        writer.fail_next matches Some(kind) ==> (action matches Action::Refuse(KafkoError::Io(e))
            && e.kind == kind && e.message@ == outside::io_kind_text(kind)),
        writer.after_failure().fail_next is None,
        writer.after_failure().high_water_mark == writer.high_water_mark,
{
    if let Action::Write(written) = action {
        if writer.fail_next is None {
            assert forall|i: int| 0 <= i < records.len() implies (#[trigger] written@[i])@
                == records[i] by {
                assert(log::record_views(written@)[i] == written@[i]@);
            }
        }
    }
}

} // verus!
