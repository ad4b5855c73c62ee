//! Reading a topic: a cursor for each partition, taken in turn.
//!
//! A consumer reads each partition in order of offset. It goes over the
//! partitions in passes: a pass asks one partition after the other for the
//! record at its cursor, and ends with the first that has one; the next pass
//! starts behind that partition. The driver does the asking.
use vstd::prelude::*;

use crate::disk;
use crate::durability;
use crate::durability::State;
use crate::offset_store;
use crate::offset_store::OffsetStore;
use crate::position::RecordPosition;
use crate::record::Record;

verus! {

/// A reader of all partitions of a topic.
#[derive(Debug)]
pub struct Consumer {
    cursors: Vec<u64>,
    scan_start: usize,
    store: Option<OffsetStore>,
}

/// A consumer as a value.
#[verifier::ext_equal]
pub struct ConsumerView {
    /// The offset to read next, for each partition.
    pub cursors: Seq<u64>,
    /// The partition that the next pass starts with.
    pub scan_start: nat,
}

impl View for Consumer {
    type V = ConsumerView;

    closed spec fn view(&self) -> ConsumerView {
        ConsumerView { cursors: self.cursors@, scan_start: self.scan_start as nat }
    }
}

impl ConsumerView {
    /// What every consumer keeps to: a pass starts with a partition.
    pub open spec fn wf(self) -> bool {
        &&& 0 < self.cursors.len() <= u32::MAX
        &&& self.scan_start < self.cursors.len()
    }

    /// The partition that a pass asks `i` partitions in.
    pub open spec fn asked(self, i: int) -> int {
        (self.scan_start + i) % (self.cursors.len() as int)
    }

    /// How many partitions a pass asks before this one.
    pub open spec fn distance(self, partition: int) -> int {
        if self.scan_start <= partition {
            partition - self.scan_start
        } else {
            self.cursors.len() + partition - self.scan_start
        }
    }

    /// The consumer after a pass that found a record in this partition.
    pub open spec fn after_take(self, partition: int) -> Self {
        ConsumerView {
            cursors: self.cursors.update(
                partition,
                (self.cursors[partition] + 1) as u64,
            ),
            scan_start: ((partition + 1) % (self.cursors.len() as int)) as nat,
        }
    }

    /// The consumer after passes that found records in these partitions.
    pub open spec fn after_takes(self, partitions: Seq<int>) -> Self
        decreases partitions.len(),
    {
        if partitions.len() == 0 {
            self
        } else {
            self.after_takes(partitions.drop_last()).after_take(partitions.last())
        }
    }
}

/// How often a partition is among these.
pub open spec fn times(partitions: Seq<int>, partition: int) -> nat
    decreases partitions.len(),
{
    if partitions.len() == 0 {
        0
    } else {
        times(partitions.drop_last(), partition) + if partitions.last() == partition {
            1nat
        } else {
            0
        }
    }
}

impl Consumer {
    /// What every consumer keeps to.
    pub open spec fn wf(&self) -> bool {
        self@.wf()
    }

    /// The committed offsets of the consumer's group, if it is in one.
    pub closed spec fn spec_store(&self) -> Option<OffsetStore> {
        self.store
    }

    /// A consumer of so many partitions, each from its start.
    pub fn from_topic(partition_count: u32) -> (consumer: Self)
        requires
            partition_count > 0,
        ensures
            consumer.wf(),
            consumer@ == (ConsumerView {
                cursors: Seq::new(partition_count as nat, |i: int| 0u64),
                scan_start: 0,
            }),
            consumer.spec_store() is None,
    {
        Self::from_topic_at(partition_count, 0)
    }

    /// A consumer of so many partitions, each from this offset.
    pub fn from_topic_at(partition_count: u32, start_offset: u64) -> (consumer: Self)
        requires
            partition_count > 0,
        ensures
            consumer.wf(),
            consumer@ == (ConsumerView {
                cursors: Seq::new(partition_count as nat, |i: int| start_offset),
                scan_start: 0,
            }),
            consumer.spec_store() is None,
    {
        let cursors: Vec<u64> = vec![start_offset;partition_count as usize];
        assert(cursors@ =~= Seq::new(partition_count as nat, |i: int| start_offset));
        Consumer { cursors, scan_start: 0, store: None }
    }

    /// A consumer in a group: each partition from the group's committed
    /// offset, or from the partition's end where that is before it.
    pub fn from_topic_with_group(high_water_marks: &Vec<u64>, store: OffsetStore) -> (consumer:
        Self)
        requires
            0 < high_water_marks@.len() <= u32::MAX,
        ensures
            consumer.wf(),
            consumer@.cursors == Seq::new(
                high_water_marks@.len(),
                |i: int| group_start(store.spec_committed(), high_water_marks@[i], i),
            ),
            consumer@.scan_start == 0,
            consumer.spec_store() == Some(store),
    {
        let mut cursors: Vec<u64> = Vec::new();
        let mut i: usize = 0;
        while i < high_water_marks.len()
            invariant
                i <= high_water_marks@.len(),
                cursors@ == Seq::new(
                    i as nat,
                    |j: int| group_start(store.spec_committed(), high_water_marks@[j], j),
                ),
            decreases high_water_marks@.len() - i,
        {
            let offsets: &[u64] = store.committed();
            let committed: u64 = if i < offsets.len() {
                offsets[i]
            } else {
                0
            };
            let mark: u64 = high_water_marks[i];
            cursors.push(
                if committed < mark {
                    committed
                } else {
                    mark
                },
            );
            i = i + 1;
            assert(cursors@ =~= Seq::new(
                i as nat,
                |j: int| group_start(store.spec_committed(), high_water_marks@[j], j),
            ));
        }
        Consumer { cursors, scan_start: 0, store: Some(store) }
    }

    /// The number of partitions.
    pub fn partition_count(&self) -> (count: u32)
        requires
            self.wf(),
        ensures
            count == self@.cursors.len(),
    {
        self.cursors.len() as u32
    }

    /// The offset to read next from a partition; 0 of one that does not exist.
    pub fn position(&self, partition: u32) -> (offset: u64)
        ensures
            offset == if partition < self@.cursors.len() {
                self@.cursors[partition as int]
            } else {
                0
            },
    {
        if (partition as usize) < self.cursors.len() {
            self.cursors[partition as usize]
        } else {
            0
        }
    }

    /// The group the consumer is in, if it is in one.
    pub fn group(&self) -> (group: Option<&str>)
        ensures
            match group {
                Some(name) => self.spec_store() matches Some(store) && name@
                    == store.spec_group(),
                None => self.spec_store() is None,
            },
    {
        match &self.store {
            Some(store) => Some(store.group()),
            None => None,
        }
    }

    /// The offset that the consumer's group has committed for a partition; none
    /// without a group, or of a partition that does not exist.
    pub fn committed(&self, partition: u32) -> (offset: Option<u64>)
        ensures
            offset == match self.spec_store() {
                Some(store) => if partition < store.spec_committed().len() {
                    Some(store.spec_committed()[partition as int])
                } else {
                    None
                },
                None => None,
            },
    {
        match &self.store {
            Some(store) => {
                let offsets: &[u64] = store.committed();
                if (partition as usize) < offsets.len() {
                    Some(offsets[partition as usize])
                } else {
                    None
                }
            },
            None => None,
        }
    }

    /// Moves the cursor of every partition.
    pub fn seek_all(&mut self, offset: u64)
        ensures
            final(self)@ == (ConsumerView {
                cursors: Seq::new(old(self)@.cursors.len(), |i: int| offset),
                scan_start: old(self)@.scan_start,
            }),
            final(self).spec_store() == old(self).spec_store(),
    {
        let ghost before = self@;
        let ghost store = self.store;
        let mut i: usize = 0;
        while i < self.cursors.len()
            invariant
                i <= self.cursors@.len(),
                self.cursors@.len() == before.cursors.len(),
                forall|j: int| 0 <= j < i ==> self.cursors@[j] == offset,
                self@.scan_start == before.scan_start,
                self.store == store,
            decreases self.cursors@.len() - i,
        {
            self.cursors.set(i, offset);
            i = i + 1;
        }
        assert(self@.cursors =~= Seq::new(before.cursors.len(), |i: int| offset));
    }

    /// Moves the cursor of one partition, if it exists.
    pub fn seek(&mut self, partition: u32, offset: u64)
        ensures
            final(self)@ == if partition < old(self)@.cursors.len() {
                ConsumerView {
                    cursors: old(self)@.cursors.update(partition as int, offset),
                    scan_start: old(self)@.scan_start,
                }
            } else {
                old(self)@
            },
            final(self).spec_store() == old(self).spec_store(),
    {
        if (partition as usize) < self.cursors.len() {
            self.cursors.set(partition as usize, offset);
        }
    }

    /// The question that a pass asks `i` questions in: for the record of which
    /// partition, at which offset. A pass has as many questions as there are
    /// partitions; where all go without an answer, there is nothing to read.
    pub fn ask(&self, i: usize) -> (question: Option<(u32, u64)>)
        requires
            self.wf(),
        ensures
            question == if i < self@.cursors.len() {
                Some(
                    (self@.asked(i as int) as u32, self@.cursors[self@.asked(i as int)]),
                )
            } else {
                None
            },
    {
        let n: usize = self.cursors.len();
        if i >= n {
            return None;
        }
        let p: usize = if self.scan_start < n - i {
            self.scan_start + i
        } else {
            self.scan_start - (n - i)
        };
        proof {
            lemma_asked(self@, i as int);
        }
        Some((p as u32, self.cursors[p]))
    }

    /// Takes the record that a partition had at its cursor: returns where it
    /// was, and moves the cursor and the start of the next pass behind it.
    pub fn take(&mut self, partition: u32) -> (position: RecordPosition)
        requires
            old(self).wf(),
            partition < old(self)@.cursors.len(),
            old(self)@.cursors[partition as int] < u64::MAX,
        ensures
            final(self).wf(),
            position.spec_partition() == partition,
            position.spec_offset() == old(self)@.cursors[partition as int],
            final(self)@ == old(self)@.after_take(partition as int),
            final(self).spec_store() == old(self).spec_store(),
    {
        let p: usize = partition as usize;
        let offset: u64 = self.cursors[p];
        self.cursors.set(p, offset + 1);
        self.scan_start = (p + 1) % self.cursors.len();
        RecordPosition::new(partition, offset)
    }

    /// Takes the answer to the question that a pass asks `i` questions in. A
    /// record is handed on with its position, and the cursor of its partition
    /// moves behind it; without one the pass goes on, and nothing changes.
    pub fn answer(&mut self, i: usize, record: Option<Record>) -> (taken: Option<
        (RecordPosition, Record),
    >)
        requires
            old(self).wf(),
            i < old(self)@.cursors.len(),
            record is Some ==> old(self)@.cursors[old(self)@.asked(i as int)] < u64::MAX,
        ensures
            final(self).wf(),
            final(self).spec_store() == old(self).spec_store(),
            match record {
                None => taken is None && final(self)@ == old(self)@,
                Some(r) => {
                    let partition = old(self)@.asked(i as int);
                    &&& taken matches Some((position, handed))
                    &&& handed == r
                    &&& 0 <= partition < old(self)@.cursors.len()
                    &&& position.spec_partition() == partition
                    &&& position.spec_offset() == old(self)@.cursors[partition]
                    &&& final(self)@ == old(self)@.after_take(partition)
                },
            },
    {
        match record {
            None => None,
            Some(r) => {
                proof {
                    lemma_asked(self@, i as int);
                }
                match self.ask(i) {
                    None => None,
                    Some((partition, _)) => Some((self.take(partition), r)),
                }
            },
        }
    }

    /// What to write to the group's file to commit the cursors; nothing where
    /// the consumer is in no group.
    pub fn commit_bytes(&self) -> (bytes: Option<Vec<u8>>)
        ensures
            match bytes {
                Some(b) => self.spec_store() is Some && b@ == offset_store::file_bytes(
                    self@.cursors,
                ),
                None => self.spec_store() is None,
            },
    {
        match &self.store {
            Some(_) => Some(offset_store::encode(self.cursors.as_slice())),
            None => None,
        }
    }

    /// Notes that the cursors were committed.
    pub fn commit_done(&mut self)
        ensures
            final(self)@ == old(self)@,
            match old(self).spec_store() {
                Some(store) => final(self).spec_store() matches Some(later)
                    && later.spec_group() == store.spec_group() && later.spec_committed() == old(self)@.cursors,
                None => final(self).spec_store() is None,
            },
    {
        match self.store.take() {
            Some(store) => {
                let mut store: OffsetStore = store;
                store.commit_done(self.cursors.as_slice());
                self.store = Some(store);
            },
            None => {},
        }
    }

    /// The store of the consumer's group, if it is in one.
    pub fn store(&self) -> (store: Option<&OffsetStore>)
        ensures
            match store {
                Some(s) => self.spec_store() == Some(*s),
                None => self.spec_store() is None,
            },
    {
        match &self.store {
            Some(s) => Some(s),
            None => None,
        }
    }
}

/// Where a group starts to read a partition.
pub open spec fn group_start(committed: Seq<u64>, high_water_mark: u64, partition: int) -> u64 {
    let offset = if partition < committed.len() {
        committed[partition]
    } else {
        0
    };
    if offset < high_water_mark {
        offset
    } else {
        high_water_mark
    }
}

/// Which partition a pass asks, without a division.
proof fn lemma_asked(consumer: ConsumerView, i: int)
    requires
        consumer.wf(),
        0 <= i < consumer.cursors.len(),
    ensures
        consumer.asked(i) == if consumer.scan_start + i < consumer.cursors.len() {
            consumer.scan_start + i
        } else {
            consumer.scan_start + i - consumer.cursors.len()
        },
{
    let n = consumer.cursors.len() as int;
    let at = consumer.scan_start + i;
    if at < n {
        vstd::arithmetic::div_mod::lemma_small_mod(at as nat, n as nat);
    } else {
        vstd::arithmetic::div_mod::lemma_mod_add_multiples_vanish(at - n, n);
        vstd::arithmetic::div_mod::lemma_small_mod((at - n) as nat, n as nat);
    }
}

/// A pass asks every partition, and each once.
pub proof fn law_pass_asks_every_partition(consumer: ConsumerView, partition: int)
    requires
        consumer.wf(),
        0 <= partition < consumer.cursors.len(),
    ensures
        0 <= consumer.distance(partition) < consumer.cursors.len(),
        consumer.asked(consumer.distance(partition)) == partition,
        forall|i: int|
            0 <= i < consumer.cursors.len() && #[trigger] consumer.asked(i) == partition ==> i
                == consumer.distance(partition),
{
    lemma_asked(consumer, consumer.distance(partition));
    assert forall|i: int|
        0 <= i < consumer.cursors.len() && #[trigger] consumer.asked(i) == partition implies i
        == consumer.distance(partition) by {
        lemma_asked(consumer, i);
    }
}

/// A partition that has a record waits for fewer others with every pass that
/// finds one elsewhere, so no partition is passed over for ever: while it is
/// not reached, the passes found something in front of it, and each leaves
/// less in front of it.
pub proof fn law_waiting_partition_moves_up(consumer: ConsumerView, taken: int, waiting: int)
    requires
        consumer.wf(),
        0 <= taken < consumer.cursors.len(),
        0 <= waiting < consumer.cursors.len(),
        consumer.distance(taken) < consumer.distance(waiting),
    ensures
        consumer.after_take(taken).distance(waiting) == consumer.distance(waiting)
            - consumer.distance(taken) - 1,
{
    let n = consumer.cursors.len() as int;
    let later = consumer.after_take(taken);
    assert(later.scan_start == if taken + 1 < n {
        taken + 1
    } else {
        0
    }) by {
        if taken + 1 < n {
            vstd::arithmetic::div_mod::lemma_small_mod((taken + 1) as nat, n as nat);
        } else {
            vstd::arithmetic::div_mod::lemma_mod_self_0(n);
        }
    }
}

/// A record that was taken is not taken again: the partition's cursor is
/// behind it, and no other cursor moved.
pub proof fn law_take_moves_one_cursor(consumer: ConsumerView, taken: int, other: int)
    requires
        consumer.wf(),
        0 <= taken < consumer.cursors.len(),
        0 <= other < consumer.cursors.len(),
        consumer.cursors[taken] < u64::MAX,
    ensures
        consumer.after_take(taken).cursors[taken] == consumer.cursors[taken] + 1,
        other != taken ==> consumer.after_take(taken).cursors[other] == consumer.cursors[other],
{
}

/// The record that a partition gives for its cursor is the one that its log
/// holds there: a consumer that is not at the end of a partition is given that
/// record, at that offset, and one that is gets none. Taking it moves the
/// cursor to the next offset and leaves all others where they are.
pub proof fn law_consumer_takes_the_record_at_its_cursor(
    consumer: ConsumerView,
    partitions: Seq<State>,
    partition: int,
)
    requires
        consumer.wf(),
        partitions.len() == consumer.cursors.len(),
        0 <= partition < partitions.len(),
        disk::intact(partitions[partition].log, partitions[partition].files),
    ensures
        ({
            let cursor = consumer.cursors[partition];
            let log = partitions[partition].log;
            let files = partitions[partition].files;
            let later = consumer.after_take(partition);
            &&& disk::known(log, cursor) ==> {
                &&& disk::reads_as(
                    log,
                    files,
                    cursor,
                    Ok(Some(disk::record_of(log, files, cursor))),
                )
                &&& later.cursors[partition] == cursor + 1
                &&& later.cursors[partition] <= log.next_offset
                &&& forall|other: int|
                    0 <= other < partitions.len() && other != partition
                        ==> #[trigger] later.cursors[other] == consumer.cursors[other]
            }
            &&& !disk::known(log, cursor) ==> disk::reads_as(log, files, cursor, Ok(None))
        }),
{
    let cursor = consumer.cursors[partition];
    let log = partitions[partition].log;
    let files = partitions[partition].files;
    if disk::known(log, cursor) {
        durability::law_known_record_is_readable(log, files, cursor);
    } else if cursor >= log.next_offset {
        durability::law_nothing_past_the_end(log, files, cursor);
    } else {
        durability::law_nothing_before_the_start(log, files, cursor);
    }
}

/// Over any number of passes, a partition is read in order and without gaps:
/// its cursor is as far on as records were taken from it, however many were
/// taken from the others in between.
pub proof fn law_partition_is_read_in_order(
    consumer: ConsumerView,
    taken: Seq<int>,
    partition: int,
)
    requires
        consumer.wf(),
        0 <= partition < consumer.cursors.len(),
        forall|i: int|
            0 <= i < taken.len() ==> 0 <= #[trigger] taken[i] < consumer.cursors.len(),
        consumer.cursors[partition] + taken.len() <= u64::MAX,
    ensures
        consumer.after_takes(taken).cursors.len() == consumer.cursors.len(),
        consumer.after_takes(taken).cursors[partition] == consumer.cursors[partition] + times(
            taken,
            partition,
        ),
        times(taken, partition) <= taken.len(),
    decreases taken.len(),
{
    if taken.len() > 0 {
        let before = taken.drop_last();
        assert forall|i: int| 0 <= i < before.len() implies 0 <= #[trigger] before[i]
            < consumer.cursors.len() by {
            assert(before[i] == taken[i]);
        }
        law_partition_is_read_in_order(consumer, before, partition);
        assert(0 <= taken[taken.len() - 1] < consumer.cursors.len());
    }
}

/// A consumer that opens its group again after a commit goes on where the
/// commit was: at the cursors that were committed, none of which is past the
/// end of its partition.
pub proof fn law_group_resumes_at_commit(
    cursors: Seq<u64>,
    high_water_marks: Seq<u64>,
    partition: int,
)
    requires
        cursors.len() == high_water_marks.len() <= u32::MAX,
        0 <= partition < cursors.len(),
    ensures
        ({
            let committed = offset_store::parse_offsets(
                offset_store::file_bytes(cursors),
                cursors.len(),
            );
            let start = group_start(committed, high_water_marks[partition], partition);
            &&& start <= high_water_marks[partition]
            &&& cursors[partition] <= high_water_marks[partition] ==> start == cursors[partition]
            &&& cursors[partition] > high_water_marks[partition] ==> start
                == high_water_marks[partition]
        }),
{
    offset_store::law_committed_offsets_are_read_back(cursors, cursors.len());
}

/// A group without a commit, or with a damaged one, starts at the beginning of
/// every partition.
pub proof fn law_group_without_commit_starts_at_zero(
    file: Seq<u8>,
    high_water_marks: Seq<u64>,
    partition: int,
)
    requires
        !offset_store::is_whole(file),
        0 <= partition < high_water_marks.len(),
    ensures
        group_start(
            offset_store::parse_offsets(file, high_water_marks.len()),
            high_water_marks[partition],
            partition,
        ) == 0,
        group_start(
            offset_store::no_commit(high_water_marks.len()),
            high_water_marks[partition],
            partition,
        ) == 0,
{
}

/// A pass asks the partitions in order, from where it starts to the last and on
/// from the first.
pub proof fn law_pass_asks_in_order(consumer: ConsumerView, i: int)
    requires
        consumer.wf(),
        0 <= i < consumer.cursors.len(),
    ensures
        consumer.asked(0) == consumer.scan_start,
        i + 1 < consumer.cursors.len() ==> consumer.asked(i + 1) == if consumer.asked(i) + 1
            == consumer.cursors.len() {
            0
        } else {
            consumer.asked(i) + 1
        },
        0 <= consumer.asked(i) < consumer.cursors.len(),
{
    lemma_asked(consumer, 0);
    lemma_asked(consumer, i);
    if i + 1 < consumer.cursors.len() {
        lemma_asked(consumer, i + 1);
    }
}

/// The next pass starts with the partition behind the one that a record was
/// taken from, and behind the last with the first. No cursor moves but that
/// partition's, and that by one.
pub proof fn law_next_pass_starts_behind_the_last_take(consumer: ConsumerView, taken: int, p: int)
    requires
        consumer.wf(),
        0 <= taken < consumer.cursors.len(),
        consumer.cursors[taken] < u64::MAX,
    ensures
        consumer.after_take(taken).wf(),
        consumer.after_take(taken).scan_start == if taken + 1 == consumer.cursors.len() {
            0
        } else {
            taken + 1
        },
        consumer.after_take(taken).cursors.len() == consumer.cursors.len(),
        0 <= p < consumer.cursors.len() ==> consumer.after_take(taken).cursors[p]
            == consumer.cursors[p] + if p == taken {
            1int
        } else {
            0
        },
{
    let n = consumer.cursors.len() as int;
    if taken + 1 < n {
        vstd::arithmetic::div_mod::lemma_small_mod((taken + 1) as nat, n as nat);
    } else {
        vstd::arithmetic::div_mod::lemma_mod_self_0(n);
    }
}

/// A group goes on at its committed offset if the partition reaches that far,
/// and at the partition's end if it does not; a partition that the group never
/// committed it reads from the start.
pub proof fn law_group_starts_at_its_commit(
    committed: Seq<u64>,
    high_water_mark: u64,
    partition: int,
)
    requires
        partition >= 0,
    ensures
        partition < committed.len() && committed[partition] <= high_water_mark ==> group_start(
            committed,
            high_water_mark,
            partition,
        ) == committed[partition],
        partition < committed.len() && committed[partition] > high_water_mark ==> group_start(
            committed,
            high_water_mark,
            partition,
        ) == high_water_mark,
        partition >= committed.len() ==> group_start(committed, high_water_mark, partition) == 0,
{
}

/// How often a partition is among others, one by one.
pub proof fn law_takes_are_counted(partitions: Seq<int>, next: int, partition: int)
    ensures
        times(Seq::empty(), partition) == 0,
        times(partitions.push(next), partition) == times(partitions, partition) + if next
            == partition {
            1nat
        } else {
            0
        },
{
    assert(partitions.push(next).drop_last() =~= partitions);
}

} // verus!
