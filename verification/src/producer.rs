//! Sending records to a topic: where each goes, and where each ended up.
use vstd::prelude::*;

use crate::error::KafkoError;
use crate::log;
use crate::outside;
use crate::position::RecordPosition;
use crate::record;
use crate::record::Record;
use crate::topic::{Topic, TopicView};

verus! {

/// How many of the first `n` records have no key.
pub open spec fn keyless_before(records: Seq<record::RecordView>, n: nat) -> nat
    decreases n,
{
    if n == 0 {
        0
    } else {
        let before = keyless_before(records, (n - 1) as nat);
        if records[n - 1].key is None {
            before + 1
        } else {
            before
        }
    }
}

/// The partition that the `i`th of some records goes to, if they are routed
/// one after the other.
pub open spec fn routed(topic: TopicView, records: Seq<record::RecordView>, i: int) -> u32 {
    topic.after_keyless(keyless_before(records, i as nat)).route(records[i].key)
}

/// Which of the first `n` records go to a partition, in order.
pub open spec fn bucket_indices(
    topic: TopicView,
    records: Seq<record::RecordView>,
    partition: int,
    n: nat,
) -> Seq<usize>
    decreases n,
{
    if n == 0 {
        Seq::empty()
    } else {
        let before = bucket_indices(topic, records, partition, (n - 1) as nat);
        if routed(topic, records, n - 1) == partition {
            before.push((n - 1) as usize)
        } else {
            before
        }
    }
}

/// The records of a batch that go to one partition.
#[derive(Debug)]
pub struct Bucket {
    /// Which records of the batch they are.
    pub indices: Vec<usize>,
    /// The records.
    pub records: Vec<Record>,
}

impl Bucket {
    /// Whether the bucket holds just what goes to its partition: of the first
    /// `n` records, those that are routed there, in order.
    pub open spec fn holds(
        &self,
        topic: TopicView,
        records: Seq<record::RecordView>,
        partition: int,
        n: nat,
    ) -> bool {
        &&& self.indices@ == bucket_indices(topic, records, partition, n)
        &&& self.records@.len() == self.indices@.len()
        &&& forall|j: int|
            0 <= j < self.indices@.len() ==> (#[trigger] self.indices@[j]) < n
                && self.records@[j]@ == records[self.indices@[j] as int]
    }
}

/// The partition that a record with this key goes to. A record without a key
/// takes a turn.
pub fn route(topic: &mut Topic, key: Option<&[u8]>) -> (partition: u32)
    requires
        old(topic).wf(),
    ensures
        final(topic).wf(),
        partition == old(topic)@.route(slice_view(key)),
        partition < old(topic)@.partition_count,
        final(topic)@ == old(topic)@.after_route(slice_view(key)),
{
    match key {
        Some(k) => topic.partition_for_key(k),
        None => topic.next_round_robin(),
    }
}

/// What an optional slice holds.
pub open spec fn slice_view(key: Option<&[u8]>) -> Option<Seq<u8>> {
    match key {
        Some(k) => Some(k@),
        None => None,
    }
}

/// Refuses a partition that the topic does not have.
pub fn check_partition(topic: &Topic, partition: u32) -> (result: Result<(), KafkoError>)
    ensures
        result == if partition < topic@.partition_count {
            Ok::<(), KafkoError>(())
        } else {
            Err(KafkoError::InvalidPartitionCount(partition))
        },
{
    if topic.has_partition(partition) {
        Ok(())
    } else {
        Err(KafkoError::InvalidPartitionCount(partition))
    }
}

/// Sorts a batch by partition: one bucket for each, in order.
pub fn route_batch(topic: &mut Topic, records: &Vec<Record>) -> (buckets: Vec<Bucket>)
    requires
        old(topic).wf(),
    ensures
        final(topic).wf(),
        final(topic)@ == old(topic)@.after_keyless(
            keyless_before(log::record_views(records@), records@.len()),
        ),
        buckets@.len() == old(topic)@.partition_count,
        forall|p: int|
            0 <= p < buckets@.len() ==> (#[trigger] buckets@[p]).holds(
                old(topic)@,
                log::record_views(records@),
                p,
                records@.len(),
            ),
{
    let ghost before = topic@;
    let ghost views = log::record_views(records@);
    let n: u32 = topic.partition_count();
    let mut buckets: Vec<Bucket> = Vec::new();
    let mut p: u32 = 0;
    while p < n
        invariant
            p <= n,
            buckets@.len() == p,
            forall|q: int|
                0 <= q < buckets@.len() ==> (#[trigger] buckets@[q]).holds(before, views, q, 0),
        decreases n - p,
    {
        buckets.push(Bucket { indices: Vec::new(), records: Vec::new() });
        p = p + 1;
    }
    let mut i: usize = 0;
    proof {
        lemma_after_keyless_adds(before, 0, 0);
    }
    while i < records.len()
        invariant
            i <= records@.len(),
            before.wf(),
            topic.wf(),
            views == log::record_views(records@),
            n == before.partition_count,
            topic@ == before.after_keyless(keyless_before(views, i as nat)),
            buckets@.len() == n,
            forall|q: int|
                0 <= q < buckets@.len() ==> (#[trigger] buckets@[q]).holds(
                    before,
                    views,
                    q,
                    i as nat,
                ),
        decreases records@.len() - i,
    {
        let ghost held = buckets@;
        let key: Option<&[u8]> = match records[i].key() {
            Some(k) => Some(outside::bytes_slice(k)),
            None => None,
        };
        assert(slice_view(key) == views[i as int].key);
        let target: u32 = route(topic, key);
        assert(target == routed(before, views, i as int));
        let record: Record = records[i].clone();
        buckets[target as usize].indices.push(i);
        buckets[target as usize].records.push(record);
        proof {
            lemma_after_keyless_adds(before, keyless_before(views, i as nat), 1);
            assert forall|q: int| 0 <= q < buckets@.len() implies (#[trigger] buckets@[q]).holds(
                before,
                views,
                q,
                (i + 1) as nat,
            ) by {
                let was = held[q];
                assert(was.holds(before, views, q, i as nat));
                if q != target {
                    assert(buckets@[q] == was);
                }
                assert forall|j: int| 0 <= j < buckets@[q].indices@.len() implies (
                #[trigger] buckets@[q].indices@[j]) < i + 1 && buckets@[q].records@[j]@
                    == views[buckets@[q].indices@[j] as int] by {
                    if j < was.indices@.len() {
                        assert(was.indices@[j] < i);
                        assert(buckets@[q].indices@[j] == was.indices@[j]);
                        assert(buckets@[q].records@[j] == was.records@[j]);
                    }
                }
            }
        }
        i = i + 1;
    }
    buckets
}

/// Turns add up.
proof fn lemma_after_keyless_adds(topic: TopicView, a: nat, b: nat)
    ensures
        topic.after_keyless(a).after_keyless(b) == topic.after_keyless(a + b),
        topic.after_keyless(0) == topic,
{
    let n = topic.round_robin as int;
    let m = 0x1_0000_0000_0000_0000;
    assert(((n + a) % m + b) % m == (n + (a + b)) % m);
}

/// Notes where the records of one bucket ended up: their offsets are given in
/// the bucket's order.
pub fn scatter(
    positions: &mut Vec<RecordPosition>,
    partition: u32,
    indices: &Vec<usize>,
    offsets: &Vec<u64>,
)
    requires
        indices@.len() == offsets@.len(),
        forall|j: int|
            0 <= j < indices@.len() ==> (#[trigger] indices@[j]) < old(positions)@.len(),
        forall|j: int, k: int| 0 <= j < k < indices@.len() ==> indices@[j] != indices@[k],
    ensures
        final(positions)@.len() == old(positions)@.len(),
        forall|j: int|
            0 <= j < indices@.len() ==> {
                let position = final(positions)@[(#[trigger] indices@[j]) as int];
                position.spec_partition() == partition && position.spec_offset() == offsets@[j]
            },
        forall|i: int|
            0 <= i < final(positions)@.len() && !indices@.contains(i as usize)
                ==> #[trigger] final(positions)@[i] == old(positions)@[i],
{
    let ghost before = positions@;
    let mut j: usize = 0;
    while j < indices.len()
        invariant
            j <= indices@.len(),
            indices@.len() == offsets@.len(),
            positions@.len() == before.len(),
            forall|k: int| 0 <= k < indices@.len() ==> (#[trigger] indices@[k]) < before.len(),
            forall|k: int, l: int| 0 <= k < l < indices@.len() ==> indices@[k] != indices@[l],
            forall|k: int|
                0 <= k < j ==> {
                    let position = positions@[(#[trigger] indices@[k]) as int];
                    position.spec_partition() == partition && position.spec_offset()
                        == offsets@[k]
                },
            forall|i: int|
                0 <= i < positions@.len() && !indices@.contains(i as usize)
                    ==> #[trigger] positions@[i] == before[i],
        decreases indices@.len() - j,
    {
        let i: usize = indices[j];
        assert(indices@.contains(i));
        positions.set(i, RecordPosition::new(partition, offsets[j]));
        j = j + 1;
    }
}

/// Which record a bucket holds says where in the bucket it is: the indices in
/// a bucket ascend, so records that go to the same partition stay in order.
pub proof fn law_bucket_keeps_order(
    topic: TopicView,
    records: Seq<record::RecordView>,
    partition: int,
    n: nat,
)
    requires
        n <= usize::MAX,
    ensures
        ({
            let indices = bucket_indices(topic, records, partition, n);
            &&& forall|j: int, k: int|
                0 <= j < k < indices.len() ==> indices[j] < indices[k]
            &&& forall|j: int|
                0 <= j < indices.len() ==> (#[trigger] indices[j]) < n && routed(
                    topic,
                    records,
                    indices[j] as int,
                ) == partition
        }),
    decreases n,
{
    if n > 0 {
        law_bucket_keeps_order(topic, records, partition, (n - 1) as nat);
        let before = bucket_indices(topic, records, partition, (n - 1) as nat);
        let indices = bucket_indices(topic, records, partition, n);
        assert forall|j: int, k: int| 0 <= j < k < indices.len() implies indices[j]
            < indices[k] by {
            assert(indices[j] == before[j]);
            assert(before[j] < n - 1);
            if k < before.len() {
                assert(indices[k] == before[k]);
            }
        }
        assert forall|j: int| 0 <= j < indices.len() implies (#[trigger] indices[j]) < n && routed(
            topic,
            records,
            indices[j] as int,
        ) == partition by {
            if j < before.len() {
                assert(indices[j] == before[j]);
            }
        }
    }
}

/// Every record of a batch is in the bucket of the partition it goes to, and
/// in no other.
pub proof fn law_every_record_is_in_one_bucket(
    topic: TopicView,
    records: Seq<record::RecordView>,
    n: nat,
    i: int,
    partition: int,
)
    requires
        0 <= i < n <= usize::MAX,
    ensures
        bucket_indices(topic, records, partition, n).contains(i as usize) <==> partition
            == routed(topic, records, i),
    decreases n,
{
    let indices = bucket_indices(topic, records, partition, n);
    let before = bucket_indices(topic, records, partition, (n - 1) as nat);
    law_bucket_keeps_order(topic, records, partition, n);
    if i < n - 1 {
        law_every_record_is_in_one_bucket(topic, records, (n - 1) as nat, i, partition);
        if before.contains(i as usize) {
            let j = choose|j: int| 0 <= j < before.len() && before[j] == i as usize;
            assert(indices[j] == i as usize);
        }
        if indices.contains(i as usize) {
            let j = choose|j: int| 0 <= j < indices.len() && indices[j] == i as usize;
            if j < before.len() {
                assert(before[j] == i as usize);
            }
        }
    } else if routed(topic, records, i) == partition {
        assert(indices.last() == i as usize);
    } else if indices.contains(i as usize) {
        let j = choose|j: int| 0 <= j < indices.len() && indices[j] == i as usize;
        assert(routed(topic, records, indices[j] as int) == partition);
    }
}

/// How many records before the `i`th go to the same partition: its place in
/// the bucket.
pub open spec fn rank(topic: TopicView, records: Seq<record::RecordView>, i: int) -> int {
    bucket_indices(
        topic,
        records,
        routed(topic, records, i) as int,
        i as nat,
    ).len() as int
}

/// A record's place in its bucket is its rank.
proof fn lemma_rank(topic: TopicView, records: Seq<record::RecordView>, n: nat, i: int)
    requires
        0 <= i < n <= usize::MAX,
    ensures
        ({
            let indices = bucket_indices(
                topic,
                records,
                routed(topic, records, i) as int,
                n,
            );
            rank(topic, records, i) < indices.len() && indices[rank(topic, records, i)] == i
        }),
    decreases n,
{
    if i < n - 1 {
        lemma_rank(topic, records, (n - 1) as nat, i);
    }
}

/// A batch on its way to the partitions: the buckets, and where the records of
/// those buckets that were appended ended up. The buckets are appended in
/// order of partition.
pub struct Batch {
    buckets: Vec<Bucket>,
    positions: Vec<RecordPosition>,
    placed: usize,
    topic: Ghost<TopicView>,
    records: Ghost<Seq<record::RecordView>>,
    offsets: Ghost<Seq<Seq<u64>>>,
}

impl Batch {
    /// The topic as the batch found it.
    pub closed spec fn spec_topic(&self) -> TopicView {
        self.topic@
    }

    /// The records of the batch.
    pub closed spec fn spec_records(&self) -> Seq<record::RecordView> {
        self.records@
    }

    /// The offsets of the records in the buckets that were appended.
    pub closed spec fn spec_offsets(&self) -> Seq<Seq<u64>> {
        self.offsets@
    }

    /// What every batch keeps to.
    pub closed spec fn wf(&self) -> bool {
        let topic = self.topic@;
        let records = self.records@;
        let offsets = self.offsets@;
        &&& topic.wf()
        &&& records.len() <= usize::MAX
        &&& self.buckets@.len() == topic.partition_count
        &&& self.positions@.len() == records.len()
        &&& self.placed == offsets.len() <= self.buckets@.len()
        &&& forall|p: int|
            0 <= p < self.buckets@.len() ==> (#[trigger] self.buckets@[p]).holds(
                topic,
                records,
                p,
                records.len(),
            )
        &&& forall|p: int|
            0 <= p < offsets.len() ==> (#[trigger] offsets[p]).len() == bucket_indices(
                topic,
                records,
                p,
                records.len(),
            ).len()
        &&& forall|i: int|
            0 <= i < records.len() && routed(topic, records, i) < offsets.len() ==> is_at(
                #[trigger] self.positions@[i],
                topic,
                records,
                offsets,
                i,
            )
    }

    /// Routes the records of a batch.
    pub fn route(topic: &mut Topic, records: &Vec<Record>) -> (batch: Self)
        requires
            old(topic).wf(),
        ensures
            final(topic).wf(),
            final(topic)@ == old(topic)@.after_keyless(
                keyless_before(log::record_views(records@), records@.len()),
            ),
            batch.wf(),
            batch.spec_topic() == old(topic)@,
            batch.spec_records() == log::record_views(records@),
            batch.spec_offsets() == Seq::<Seq<u64>>::empty(),
    {
        let ghost before = topic@;
        let buckets: Vec<Bucket> = route_batch(topic, records);
        let total: usize = records.len();
        let mut positions: Vec<RecordPosition> = Vec::new();
        while positions.len() < total
            invariant
                positions@.len() <= total,
            decreases total - positions@.len(),
        {
            positions.push(RecordPosition::new(0, 0));
        }
        Batch {
            buckets,
            positions,
            placed: 0,
            topic: Ghost(before),
            records: Ghost(log::record_views(records@)),
            offsets: Ghost(Seq::empty()),
        }
    }

    /// How many buckets were appended.
    pub fn placed(&self) -> (placed: usize)
        requires
            self.wf(),
        ensures
            placed == self.spec_offsets().len(),
    {
        self.placed
    }

    /// The bucket to append next, if there is one left: the one of partition
    /// [`Batch::placed`].
    pub fn next_bucket(&self) -> (bucket: Option<&Bucket>)
        requires
            self.wf(),
        ensures
            match bucket {
                Some(b) => self.spec_offsets().len() < self.spec_topic().partition_count
                    && b.holds(
                    self.spec_topic(),
                    self.spec_records(),
                    self.spec_offsets().len() as int,
                    self.spec_records().len(),
                ),
                None => self.spec_offsets().len() == self.spec_topic().partition_count,
            },
    {
        if self.placed < self.buckets.len() {
            Some(&self.buckets[self.placed])
        } else {
            None
        }
    }

    /// Notes that the next bucket was appended, at these offsets.
    pub fn place(&mut self, offsets: &Vec<u64>)
        requires
            old(self).wf(),
            old(self).spec_offsets().len() < old(self).spec_topic().partition_count,
            offsets@.len() == bucket_indices(
                old(self).spec_topic(),
                old(self).spec_records(),
                old(self).spec_offsets().len() as int,
                old(self).spec_records().len(),
            ).len(),
        ensures
            final(self).wf(),
            final(self).spec_topic() == old(self).spec_topic(),
            final(self).spec_records() == old(self).spec_records(),
            final(self).spec_offsets() == old(self).spec_offsets().push(offsets@),
    {
        let ghost topic = self.topic@;
        let ghost records = self.records@;
        let ghost before = self.offsets@;
        let ghost positions = self.positions@;
        let p: usize = self.placed;
        proof {
            assert(self.buckets@[p as int].holds(topic, records, p as int, records.len()));
            law_bucket_keeps_order(topic, records, p as int, records.len());
        }
        scatter(&mut self.positions, p as u32, &self.buckets[p].indices, offsets);
        self.offsets = Ghost(before.push(offsets@));
        self.placed = p + 1;
        proof {
            let after = self.offsets@;
            let indices = self.buckets@[p as int].indices@;
            assert forall|i: int|
                0 <= i < records.len() && routed(topic, records, i) < after.len() implies is_at(
                #[trigger] self.positions@[i],
                topic,
                records,
                after,
                i,
            ) by {
                law_every_record_is_in_one_bucket(
                    topic,
                    records,
                    records.len(),
                    i,
                    p as int,
                );
                lemma_rank(topic, records, records.len(), i);
                if routed(topic, records, i) == p {
                    assert(indices[rank(topic, records, i)] == i);
                } else {
                    assert(is_at(positions[i], topic, records, before, i));
                }
            }
        }
    }

    /// Where the records ended up, in the order of the batch.
    pub fn finish(self) -> (positions: Vec<RecordPosition>)
        requires
            self.wf(),
            self.spec_offsets().len() == self.spec_topic().partition_count,
        ensures
            positions@.len() == self.spec_records().len(),
            forall|i: int|
                0 <= i < positions@.len() ==> is_at(
                    #[trigger] positions@[i],
                    self.spec_topic(),
                    self.spec_records(),
                    self.spec_offsets(),
                    i,
                ),
    {
        self.positions
    }
}

/// Whether the `i`th record of a batch is at this position: in the partition
/// it was routed to, at the offset that the partition gave for its place in
/// the bucket.
pub open spec fn is_at(
    position: RecordPosition,
    topic: TopicView,
    records: Seq<record::RecordView>,
    offsets: Seq<Seq<u64>>,
    i: int,
) -> bool {
    let partition = routed(topic, records, i);
    &&& position.spec_partition() == partition
    &&& position.spec_offset() == offsets[partition as int][rank(topic, records, i)]
}

/// Later records find no fewer in the bucket before them.
proof fn lemma_bucket_grows(
    topic: TopicView,
    records: Seq<record::RecordView>,
    partition: int,
    a: nat,
    b: nat,
)
    requires
        a <= b,
    ensures
        bucket_indices(topic, records, partition, a).len() <= bucket_indices(
            topic,
            records,
            partition,
            b,
        ).len(),
    decreases b - a,
{
    if a < b {
        lemma_bucket_grows(topic, records, partition, a, (b - 1) as nat);
    }
}

/// Records of a batch that have the same key end up in the same partition, and
/// in the order they have in the batch. The offsets that a partition gives for
/// a bucket ascend.
pub proof fn law_same_key_keeps_order(
    topic: TopicView,
    records: Seq<record::RecordView>,
    offsets: Seq<Seq<u64>>,
    i: int,
    j: int,
    first: RecordPosition,
    second: RecordPosition,
)
    requires
        topic.wf(),
        0 <= i < j < records.len() <= usize::MAX,
        records[i].key is Some,
        records[j].key == records[i].key,
        offsets.len() == topic.partition_count,
        forall|p: int|
            0 <= p < offsets.len() ==> (#[trigger] offsets[p]).len() == bucket_indices(
                topic,
                records,
                p,
                records.len(),
            ).len(),
        forall|p: int, a: int, b: int|
            #![trigger offsets[p][a], offsets[p][b]]
            0 <= p < offsets.len() && 0 <= a < b < offsets[p].len() ==> offsets[p][a]
                < offsets[p][b],
        is_at(first, topic, records, offsets, i),
        is_at(second, topic, records, offsets, j),
    ensures
        first.spec_partition() == second.spec_partition(),
        first.spec_offset() < second.spec_offset(),
{
    let partition = routed(topic, records, i) as int;
    assert(routed(topic, records, j) == partition);
    lemma_bucket_grows(topic, records, partition, (i + 1) as nat, j as nat);
    assert(rank(topic, records, i) < rank(topic, records, j));
    lemma_rank(topic, records, records.len(), i);
    lemma_rank(topic, records, records.len(), j);
    let given = offsets[partition];
    assert(given[rank(topic, records, i)] < given[rank(topic, records, j)]);
}

/// Routing a batch is routing its records one after the other: the first goes
/// where it would go alone, and the others as if it had been sent before them.
pub proof fn law_batch_is_routed_record_by_record(
    topic: TopicView,
    records: Seq<record::RecordView>,
    i: int,
)
    requires
        0 <= i < records.len(),
    ensures
        i == 0 ==> routed(topic, records, i) == topic.route(records[0].key),
        i > 0 ==> routed(topic, records, i) == routed(
            topic.after_route(records[0].key),
            records.skip(1),
            i - 1,
        ),
{
    lemma_after_keyless_adds(topic, 0, 0);
    if i > 0 {
        lemma_keyless_shift(records, i as nat);
        let later = keyless_before(records.skip(1), (i - 1) as nat);
        lemma_after_keyless_adds(topic, 1, later);
    }
}

proof fn lemma_keyless_shift(records: Seq<record::RecordView>, n: nat)
    requires
        1 <= n <= records.len(),
    ensures
        keyless_before(records, n) == keyless_before(records.skip(1), (n - 1) as nat) + if records[0].key is None {
            1nat
        } else {
            0
        },
    decreases n,
{
    reveal_with_fuel(keyless_before, 2);
    if n > 1 {
        lemma_keyless_shift(records, (n - 1) as nat);
        assert(records.skip(1)[n - 2] == records[n - 1]);
    }
}

/// A record of a batch with a key goes where the hash of the whole key says,
/// wherever in the batch it is; those without one take the turns in order.
pub proof fn law_keys_decide_within_a_batch(
    topic: TopicView,
    records: Seq<record::RecordView>,
    i: int,
)
    requires
        topic.partition_count > 0,
        0 <= i < records.len(),
        topic.round_robin + records.len() <= u64::MAX,
    ensures
        records[i].key matches Some(key) ==> routed(topic, records, i) as int == (crate::topic::fnv1a(
            key,
        ) as int) % (topic.partition_count as int),
        records[i].key is None ==> routed(topic, records, i) as int == (topic.round_robin
            + keyless_before(records, i as nat)) % (topic.partition_count as int),
        keyless_before(records, 0) == 0,
        keyless_before(records, (i + 1) as nat) == keyless_before(records, i as nat)
            + if records[i].key is None {
            1nat
        } else {
            0
        },
        keyless_before(records, i as nat) <= i,
{
    lemma_keyless_at_most(records, i as nat);
    let n = topic.round_robin + keyless_before(records, i as nat);
    assert(n % 0x1_0000_0000_0000_0000 == n);
}

proof fn lemma_keyless_at_most(records: Seq<record::RecordView>, n: nat)
    ensures
        keyless_before(records, n) <= n,
    decreases n,
{
    if n > 0 {
        lemma_keyless_at_most(records, (n - 1) as nat);
    }
}

/// The position that a batch reports for a record is in the partition that the
/// record was routed to, at the offset that the partition gave for the place
/// that the record has among those routed there.
pub proof fn law_positions_of_a_batch(
    position: RecordPosition,
    topic: TopicView,
    records: Seq<record::RecordView>,
    offsets: Seq<Seq<u64>>,
    i: int,
) -> (place: int)
    requires
        0 <= i < records.len() <= usize::MAX,
        is_at(position, topic, records, offsets, i),
    ensures
        ({
            let partition = routed(topic, records, i);
            let there = bucket_indices(topic, records, partition as int, records.len());
            &&& position.spec_partition() == partition
            &&& 0 <= place < there.len()
            &&& there[place] == i
            &&& position.spec_offset() == offsets[partition as int][place]
        }),
{
    lemma_rank(topic, records, records.len(), i);
    rank(topic, records, i)
}

/// A bucket holds the records of its partition, each in full.
pub proof fn law_bucket_holds_the_records(
    bucket: Bucket,
    topic: TopicView,
    records: Seq<record::RecordView>,
    partition: int,
    i: int,
)
    requires
        bucket.holds(topic, records, partition, records.len()),
        0 <= i < records.len() <= usize::MAX,
    ensures
        bucket.records@.len() == bucket.indices@.len(),
        bucket.indices@.contains(i as usize) <==> routed(topic, records, i) == partition,
        forall|j: int|
            0 <= j < bucket.indices@.len() ==> (#[trigger] bucket.records@[j])@
                == records[bucket.indices@[j] as int],
{
    law_every_record_is_in_one_bucket(topic, records, records.len(), i, partition);
    assert forall|j: int| 0 <= j < bucket.indices@.len() implies (#[trigger] bucket.records@[j])@
        == records[bucket.indices@[j] as int] by {
        assert(bucket.indices@[j] < records.len());
    }
}

/// The key that a record is routed by is its key.
pub proof fn law_routed_by_its_own_key(key: &[u8])
    ensures
        slice_view(Some(key)) == Some(key@),
        slice_view(None) is None,
{
}

} // verus!
