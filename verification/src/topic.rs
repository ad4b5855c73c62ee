//! Topics: how many partitions there are, and which of them a record goes to.
//!
//! A record with a key goes to the partition that the key's hash names, so
//! that records with the same key stay in order. Records without a key go to
//! the partitions in turn.
use vstd::prelude::*;
use vstd::string::StringExecFns;

use crate::error::KafkoError;
use crate::log::LogConfig;
use crate::text;

verus! {

/// The hash of no bytes.
pub const FNV_OFFSET_BASIS: u64 = 0xcbf2_9ce4_8422_2325;

/// What the hash is multiplied by at each byte.
pub const FNV_PRIME: u64 = 0x0000_0100_0000_01b3;

/// The 64-bit FNV-1a hash of some bytes. Routing uses it because it is the
/// same in every run, on every platform.
pub open spec fn fnv1a(bytes: Seq<u8>) -> u64
    decreases bytes.len(),
{
    if bytes.len() == 0 {
        FNV_OFFSET_BASIS
    } else {
        (fnv1a(bytes.drop_last()) ^ (bytes.last() as u64)).wrapping_mul(FNV_PRIME)
    }
}

/// The partition that a key goes to.
pub open spec fn key_partition(key: Seq<u8>, partition_count: u32) -> u32 {
    (fnv1a(key) % (partition_count as u64)) as u32
}

/// The 64-bit FNV-1a hash of some bytes.
pub fn fnv1a_64(bytes: &[u8]) -> (hash: u64)
    ensures
        hash == fnv1a(bytes@),
{
    let mut hash: u64 = FNV_OFFSET_BASIS;
    let mut i: usize = 0;
    assert(bytes@.take(0) =~= Seq::<u8>::empty());
    while i < bytes.len()
        invariant
            i <= bytes@.len(),
            hash == fnv1a(bytes@.take(i as int)),
        decreases bytes@.len() - i,
    {
        assert(bytes@.take(i + 1).drop_last() =~= bytes@.take(i as int));
        hash = (hash ^ (bytes[i] as u64)).wrapping_mul(FNV_PRIME);
        i = i + 1;
    }
    assert(bytes@.take(i as int) =~= bytes@);
    hash
}

/// The partition that a key goes to.
pub fn partition_index(key: &[u8], partition_count: u32) -> (index: u32)
    requires
        partition_count > 0,
    ensures
        index == key_partition(key@, partition_count),
        index < partition_count,
{
    (fnv1a_64(key) % (partition_count as u64)) as u32
}

/// The numbers among some directory names, in the order of the names.
pub open spec fn partition_numbers(names: Seq<String>) -> Seq<u64>
    decreases names.len(),
{
    if names.len() == 0 {
        Seq::empty()
    } else {
        let before = partition_numbers(names.drop_last());
        match text::parse_number(names.last()@, u32::MAX as nat) {
            Some(n) => before.push(n as u64),
            None => before,
        }
    }
}

/// Whether `sorted` are the numbers among some directory names, in ascending
/// order.
pub open spec fn is_sorted_numbers(sorted: Seq<u64>, names: Seq<String>) -> bool {
    &&& text::ascending(sorted)
    &&& sorted.to_multiset() == partition_numbers(names).to_multiset()
}

/// Whether the first `n` of some numbers are 0, 1, 2 and so on.
pub open spec fn counts_up(numbers: Seq<u64>, n: int) -> bool {
    forall|i: int| 0 <= i < n ==> #[trigger] numbers[i] == i
}

/// What is wrong with a topic's directory that holds no partition.
pub open spec fn no_partitions_text() -> Seq<char> {
    "no partition subdirectories found (a data directory written by kafko <= 0.2 is not compatible with the partitioned 0.3 layout)"@
}

/// What is wrong with a topic's directory where another partition stands in
/// the place of one.
pub open spec fn gap_text(expected: nat, found: nat) -> Seq<char> {
    "partition indices are not contiguous from 0 (expected "@ + text::decimal(expected)
        + ", found "@ + text::decimal(found) + ")"@
}

/// The partitions among some directories: the numbers among their names, in
/// ascending order.
fn discover_partition_indices(names: &Vec<String>) -> (indices: Vec<u64>)
    ensures
        is_sorted_numbers(indices@, names@),
        indices@.len() <= names@.len(),
{
    let mut indices: Vec<u64> = Vec::new();
    let mut i: usize = 0;
    proof {
        broadcast use vstd::seq_lib::group_to_multiset_ensures;

        assert(names@.take(0) =~= Seq::<String>::empty());
    }
    while i < names.len()
        invariant
            i <= names@.len(),
            indices@.len() <= i,
            text::ascending(indices@),
            indices@.to_multiset() == partition_numbers(names@.take(i as int)).to_multiset(),
        decreases names@.len() - i,
    {
        assert(names@.take(i + 1).drop_last() =~= names@.take(i as int));
        match text::parse_partition_name(names[i].as_str()) {
            Some(index) => {
                text::insert_sorted(&mut indices, index as u64);
                proof {
                    vstd::seq_lib::to_multiset_build(
                        partition_numbers(names@.take(i as int)),
                        index as u64,
                    );
                }
            },
            None => {},
        }
        i = i + 1;
    }
    assert(names@.take(i as int) =~= names@);
    indices
}

/// A topic: a name, its partitions, and whose turn it is.
#[derive(Debug)]
pub struct Topic {
    name: String,
    partition_count: u32,
    config: LogConfig,
    round_robin: u64,
}

/// A topic as a value.
pub struct TopicView {
    /// The name.
    pub name: Seq<char>,
    /// The number of partitions.
    pub partition_count: u32,
    /// The settings of every partition's log.
    pub config: LogConfig,
    /// How many records without a key were routed; it starts over at its end.
    pub round_robin: u64,
}

impl View for Topic {
    type V = TopicView;

    closed spec fn view(&self) -> TopicView {
        TopicView {
            name: self.name@,
            partition_count: self.partition_count,
            config: self.config,
            round_robin: self.round_robin,
        }
    }
}

impl TopicView {
    /// What every topic keeps to: there is a partition.
    pub open spec fn wf(self) -> bool {
        self.partition_count > 0
    }

    /// The topic after `n` more records without a key.
    pub open spec fn after_keyless(self, n: nat) -> Self {
        TopicView {
            round_robin: ((self.round_robin + n) % 0x1_0000_0000_0000_0000) as u64,
            ..self
        }
    }

    /// The partition that a record goes to.
    pub open spec fn route(self, key: Option<Seq<u8>>) -> u32 {
        match key {
            Some(k) => key_partition(k, self.partition_count),
            None => (self.round_robin % (self.partition_count as u64)) as u32,
        }
    }

    /// The topic after a record was routed.
    pub open spec fn after_route(self, key: Option<Seq<u8>>) -> Self {
        match key {
            Some(_) => self,
            None => self.after_keyless(1),
        }
    }
}

impl Topic {
    /// What every topic keeps to.
    pub open spec fn wf(&self) -> bool {
        self@.wf()
    }

    /// A new topic with so many partitions, of which there must be one.
    pub fn create(name: &str, partition_count: u32, config: LogConfig) -> (topic: Result<
        Self,
        KafkoError,
    >)
        ensures
            match topic {
                Ok(t) => partition_count > 0 && t.wf() && t@ == (TopicView {
                    name: name@,
                    partition_count,
                    config,
                    round_robin: 0,
                }),
                Err(e) => partition_count == 0 && e == KafkoError::InvalidPartitionCount(0),
            },
    {
        if partition_count == 0 {
            return Err(KafkoError::InvalidPartitionCount(0));
        }
        Ok(Topic { name: name.to_owned(), partition_count, config, round_robin: 0 })
    }

    /// A topic whose directory holds directories of these names. Those that
    /// are numbers are its partitions, and they have to count up from 0.
    pub fn open(name: &str, directories: &Vec<String>, config: LogConfig) -> (topic: Result<
        Self,
        KafkoError,
    >)
        requires
            directories@.len() <= u32::MAX,
        ensures
            match topic {
                Ok(t) => {
                    &&& t.wf()
                    &&& exists|sorted: Seq<u64>|
                        #[trigger] is_sorted_numbers(sorted, directories@) && counts_up(
                            sorted,
                            sorted.len() as int,
                        ) && t@ == (TopicView {
                            name: name@,
                            partition_count: sorted.len() as u32,
                            config,
                            round_robin: 0,
                        })
                },
                Err(e) => {
                    &&& e matches KafkoError::InvalidTopicLayout { topic: t, detail }
                    &&& t@ == name@
                    &&& exists|sorted: Seq<u64>|
                        #[trigger] is_sorted_numbers(sorted, directories@) && (if sorted.len()
                            == 0 {
                            detail@ == no_partitions_text()
                        } else {
                            exists|i: int|
                                0 <= i < sorted.len() && counts_up(sorted, i)
                                    && #[trigger] sorted[i] != i && detail@ == gap_text(
                                    i as nat,
                                    sorted[i] as nat,
                                )
                        })
                },
            },
    {
        let indices: Vec<u64> = discover_partition_indices(directories);
        if indices.len() == 0 {
            return Err(
                KafkoError::InvalidTopicLayout {
                    topic: name.to_owned(),
                    detail: "no partition subdirectories found (a data directory written by kafko <= 0.2 is not compatible with the partitioned 0.3 layout)".to_owned(),
                },
            );
        }
        let mut i: usize = 0;
        while i < indices.len()
            invariant
                i <= indices@.len(),
                indices@.len() > 0,
                is_sorted_numbers(indices@, directories@),
                counts_up(indices@, i as int),
            decreases indices@.len() - i,
        {
            if indices[i] != i as u64 {
                let mut detail: String = String::new();
                detail.append("partition indices are not contiguous from 0 (expected ");
                text::append_decimal(&mut detail, i as u64);
                detail.append(", found ");
                text::append_decimal(&mut detail, indices[i]);
                detail.append(")");
                assert(detail@ =~= gap_text(i as nat, indices@[i as int] as nat));
                return Err(KafkoError::InvalidTopicLayout { topic: name.to_owned(), detail });
            }
            i = i + 1;
        }
        let partition_count: u32 = indices.len() as u32;
        Ok(Topic { name: name.to_owned(), partition_count, config, round_robin: 0 })
    }

    /// The topic's name.
    pub fn name(&self) -> (name: &str)
        ensures
            name@ == self@.name,
    {
        self.name.as_str()
    }

    /// The settings of every partition's log.
    pub fn config(&self) -> (config: &LogConfig)
        ensures
            *config == self@.config,
    {
        &self.config
    }

    /// The number of partitions.
    pub fn partition_count(&self) -> (count: u32)
        ensures
            count == self@.partition_count,
    {
        self.partition_count
    }

    /// Whether there is such a partition.
    pub fn has_partition(&self, index: u32) -> (present: bool)
        ensures
            present == (index < self@.partition_count),
    {
        index < self.partition_count
    }

    /// The partition that a key goes to.
    pub fn partition_for_key(&self, key: &[u8]) -> (index: u32)
        requires
            self.wf(),
        ensures
            index == key_partition(key@, self@.partition_count),
            index < self@.partition_count,
    {
        partition_index(key, self.partition_count)
    }

    /// The partition whose turn it is.
    pub fn next_round_robin(&mut self) -> (index: u32)
        requires
            old(self).wf(),
        ensures
            index == old(self)@.route(None),
            index < old(self)@.partition_count,
            final(self)@ == old(self)@.after_keyless(1),
    {
        let n: u64 = self.round_robin;
        self.round_robin = n.wrapping_add(1);
        (n % (self.partition_count as u64)) as u32
    }
}

/// Wherever a record goes, that partition exists.
pub proof fn law_route_is_in_range(topic: TopicView, key: Option<Seq<u8>>)
    requires
        topic.wf(),
    ensures
        topic.route(key) < topic.partition_count,
{
}

/// Records with the same key go to the same partition, whatever was routed in
/// between.
pub proof fn law_same_key_same_partition(topic: TopicView, later: TopicView, key: Seq<u8>)
    requires
        later.partition_count == topic.partition_count,
    ensures
        topic.route(Some(key)) == later.route(Some(key)),
{
}

/// As many records without a key as there are partitions reach every one of
/// them, from whatever turn. The turns start over at the end of their range,
/// and across that point this need not hold.
pub proof fn law_round_robin_reaches_every_partition(topic: TopicView, partition: u32)
    requires
        topic.wf(),
        partition < topic.partition_count,
        topic.round_robin + topic.partition_count <= u64::MAX,
    ensures
        exists|i: nat|
            i < topic.partition_count && #[trigger] topic.after_keyless(i).route(None)
                == partition,
{
    let n = topic.round_robin as int;
    let count = topic.partition_count as int;
    let turn = n % count;
    let i: int = if turn <= partition {
        partition - turn
    } else {
        count + partition - turn
    };
    let quotient = if turn <= partition {
        n / count
    } else {
        n / count + 1
    };
    assert(n + i == quotient * count + partition) by (nonlinear_arith)
        requires
            count > 0,
            turn == n % count,
            i == (if turn <= partition {
                partition - turn
            } else {
                count + partition - turn
            }),
            quotient == (if turn <= partition {
                n / count
            } else {
                n / count + 1
            }),
    ;
    vstd::arithmetic::div_mod::lemma_fundamental_div_mod_converse(
        n + i,
        count,
        quotient,
        partition as int,
    );
    assert(topic.after_keyless(i as nat).round_robin == n + i);
    assert(topic.after_keyless(i as nat).route(None) == partition);
}

/// The hash starts from the offset basis of 64-bit FNV-1a, and every byte, to
/// the last, goes into it: it is mixed in and the sum multiplied by the prime.
pub proof fn law_hash_is_fnv1a(bytes: Seq<u8>, next: u8)
    ensures
        fnv1a(Seq::empty()) == 0xcbf2_9ce4_8422_2325,
        fnv1a(bytes.push(next)) == ((fnv1a(bytes) ^ (next as u64)) * 0x100_0000_01b3int)
            % 0x1_0000_0000_0000_0000,
{
    assert(bytes.push(next).drop_last() =~= bytes);
}

/// A record with a key goes to the partition that the hash of the whole key
/// names, modulo the number of partitions, and takes no turn.
pub proof fn law_key_goes_where_its_hash_says(topic: TopicView, key: Seq<u8>)
    requires
        topic.partition_count > 0,
    ensures
        topic.route(Some(key)) as int == (fnv1a(key) as int) % (topic.partition_count as int),
        key_partition(key, topic.partition_count) as int == (fnv1a(key) as int) % (
        topic.partition_count as int),
        topic.after_route(Some(key)) == topic,
{
}

/// Records without a key take turns: the first goes to partition 0, and each
/// goes one partition on from the one before, from the last to the first. Only
/// where the count of such records starts over is the order broken.
pub proof fn law_keyless_records_take_turns(topic: TopicView)
    requires
        topic.partition_count > 0,
    ensures
        topic.round_robin == 0 ==> topic.route(None) == 0,
        topic.round_robin < u64::MAX ==> ({
            let next = topic.after_route(None);
            &&& next.round_robin == topic.round_robin + 1
            &&& next.route(None) == if topic.route(None) + 1 == topic.partition_count {
                0int
            } else {
                topic.route(None) + 1
            }
        }),
        topic.round_robin == u64::MAX ==> topic.after_route(None).round_robin == 0,
        topic.after_route(None).partition_count == topic.partition_count,
        topic.after_route(None).name == topic.name,
        topic.after_route(None).config == topic.config,
{
    let n = topic.round_robin as int;
    let count = topic.partition_count as int;
    if topic.round_robin < u64::MAX {
        assert((n + 1) % 0x1_0000_0000_0000_0000 == n + 1);
        let turn = n % count;
        let quotient = n / count;
        assert(n == quotient * count + turn && 0 <= turn < count) by (nonlinear_arith)
            requires
                count > 0,
                turn == n % count,
                quotient == n / count,
        ;
        if turn + 1 == count {
            assert((quotient + 1) * count == quotient * count + count) by (nonlinear_arith);
            vstd::arithmetic::div_mod::lemma_fundamental_div_mod_converse(
                n + 1,
                count,
                quotient + 1,
                0,
            );
        } else {
            vstd::arithmetic::div_mod::lemma_fundamental_div_mod_converse(
                n + 1,
                count,
                quotient,
                turn + 1,
            );
        }
    }
}

/// The partitions among some directories are the numbers among their names,
/// whatever the numbers: none is passed over and none is made up.
pub proof fn law_every_partition_is_found(names: Seq<String>, n: u32)
    ensures
        partition_numbers(names).contains(n as u64) <==> exists|i: int|
            0 <= i < names.len() && text::parse_number((#[trigger] names[i])@, 0xffff_ffff)
                == Some(n as nat),
    decreases names.len(),
{
    let found = partition_numbers(names);
    if names.len() > 0 {
        let before = names.drop_last();
        let last = names.len() - 1;
        let earlier = partition_numbers(before);
        law_every_partition_is_found(before, n);
        if earlier.contains(n as u64) {
            let i = choose|i: int|
                0 <= i < before.len() && text::parse_number((#[trigger] before[i])@, 0xffff_ffff)
                    == Some(n as nat);
            assert(names[i] == before[i]);
            let k = choose|k: int| 0 <= k < earlier.len() && earlier[k] == n as u64;
            assert(found[k] == n as u64);
        }
        if text::parse_number(names[last]@, 0xffff_ffff) == Some(n as nat) {
            assert(found.last() == n as u64);
        }
        if found.contains(n as u64) && !earlier.contains(n as u64) {
            let k = choose|k: int| 0 <= k < found.len() && found[k] == n as u64;
            if k < earlier.len() {
                assert(earlier[k] == n as u64);
            }
            assert(text::parse_number(names[last]@, 0xffff_ffff) == Some(n as nat));
        }
        if exists|i: int|
            0 <= i < names.len() && text::parse_number((#[trigger] names[i])@, 0xffff_ffff)
                == Some(n as nat) {
            let i = choose|i: int|
                0 <= i < names.len() && text::parse_number((#[trigger] names[i])@, 0xffff_ffff)
                    == Some(n as nat);
            if i < last {
                assert(before[i] == names[i]);
            }
        }
    }
}

/// A topic's partitions, however many, count up from 0 if and only if each
/// stands in its place, and they are the numbers among the directories.
pub proof fn law_partitions_count_up(sorted: Seq<u64>, names: Seq<String>, n: u32)
    requires
        is_sorted_numbers(sorted, names),
    ensures
        sorted.contains(n as u64) <==> exists|i: int|
            0 <= i < names.len() && text::parse_number((#[trigger] names[i])@, 0xffff_ffff)
                == Some(n as nat),
        sorted.len() == partition_numbers(names).len(),
        forall|i: int, j: int| 0 <= i < j < sorted.len() ==> sorted[i] <= sorted[j],
        counts_up(sorted, sorted.len() as int) <==> (forall|i: int|
            0 <= i < sorted.len() ==> #[trigger] sorted[i] == i),
{
    broadcast use vstd::seq_lib::group_to_multiset_ensures;

    let found = partition_numbers(names);
    law_every_partition_is_found(names, n);
    assert(sorted.contains(n as u64) <==> sorted.to_multiset().count(n as u64) > 0);
    assert(found.contains(n as u64) <==> found.to_multiset().count(n as u64) > 0);
    assert(sorted.to_multiset().len() == sorted.len());
    assert(found.to_multiset().len() == found.len());
}

/// What is said of a directory without partitions, and of one where a partition
/// is missing: which was expected, and which was found instead.
pub proof fn law_layout_errors_say_what_is_wrong(expected: nat, found: nat)
    ensures
        no_partitions_text()
            == "no partition subdirectories found (a data directory written by kafko <= 0.2 is not compatible with the partitioned 0.3 layout)"@,
        gap_text(expected, found) == "partition indices are not contiguous from 0 (expected "@
            + text::decimal(expected) + ", found "@ + text::decimal(found) + ")"@,
{
}

} // verus!
