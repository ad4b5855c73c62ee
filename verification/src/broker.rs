//! The broker's registry of topics.
use vstd::prelude::*;
use vstd::string::StringExecFns;

use crate::error::KafkoError;
use crate::log::LogConfig;
use crate::text;
use crate::topic::{Topic, TopicView};

verus! {

/// The topics of a broker, each name once.
#[derive(Debug)]
pub struct Kafko {
    topics: Vec<Topic>,
    default_log_config: LogConfig,
}

impl Kafko {
    /// Which topic has a name.
    pub closed spec fn has(&self, name: Seq<char>) -> bool {
        exists|i: int| 0 <= i < self.topics@.len() && (#[trigger] self.topics@[i])@.name == name
    }

    /// The topics, by name.
    pub closed spec fn spec_topics(&self) -> Map<Seq<char>, TopicView> {
        Map::new(
            |name: Seq<char>| self.has(name),
            |name: Seq<char>| self.topics@[index_of(self.topics@, name)]@,
        )
    }

    /// The settings of topics that come without their own.
    pub closed spec fn spec_default_log_config(&self) -> LogConfig {
        self.default_log_config
    }

    /// What every broker keeps to: no name occurs twice, and every topic has a
    /// partition.
    pub closed spec fn wf(&self) -> bool {
        &&& forall|i: int, j: int|
            #![trigger self.topics@[i], self.topics@[j]]
            0 <= i < j < self.topics@.len() ==> self.topics@[i]@.name != self.topics@[j]@.name
        &&& forall|i: int| 0 <= i < self.topics@.len() ==> (#[trigger] self.topics@[i]).wf()
    }

    /// A broker without topics.
    pub fn new(default_log_config: LogConfig) -> (broker: Self)
        ensures
            broker.wf(),
            broker.spec_topics() == Map::<Seq<char>, TopicView>::empty(),
            broker.spec_default_log_config() == default_log_config,
    {
        let broker = Kafko { topics: Vec::new(), default_log_config };
        assert(broker.spec_topics() =~= Map::<Seq<char>, TopicView>::empty());
        broker
    }

    /// The settings of topics that come without their own.
    pub fn default_log_config(&self) -> (config: &LogConfig)
        ensures
            *config == self.spec_default_log_config(),
    {
        &self.default_log_config
    }

    fn find(&self, name: &str) -> (found: Option<usize>)
        ensures
            match found {
                Some(i) => i < self.topics@.len() && self.topics@[i as int]@.name == name@,
                None => !self.has(name@),
            },
    {
        let mut i: usize = 0;
        while i < self.topics.len()
            invariant
                i <= self.topics@.len(),
                forall|j: int| 0 <= j < i ==> (#[trigger] self.topics@[j])@.name != name@,
            decreases self.topics@.len() - i,
        {
            if text::same_text(self.topics[i].name(), name) {
                return Some(i);
            }
            i = i + 1;
        }
        None
    }

    /// Refuses to create a topic without partitions, or one of a name that is
    /// taken.
    pub fn check_create_topic(&self, name: &str, partitions: u32) -> (result: Result<(), KafkoError>)
        requires
            self.wf(),
        ensures
            match result {
                Ok(()) => partitions > 0 && !self.spec_topics().contains_key(name@),
                Err(e) => if partitions == 0 {
                    e == KafkoError::InvalidPartitionCount(0)
                } else {
                    self.spec_topics().contains_key(name@) && (e
                        matches KafkoError::TopicAlreadyExists(n) && n@ == name@)
                },
            },
    {
        if partitions == 0 {
            return Err(KafkoError::InvalidPartitionCount(0));
        }
        if self.has_topic(name) {
            return Err(KafkoError::TopicAlreadyExists(name.to_owned()));
        }
        Ok(())
    }

    /// Adds a topic that was created, unless its name was taken in the
    /// meantime.
    pub fn create_topic(&mut self, topic: Topic) -> (result: Result<(), KafkoError>)
        requires
            old(self).wf(),
            topic.wf(),
        ensures
            final(self).wf(),
            final(self).spec_default_log_config() == old(self).spec_default_log_config(),
            match result {
                Ok(()) => !old(self).spec_topics().contains_key(topic@.name) && final(self).spec_topics() == old(self).spec_topics().insert(topic@.name, topic@),
                Err(e) => old(self).spec_topics().contains_key(topic@.name) && final(self).spec_topics() == old(self).spec_topics() && (e
                    matches KafkoError::TopicAlreadyExists(n) && n@ == topic@.name),
            },
    {
        if self.has_topic(topic.name()) {
            return Err(KafkoError::TopicAlreadyExists(topic.name().to_owned()));
        }
        self.add_topic(topic);
        Ok(())
    }

    fn add_topic(&mut self, topic: Topic)
        requires
            old(self).wf(),
            topic.wf(),
            !old(self).spec_topics().contains_key(topic@.name),
        ensures
            final(self).wf(),
            final(self).spec_default_log_config() == old(self).spec_default_log_config(),
            final(self).spec_topics() == old(self).spec_topics().insert(topic@.name, topic@),
    {
        let ghost before = *self;
        self.topics.push(topic);
        proof {
            let n = before.topics@.len() as int;
            assert forall|i: int| 0 <= i < n implies before.topics@[i]@.name != topic@.name by {
                if before.topics@[i]@.name == topic@.name {
                    assert(before.has(topic@.name));
                }
            }
            assert forall|i: int| 0 <= i < n implies self.topics@[i] == before.topics@[i] by {}
            assert(self.topics@[n] == topic);
            assert(self.wf());
            assert forall|name: Seq<char>| #[trigger]
                self.has(name) == (before.has(name) || name == topic@.name) by {
                if before.has(name) {
                    let i = choose|i: int|
                        0 <= i < n && (#[trigger] before.topics@[i])@.name == name;
                    assert(self.topics@[i]@.name == name);
                }
                if name == topic@.name {
                    assert(self.topics@[n]@.name == name);
                }
                if self.has(name) {
                    let i = choose|i: int|
                        0 <= i < n + 1 && (#[trigger] self.topics@[i])@.name == name;
                    if i < n {
                        assert(before.topics@[i]@.name == name);
                    }
                }
            }
            let expected = before.spec_topics().insert(topic@.name, topic@);
            assert forall|name: Seq<char>| #[trigger]
                self.spec_topics().contains_key(name) implies self.spec_topics()[name]
                == expected[name] by {
                if name == topic@.name {
                    lemma_index_of(*self, n);
                } else {
                    let i = choose|i: int|
                        0 <= i < n && (#[trigger] before.topics@[i])@.name == name;
                    lemma_index_of(before, i);
                    assert(self.topics@[i]@.name == name);
                    lemma_index_of(*self, i);
                }
            }
            assert(self.spec_topics() =~= expected);
        }
    }

    /// Takes a topic out, to be deleted.
    pub fn delete_topic(&mut self, name: &str) -> (result: Result<Topic, KafkoError>)
        requires
            old(self).wf(),
        ensures
            final(self).wf(),
            final(self).spec_default_log_config() == old(self).spec_default_log_config(),
            match result {
                Ok(topic) => {
                    &&& topic.wf()
                    &&& topic@.name == name@
                    &&& old(self).spec_topics().contains_key(name@)
                    &&& topic@ == old(self).spec_topics()[name@]
                    &&& final(self).spec_topics() == old(self).spec_topics().remove(name@)
                },
                Err(e) => {
                    &&& !old(self).spec_topics().contains_key(name@)
                    &&& final(self).spec_topics() == old(self).spec_topics()
                    &&& e matches KafkoError::TopicNotFound(n) && n@ == name@
                },
            },
    {
        let ghost before = *self;
        match self.find(name) {
            None => Err(KafkoError::TopicNotFound(name.to_owned())),
            Some(at) => {
                let topic: Topic = self.topics.remove(at);
                proof {
                    let n = before.topics@.len() as int;
                    let k = at as int;
                    assert(before.has(name@));
                    lemma_index_of(before, k);
                    assert forall|i: int| 0 <= i < n - 1 implies self.topics@[i]
                        == before.topics@[if i < k {
                        i
                    } else {
                        i + 1
                    }] by {}
                    assert(self.wf());
                    assert forall|other: Seq<char>| #[trigger]
                        self.has(other) == (before.has(other) && other != name@) by {
                        if before.has(other) && other != name@ {
                            let i = choose|i: int|
                                0 <= i < n && (#[trigger] before.topics@[i])@.name == other;
                            assert(i != k);
                            assert(self.topics@[if i < k {
                                i
                            } else {
                                i - 1
                            }]@.name == other);
                        }
                        if self.has(other) {
                            let i = choose|i: int|
                                0 <= i < n - 1 && (#[trigger] self.topics@[i])@.name == other;
                            let j = if i < k {
                                i
                            } else {
                                i + 1
                            };
                            assert(before.topics@[j]@.name == other);
                        }
                    }
                    let expected = before.spec_topics().remove(name@);
                    assert forall|other: Seq<char>| #[trigger]
                        self.spec_topics().contains_key(other) implies self.spec_topics()[other]
                        == expected[other] by {
                        let i = choose|i: int|
                            0 <= i < n - 1 && (#[trigger] self.topics@[i])@.name == other;
                        lemma_index_of(*self, i);
                        let j = if i < k {
                            i
                        } else {
                            i + 1
                        };
                        lemma_index_of(before, j);
                    }
                    assert(self.spec_topics() =~= expected);
                }
                Ok(topic)
            },
        }
    }

    /// Puts a topic back that could not be deleted because it is in use, and
    /// says so.
    pub fn restore_topic(&mut self, topic: Topic) -> (e: KafkoError)
        requires
            old(self).wf(),
            topic.wf(),
            !old(self).spec_topics().contains_key(topic@.name),
        ensures
            final(self).wf(),
            final(self).spec_default_log_config() == old(self).spec_default_log_config(),
            final(self).spec_topics() == old(self).spec_topics().insert(topic@.name, topic@),
            e matches KafkoError::TopicInUse(n) && n@ == topic@.name,
    {
        let name: String = topic.name().to_owned();
        self.add_topic(topic);
        KafkoError::TopicInUse(name)
    }

    /// Whether there is a topic of this name.
    pub fn has_topic(&self, name: &str) -> (present: bool)
        requires
            self.wf(),
        ensures
            present == self.spec_topics().contains_key(name@),
    {
        match self.find(name) {
            Some(i) => {
                assert(self.topics@[i as int]@.name == name@);
                true
            },
            None => false,
        }
    }

    /// The topic of this name, if there is one.
    pub fn topic(&self, name: &str) -> (topic: Option<&Topic>)
        requires
            self.wf(),
        ensures
            match topic {
                Some(t) => t.wf() && self.spec_topics().contains_key(name@) && t@
                    == self.spec_topics()[name@],
                None => !self.spec_topics().contains_key(name@),
            },
    {
        match self.find(name) {
            Some(i) => {
                proof {
                    lemma_index_of(*self, i as int);
                }
                Some(&self.topics[i])
            },
            None => None,
        }
    }

    /// The topic of this name, or the error that there is none.
    pub fn require_topic(&self, name: &str) -> (topic: Result<&Topic, KafkoError>)
        requires
            self.wf(),
        ensures
            match topic {
                Ok(t) => t.wf() && self.spec_topics().contains_key(name@) && t@
                    == self.spec_topics()[name@],
                Err(e) => !self.spec_topics().contains_key(name@) && (e
                    matches KafkoError::TopicNotFound(n) && n@ == name@),
            },
    {
        match self.topic(name) {
            Some(t) => Ok(t),
            None => Err(KafkoError::TopicNotFound(name.to_owned())),
        }
    }

    /// The number of partitions of the topic of this name, if there is one.
    pub fn partition_count(&self, name: &str) -> (count: Option<u32>)
        requires
            self.wf(),
        ensures
            count == if self.spec_topics().contains_key(name@) {
                Some(self.spec_topics()[name@].partition_count)
            } else {
                None
            },
    {
        match self.topic(name) {
            Some(t) => Some(t.partition_count()),
            None => None,
        }
    }

    /// The names of all topics, in order.
    pub fn list_topics(&self) -> (names: Vec<String>)
        requires
            self.wf(),
        ensures
            text::in_order(names@),
            forall|name: Seq<char>| #[trigger]
                self.spec_topics().contains_key(name) <==> text::has_text(names@, name),
    {
        let mut names: Vec<String> = Vec::new();
        let mut i: usize = 0;
        while i < self.topics.len()
            invariant
                i <= self.topics@.len(),
                self.wf(),
                text::in_order(names@),
                forall|name: Seq<char>| #[trigger]
                    text::has_text(names@, name) <==> is_name_of(self.topics@, i as int, name),
            decreases self.topics@.len() - i,
        {
            let ghost before = names@;
            let name: String = self.topics[i].name().to_owned();
            proof {
                assert forall|k: int| 0 <= k < before.len() implies (#[trigger] before[k])@
                    != name@ by {
                    if before[k]@ == name@ {
                        assert(text::has_text(before, name@));
                        let j = choose|j: int|
                            0 <= j < i && (#[trigger] self.topics@[j])@.name == name@;
                        assert(self.topics@[j]@.name != self.topics@[i as int]@.name);
                    }
                }
            }
            text::insert_text(&mut names, name);
            proof {
                assert forall|other: Seq<char>| #[trigger]
                    text::has_text(names@, other) <==> is_name_of(self.topics@, i + 1, other) by {
                    text::lemma_insert_adds_text(before, names@, name, other);
                    if is_name_of(self.topics@, i as int, other) {
                        let j = choose|j: int|
                            0 <= j < i && (#[trigger] self.topics@[j])@.name == other;
                        assert(self.topics@[j]@.name == other && j < i + 1);
                    }
                    if other == name@ {
                        assert(self.topics@[i as int]@.name == other);
                    }
                    assert(text::has_text(before, other) <==> is_name_of(
                        self.topics@,
                        i as int,
                        other,
                    ));
                }
            }
            i = i + 1;
        }
        proof {
            assert forall|name: Seq<char>| #[trigger]
                self.spec_topics().contains_key(name) <==> text::has_text(names@, name) by {
                assert(self.has(name) <==> is_name_of(
                    self.topics@,
                    self.topics@.len() as int,
                    name,
                ));
            }
        }
        names
    }
}

/// A delete that was refused because the topic is in use leaves every topic as
/// it was.
pub proof fn law_refused_delete_changes_nothing(
    topics: Map<Seq<char>, TopicView>,
    name: Seq<char>,
)
    requires
        topics.contains_key(name),
    ensures
        topics.remove(name).insert(name, topics[name]) == topics,
{
    assert(topics.remove(name).insert(name, topics[name]) =~= topics);
}

/// Whether one of the first `n` topics has this name.
spec fn is_name_of(topics: Seq<Topic>, n: int, name: Seq<char>) -> bool {
    exists|j: int| 0 <= j < n && (#[trigger] topics[j])@.name == name
}

/// The first place of a name among some topics.
spec fn index_of(topics: Seq<Topic>, name: Seq<char>) -> int {
    choose|i: int| 0 <= i < topics.len() && (#[trigger] topics[i])@.name == name
}

/// A name has one place.
proof fn lemma_index_of(broker: Kafko, i: int)
    requires
        broker.wf(),
        0 <= i < broker.topics@.len(),
    ensures
        index_of(broker.topics@, broker.topics@[i]@.name) == i,
        broker.has(broker.topics@[i]@.name),
{
    let name = broker.topics@[i]@.name;
    let found = index_of(broker.topics@, name);
    assert(0 <= found < broker.topics@.len() && broker.topics@[found]@.name == name);
    if found < i {
        assert(broker.topics@[found]@.name != broker.topics@[i]@.name);
    } else if i < found {
        assert(broker.topics@[i]@.name != broker.topics@[found]@.name);
    }
}

} // verus!
