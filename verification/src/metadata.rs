//! The cluster map: which brokers there are, which leads which partition, and which is the
//! controller.
use crate::client;
use crate::name_map::NameMap;
use crate::slots::SlotMap;
use vstd::prelude::*;

verus! {

/// A broker, as a metadata answer reports it.
#[derive(Debug)]
pub struct BrokerAddr {
    pub node_id: i32,
    pub host: String,
    pub port: i32,
}

/// One topic in a metadata answer.
#[derive(Debug)]
pub struct TopicLeaders {
    pub name: String,
    /// The partitions, each with its leader; a negative leader is none.
    pub leaders: Vec<(i32, i32)>,
}

/// The cluster map.
#[derive(Debug)]
pub struct Metadata {
    /// As they were reported.
    brokers: Vec<BrokerAddr>,
    leaders: SlotMap<i32>,
    counts: NameMap<i32>,
    controller: Option<i32>,
}

/// What a [`Metadata`] stands for.
pub ghost struct ClusterMap {
    /// Node, host and port, as they were reported.
    pub brokers: Seq<(i32, Seq<char>, i32)>,
    pub leaders: Map<(Seq<char>, i32), i32>,
    pub counts: Map<Seq<char>, i32>,
    pub controller: Option<i32>,
}

/// What a list of brokers stands for.
pub open spec fn brokers_of(brokers: Seq<BrokerAddr>) -> Seq<(i32, Seq<char>, i32)> {
    Seq::new(brokers.len(), |i: int| (brokers[i].node_id, brokers[i].host@, brokers[i].port))
}

/// The address of the first of the brokers from `i` on with a node id.
pub open spec fn address_in(brokers: Seq<(i32, Seq<char>, i32)>, node: i32, i: nat) -> Option<
    Seq<char>,
>
    decreases brokers.len() - i,
{
    if i >= brokers.len() {
        None
    } else if brokers[i as int].0 == node {
        Some(client::address_of(brokers[i as int].1, brokers[i as int].2 as int))
    } else {
        address_in(brokers, node, i + 1)
    }
}

/// The leaders with the first `n` partitions of a topic taken over from an answer.
pub open spec fn with_partitions(
    leaders: Map<(Seq<char>, i32), i32>,
    topic: Seq<char>,
    list: Seq<(i32, i32)>,
    n: nat,
) -> Map<(Seq<char>, i32), i32>
    decreases n,
{
    if n == 0 {
        leaders
    } else {
        let earlier = with_partitions(leaders, topic, list, (n - 1) as nat);
        let (partition, leader) = list[n - 1];
        if leader < 0 {
            earlier.remove((topic, partition))
        } else {
            earlier.insert((topic, partition), leader)
        }
    }
}

impl View for Metadata {
    type V = ClusterMap;

    closed spec fn view(&self) -> ClusterMap {
        ClusterMap {
            brokers: brokers_of(self.brokers@),
            leaders: self.leaders@,
            counts: self.counts@,
            controller: self.controller,
        }
    }
}

impl ClusterMap {
    /// With one topic taken over from an answer. A topic that is being created has no
    /// partitions yet, and what is known of it stays.
    pub open spec fn with_topic(self, topic: TopicLeaders) -> ClusterMap {
        if topic.leaders@.len() == 0 {
            self
        } else {
            ClusterMap {
                leaders: with_partitions(
                    self.leaders,
                    topic.name@,
                    topic.leaders@,
                    topic.leaders@.len(),
                ),
                counts: self.counts.insert(
                    topic.name@,
                    if topic.leaders@.len() <= i32::MAX {
                        topic.leaders@.len() as i32
                    } else {
                        i32::MAX
                    },
                ),
                ..self
            }
        }
    }

    /// With the first `n` topics taken over from an answer.
    pub open spec fn with_topics(self, topics: Seq<TopicLeaders>, n: nat) -> ClusterMap
        decreases n,
    {
        if n == 0 {
            self
        } else {
            self.with_topics(topics, (n - 1) as nat).with_topic(topics[n - 1])
        }
    }
}

impl Metadata {
    pub closed spec fn well_formed(&self) -> bool {
        self.leaders.well_formed() && self.counts.well_formed()
    }

    /// A map of nothing.
    pub fn new() -> (map: Self)
        ensures
            map.well_formed(),
            map@ == (ClusterMap {
                brokers: Seq::empty(),
                leaders: Map::empty(),
                counts: Map::empty(),
                controller: None,
            }),
    {
        let map = Metadata {
            brokers: Vec::new(),
            leaders: SlotMap::new(),
            counts: NameMap::new(),
            controller: None,
        };
        assert(map@.brokers =~= Seq::empty());
        map
    }

    /// Takes a metadata answer: its brokers and its controller replace what was known, its
    /// topics are merged in. A negative controller is none.
    pub fn update(&mut self, brokers: Vec<BrokerAddr>, controller: i32, topics: &Vec<TopicLeaders>)
        requires
            old(self).well_formed(),
        ensures
            final(self).well_formed(),
            final(self)@ == (ClusterMap {
                brokers: brokers_of(brokers@),
                controller: if controller < 0 {
                    None
                } else {
                    Some(controller)
                },
                ..old(self)@
            }).with_topics(topics@, topics@.len()),
    {
        self.brokers = brokers;
        self.controller = if controller < 0 {
            None
        } else {
            Some(controller)
        };
        let ghost start = self@;
        let mut i: usize = 0;
        while i < topics.len()
            invariant
                i <= topics@.len(),
                self.well_formed(),
                self@ == start.with_topics(topics@, i as nat),
            decreases topics@.len() - i,
        {
            self.take_topic(&topics[i]);
            i = i + 1;
        }
    }

    fn take_topic(&mut self, topic: &TopicLeaders)
        requires
            old(self).well_formed(),
        ensures
            final(self).well_formed(),
            final(self)@ == old(self)@.with_topic(*topic),
    {
        if topic.leaders.len() == 0 {
            return;
        }
        let ghost before = self@;
        let mut i: usize = 0;
        while i < topic.leaders.len()
            invariant
                i <= topic.leaders@.len(),
                self.well_formed(),
                self@ == (ClusterMap {
                    leaders: with_partitions(
                        before.leaders,
                        topic.name@,
                        topic.leaders@,
                        i as nat,
                    ),
                    ..before
                }),
            decreases topic.leaders@.len() - i,
        {
            let (partition, leader) = topic.leaders[i];
            if leader < 0 {
                self.leaders.remove(topic.name.as_str(), partition);
            } else {
                self.leaders.insert(topic.name.as_str(), partition, leader);
            }
            i = i + 1;
        }
        let count: i32 = if topic.leaders.len() <= 0x7fff_ffff {
            topic.leaders.len() as i32
        } else {
            i32::MAX
        };
        self.counts.insert(topic.name.as_str(), count);
    }

    fn address(&self, node: i32) -> (addr: Option<String>)
        ensures
            client::optional_text(addr) == address_in(self@.brokers, node, 0),
    {
        let ghost all = self@.brokers;
        let mut i: usize = 0;
        while i < self.brokers.len()
            invariant
                i <= self.brokers@.len(),
                all == brokers_of(self.brokers@),
                address_in(all, node, 0) == address_in(all, node, i as nat),
            decreases self.brokers@.len() - i,
        {
            let broker = &self.brokers[i];
            assert(all[i as int] == (broker.node_id, broker.host@, broker.port));
            if broker.node_id == node {
                return Some(client::address(broker.host.as_str(), broker.port));
            }
            i = i + 1;
        }
        None
    }

    /// The address of a partition's leader, where it is known.
    pub fn leader_for(&self, topic: &str, partition: i32) -> (addr: Option<String>)
        requires
            self.well_formed(),
        ensures
            client::optional_text(addr) == if self@.leaders.dom().contains((topic@, partition)) {
                address_in(self@.brokers, self@.leaders[(topic@, partition)], 0)
            } else {
                None
            },
    {
        match self.leaders.get(topic, partition) {
            Some(node) => self.address(*node),
            None => None,
        }
    }

    /// How many partitions a topic has, zero where it is not known.
    pub fn partition_count(&self, topic: &str) -> (count: i32)
        requires
            self.well_formed(),
        ensures
            count == if self@.counts.dom().contains(topic@) {
                self@.counts[topic@]
            } else {
                0
            },
    {
        match self.counts.get(topic) {
            Some(count) => *count,
            None => 0,
        }
    }

    /// Forgets one partition's leader, after a broker said that it leads it no more. The
    /// others keep theirs.
    pub fn invalidate_partition(&mut self, topic: &str, partition: i32)
        requires
            old(self).well_formed(),
        ensures
            final(self).well_formed(),
            final(self)@ == (ClusterMap {
                leaders: old(self)@.leaders.remove((topic@, partition)),
                ..old(self)@
            }),
    {
        self.leaders.remove(topic, partition);
    }

    /// Forgets the controller, after it said that it is none.
    pub fn invalidate_controller(&mut self)
        requires
            old(self).well_formed(),
        ensures
            final(self).well_formed(),
            final(self)@ == (ClusterMap { controller: None, ..old(self)@ }),
    {
        self.controller = None;
    }

    /// The controller's node, where there is one.
    pub fn controller(&self) -> (node: Option<i32>)
        ensures
            node == self@.controller,
    {
        self.controller
    }

    /// The controller's address, where there is one.
    pub fn controller_addr(&self) -> (addr: Option<String>)
        ensures
            client::optional_text(addr) == match self@.controller {
                Some(node) => address_in(self@.brokers, node, 0),
                None => None,
            },
    {
        match self.controller {
            Some(node) => self.address(node),
            None => None,
        }
    }

    /// The brokers, as they were reported.
    pub fn brokers(&self) -> (list: &Vec<BrokerAddr>)
        ensures
            brokers_of(list@) == self@.brokers,
    {
        &self.brokers
    }
}

/// How long a topic's metadata may go unrefreshed unless told otherwise, in milliseconds:
/// five minutes.
pub const DEFAULT_MAX_AGE_MS: u64 = 300_000;

/// When each topic's metadata was last asked for.
///
/// Age bounds how long a producer keeps placing keys with a stale partition count after a
/// topic was expanded: until it asks again, its records land on other partitions than those
/// of every producer that did.
#[derive(Debug)]
pub struct Freshness {
    /// In milliseconds.
    max_age: u64,
    refreshed: NameMap<u64>,
}

/// What a [`Freshness`] stands for.
pub ghost struct Ages {
    pub max_age: u64,
    pub refreshed: Map<Seq<char>, u64>,
}

impl View for Freshness {
    type V = Ages;

    closed spec fn view(&self) -> Ages {
        Ages { max_age: self.max_age, refreshed: self.refreshed@ }
    }
}

impl Ages {
    /// How old a topic's metadata is. A clock that went backwards makes nothing old.
    pub open spec fn age(self, topic: Seq<char>, now: u64) -> int {
        if now < self.refreshed[topic] {
            0
        } else {
            now - self.refreshed[topic]
        }
    }

    /// Whether a topic's metadata can still be used: it was asked for, and less than the
    /// greatest age ago.
    pub open spec fn is_fresh(self, topic: Seq<char>, now: u64) -> bool {
        self.refreshed.dom().contains(topic) && self.age(topic, now) < self.max_age
    }
}

impl Freshness {
    pub closed spec fn well_formed(&self) -> bool {
        self.refreshed.well_formed()
    }

    /// Nothing was asked for yet.
    pub fn new() -> (freshness: Self)
        ensures
            freshness.well_formed(),
            freshness@ == (Ages { max_age: DEFAULT_MAX_AGE_MS, refreshed: Map::empty() }),
    {
        Freshness { max_age: DEFAULT_MAX_AGE_MS, refreshed: NameMap::new() }
    }

    /// How long a topic's metadata may go unrefreshed, in milliseconds.
    pub fn set_max_age(&mut self, ms: u64)
        requires
            old(self).well_formed(),
        ensures
            final(self).well_formed(),
            final(self)@ == (Ages { max_age: ms, ..old(self)@ }),
    {
        self.max_age = ms;
    }

    /// A topic's metadata came in.
    pub fn on_refreshed(&mut self, topic: &str, now: u64)
        requires
            old(self).well_formed(),
        ensures
            final(self).well_formed(),
            final(self)@ == (Ages {
                refreshed: old(self)@.refreshed.insert(topic@, now),
                ..old(self)@
            }),
    {
        self.refreshed.insert(topic, now);
    }

    /// Whether a topic's metadata can still be used.
    pub fn is_fresh(&self, topic: &str, now: u64) -> (yes: bool)
        requires
            self.well_formed(),
        ensures
            yes == self@.is_fresh(topic@, now),
    {
        match self.refreshed.get(topic) {
            Some(at) => if now < *at {
                0 < self.max_age
            } else {
                now - *at < self.max_age
            },
            None => false,
        }
    }
}

/// A node's address is that of the first broker with its id, and a node that no broker has
/// is nowhere.
pub proof fn law_a_node_is_found_by_its_id(brokers: Seq<(i32, Seq<char>, i32)>, node: i32)
    ensures
        forall|i: int|
            0 <= i < brokers.len() && (#[trigger] brokers[i]).0 == node && (forall|j: int|
                0 <= j < i ==> (#[trigger] brokers[j]).0 != node) ==> address_in(brokers, node, 0)
                == Some(client::address_of(brokers[i].1, brokers[i].2 as int)),
        address_in(brokers, node, 0) is None <==> forall|i: int|
            0 <= i < brokers.len() ==> (#[trigger] brokers[i]).0 != node,
{
    lemma_address_in(brokers, node, 0);
}

proof fn lemma_address_in(brokers: Seq<(i32, Seq<char>, i32)>, node: i32, k: nat)
    requires
        k <= brokers.len(),
        forall|j: int| 0 <= j < k ==> (#[trigger] brokers[j]).0 != node,
    ensures
        forall|i: int|
            0 <= i < brokers.len() && (#[trigger] brokers[i]).0 == node && (forall|j: int|
                0 <= j < i ==> (#[trigger] brokers[j]).0 != node) ==> address_in(brokers, node, k)
                == Some(client::address_of(brokers[i].1, brokers[i].2 as int)),
        address_in(brokers, node, k) is None <==> forall|i: int|
            0 <= i < brokers.len() ==> (#[trigger] brokers[i]).0 != node,
    decreases brokers.len() - k,
{
    if k < brokers.len() {
        if brokers[k as int].0 != node {
            lemma_address_in(brokers, node, k + 1);
        }
    }
}

/// An answer's word on a partition counts, the last where it has several: a leader of zero
/// or more leads it, and a negative one leaves it without. Partitions that the answer does
/// not name keep the leader that they have, and so do those of other topics.
pub proof fn law_a_partition_has_the_leader_that_it_was_given(
    leaders: Map<(Seq<char>, i32), i32>,
    topic: Seq<char>,
    list: Seq<(i32, i32)>,
    n: nat,
)
    requires
        n <= list.len(),
    ensures
        ({
            let after = with_partitions(leaders, topic, list, n);
            &&& forall|i: int|
                0 <= i < n && (forall|j: int|
                    i < j < n ==> (#[trigger] list[j]).0 != (#[trigger] list[i]).0) ==> {
                    let slot = (topic, list[i].0);
                    &&& list[i].1 >= 0 ==> after.dom().contains(slot) && after[slot] == list[i].1
                    &&& list[i].1 < 0 ==> !after.dom().contains(slot)
                }
            &&& forall|slot: (Seq<char>, i32)|
                #![trigger after.dom().contains(slot)]
                slot.0 != topic || (forall|j: int| 0 <= j < n ==> (#[trigger] list[j]).0 != slot.1)
                    ==> after.dom().contains(slot) == leaders.dom().contains(slot) && (
                leaders.dom().contains(slot) ==> after[slot] == leaders[slot])
        }),
    decreases n,
{
    if n > 0 {
        law_a_partition_has_the_leader_that_it_was_given(leaders, topic, list, (n - 1) as nat);
        let after = with_partitions(leaders, topic, list, n);
        let earlier = with_partitions(leaders, topic, list, (n - 1) as nat);
        assert forall|i: int|
            0 <= i < n && (forall|j: int|
                i < j < n ==> (#[trigger] list[j]).0 != (#[trigger] list[i]).0) implies {
            let slot = (topic, list[i].0);
            &&& list[i].1 >= 0 ==> after.dom().contains(slot) && after[slot] == list[i].1
            &&& list[i].1 < 0 ==> !after.dom().contains(slot)
        } by {
            if i < n - 1 {
                assert(list[n - 1].0 != list[i].0);
            }
        }
        assert forall|slot: (Seq<char>, i32)|
            #![trigger after.dom().contains(slot)]
            slot.0 != topic || (forall|j: int|
                0 <= j < n ==> (#[trigger] list[j]).0 != slot.1) implies after.dom().contains(slot)
            == leaders.dom().contains(slot) && (leaders.dom().contains(slot) ==> after[slot]
            == leaders[slot]) by {
            assert(earlier.dom().contains(slot) == leaders.dom().contains(slot));
            if slot.0 == topic {
                assert(list[n - 1].0 != slot.1);
            }
        }
    }
}

/// A topic has as many partitions as the answer lists of it. One that lists none, as while
/// the topic is created, changes nothing; and no topic changes what is known of the brokers
/// and the controller, or another topic's count.
pub proof fn law_a_topic_has_the_partitions_that_were_listed(map: ClusterMap, topic: TopicLeaders)
    requires
        topic.leaders@.len() <= i32::MAX,
    ensures
        ({
            let after = map.with_topic(topic);
            &&& topic.leaders@.len() == 0 ==> after == map
            &&& topic.leaders@.len() > 0 ==> after.counts.dom().contains(topic.name@)
                && after.counts[topic.name@] == topic.leaders@.len()
            &&& forall|other: Seq<char>|
                other != topic.name@ ==> #[trigger] after.counts.dom().contains(other)
                    == map.counts.dom().contains(other) && (map.counts.dom().contains(other)
                    ==> after.counts[other] == map.counts[other])
            &&& after.brokers == map.brokers
            &&& after.controller == map.controller
        }),
{
}

/// Metadata is fresh until it reaches its greatest age, five minutes unless told otherwise,
/// and never where it was not asked for. A clock that went backwards makes nothing old.
pub proof fn law_metadata_is_fresh_until_its_greatest_age(ages: Ages, topic: Seq<char>, now: u64)
    ensures
        !ages.refreshed.dom().contains(topic) ==> !ages.is_fresh(topic, now),
        ages.refreshed.dom().contains(topic) && now >= ages.refreshed[topic] ==> (ages.is_fresh(
            topic,
            now,
        ) <==> now < ages.refreshed[topic] + ages.max_age),
        ages.refreshed.dom().contains(topic) && now < ages.refreshed[topic] ==> (ages.is_fresh(
            topic,
            now,
        ) <==> ages.max_age > 0),
        DEFAULT_MAX_AGE_MS == 5 * 60 * 1000,
{
}

/// Every topic of an answer is taken over: one that no later entry of the answer names has
/// as many partitions as were listed of it, and each of them the leader that it was given.
pub proof fn law_every_topic_of_an_answer_is_taken(
    map: ClusterMap,
    topics: Seq<TopicLeaders>,
    n: nat,
    i: int,
)
    requires
        0 <= i < n <= topics.len(),
        0 < topics[i].leaders@.len() <= i32::MAX,
        forall|j: int| i < j < n ==> (#[trigger] topics[j]).name@ != topics[i].name@,
    ensures
        ({
            let after = map.with_topics(topics, n);
            let list = topics[i].leaders@;
            &&& after.counts.dom().contains(topics[i].name@)
            &&& after.counts[topics[i].name@] == list.len()
            &&& after.brokers == map.brokers
            &&& after.controller == map.controller
            &&& forall|k: int|
                0 <= k < list.len() && (forall|m: int|
                    k < m < list.len() ==> (#[trigger] list[m]).0 != (#[trigger] list[k]).0) ==> {
                    let slot = (topics[i].name@, list[k].0);
                    &&& list[k].1 >= 0 ==> after.leaders.dom().contains(slot)
                        && after.leaders[slot] == list[k].1
                    &&& list[k].1 < 0 ==> !after.leaders.dom().contains(slot)
                }
        }),
    decreases n,
{
    let before = map.with_topics(topics, (n - 1) as nat);
    let last = topics[n - 1];
    law_a_partition_has_the_leader_that_it_was_given(
        before.leaders,
        last.name@,
        last.leaders@,
        last.leaders@.len(),
    );
    lemma_brokers_stay(map, topics, (n - 1) as nat);
    if i < n - 1 {
        law_every_topic_of_an_answer_is_taken(map, topics, (n - 1) as nat, i);
        assert(last.name@ != topics[i].name@);
        let after = map.with_topics(topics, n);
        let list = topics[i].leaders@;
        assert forall|k: int|
            0 <= k < list.len() && (forall|m: int|
                k < m < list.len() ==> (#[trigger] list[m]).0 != (#[trigger] list[k]).0) implies {
            let slot = (topics[i].name@, list[k].0);
            &&& list[k].1 >= 0 ==> after.leaders.dom().contains(slot) && after.leaders[slot]
                == list[k].1
            &&& list[k].1 < 0 ==> !after.leaders.dom().contains(slot)
        } by {
            let slot = (topics[i].name@, list[k].0);
            assert(after.leaders.dom().contains(slot) == before.leaders.dom().contains(slot));
        }
    }
}

proof fn lemma_brokers_stay(map: ClusterMap, topics: Seq<TopicLeaders>, n: nat)
    requires
        n <= topics.len(),
    ensures
        map.with_topics(topics, n).brokers == map.brokers,
        map.with_topics(topics, n).controller == map.controller,
    decreases n,
{
    if n > 0 {
        lemma_brokers_stay(map, topics, (n - 1) as nat);
    }
}

/// A topic that an answer does not name keeps its count, and its partitions their leaders.
pub proof fn law_other_topics_stay(
    map: ClusterMap,
    topics: Seq<TopicLeaders>,
    n: nat,
    topic: Seq<char>,
    partition: i32,
)
    requires
        n <= topics.len(),
        forall|j: int| 0 <= j < n ==> (#[trigger] topics[j]).name@ != topic,
    ensures
        ({
            let after = map.with_topics(topics, n);
            &&& after.counts.dom().contains(topic) == map.counts.dom().contains(topic)
            &&& map.counts.dom().contains(topic) ==> after.counts[topic] == map.counts[topic]
            &&& after.leaders.dom().contains((topic, partition)) == map.leaders.dom().contains(
                (topic, partition),
            )
            &&& map.leaders.dom().contains((topic, partition)) ==> after.leaders[(topic, partition)]
                == map.leaders[(topic, partition)]
        }),
    decreases n,
{
    if n > 0 {
        law_other_topics_stay(map, topics, (n - 1) as nat, topic, partition);
        let before = map.with_topics(topics, (n - 1) as nat);
        let last = topics[n - 1];
        assert(last.name@ != topic);
        law_a_partition_has_the_leader_that_it_was_given(
            before.leaders,
            last.name@,
            last.leaders@,
            last.leaders@.len(),
        );
        let after = map.with_topics(topics, n);
        assert(after.leaders.dom().contains((topic, partition)) == before.leaders.dom().contains(
            (topic, partition),
        ));
    }
}

} // verus!
