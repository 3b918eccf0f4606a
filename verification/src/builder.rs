//! Staged builders: the type says what is still missing.
//!
//! Each stage is its own type and offers only what is valid there. A consumer needs a
//! list of brokers, then a client id; only then do the optional settings appear, and
//! `build` with them.
use crate::batch::CompressionCodec;
use crate::client;
use crate::consumer::IsolationLevel;
use crate::fetching;
use crate::fetching::{Consumer, EARLIEST, LATEST};
use crate::group::TopicPartition;
use crate::names;
use crate::partitioner::Partitioner;
use crate::sasl::Credentials;
use crate::sender;
use crate::sender::Producer;
use vstd::prelude::*;

verus! {

/// Where a partition starts reading. [`EARLIEST`] and [`LATEST`] are negative sentinels
/// that share a parameter with real offsets: here the compiler tells them apart.
#[derive(Debug, Clone, Copy, PartialEq, Eq, Structural)]
pub enum StartOffset {
    Earliest,
    Latest,
    /// A stored offset.
    At(i64),
}

/// The number that stands for a start.
pub open spec fn start_number(start: StartOffset) -> i64 {
    match start {
        StartOffset::Earliest => EARLIEST,
        StartOffset::Latest => LATEST,
        StartOffset::At(offset) => offset,
    }
}

impl StartOffset {
    pub fn as_i64(self) -> (number: i64)
        ensures
            number == start_number(self),
    {
        match self {
            StartOffset::Earliest => EARLIEST,
            StartOffset::Latest => LATEST,
            StartOffset::At(offset) => offset,
        }
    }
}

/// First stage: has a transport, needs a list of brokers.
pub struct ConsumerBuilder<T> {
    pub transport: T,
}

/// Second stage: needs a client id.
pub struct ConsumerNeedsClientId<T> {
    pub transport: T,
    pub bootstrap: Vec<String>,
}

/// Third stage: everything required is present, the rest is optional.
pub struct ConsumerReady<T> {
    transport: T,
    bootstrap: Vec<String>,
    client_id: String,
    isolation: IsolationLevel,
    credentials: Option<Credentials>,
    max_wait: Option<u64>,
    prefetch: Option<bool>,
    incremental: Option<bool>,
    assignments: Vec<(TopicPartition, StartOffset)>,
    every_partition: Vec<(String, StartOffset)>,
}

/// What a [`ConsumerReady`] stands for.
pub ghost struct ConsumerPlan<T> {
    pub transport: T,
    pub bootstrap: Seq<Seq<char>>,
    pub client_id: Seq<char>,
    pub isolation: IsolationLevel,
    pub credentials: Option<Credentials>,
    pub max_wait: Option<u64>,
    pub prefetch: Option<bool>,
    pub incremental: Option<bool>,
    pub assignments: Seq<((Seq<char>, i32), StartOffset)>,
    pub every_partition: Seq<(Seq<char>, StartOffset)>,
}

/// What a list of starts stands for.
pub open spec fn starts_of(list: Seq<(TopicPartition, StartOffset)>) -> Seq<
    ((Seq<char>, i32), StartOffset),
> {
    Seq::new(list.len(), |i: int| (list[i].0@, list[i].1))
}

/// What a list of topics' starts stands for.
pub open spec fn topic_starts(list: Seq<(String, StartOffset)>) -> Seq<(Seq<char>, StartOffset)> {
    Seq::new(list.len(), |i: int| (list[i].0@, list[i].1))
}

impl<T> View for ConsumerReady<T> {
    type V = ConsumerPlan<T>;

    closed spec fn view(&self) -> ConsumerPlan<T> {
        ConsumerPlan {
            transport: self.transport,
            bootstrap: names::names_of(self.bootstrap@),
            client_id: self.client_id@,
            isolation: self.isolation,
            credentials: self.credentials,
            max_wait: self.max_wait,
            prefetch: self.prefetch,
            incremental: self.incremental,
            assignments: starts_of(self.assignments@),
            every_partition: topic_starts(self.every_partition@),
        }
    }
}

impl<T> ConsumerPlan<T> {
    /// The consumer that the settings make, before any partition is assigned.
    pub open spec fn configured(self) -> fetching::Reading {
        let fresh = fetching::unassigned(self.isolation);
        let waiting = match self.max_wait {
            Some(ms) => (fetching::Reading {
                max_wait_ms: if ms <= i32::MAX {
                    ms as i32
                } else {
                    i32::MAX
                },
                ..fresh
            }).next_generation(),
            None => fresh,
        };
        let ahead = match self.prefetch {
            Some(prefetch) => (fetching::Reading { prefetch, ..waiting }).next_generation(),
            None => waiting,
        };
        match self.incremental {
            Some(incremental) => (fetching::Reading { incremental, ..ahead }).next_generation(),
            None => ahead,
        }
    }
}

impl Consumer {
    /// Starts building a consumer over a transport.
    pub fn builder<T>(transport: T) -> (stage: ConsumerBuilder<T>)
        ensures
            stage.transport == transport,
    {
        ConsumerBuilder { transport }
    }
}

impl<T> ConsumerBuilder<T> {
    /// The brokers to contact first. Any one that answers is enough.
    pub fn bootstrap(self, addrs: Vec<String>) -> (stage: ConsumerNeedsClientId<T>)
        ensures
            stage.transport == self.transport,
            stage.bootstrap == addrs,
    {
        ConsumerNeedsClientId { transport: self.transport, bootstrap: addrs }
    }
}

impl<T> ConsumerNeedsClientId<T> {
    /// How this client identifies itself to the broker.
    pub fn client_id(self, client_id: &str) -> (stage: ConsumerReady<T>)
        ensures
            stage@ == (ConsumerPlan {
                transport: self.transport,
                bootstrap: names::names_of(self.bootstrap@),
                client_id: client_id@,
                isolation: IsolationLevel::ReadCommitted,
                credentials: None,
                max_wait: None,
                prefetch: None,
                incremental: None,
                assignments: Seq::empty(),
                every_partition: Seq::empty(),
            }),
    {
        let stage = ConsumerReady {
            transport: self.transport,
            bootstrap: self.bootstrap,
            client_id: client_id.to_owned(),
            isolation: IsolationLevel::ReadCommitted,
            credentials: None,
            max_wait: None,
            prefetch: None,
            incremental: None,
            assignments: Vec::new(),
            every_partition: Vec::new(),
        };
        assert(stage@.assignments =~= Seq::empty());
        assert(stage@.every_partition =~= Seq::empty());
        stage
    }
}

/// What a builder makes: a consumer with its settings, and what is left to do over the
/// connection.
pub struct BuiltConsumer<T> {
    pub transport: T,
    pub bootstrap: Vec<String>,
    pub client_id: String,
    pub credentials: Option<Credentials>,
    pub consumer: Consumer,
    /// The topics whose partitions are to be counted and assigned, each with its start.
    pub every_partition: Vec<(String, i64)>,
    /// What is assigned after them.
    pub assignments: Vec<(TopicPartition, i64)>,
}

impl<T> ConsumerReady<T> {
    /// [`IsolationLevel::ReadCommitted`] unless this says otherwise: the safe end, since
    /// an uncommitted read shows records of transactions that abort later.
    pub fn isolation(self, isolation: IsolationLevel) -> (stage: Self)
        ensures
            stage@ == (ConsumerPlan { isolation, ..self@ }),
    {
        let mut stage = self;
        stage.isolation = isolation;
        stage
    }

    /// Credentials to log in with.
    pub fn credentials(self, credentials: Credentials) -> (stage: Self)
        ensures
            stage@ == (ConsumerPlan { credentials: Some(credentials), ..self@ }),
    {
        let mut stage = self;
        stage.credentials = Some(credentials);
        stage
    }

    /// Assigns a partition, and where to start it.
    pub fn assign(self, topic: &str, partition: i32, start: StartOffset) -> (stage: Self)
        ensures
            stage@ == (ConsumerPlan {
                assignments: self@.assignments.push(((topic@, partition), start)),
                ..self@
            }),
    {
        let mut stage = self;
        stage.assignments.push((TopicPartition::new(topic, partition), start));
        assert(stage@.assignments =~= self@.assignments.push(((topic@, partition), start)));
        stage
    }

    /// Assigns several partitions of a topic, all with the same start.
    pub fn assign_range(self, topic: &str, partitions: &[i32], start: StartOffset) -> (stage: Self)
        ensures
            stage@ == (ConsumerPlan {
                assignments: self@.assignments + Seq::new(
                    partitions@.len(),
                    |i: int| ((topic@, partitions@[i]), start),
                ),
                ..self@
            }),
    {
        let mut stage = self;
        let ghost list = Seq::new(partitions@.len(), |i: int| ((topic@, partitions@[i]), start));
        let ghost before = self@;
        let mut i: usize = 0;
        assert(stage@ == (ConsumerPlan {
            assignments: before.assignments + list.take(0),
            ..before
        })) by {
            assert(before.assignments + list.take(0) =~= before.assignments);
        }
        while i < partitions.len()
            invariant
                i <= partitions@.len(),
                list == Seq::new(partitions@.len(), |i: int| ((topic@, partitions@[i]), start)),
                stage@ == (ConsumerPlan {
                    assignments: before.assignments + list.take(i as int),
                    ..before
                }),
            decreases partitions@.len() - i,
        {
            stage = stage.assign(topic, partitions[i], start);
            i = i + 1;
            assert(before.assignments + list.take(i as int) =~= (before.assignments + list.take(
                i - 1,
            )).push(list[i - 1]));
        }
        assert(list.take(i as int) =~= list);
        stage
    }

    /// Assigns **every** partition that a topic has when the consumer is built.
    pub fn assign_all(self, topic: &str, start: StartOffset) -> (stage: Self)
        ensures
            stage@ == (ConsumerPlan {
                every_partition: self@.every_partition.push((topic@, start)),
                ..self@
            }),
    {
        let mut stage = self;
        stage.every_partition.push((topic.to_owned(), start));
        assert(stage@.every_partition =~= self@.every_partition.push((topic@, start)));
        stage
    }

    /// How long a fetch waits at the broker for data, in milliseconds.
    pub fn max_wait(self, ms: u64) -> (stage: Self)
        ensures
            stage@ == (ConsumerPlan { max_wait: Some(ms), ..self@ }),
    {
        let mut stage = self;
        stage.max_wait = Some(ms);
        stage
    }

    /// Whether a fetch is kept in flight while the caller works.
    pub fn prefetch(self, prefetch: bool) -> (stage: Self)
        ensures
            stage@ == (ConsumerPlan { prefetch: Some(prefetch), ..self@ }),
    {
        let mut stage = self;
        stage.prefetch = Some(prefetch);
        stage
    }

    /// Whether fetch sessions are used.
    pub fn incremental_fetch(self, incremental: bool) -> (stage: Self)
        ensures
            stage@ == (ConsumerPlan { incremental: Some(incremental), ..self@ }),
    {
        let mut stage = self;
        stage.incremental = Some(incremental);
        stage
    }

    /// Makes the consumer, settings first: resolving the starts of its assignments uses
    /// them.
    pub fn build(self) -> (built: BuiltConsumer<T>)
        ensures
            built.transport == self@.transport,
            names::names_of(built.bootstrap@) == self@.bootstrap,
            built.client_id@ == self@.client_id,
            built.credentials == self@.credentials,
            built.consumer.well_formed(),
            built.consumer@ == self@.configured(),
            built.every_partition@.len() == self@.every_partition.len(),
            forall|i: int|
                0 <= i < built.every_partition@.len() ==> {
                    let (topic, start) = #[trigger] built.every_partition@[i];
                    &&& topic@ == self@.every_partition[i].0
                    &&& start == start_number(self@.every_partition[i].1)
                },
            fetching::numbered(built.assignments@) == Seq::new(
                self@.assignments.len(),
                |i: int| (self@.assignments[i].0, start_number(self@.assignments[i].1)),
            ),
    {
        let ghost plan = self@;
        let mut consumer = Consumer::new(self.isolation);
        if let Some(ms) = self.max_wait {
            consumer.set_max_wait(ms);
        }
        if let Some(prefetch) = self.prefetch {
            consumer.set_prefetch(prefetch);
        }
        if let Some(incremental) = self.incremental {
            consumer.set_incremental_fetch(incremental);
        }
        let ghost topics = self.every_partition@;
        let mut every_partition: Vec<(String, i64)> = Vec::new();
        for entry in it: self.every_partition
            invariant
                it.seq() == topics,
                every_partition@.len() == it.index(),
                forall|i: int|
                    0 <= i < every_partition@.len() ==> (#[trigger] every_partition@[i]).0@
                        == topics[i].0@ && every_partition@[i].1 == start_number(topics[i].1),
        {
            every_partition.push((entry.0, entry.1.as_i64()));
        }
        let ghost slots = self.assignments@;
        let mut assignments: Vec<(TopicPartition, i64)> = Vec::new();
        for entry in it: self.assignments
            invariant
                it.seq() == slots,
                assignments@.len() == it.index(),
                forall|i: int|
                    0 <= i < assignments@.len() ==> (#[trigger] assignments@[i]).0@
                        == slots[i].0@ && assignments@[i].1 == start_number(slots[i].1),
        {
            assignments.push((entry.0, entry.1.as_i64()));
        }
        assert(fetching::numbered(assignments@) =~= Seq::new(
            plan.assignments.len(),
            |i: int| (plan.assignments[i].0, start_number(plan.assignments[i].1)),
        ));
        BuiltConsumer {
            transport: self.transport,
            bootstrap: self.bootstrap,
            client_id: self.client_id,
            credentials: self.credentials,
            consumer,
            every_partition,
            assignments,
        }
    }
}

/// Every partition of a topic that has `count`, each at the same start.
pub fn every_partition(topic: &str, count: i32, start: i64) -> (list: Vec<(TopicPartition, i64)>)
    ensures
        fetching::numbered(list@) == Seq::new(
            if count > 0 {
                count as nat
            } else {
                0
            },
            |i: int| ((topic@, i as i32), start),
        ),
{
    let mut list: Vec<(TopicPartition, i64)> = Vec::new();
    let mut partition: i32 = 0;
    while partition < count
        invariant
            0 <= partition,
            count > 0 ==> partition <= count,
            count <= 0 ==> partition == 0,
            list@.len() == partition,
            forall|i: int|
                0 <= i < partition ==> (#[trigger] list@[i]).0@ == (topic@, i as i32) && list@[i].1
                    == start,
        decreases count - partition,
    {
        list.push((TopicPartition::new(topic, partition), start));
        partition = partition + 1;
    }
    assert(fetching::numbered(list@) =~= Seq::new(
        if count > 0 {
            count as nat
        } else {
            0
        },
        |i: int| ((topic@, i as i32), start),
    ));
    list
}

/// First stage: has a transport, needs a list of brokers.
pub struct ProducerBuilder<T> {
    pub transport: T,
}

/// Second stage: needs a client id.
pub struct ProducerNeedsClientId<T> {
    pub transport: T,
    pub bootstrap: Vec<String>,
}

/// Third stage: everything required is present, the rest is optional.
///
/// Makes an **idempotent** producer unless [`ProducerReady::transactional_id`] is
/// called: a producer that is neither duplicates silently on a retry.
pub struct ProducerReady<T> {
    transport: T,
    bootstrap: Vec<String>,
    client_id: String,
    transactional_id: Option<String>,
    compression: Option<CompressionCodec>,
    partitioner: Option<Partitioner>,
    max_in_flight: Option<usize>,
}

/// What a [`ProducerReady`] stands for.
pub ghost struct ProducerPlan<T> {
    pub transport: T,
    pub bootstrap: Seq<Seq<char>>,
    pub client_id: Seq<char>,
    pub transactional_id: Option<Seq<char>>,
    pub compression: Option<CompressionCodec>,
    pub partitioner: Option<Partitioner>,
    pub max_in_flight: Option<usize>,
}

impl<T> View for ProducerReady<T> {
    type V = ProducerPlan<T>;

    closed spec fn view(&self) -> ProducerPlan<T> {
        ProducerPlan {
            transport: self.transport,
            bootstrap: names::names_of(self.bootstrap@),
            client_id: self.client_id@,
            transactional_id: client::optional_text(self.transactional_id),
            compression: self.compression,
            partitioner: self.partitioner,
            max_in_flight: self.max_in_flight,
        }
    }
}

impl<T> ProducerPlan<T> {
    /// The producer that the settings make.
    pub open spec fn configured(self) -> sender::Outbox {
        let fresh = sender::unopened(self.transactional_id);
        sender::Outbox {
            compression: match self.compression {
                Some(compression) => compression,
                None => fresh.compression,
            },
            partitioner: match self.partitioner {
                Some(partitioner) => partitioner,
                None => fresh.partitioner,
            },
            max_in_flight: match self.max_in_flight {
                Some(max) => max,
                None => fresh.max_in_flight,
            },
            ..fresh
        }
    }
}

impl Producer {
    /// Starts building a producer over a transport.
    pub fn builder<T>(transport: T) -> (stage: ProducerBuilder<T>)
        ensures
            stage.transport == transport,
    {
        ProducerBuilder { transport }
    }
}

impl<T> ProducerBuilder<T> {
    /// The brokers to contact first.
    pub fn bootstrap(self, addrs: Vec<String>) -> (stage: ProducerNeedsClientId<T>)
        ensures
            stage.transport == self.transport,
            stage.bootstrap == addrs,
    {
        ProducerNeedsClientId { transport: self.transport, bootstrap: addrs }
    }
}

impl<T> ProducerNeedsClientId<T> {
    /// How this client identifies itself to the broker.
    pub fn client_id(self, client_id: &str) -> (stage: ProducerReady<T>)
        ensures
            stage@ == (ProducerPlan {
                transport: self.transport,
                bootstrap: names::names_of(self.bootstrap@),
                client_id: client_id@,
                transactional_id: None,
                compression: None,
                partitioner: None,
                max_in_flight: None,
            }),
    {
        ProducerReady {
            transport: self.transport,
            bootstrap: self.bootstrap,
            client_id: client_id.to_owned(),
            transactional_id: None,
            compression: None,
            partitioner: None,
            max_in_flight: None,
        }
    }
}

/// What a builder makes: a producer with its settings, and what it connects with.
pub struct BuiltProducer<T> {
    pub transport: T,
    pub bootstrap: Vec<String>,
    pub client_id: String,
    pub producer: Producer,
}

impl<T> ProducerReady<T> {
    /// Makes this a transactional producer. The id is stable per instance, and held by
    /// one process at a time.
    pub fn transactional_id(self, id: &str) -> (stage: Self)
        ensures
            stage@ == (ProducerPlan { transactional_id: Some(id@), ..self@ }),
    {
        let mut stage = self;
        stage.transactional_id = Some(id.to_owned());
        stage
    }

    /// Compresses whole batches.
    pub fn compression(self, compression: CompressionCodec) -> (stage: Self)
        ensures
            stage@ == (ProducerPlan { compression: Some(compression), ..self@ }),
    {
        let mut stage = self;
        stage.compression = Some(compression);
        stage
    }

    /// Which hash places a keyed record.
    pub fn partitioner(self, partitioner: Partitioner) -> (stage: Self)
        ensures
            stage@ == (ProducerPlan { partitioner: Some(partitioner), ..self@ }),
    {
        let mut stage = self;
        stage.partitioner = Some(partitioner);
        stage
    }

    /// Requests in flight per connection.
    pub fn max_in_flight(self, max: usize) -> (stage: Self)
        ensures
            stage@ == (ProducerPlan { max_in_flight: Some(max), ..self@ }),
    {
        let mut stage = self;
        stage.max_in_flight = Some(max);
        stage
    }

    /// The limit that was set, if one was.
    pub fn in_flight_limit(&self) -> (max: Option<usize>)
        ensures
            max == self@.max_in_flight,
    {
        self.max_in_flight
    }

    /// Makes the producer.
    pub fn build(self) -> (built: BuiltProducer<T>)
        requires
            self@.max_in_flight != Some(0usize),
        ensures
            built.transport == self@.transport,
            names::names_of(built.bootstrap@) == self@.bootstrap,
            built.client_id@ == self@.client_id,
            built.producer.well_formed(),
            built.producer@ == self@.configured(),
    {
        let mut producer = match &self.transactional_id {
            Some(id) => Producer::transactional(id.as_str()),
            None => Producer::idempotent(),
        };
        if let Some(compression) = self.compression {
            producer.set_compression(compression);
        }
        if let Some(partitioner) = self.partitioner {
            producer.set_partitioner(partitioner);
        }
        if let Some(max) = self.max_in_flight {
            producer.set_max_in_flight(max);
        }
        BuiltProducer {
            transport: self.transport,
            bootstrap: self.bootstrap,
            client_id: self.client_id,
            producer,
        }
    }
}

/// A start at the oldest record is -2, one at the end of the log -1, and a stored offset is
/// itself.
pub proof fn law_a_start_has_its_number(offset: i64)
    ensures
        start_number(StartOffset::Earliest) == -2,
        start_number(StartOffset::Latest) == -1,
        start_number(StartOffset::At(offset)) == offset,
{
}

/// A consumer is made with the settings that were given: a wait beyond what a request can
/// say is the longest that it can, and what was not set is as in a new consumer. It holds
/// no partition yet.
pub proof fn law_a_consumer_is_made_as_it_was_set<T>(plan: ConsumerPlan<T>)
    ensures
        ({
            let made = plan.configured();
            let new = fetching::unassigned(plan.isolation);
            &&& made.isolation == plan.isolation
            &&& made.max_wait_ms == match plan.max_wait {
                Some(ms) => if ms <= i32::MAX {
                    ms as int
                } else {
                    i32::MAX as int
                },
                None => 500,
            }
            &&& made.prefetch == (plan.prefetch != Some(false))
            &&& made.incremental == (plan.incremental != Some(false))
            &&& made.positions == new.positions
            &&& made.paused == new.paused
            &&& made.sessions == new.sessions
            &&& made.max_bytes == new.max_bytes
            &&& made.max_response_bytes == new.max_response_bytes
            &&& made.outstanding is None
            &&& made.reset == -2
            &&& made.auto_commit is None
        }),
{
}

/// A producer is made with the settings that were given, and what was not set is as in a
/// new producer: it has transactions exactly where a transactional id was given.
pub proof fn law_a_producer_is_made_as_it_was_set<T>(plan: ProducerPlan<T>)
    ensures
        ({
            let made = plan.configured();
            let new = sender::unopened(plan.transactional_id);
            &&& made.transactional_id == plan.transactional_id
            &&& made.sequencing.transactional == (plan.transactional_id is Some)
            &&& plan.compression is Some ==> made.compression == plan.compression.unwrap()
            &&& plan.compression is None ==> made.compression == CompressionCodec::Uncompressed
            &&& plan.partitioner is Some ==> made.partitioner == plan.partitioner.unwrap()
            &&& plan.partitioner is None ==> made.partitioner == Partitioner::Crc32
            &&& plan.max_in_flight is Some ==> made.max_in_flight == plan.max_in_flight.unwrap()
            &&& plan.max_in_flight is None ==> made.max_in_flight == 5
            &&& made.acks == -1
            &&& made.pending == new.pending
            &&& made.staged == new.staged
            &&& made.linger == 0
            &&& made.batch_size == new.batch_size
        }),
{
}

} // verus!
